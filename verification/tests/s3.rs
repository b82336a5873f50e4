use std::collections::BTreeMap;

use ozd::digest::hex_decode;
use ozd::domain::{BlockKey, DomainError, DomainResult, ShardId};
use ozd::s3::{
    bkey, delete_reply, get_reply, head_reply, list_reply, list_xml, map_err, on_body, parse_range,
    plan_get, plan_list, put_reply, s3_error, serve_part, want_bao, xml_escape, GetNext, GetPlan,
    RangeSpec, Reply, Row,
};
use ozd::verified::{make_outboard, ob_key, record_sane, verify_bao_slice};

#[derive(Default)]
struct MemStore(BTreeMap<BlockKey, Vec<u8>>);

impl MemStore {
    fn put(&mut self, k: &BlockKey, d: &[u8]) {
        self.0.insert(k.clone(), d.to_vec());
    }

    fn get(&self, k: &BlockKey) -> DomainResult<Vec<u8>> {
        self.0.get(k).cloned().ok_or(DomainError::NotFound)
    }

    /// GET of an object with its range and proof headers.
    fn fetch(&self, path: &str, range: Option<&str>, bao: Option<&str>) -> Reply {
        let k = bkey(path);
        let bao = want_bao(bao);
        match on_body(self.get(&k), range.and_then(parse_range), bao) {
            GetNext::Done(r) => r,
            GetNext::Outboard { data, start, end } => {
                let ob = self.get(&ob_key(&k));
                if let Ok(record) = &ob {
                    assert!(record_sane(record));
                }
                get_reply(serve_part(&data, ob, bao, start, end))
            }
        }
    }
}

fn header<'a>(r: &'a Reply, name: &str) -> Option<&'a str> {
    r.headers.iter().find(|f| f.name == name).map(|f| f.value.as_str())
}

fn text(r: &Reply) -> String {
    String::from_utf8(r.body.clone()).unwrap()
}

#[test]
fn range_get_verified_and_corruption_rejected() {
    let mut store = MemStore::default();
    let body: Vec<u8> = (0..400_000u32).map(|i| (i % 251) as u8).collect();
    let key = BlockKey::from("/blocks/RNG1");
    store.put(&key, &body);
    store.put(&ob_key(&key), &make_outboard(&body));
    let url = "blocks/RNG1";

    let r = store.fetch(url, Some("bytes=100000-104999"), None);
    assert_eq!(r.status, 206);
    assert_eq!(header(&r, "content-range"), Some("bytes 100000-104999/400000"));
    assert_eq!(header(&r, "x-ozd-verified"), Some("blake3"));
    assert_eq!(r.body, &body[100_000..105_000]);

    // an open range
    let r = store.fetch(url, Some("bytes=399000-"), None);
    assert_eq!(r.status, 206);
    assert_eq!(r.body, &body[399_000..]);

    // the whole body
    let r = store.fetch(url, None, None);
    assert_eq!((r.status, r.body.len()), (200, 400_000));

    // damage in the range: no bytes are given
    let mut bad = body.clone();
    bad[102_000] ^= 0x01;
    store.put(&key, &bad);
    let r = store.fetch(url, Some("bytes=100000-104999"), None);
    assert_eq!(r.status, 500);

    // without an outboard record the range is not proved
    store.put(&BlockKey::from("/blocks/RNG2"), &body);
    let r = store.fetch("blocks/RNG2", Some("bytes=0-99"), None);
    assert_eq!(r.status, 206);
    assert_eq!(header(&r, "x-ozd-verified"), Some("none"));
    assert_eq!(r.body, &body[..100]);
}

#[test]
fn suffix_range_and_bao_slice() {
    let mut store = MemStore::default();
    let body: Vec<u8> = (0..200_000u32).map(|i| (i * 11 % 256) as u8).collect();
    let key = BlockKey::from("/blocks/SFX1");
    store.put(&key, &body);
    store.put(&ob_key(&key), &make_outboard(&body));
    let url = "/blocks/SFX1";

    // the last 500 bytes
    let r = store.fetch(url, Some("bytes=-500"), None);
    assert_eq!(r.status, 206);
    assert_eq!(header(&r, "content-range"), Some("bytes 199500-199999/200000"));
    assert_eq!(header(&r, "x-ozd-verified"), Some("blake3"));
    assert_eq!(r.body, &body[199_500..]);

    // more than there is: all of it
    let r = store.fetch(url, Some("bytes=-999999"), None);
    assert_eq!(r.status, 206);
    assert_eq!(header(&r, "content-range"), Some("bytes 0-199999/200000"));
    assert_eq!(r.body, body);

    // a slice that the client verifies against the root
    let r = store.fetch(url, Some("bytes=50000-59999"), Some("1"));
    assert_eq!(r.status, 206);
    assert_eq!(header(&r, "content-type"), Some("application/vnd.ozd.bao-slice"));
    let mut root = [0u8; 32];
    root.copy_from_slice(&hex_decode(header(&r, "x-ozd-bao-root").unwrap()).unwrap());
    let verified = verify_bao_slice(&r.body, &root, 50_000, 10_000).unwrap();
    assert_eq!(verified, &body[50_000..60_000]);
    let mut bad = r.body.clone();
    let n = bad.len();
    bad[n - 1] ^= 0xFF;
    assert!(verify_bao_slice(&bad, &root, 50_000, 10_000).is_err());

    // no slice without an outboard record
    store.put(&BlockKey::from("/blocks/SFX2"), &body);
    assert_eq!(store.fetch("/blocks/SFX2", None, Some("1")).status, 500);
}

#[test]
fn full_s3_lifecycle() {
    let mut store = MemStore::default();
    let k = bkey("blocks/E2E-KEY1");
    store.put(&k, b"hello-e2e");
    let r = put_reply(Ok(()));
    assert_eq!((r.status, header(&r, "etag")), (200, Some("\"ozd\"")));

    let r = store.fetch("blocks/E2E-KEY1", None, None);
    assert_eq!((r.status, r.body.as_slice()), (200, b"hello-e2e".as_slice()));
    assert_eq!(header(&r, "content-type"), Some("application/octet-stream"));

    let r = head_reply(Ok(9));
    assert_eq!((r.status, header(&r, "content-length")), (200, Some("9")));

    let plan = plan_list("blocks/E2E", &Some("10".to_string()), &None, &None);
    assert_eq!((plan.prefix.as_slice(), plan.max_keys), (b"/blocks/E2E".as_slice(), 10));
    let r = list_reply("bucket", "blocks/E2E", plan.max_keys, Ok(vec![(k.clone(), 9)]));
    assert_eq!(r.status, 200);
    assert!(text(&r).contains("E2E-KEY1"));

    store.0.remove(&k);
    assert_eq!(delete_reply(Ok(())).status, 204);
    let r = store.fetch("blocks/E2E-KEY1", None, None);
    assert_eq!(r.status, 404);
    assert_eq!(
        text(&r),
        "<?xml version=\"1.0\" encoding=\"UTF-8\"?>\
         <Error><Code>NoSuchKey</Code><Message>not found</Message></Error>"
    );
}

#[test]
fn ranges_are_read() {
    assert_eq!(parse_range("bytes=5-9"), Some(RangeSpec::From(5, Some(9))));
    assert_eq!(parse_range("bytes=5-"), Some(RangeSpec::From(5, None)));
    assert_eq!(parse_range("bytes=-5"), Some(RangeSpec::Suffix(5)));
    for bad in ["bytes=9-5", "bytes=-0", "bytes=-", "bytes=x-1", "items=1-2", "bytes=5", ""] {
        assert_eq!(parse_range(bad), None, "{bad}");
    }
    assert!(want_bao(Some("1")) && want_bao(Some("TRUE")) && want_bao(Some("true")));
    assert!(!want_bao(Some("yes")) && !want_bao(None));
}

#[test]
fn ranges_are_fitted_to_the_body() {
    let part = |r, bao, total| match plan_get(r, bao, total) {
        Ok(GetPlan::Part { start, end }) => Some((start, end)),
        _ => None,
    };
    assert!(matches!(plan_get(None, false, 10), Ok(GetPlan::Full)));
    assert_eq!(part(None, true, 10), Some((0, 9)));
    assert_eq!(part(Some(RangeSpec::From(2, Some(100))), false, 10), Some((2, 9)));
    assert_eq!(part(Some(RangeSpec::From(2, None)), false, 10), Some((2, 9)));
    assert_eq!(part(Some(RangeSpec::Suffix(3)), false, 10), Some((7, 9)));
    let e = plan_get(Some(RangeSpec::From(10, None)), false, 10).unwrap_err();
    assert_eq!(e.message(), "io: range start beyond EOF");
    let e = plan_get(Some(RangeSpec::Suffix(1)), false, 0).unwrap_err();
    assert_eq!(e.message(), "io: range on empty body");
}

#[test]
fn errors_have_their_status() {
    assert_eq!(map_err(&DomainError::NotFound).status, 404);
    assert_eq!(map_err(&DomainError::Io("disk".to_string())).status, 500);
    assert_eq!(map_err(&DomainError::Io("shutting down now".to_string())).status, 503);
    assert_eq!(map_err(&DomainError::ShardUnavailable(ShardId(3))).status, 500);
    let r = map_err(&DomainError::IntegrityViolation("bad bytes".to_string()));
    assert_eq!(r.status, 500);
    assert!(text(&r).contains("<Message>bad bytes</Message>"));
    let r = map_err(&DomainError::QuorumNotReached { ok: 1, want: 2 });
    assert!(text(&r).contains("<Message>write quorum not reached: 1 < 2</Message>"));
    let r = s3_error(403, "AccessDenied", "no");
    assert_eq!((r.status, header(&r, "content-type")), (403, Some("application/xml")));
    assert_eq!(head_reply(Err(DomainError::NotFound)).status, 404);
    assert!(head_reply(Err(DomainError::NotFound)).body.is_empty());
    assert_eq!(delete_reply(Err(DomainError::Io("x".to_string()))).status, 500);
    assert_eq!(put_reply(Err(DomainError::NotFound)).status, 404);
}

#[test]
fn keys_have_one_leading_slash() {
    assert_eq!(bkey("blocks/x").as_bytes(), b"/blocks/x");
    assert_eq!(bkey("/blocks/x").as_bytes(), b"/blocks/x");
    assert_eq!(bkey("").as_bytes(), b"/");
}

#[test]
fn listings_are_escaped_and_continued() {
    assert_eq!(xml_escape("a<b>&c"), "a&lt;b&gt;&amp;c");
    let items = vec![
        (BlockKey::from("/a&b"), 1u64),
        (BlockKey::from("/c"), 2),
        (BlockKey::from("/d"), 3),
    ];
    let r = list_reply("bkt", "", 2, Ok(items));
    assert_eq!(
        text(&r),
        "<?xml version=\"1.0\" encoding=\"UTF-8\"?>\
         <ListBucketResult xmlns=\"http://s3.amazonaws.com/doc/2006-03-01/\">\
         <Name>bkt</Name><Prefix></Prefix><KeyCount>2</KeyCount><MaxKeys>2</MaxKeys>\
         <IsTruncated>true</IsTruncated>\
         <NextContinuationToken>/c</NextContinuationToken>\
         <Contents><Key>a&amp;b</Key><Size>1</Size><StorageClass>STANDARD</StorageClass></Contents>\
         <Contents><Key>c</Key><Size>2</Size><StorageClass>STANDARD</StorageClass></Contents>\
         </ListBucketResult>"
    );
    // the token leads on behind the last key
    let plan = plan_list("", &None, &Some("/c".to_string()), &Some("zz".to_string()));
    assert_eq!(plan.after.unwrap().as_bytes(), b"/c");
    assert_eq!(plan.max_keys, 1000);
    let plan = plan_list("/p", &Some("99999".to_string()), &None, &Some("q".to_string()));
    assert_eq!((plan.prefix.as_slice(), plan.max_keys), (b"/p".as_slice(), 10_000));
    assert_eq!(plan.after.unwrap().as_bytes(), b"/q");
    assert_eq!(plan_list("", &Some("x".to_string()), &None, &None).max_keys, 1000);
    let rows = vec![Row { key: "/k".to_string(), size: 7 }];
    let xml = list_xml("b", "p<", 5, false, &rows);
    assert!(xml.contains("<Prefix>p&lt;</Prefix>"));
    assert!(xml.contains("<IsTruncated>false</IsTruncated><Contents>"));
    assert_eq!(list_reply("b", "", 1, Err(DomainError::NotFound)).status, 404);
}
