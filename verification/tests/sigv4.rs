use ozd::digest::{hex, sha256};
use ozd::domain::BlockKey;
use ozd::s3::{bkey, check_limit, check_request, on_body, put_reply, GetNext, Reply};
use ozd::sigv4::{
    canonical_headers, canonical_query, collapse, examine, parse_amz_date, parse_auth_header,
    sign_for_test, string_to_sign, verify, Headers, SigV4Config,
};

/// 2026-06-10 12:00:00 UTC.
const NOW: i64 = 1_781_092_800;
const DATE: &str = "20260610T120000Z";

fn cfg() -> SigV4Config {
    SigV4Config::new("AKTEST".to_string(), "secret123".to_string())
}

fn mk_headers(amz_date: &str, payload: &[u8]) -> Headers {
    Headers(vec![
        ("host".to_string(), "127.0.0.1:9100".to_string()),
        ("x-amz-date".to_string(), amz_date.to_string()),
        ("x-amz-content-sha256".to_string(), hex(&sha256(payload))),
    ])
}

fn sh() -> Vec<String> {
    ["host", "x-amz-content-sha256", "x-amz-date"].iter().map(|s| s.to_string()).collect()
}

fn with_auth(mut h: Headers, auth: String) -> Headers {
    h.0.push(("authorization".to_string(), auth));
    h
}

#[test]
fn roundtrip_valid_signature() {
    let c = cfg();
    let body = b"hello-block";
    let h = mk_headers(DATE, body);
    let auth =
        sign_for_test(&c, "PUT", "/kubo/blocks/CIQX", "", &h, &sh(), DATE, "us-east-1");
    let h = with_auth(h, auth);
    let body_hash = hex(&sha256(body));
    verify(&c, "PUT", "/kubo/blocks/CIQX", "", &h, &body_hash, NOW).expect("must verify");
}

#[test]
fn wrong_secret_rejected() {
    let c = cfg();
    let bad = SigV4Config::new("AKTEST".to_string(), "WRONG".to_string());
    let body = b"x";
    let h = mk_headers(DATE, body);
    let auth = sign_for_test(&bad, "GET", "/kubo/blocks/K", "", &h, &sh(), DATE, "us-east-1");
    let h = with_auth(h, auth);
    let bh = hex(&sha256(body));
    assert!(verify(&c, "GET", "/kubo/blocks/K", "", &h, &bh, NOW).is_err());
}

#[test]
fn tampered_body_rejected() {
    let c = cfg();
    let body = b"original";
    let h = mk_headers(DATE, body);
    let auth = sign_for_test(&c, "PUT", "/kubo/blocks/K", "", &h, &sh(), DATE, "us-east-1");
    let h = with_auth(h, auth);
    // the body was replaced after signing: its hash is another
    let tampered_hash = hex(&sha256(b"EVIL"));
    let err = verify(&c, "PUT", "/kubo/blocks/K", "", &h, &tampered_hash, NOW).unwrap_err();
    assert!(err.contains("does not match body"), "{err}");
}

#[test]
fn skewed_date_rejected() {
    let c = cfg();
    let old = "20200101T000000Z";
    let body = b"x";
    let h = mk_headers(old, body);
    let auth = sign_for_test(&c, "GET", "/k/b", "", &h, &sh(), old, "us-east-1");
    let h = with_auth(h, auth);
    let bh = hex(&sha256(body));
    let err = verify(&c, "GET", "/k/b", "", &h, &bh, NOW).unwrap_err();
    assert!(err.contains("skewed"), "{err}");
}

#[test]
fn query_canonicalization_sorted() {
    let c = cfg();
    let h = mk_headers(DATE, b"");
    // signed and checked with the same raw query: both sides sort alike
    let q = "prefix=blocks/&list-type=2&max-keys=100";
    let auth = sign_for_test(&c, "GET", "/kubo", q, &h, &sh(), DATE, "us-east-1");
    let h = with_auth(h, auth);
    let bh = hex(&sha256(b""));
    verify(&c, "GET", "/kubo", q, &h, &bh, NOW).expect("query roundtrip");
    assert_eq!(canonical_query(q), "list-type=2&max-keys=100&prefix=blocks/");
}

#[test]
fn dates_are_seconds() {
    assert_eq!(parse_amz_date("19700101T000000Z"), Some(0));
    assert_eq!(parse_amz_date("19700102T000001Z"), Some(86_401));
    assert_eq!(parse_amz_date("20000301T000000Z"), Some(951_868_800));
    assert_eq!(parse_amz_date(DATE), Some(NOW));
    assert_eq!(parse_amz_date("2026-06-10"), None);
    assert_eq!(parse_amz_date(""), None);
}

#[test]
fn headers_are_canonical() {
    assert_eq!(collapse("  a   b c "), "a b c");
    let h = Headers(vec![
        ("host".to_string(), " h ".to_string()),
        ("x-amz-date".to_string(), "d".to_string()),
    ]);
    let names = vec!["host".to_string(), "x-amz-date".to_string()];
    assert_eq!(canonical_headers(&names, &h).unwrap(), "host:h\nx-amz-date:d\n");
    assert!(canonical_headers(&vec!["missing".to_string()], &h).is_err());
    assert_eq!(h.get("host").unwrap(), " h ");
    assert!(h.get("none").is_none());
}

#[test]
fn authorization_is_taken_apart() {
    let a = parse_auth_header(
        "AWS4-HMAC-SHA256 Credential=AK/20260610/eu/s3/aws4_request, \
         SignedHeaders=host;x-amz-date, Signature=00ff",
    )
    .unwrap();
    assert_eq!(a.access_key, "AK");
    assert_eq!((a.date.as_str(), a.region.as_str(), a.service.as_str()), ("20260610", "eu", "s3"));
    assert_eq!(a.signed_headers, ["host", "x-amz-date"]);
    assert_eq!(a.signature_hex, "00ff");
    assert!(parse_auth_header("Basic abc").is_err());
    assert!(parse_auth_header("AWS4-HMAC-SHA256 Credential=AK/x").is_err());
}

#[test]
fn each_refusal_has_its_reason() {
    let c = cfg();
    let bh = hex(&sha256(b""));
    let none = Headers(Vec::new());
    assert!(examine(&c, "GET", "/", "", &none, &bh, NOW).is_err());
    let h = mk_headers(DATE, b"");
    let other = SigV4Config::new("OTHER".to_string(), "secret123".to_string());
    let auth = sign_for_test(&other, "GET", "/", "", &h, &sh(), DATE, "r");
    let h = with_auth(h, auth);
    let unknown = examine(&c, "GET", "/", "", &h, &bh, NOW).unwrap_err();
    let skewed = examine(&other, "GET", "/", "", &h, &bh, NOW + 10_000).unwrap_err();
    assert_ne!(unknown, skewed);
    assert!(examine(&other, "GET", "/", "", &h, &bh, NOW + 900).is_ok());
    assert!(verify(&other, "GET", "/", "", &h, &bh, NOW).is_ok());
    assert!(verify(&other, "GET", "/elsewhere", "", &h, &bh, NOW).is_err());
    assert!(verify(&other, "PUT", "/", "", &h, &bh, NOW).is_err());
    assert!(verify(&other, "GET", "/", "a=b", &h, &bh, NOW).is_err());
}

#[test]
fn signing_matches_a_known_vector() {
    // the "GET object" example of the Amazon documentation
    let c = SigV4Config::new(
        "SECRET-REDACTED".to_string(),
        "wJalrXUtnFEMI/K7MDENG/bPxRfiCYEXAMPLEKEY".to_string(),
    );
    let empty = "e3b0c44298fc1c149afbf4c8996fb92427ae41e4649b934ca495991b7852b855";
    assert_eq!(hex(&sha256(b"")), empty);
    let h = Headers(vec![
        ("host".to_string(), "examplebucket.s3.amazonaws.com".to_string()),
        ("range".to_string(), "bytes=0-9".to_string()),
        ("x-amz-content-sha256".to_string(), empty.to_string()),
        ("x-amz-date".to_string(), "20130524T000000Z".to_string()),
    ]);
    let names: Vec<String> = h.0.iter().map(|(n, _)| n.clone()).collect();
    let auth =
        sign_for_test(&c, "GET", "/test.txt", "", &h, &names, "20130524T000000Z", "us-east-1");
    assert!(
        auth.ends_with("f0e8bdb87c964420e857bd35b5d6ed310bd44f0170aba48dd91039c6036bdb41"),
        "{auth}"
    );
    let s = string_to_sign("20130524T000000Z", "20130524/us-east-1/s3/aws4_request", &[0xab]);
    assert_eq!(s, "AWS4-HMAC-SHA256\n20130524T000000Z\n20130524/us-east-1/s3/aws4_request\nab");
}

/// A request for `/kubo/blocks/K1`, signed or not.
fn ask(signer: Option<&SigV4Config>, method: &str, body: &[u8]) -> Option<Reply> {
    let guard = SigV4Config::new("AK1".to_string(), "topsecret".to_string());
    let path = "/kubo/blocks/K1";
    let mut headers = Headers(vec![("host".to_string(), "test:1".to_string())]);
    if let Some(cfg) = signer {
        headers = Headers(vec![
            ("host".to_string(), "test:1".to_string()),
            ("x-amz-date".to_string(), DATE.to_string()),
            ("x-amz-content-sha256".to_string(), hex(&sha256(body))),
        ]);
        let auth = sign_for_test(cfg, method, path, "", &headers, &sh(), DATE, "us-east-1");
        headers = with_auth(headers, auth);
    }
    check_request(&guard, method, path, "", &headers, body, NOW)
}

#[test]
fn unsigned_rejected_signed_accepted() {
    let cfg = SigV4Config::new("AK1".to_string(), "topsecret".to_string());
    let mut store: Vec<(BlockKey, Vec<u8>)> = Vec::new();

    let refused = ask(None, "PUT", b"data").expect("refused");
    assert_eq!(refused.status, 403);
    let text = String::from_utf8(refused.body).unwrap();
    assert!(text.contains("<Code>SignatureDoesNotMatch</Code>"), "{text}");
    assert!(text.contains("<Message>missing Authorization</Message>"), "{text}");

    assert!(ask(Some(&cfg), "PUT", b"data").is_none());
    store.push((bkey("blocks/K1"), b"data".to_vec()));
    assert_eq!(put_reply(Ok(())).status, 200);
    assert!(store.iter().any(|(k, _)| *k == BlockKey::from("/blocks/K1")));

    assert!(ask(Some(&cfg), "GET", b"").is_none());
    match on_body(Ok(store[0].1.clone()), None, false) {
        GetNext::Done(reply) => assert_eq!((reply.status, reply.body), (200, b"data".to_vec())),
        other => panic!("{other:?}"),
    }

    let evil = SigV4Config::new("AK1".to_string(), "WRONG".to_string());
    assert_eq!(ask(Some(&evil), "GET", b"").expect("refused").status, 403);
}

#[test]
fn clients_over_their_limit_are_turned_away() {
    assert!(check_limit(true).is_none());
    let reply = check_limit(false).expect("refused");
    assert_eq!((reply.status, reply.body), (429, b"429 Too Many Requests".to_vec()));
    assert_eq!((reply.headers[1].name.as_str(), reply.headers[1].value.as_str()), ("retry-after", "1"));
}

#[test]
fn reordered_queries_are_judged_alike() {
    let c = cfg();
    let h = mk_headers(DATE, b"");
    let (signed, sent) = ("b=2&a=1&a=0&c", "c&a=0&b=2&a=1");
    assert_eq!(canonical_query(signed), canonical_query(sent));
    let auth = sign_for_test(&c, "GET", "/kubo", signed, &h, &sh(), DATE, "r");
    let h = with_auth(h, auth);
    let bh = hex(&sha256(b""));
    verify(&c, "GET", "/kubo", sent, &h, &bh, NOW).expect("another order");
    assert!(verify(&c, "GET", "/kubo", "a=1&b=2&c", &h, &bh, NOW).is_err());
}

#[test]
fn other_access_keys_are_refused() {
    let c = cfg();
    // the secret is right, the name is not
    let other = SigV4Config::new("AKOTHER".to_string(), "secret123".to_string());
    let h = mk_headers(DATE, b"");
    let auth = sign_for_test(&other, "GET", "/k", "", &h, &sh(), DATE, "r");
    let h = with_auth(h, auth);
    let bh = hex(&sha256(b""));
    assert!(verify(&other, "GET", "/k", "", &h, &bh, NOW).is_ok());
    assert!(verify(&c, "GET", "/k", "", &h, &bh, NOW).is_err());
}
