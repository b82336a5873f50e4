use ozd::car::{
    base32_decode, base32_nopad, car_export, car_header, car_import, check_frame_len, check_header,
    check_header_len, export_frame, key_for_multihash, parse_cid, read_frame, slice_varint,
    write_varint, CarAction, CarEvent, CarExportReport, CarImportReport, CarReader, CarWriter,
    ExportAction, ExportEvent, VarintReader, VarintStep, EXPORT_PAGE,
};
use ozd::domain::{BlockKey, DomainError, DomainResult};
use ozd::ports::BlockStore;
use sha2::{Digest, Sha256};
use std::collections::BTreeMap;
use std::sync::Mutex;

const CARV2_PRAGMA: &[u8] = &[0xa1, 0x67, b'v', b'e', b'r', b's', b'i', b'o', b'n', 0x02];

/// An archive of CIDv1 blocks (raw, sha2-256).
fn mk_car(blocks: &[&[u8]]) -> Vec<u8> {
    let mut out = Vec::new();
    let header: &[u8] = &[
        0xA2, 0x65, b'r', b'o', b'o', b't', b's', 0x80, 0x67, b'v', b'e', b'r', b's', b'i', b'o',
        b'n', 0x01,
    ];
    write_varint(&mut out, header.len() as u64);
    out.extend_from_slice(header);
    for b in blocks {
        let digest = Sha256::digest(b);
        let mut cid = vec![0x01, 0x55, 0x12, 0x20];
        cid.extend_from_slice(&digest);
        write_varint(&mut out, (cid.len() + b.len()) as u64);
        out.extend_from_slice(&cid);
        out.extend_from_slice(b);
    }
    out
}

#[derive(Default)]
struct MemStore(Mutex<BTreeMap<BlockKey, Vec<u8>>>);

impl BlockStore for MemStore {
    fn put(&self, k: &BlockKey, d: &[u8]) -> DomainResult<()> {
        self.0.lock().unwrap().insert(k.clone(), d.to_vec());
        Ok(())
    }

    fn get(&self, k: &BlockKey) -> DomainResult<Vec<u8>> {
        self.0.lock().unwrap().get(k).cloned().ok_or(DomainError::NotFound)
    }

    fn stat(&self, k: &BlockKey) -> DomainResult<u64> {
        ozd::ports::size_of(self.get(k))
    }

    fn has(&self, k: &BlockKey) -> DomainResult<bool> {
        Ok(self.0.lock().unwrap().contains_key(k))
    }

    fn delete(&self, k: &BlockKey) -> DomainResult<()> {
        self.0.lock().unwrap().remove(k);
        Ok(())
    }

    fn list(
        &self,
        p: &[u8],
        a: Option<&BlockKey>,
        l: usize,
    ) -> DomainResult<Vec<(BlockKey, u64)>> {
        Ok(self
            .0
            .lock()
            .unwrap()
            .iter()
            .filter(|(k, _)| k.as_bytes().starts_with(p))
            .filter(|(k, _)| a.map(|a| k.as_bytes() > a.as_bytes()).unwrap_or(true))
            .take(l)
            .map(|(k, v)| (k.clone(), v.len() as u64))
            .collect())
    }
}

fn import(store: &MemStore, car: &[u8], verify: bool) -> DomainResult<CarImportReport> {
    let scan = car_import(car, b"/blocks/", verify)?;
    let mut r = CarImportReport::new();
    r.corrupt = scan.corrupt;
    for (k, body) in &scan.blocks {
        let there = store.has(k)?;
        let written = there || store.put(k, body).is_ok();
        r.note(there, written, body.len());
    }
    match scan.fault {
        Some(e) => Err(e),
        None => Ok(r),
    }
}

fn export(store: &MemStore) -> (Vec<u8>, usize) {
    let mut blocks = Vec::new();
    for (k, _) in store.list(b"/blocks/", None, usize::MAX).unwrap() {
        let body = store.get(&k).unwrap();
        blocks.push((k, body));
    }
    let (out, report) = car_export(&blocks, b"/blocks/".len()).unwrap();
    (out, report.blocks)
}

#[test]
fn base32_matches_go_rawstd() {
    assert_eq!(base32_nopad(b"hello"), "NBSWY3DP");
    assert_eq!(base32_decode("NBSWY3DP").unwrap(), b"hello");
    // a sha2-256 multihash starts with 0x12 0x20, so its key starts with "CIQ"
    let mh = [&[0x12u8, 0x20][..], &[0u8; 32]].concat();
    assert!(base32_nopad(&mh).starts_with("CIQ"), "keys in the CIQ style");
}

#[test]
fn base32_gives_back_every_length() {
    for n in 0..40u8 {
        let data: Vec<u8> = (0..n).map(|i| i.wrapping_mul(37).wrapping_add(n)).collect();
        assert_eq!(base32_decode(&base32_nopad(&data)).unwrap(), data);
    }
    assert_eq!(base32_nopad(b""), "");
    assert_eq!(base32_nopad(b"f"), "MY");
    assert_eq!(base32_nopad(b"foobar"), "MZXW6YTBOI");
    assert!(base32_decode("MY1").is_none());
}

#[test]
fn cid_parse_v0_and_v1() {
    let mh = [&[0x12u8, 0x20][..], &[7u8; 32]].concat();
    // v0 is the bare multihash
    let frame = [&mh[..], b"body"].concat();
    let (l, got) = parse_cid(&frame).unwrap();
    assert_eq!((l, got), (34, &mh[..]));
    // v1 is version, codec, multihash
    let cid1 = [&[0x01u8, 0x70][..], &mh].concat(); // dag-pb
    let frame = [&cid1[..], b"body"].concat();
    let (l, got) = parse_cid(&frame).unwrap();
    assert_eq!((l, got), (36, &mh[..]));
    assert!(parse_cid(b"\x02junk").is_none(), "an unknown CID version");
}

#[test]
fn varints_read_back() {
    for x in [0u64, 1, 127, 128, 300, 1 << 20, (1 << 63) - 1] {
        let mut out = Vec::new();
        write_varint(&mut out, x);
        assert_eq!(slice_varint(&out, 0), Some((x, out.len())));
        let mut reader = VarintReader::new();
        for (i, b) in out.iter().enumerate() {
            let step = reader.feed(*b);
            if i + 1 == out.len() {
                assert_eq!(step, VarintStep::Done(x));
            } else {
                assert_eq!(step, VarintStep::More);
            }
        }
    }
    let mut out = Vec::new();
    write_varint(&mut out, 300);
    assert_eq!(out, [0xAC, 0x02]);
    let mut reader = VarintReader::new();
    let mut last = VarintStep::More;
    for _ in 0..10 {
        last = reader.feed(0xff);
    }
    assert_eq!(last, VarintStep::Overflow);
    assert_eq!(slice_varint(&[0x80], 0), None);
}

#[test]
fn import_export_roundtrip_idempotent_and_verify() {
    let store = MemStore::default();
    let bodies: Vec<Vec<u8>> = (0..5u8).map(|i| vec![i; 1000 + i as usize * 100]).collect();
    let refs: Vec<&[u8]> = bodies.iter().map(|b| b.as_slice()).collect();
    let car = mk_car(&refs);

    let r = import(&store, &car, true).unwrap();
    assert_eq!((r.blocks, r.skipped, r.corrupt, r.errors), (5, 0, 0, 0), "{r:?}");
    assert_eq!(r.bytes, 6000);
    for b in &bodies {
        let mh = [&[0x12u8, 0x20][..], Sha256::digest(b).as_slice()].concat();
        let key = key_for_multihash(b"/blocks/", &mh);
        assert!(String::from_utf8_lossy(key.as_bytes()).starts_with("/blocks/CIQ"));
        assert_eq!(store.get(&key).unwrap(), *b);
    }
    // a second import changes nothing
    let r2 = import(&store, &car, true).unwrap();
    assert_eq!((r2.blocks, r2.skipped), (0, 5), "{r2:?}");
    // exported and imported into an empty store, the bodies are the same
    let (out, n) = export(&store);
    assert_eq!(n, 5);
    let store2 = MemStore::default();
    let r3 = import(&store2, &out, true).unwrap();
    assert_eq!(r3.blocks, 5);
    assert_eq!(*store.0.lock().unwrap(), *store2.0.lock().unwrap(), "bit for bit");

    // a frame whose body was replaced is dropped by the hash check
    let mut bad = mk_car(&[b"good block"]);
    let n = bad.len();
    bad[n - 1] ^= 0xFF;
    let store3 = MemStore::default();
    let r4 = import(&store3, &bad, true).unwrap();
    assert_eq!((r4.blocks, r4.corrupt), (0, 1), "a wrong hash does not get in: {r4:?}");
    assert!(store3.0.lock().unwrap().is_empty());
    // without the check it is taken as it is
    assert_eq!(import(&store3, &bad, false).unwrap().blocks, 1);
}

#[test]
fn carv2_pragma_rejected() {
    let mut car = Vec::new();
    write_varint(&mut car, CARV2_PRAGMA.len() as u64);
    car.extend_from_slice(CARV2_PRAGMA);
    let store = MemStore::default();
    let err = import(&store, &car, true).unwrap_err();
    assert!(err.message().contains("CARv2"), "{}", err.message());
}

#[test]
fn archives_are_checked() {
    assert!(check_header(CARV2_PRAGMA).is_err());
    assert!(check_header(b"anything else").is_ok());
    assert!(check_header_len(1 << 20).is_ok());
    assert!(check_header_len((1 << 20) + 1).is_err());
    assert!(check_frame_len(0).is_err());
    assert!(check_frame_len(u64::MAX).is_err());
    // cut off in the middle of a frame: what came before is kept
    let car = mk_car(&[b"one", b"two"]);
    let scan = car_import(&car[..car.len() - 1], b"/b/", true).unwrap();
    assert_eq!(scan.blocks.len(), 1);
    assert!(scan.fault.is_some());
    assert!(car_import(b"", b"/b/", true).is_err());
}

#[test]
fn frames_carry_key_and_body() {
    let mh = [&[0x12u8, 0x20][..], Sha256::digest(b"data").as_slice()].concat();
    let key = key_for_multihash(b"/blocks/", &mh);
    let frame = export_frame(&key, 8, b"data").unwrap();
    let (n, at) = slice_varint(&frame, 0).unwrap();
    assert_eq!(n as usize, frame.len() - at);
    let (k, body) = read_frame(&frame[at..], b"/blocks/", true).unwrap();
    assert!(k.same(&key));
    assert_eq!(body, b"data");
    assert!(export_frame(&BlockKey::from("/blocks/not base32!"), 8, b"data").is_err());
    assert_eq!(car_header().len(), 18);
}

/// The blocks, the frames dropped and the error of an archive read piece by piece.
fn read_in_pieces(
    car: &[u8],
    prefix: &[u8],
    verify: bool,
) -> (Vec<(BlockKey, Vec<u8>)>, usize, Option<String>) {
    let (mut reader, mut action) = CarReader::begin(prefix, verify);
    let (mut pos, mut out) = (0, Vec::new());
    loop {
        let event = match action {
            CarAction::Read(n) if pos + n <= car.len() => {
                pos += n;
                CarEvent::Got(car[pos - n..pos].to_vec())
            }
            CarAction::Read(_) => {
                CarEvent::Short(true, "failed to fill whole buffer".to_string())
            }
            CarAction::Store(key, body) => {
                out.push((key, body));
                CarEvent::Stored
            }
            CarAction::Finish(r) => return (out, reader.corrupt, r.err().map(|e| e.message())),
        };
        action = reader.advance(event);
    }
}

#[test]
fn pieces_read_like_the_whole() {
    let mut cars = vec![mk_car(&[b"one", b"", &[7u8; 300]])];
    // one with a body that does not match its hash, one of another version, one with a
    // length that does not end
    let mut bad = mk_car(&[b"one", b"two"]);
    *bad.last_mut().unwrap() ^= 1;
    cars.push(bad);
    cars.push([&[10u8][..], CARV2_PRAGMA].concat());
    cars.push(vec![0xff; 12]);
    cars.push([&car_header()[..], &[0, 1, 2]].concat());
    cars.push(vec![0x81, 0x80, 0x40, 0]);
    for car in &cars {
        for cut in 0..=car.len() {
            for verify in [true, false] {
                let part = &car[..cut];
                let (blocks, corrupt, fault) = read_in_pieces(part, b"/b/", verify);
                match car_import(part, b"/b/", verify) {
                    Ok(scan) => {
                        assert_eq!(blocks.len(), scan.blocks.len());
                        for (a, b) in blocks.iter().zip(&scan.blocks) {
                            assert!(a.0.same(&b.0) && a.1 == b.1);
                        }
                        assert_eq!(corrupt, scan.corrupt);
                        assert_eq!(fault, scan.fault.map(|e| e.message()));
                    }
                    Err(e) => {
                        assert!(blocks.is_empty());
                        assert_eq!(fault, Some(e.message()));
                    }
                }
            }
        }
    }
    assert_eq!(read_in_pieces(b"", b"/b/", true).2.unwrap(), "io: car: empty file");
    let (blocks, corrupt, fault) = read_in_pieces(&cars[1], b"/b/", true);
    assert_eq!((blocks.len(), corrupt, fault), (1, 1, None));
}

#[test]
fn disk_faults_while_reading_are_reported() {
    let (mut reader, _) = CarReader::begin(b"/b/", true);
    match reader.advance(CarEvent::Short(false, "disk".to_string())) {
        CarAction::Finish(Err(e)) => assert_eq!(e.message(), "io: car varint: disk"),
        other => panic!("{other:?}"),
    }
    let (mut reader, _) = CarReader::begin(b"/b/", true);
    assert!(matches!(reader.advance(CarEvent::Stored), CarAction::Finish(Err(_))));
}

/// An archive of what a store holds, written page by page; `gone` is not found any more.
fn write_in_pages(
    store: &MemStore,
    gone: Option<&BlockKey>,
) -> (Vec<u8>, usize, DomainResult<CarExportReport>) {
    let (mut writer, mut action) = CarWriter::begin(8);
    let (mut out, mut pages) = (Vec::new(), 0);
    loop {
        let event = match action {
            ExportAction::Write(b) => {
                out.extend_from_slice(&b);
                ExportEvent::Did
            }
            ExportAction::List(after) => {
                pages += 1;
                let page = store.list(b"/blocks/", after.as_ref(), EXPORT_PAGE).unwrap();
                ExportEvent::Page(page.into_iter().map(|(k, _)| k).collect())
            }
            ExportAction::Get(k) if gone.is_some_and(|g| g.same(&k)) => ExportEvent::Gone,
            ExportAction::Get(k) => ExportEvent::Body(store.get(&k).unwrap()),
            ExportAction::Flush => ExportEvent::Did,
            ExportAction::Finish(r) => return (out, pages, r),
        };
        action = writer.advance(event);
    }
}

#[test]
fn exports_write_every_block() {
    let store = MemStore::default();
    assert_eq!(write_in_pages(&store, None).0, car_header());
    let mut keys = Vec::new();
    for i in 0..EXPORT_PAGE as u32 + 6 {
        let body = i.to_le_bytes();
        let mh = [&[0x12u8, 0x20][..], Sha256::digest(body).as_slice()].concat();
        let key = key_for_multihash(b"/blocks/", &mh);
        store.put(&key, &body).unwrap();
        keys.push(key);
    }
    let (whole, n) = export(&store);
    let (out, pages, report) = write_in_pages(&store, None);
    assert!(out == whole);
    assert_eq!((pages, n), (2, 1030));
    assert_eq!(report.unwrap(), CarExportReport { blocks: 1030, bytes: 4 * 1030 });
    // one that was deleted meanwhile is left out
    let (out, _, report) = write_in_pages(&store, Some(&keys[3]));
    assert_eq!(report.unwrap().blocks, 1029);
    store.delete(&keys[3]).unwrap();
    assert!(out == export(&store).0);
}

#[test]
fn the_first_key_without_a_name_is_the_error() {
    let bad = |s: &str| (BlockKey::from(s), b"x".to_vec());
    let blocks = vec![bad("/blocks/AA"), bad("/blocks/!b"), bad("/blocks/!a")];
    let e = car_export(&blocks, 8).unwrap_err();
    assert!(e.message().ends_with("BlockKey(/blocks/!b)"), "{}", e.message());
    let store = MemStore::default();
    for (k, body) in &blocks {
        store.put(k, body).unwrap();
    }
    let e = write_in_pages(&store, None).2.unwrap_err();
    assert!(e.message().ends_with("BlockKey(/blocks/!a)"), "{}", e.message());
}

#[test]
fn second_imports_write_nothing() {
    let store = MemStore::default();
    let car = mk_car(&[b"one", b"two", b"three"]);
    let first = import(&store, &car, true).unwrap();
    assert_eq!((first.blocks, first.skipped), (3, 0));
    let held = store.0.lock().unwrap().clone();
    let second = import(&store, &export(&store).0, true).unwrap();
    assert_eq!((second.blocks, second.skipped, second.bytes), (0, 3, 0));
    assert!(held == *store.0.lock().unwrap());
}
