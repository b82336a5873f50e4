use ozd::body::{PutAction, PutEvent, PutPass};
use ozd::bytes::{bytes_lt, copy_range, push_le, read_le, same_bytes, starts_with};
use ozd::collect::{EvictAction, EvictEvent, EvictPass, GcAction, GcEvent, GcPass};
use ozd::digest::{hex, hex32, hex_decode, sha256};
use ozd::domain::{BlockKey, Capacity, DomainError, ShardId, ShardStatus};
use ozd::engine::{
    ballast_released, ensure_ballast, fs_bytes, gc_victim, parse_segment_name, seg_dir_of,
    used_after, BallastPlan,
};
use ozd::index::{AddrEntry, Lookup};
use ozd::listing::{list_start, merge};
use ozd::segment::{
    choose_active, encode_header, encode_meta, parse_header, parse_meta, read_record,
    scan_segment, seg_path, AppendAction, AppendPhase, ParsedHeader, ReadFault, RecordAddr,
    SegmentWriter,
};
use ozd::text::{
    chars, contains, dec, drop_tail, find, from_chars, join, lines, lower, parse_int, parse_uint,
    same_text, split, split_once, strip, trim, words,
};

fn writer() -> SegmentWriter {
    SegmentWriter {
        has_failover: false,
        seg_id: 3,
        len: 0,
        flush_offset: 0,
        unflushed_items: 0,
        max_size: 1000,
        fsync_items: 2,
        failed_over: false,
        drop_cache: false,
    }
}

#[test]
fn records_have_their_layout() {
    let w = writer();
    let (bytes, addr, crc) = w.write_record(b"key", b"body", 9, 1).unwrap();
    assert_eq!(&bytes[..4], b"OZB2");
    assert_eq!(&bytes[4..16], &[3, 0, 1, 0, 4, 0, 0, 0, 9, 0, 0, 0]);
    // CRC-32 (IEEE) of key and body
    assert_eq!(crc, crc32fast::hash(b"keybody"));
    assert_eq!(&bytes[16..20], &crc.to_le_bytes());
    assert_eq!(&bytes[20..], b"keybody");
    assert_eq!((addr.seg_id, addr.offset, addr.stored_len, addr.key_len), (3, 0, 4, 3));
    assert_eq!(addr.record_len(), 27);
    assert_eq!(read_record(&bytes, &addr, crc).unwrap(), b"body");
    assert!(matches!(read_record(&bytes, &addr, crc ^ 1), Err(ReadFault::CrcMismatch)));
    assert!(matches!(read_record(&bytes[..26], &addr, crc), Err(ReadFault::Short)));
    let (plain, _, _) = w.append(b"key", b"body").unwrap();
    assert_eq!(&plain[6..8], &[0, 0]);
    assert_eq!(&plain[12..16], &[4, 0, 0, 0]);
}

#[test]
fn logs_are_scanned_up_to_the_torn_record() {
    let w = writer();
    let mut log = Vec::new();
    for i in 0..3u8 {
        log.extend(w.append(&[i], &[i; 10]).unwrap().0);
    }
    let whole = log.len() as u64;
    log.extend_from_slice(&w.append(b"x", b"torn").unwrap().0[..22]);
    let (records, n) = scan_segment(&log, 3, 100);
    assert_eq!(n, whole);
    assert_eq!(records.len(), 3);
    assert_eq!((records[1].addr.offset, records[1].key.as_slice()), (131, [1u8].as_slice()));
    // damage ends the scan
    log[25] ^= 1;
    assert_eq!(scan_segment(&log, 3, 0).0.len(), 0);
}

#[test]
fn headers_and_meta_read_back() {
    let h = ParsedHeader { key_len: 1, flags: 2, stored_len: 3, logical_len: 4, crc: 5 };
    assert_eq!(parse_header(&encode_header(&h)), Some(h));
    assert_eq!(parse_header(b"OZB1________________"), None);
    assert_eq!(parse_header(b"OZB2"), None);
    assert_eq!(parse_meta(&encode_meta(7, 1 << 40)), Some((7, 1 << 40)));
    assert_eq!(parse_meta(&[0; 11]), None);
    assert_eq!(seg_path("/d/seg", 42), "/d/seg/seg.00000042.dat");
    assert_eq!(parse_segment_name("seg.00000042.dat"), Some(42));
    assert_eq!(parse_segment_name("seg.meta"), None);
    assert_eq!(parse_segment_name("seg..dat"), None);
}

#[test]
fn the_larger_segment_number_wins() {
    let a = choose_active(Some((3, 10)), Some((4, 20)));
    assert_eq!((a.on_failover, a.seg_id, a.flush_offset), (true, 4, 20));
    let a = choose_active(Some((4, 10)), Some((4, 20)));
    assert_eq!((a.on_failover, a.flush_offset), (false, 10));
    assert!(choose_active(None, Some((1, 2))).on_failover);
    assert_eq!(choose_active(None, None).seg_id, 0);
}

#[test]
fn appends_sync_and_fail_over() {
    // every second record is synced
    let mut w = writer();
    let run = |w: &mut SegmentWriter, fail: &[AppendPhase]| {
        let mut phase = AppendPhase::Start;
        let mut ok = true;
        let mut seen = Vec::new();
        loop {
            let (p, a) = w.append_with_flags(phase, ok, 100);
            seen.push(p);
            phase = p;
            ok = !fail.contains(&p);
            match a {
                AppendAction::Finish => return (true, seen),
                AppendAction::Fail => return (false, seen),
                _ => {}
            }
        }
    };
    assert_eq!(run(&mut w, &[]), (true, vec![AppendPhase::Write, AppendPhase::Done]));
    let (ok, seen) = run(&mut w, &[]);
    assert!(ok && seen.contains(&AppendPhase::FlushSync) && seen.contains(&AppendPhase::FlushMeta));
    assert_eq!((w.len, w.flush_offset, w.unflushed_items), (200, 200, 0));
    // without a spare directory a failed write fails
    assert!(!run(&mut w, &[AppendPhase::Write]).0);
    // with one it is repeated there
    w.has_failover = true;
    let (ok, seen) = run(&mut w, &[AppendPhase::Write]);
    assert!(ok && seen.contains(&AppendPhase::RetryWrite));
    assert_eq!((w.seg_id, w.failed_over, w.len), (4, true, 100));
    // a full segment goes back to the primary directory
    w.len = 1000;
    let (ok, seen) = run(&mut w, &[]);
    assert!(ok && seen.contains(&AppendPhase::RotatePrimary));
    assert_eq!((w.seg_id, w.failed_over), (5, false));
}

#[test]
fn victims_and_ballast() {
    assert_eq!(gc_victim(&vec![0, 5, 9, 9, 1]), Some(2));
    assert_eq!(gc_victim(&vec![0, 0]), None);
    assert_eq!(ensure_ballast(0, Some(5), 100), BallastPlan::Remove);
    assert_eq!(ensure_ballast(10, Some(10), 0), BallastPlan::Keep);
    assert_eq!(ensure_ballast(10, None, 19), BallastPlan::NoRoom);
    assert_eq!(ensure_ballast(10, None, 20), BallastPlan::Create);
    assert!(ballast_released(10, false) && !ballast_released(0, false));
    assert_eq!(used_after(10, 3), 7);
    assert_eq!(used_after(3, 10), 0);
    assert_eq!(fs_bytes(4096, 10), 40_960);
    assert!(!seg_dir_of(true, Some(true)) && seg_dir_of(false, Some(true)));
    assert!(!seg_dir_of(false, Some(false)) && !seg_dir_of(false, None));
}

#[test]
fn puts_write_first_and_repeat_once() {
    let addr = RecordAddr { seg_id: 3, offset: 40, stored_len: 9000, key_len: 2 };
    let full = || PutEvent::Full(DomainError::Io("full".to_string()));
    let start = |ballast| PutPass::begin(b"key", &[7u8; 9000], Some(5), 4096, false, 512, ballast);

    let (mut run, a) = start(0);
    assert!(matches!(a, PutAction::Append));
    assert_eq!((run.stored.len(), run.logical_len, run.flags), (9000, 9000, 0));
    match run.advance(PutEvent::Written(addr, 77)) {
        PutAction::Index(e) => assert_eq!(
            e,
            AddrEntry { addr, crc: 77, logical_len: 9000, flags: 0, obj_logical: Some(5) }
        ),
        other => panic!("{other:?}"),
    }
    assert!(matches!(run.advance(PutEvent::Did), PutAction::Finish(Ok(()))));

    // without ballast a full disk is the end
    let (mut run, _) = start(0);
    assert!(matches!(run.advance(full()), PutAction::Finish(Err(_))));
    // with ballast the record is written once more, and no third time
    let (mut run, _) = start(10);
    assert!(matches!(run.advance(full()), PutAction::Release));
    assert!(matches!(run.advance(PutEvent::Released(true)), PutAction::Append));
    assert!(matches!(run.advance(full()), PutAction::Finish(Err(_))));
    // ballast that is gone already gives the first error
    let (mut run, _) = start(10);
    run.advance(full());
    match run.advance(PutEvent::Released(false)) {
        PutAction::Finish(Err(e)) => assert_eq!(e.message(), "io: full"),
        other => panic!("{other:?}"),
    }

    // a small body goes inline
    let (mut run, a) = PutPass::begin(b"key", b"abc", None, 4096, true, 1, 0);
    assert!(matches!(a, PutAction::Inline));
    assert_eq!(run.stored, b"abc");
    assert!(matches!(run.advance(PutEvent::Did), PutAction::Finish(Ok(()))));
    // an answer out of turn
    let (mut run, _) = start(0);
    match run.advance(PutEvent::Did) {
        PutAction::Finish(Err(e)) => assert_eq!(e.message(), "io: put: unexpected answer"),
        other => panic!("{other:?}"),
    }
}

#[test]
fn collections_copy_before_they_remove() {
    let w = SegmentWriter { seg_id: 1, ..writer() };
    let (bytes, from, crc) = w.append(b"k", b"body").unwrap();
    let to = RecordAddr { seg_id: 4, ..from };
    let live = AddrEntry { addr: from, crc, logical_len: 4, flags: 0, obj_logical: None };
    let sealed = vec![(1u32, bytes.len() as u64), (2, 100)];

    let (mut run, a) = GcPass::begin(5, &sealed, Some(0), false);
    assert!(matches!(a, GcAction::Load(1)));
    assert!(matches!(run.advance(GcEvent::File(bytes.clone())), GcAction::Look(k) if k == b"k"));
    match run.advance(GcEvent::Looked(Ok(Lookup::Addr(live)))) {
        GcAction::Copy { key, stored, logical_len, flags } => {
            assert_eq!((key, stored, logical_len, flags), (b"k".to_vec(), b"body".to_vec(), 4, 0))
        }
        other => panic!("{other:?}"),
    }
    assert!(matches!(run.advance(GcEvent::Copied(to, crc)), GcAction::Move { .. }));
    // the row did not follow: the copy is garbage
    match run.advance(GcEvent::Moved(false)) {
        GcAction::Account(stray) => assert_eq!(stray, vec![(4, 4)]),
        other => panic!("{other:?}"),
    }
    assert!(matches!(run.advance(GcEvent::Did), GcAction::Flush));
    assert!(matches!(run.advance(GcEvent::Did), GcAction::Unlink(1)));
    match run.advance(GcEvent::Did) {
        GcAction::Forget(segs) => assert_eq!(segs, vec![1]),
        other => panic!("{other:?}"),
    }
    assert!(matches!(run.advance(GcEvent::Did), GcAction::Survey));
    // segment 2 is referred to, 6 and 7 are not; 6 cannot be removed
    let ev = GcEvent::Segments(vec![(2, 9)], vec![(2, 100), (6, 10), (7, 20)]);
    assert!(matches!(run.advance(ev), GcAction::Unlink(6)));
    let ev = GcEvent::Failed(DomainError::Io("busy".to_string()));
    assert!(matches!(run.advance(ev), GcAction::Unlink(7)));
    match run.advance(GcEvent::Did) {
        GcAction::Forget(segs) => assert_eq!(segs, vec![7]),
        other => panic!("{other:?}"),
    }
    match run.advance(GcEvent::Did) {
        GcAction::Finish(Ok(r)) => {
            assert_eq!(r.victim_seg, Some(1));
            assert_eq!((r.live_moved, r.reclaimed_bytes), (0, bytes.len() as u64));
            assert_eq!((r.orphans_removed, r.orphan_bytes), (1, 20));
        }
        other => panic!("{other:?}"),
    }

    // a dead record is passed over; a failed flush keeps the file
    let (mut run, _) = GcPass::begin(1, &sealed, Some(0), false);
    run.advance(GcEvent::File(bytes));
    assert!(matches!(run.advance(GcEvent::Looked(Ok(Lookup::Missing))), GcAction::Flush));
    let ev = GcEvent::Failed(DomainError::Io("disk".to_string()));
    assert!(matches!(run.advance(ev), GcAction::Finish(Err(_))));
    // too little garbage, and no sweep due
    let (_, a) = GcPass::begin(1, &sealed, Some(0), true);
    assert!(matches!(a, GcAction::Finish(Ok(r)) if r.victim_seg.is_none()));
}

#[test]
fn failed_lookups_keep_the_segment() {
    let w = SegmentWriter { seg_id: 1, ..writer() };
    let (bytes, _, _) = w.append(b"k", b"body").unwrap();
    let fault = || DomainError::Io("index".to_string());
    let (mut run, _) = GcPass::begin(1, &vec![(1, bytes.len() as u64)], Some(0), false);
    run.advance(GcEvent::File(bytes.clone()));
    match run.advance(GcEvent::Looked(Err(fault()))) {
        GcAction::Finish(Err(e)) => assert_eq!(e.message(), "io: index"),
        other => panic!("{other:?}"),
    }
    let (mut run, _) = EvictPass::begin(Some((1, bytes.len() as u64)));
    run.advance(EvictEvent::File(bytes));
    match run.advance(EvictEvent::Looked(Err(fault()))) {
        EvictAction::Finish(Err(e)) => assert_eq!(e.message(), "io: index"),
        other => panic!("{other:?}"),
    }
}

#[test]
fn evictions_drop_rows_before_the_file() {
    let w = SegmentWriter { seg_id: 1, ..writer() };
    let (bytes, addr, crc) = w.append(b"k", b"body").unwrap();
    let live = AddrEntry { addr, crc, logical_len: 4, flags: 0, obj_logical: None };
    let (mut run, a) = EvictPass::begin(Some((1, 25)));
    assert!(matches!(a, EvictAction::Load(1)));
    assert!(matches!(run.advance(EvictEvent::File(bytes)), EvictAction::Look(k) if k == b"k"));
    match run.advance(EvictEvent::Looked(Ok(Lookup::Addr(live)))) {
        EvictAction::Drop(keys, seg) => assert_eq!((keys, seg), (vec![b"k".to_vec()], 1)),
        other => panic!("{other:?}"),
    }
    assert!(matches!(run.advance(EvictEvent::Did), EvictAction::Unlink(1)));
    assert!(matches!(run.advance(EvictEvent::Did), EvictAction::Finish(Ok((25, 1)))));
    assert!(matches!(EvictPass::begin(None).1, EvictAction::Finish(Ok((0, 0)))));
}

#[test]
fn listings_merge() {
    let a = vec![(b"a".to_vec(), 1u64), (b"c".to_vec(), 3)];
    let b = vec![(b"b".to_vec(), 2u64), (b"c".to_vec(), 9)];
    let m = merge(&a, &b, true, None);
    assert_eq!(m, vec![(b"a".to_vec(), 1), (b"b".to_vec(), 2), (b"c".to_vec(), 3)]);
    assert_eq!(merge(&a, &b, true, Some(2)).len(), 2);
    assert_eq!(list_start(b"/b/", None), b"/b/");
    assert_eq!(list_start(b"/b/", Some(&BlockKey::from("/b/x"))), b"/b/x\0");
    assert_eq!(list_start(b"/b/", Some(&BlockKey::from("/a"))), b"/b/");
}

#[test]
fn errors_have_texts() {
    let m = |e: DomainError| e.message();
    assert_eq!(m(DomainError::NotFound), "block not found");
    assert_eq!(m(DomainError::ShardUnavailable(ShardId(3))), "shard ShardId(3) unavailable");
    assert_eq!(m(DomainError::IntegrityViolation("x".into())), "integrity violation: x");
    assert_eq!(m(DomainError::QuorumNotReached { ok: 1, want: 2 }), "write quorum not reached: 1 < 2");
    assert_eq!(m(DomainError::Io("y".into())), "io: y");
    assert!(m(DomainError::Corrupt("z".into())).contains("z"));
    assert_eq!(ShardStatus::default(), ShardStatus::Online);
    assert_eq!(Capacity::default(), Capacity { total_bytes: 0, free_bytes: 0 });
    let k = BlockKey::from("ab");
    assert_eq!((k.len(), k.is_empty(), k.as_bytes()), (2, false, b"ab".as_slice()));
    assert!(k.same(&BlockKey::from_text("ab")) && k == k.clone());
}

#[test]
fn digests_and_bytes() {
    assert_eq!(
        hex(&sha256(b"abc")),
        "ba7816bf8f01cfea414140de5dae2223b00361a396177a9cb410ff61f20015ad"
    );
    assert_eq!(hex_decode("00ff7A"), Some(vec![0, 255, 0x7a]));
    assert_eq!(hex_decode("0"), None);
    assert_eq!(hex_decode("zz"), None);
    assert_eq!(hex32(&[0xab; 32]), "ab".repeat(32));
    let mut v = vec![9];
    push_le(&mut v, 0x0102, 4);
    assert_eq!(v, [9, 2, 1, 0, 0]);
    assert_eq!(read_le(&v, 1, 4), 0x0102);
    assert!(same_bytes(b"ab", b"ab") && !same_bytes(b"ab", b"abc"));
    assert!(starts_with(b"abc", b"ab") && !starts_with(b"a", b"ab"));
    assert_eq!(copy_range(b"abcd", 1, 3), b"bc");
    assert!(bytes_lt(b"a", b"ab") && bytes_lt(b"ab", b"b") && !bytes_lt(b"b", b"b"));
}

#[test]
fn texts() {
    let c = |s: &str| chars(s);
    let t = |v: Vec<char>| from_chars(&v);
    assert_eq!(dec(0), "0");
    assert_eq!(dec(u64::MAX), "18446744073709551615");
    assert_eq!(parse_uint(&c("18446744073709551615"), u64::MAX), Some(u64::MAX));
    assert_eq!(parse_uint(&c("18446744073709551616"), u64::MAX), None);
    assert_eq!(parse_uint(&c("+7"), 255), Some(7));
    assert_eq!(parse_uint(&c("256"), 255), None);
    assert_eq!(parse_uint(&c(""), 255), None);
    assert_eq!(parse_int(&c("-12"), i32::MAX as u32), Some(-12));
    assert_eq!(t(trim(&c(" \ta b\n"))), "a b");
    assert_eq!(split(&c("a,,b"), ',').len(), 3);
    assert_eq!(split_once(&c("k=v=w"), '=').map(|(a, b)| (t(a), t(b))), Some(("k".into(), "v=w".into())));
    assert_eq!(split_once(&c("kv"), '='), None);
    assert_eq!(words(&c("  a  bc ")).into_iter().map(t).collect::<Vec<_>>(), ["a", "bc"]);
    assert_eq!(lines(&c("a\r\nb\n\nc")).into_iter().map(t).collect::<Vec<_>>(), ["a", "b", "", "c"]);
    assert_eq!(lines(&c("a\n")).len(), 1);
    assert_eq!(strip(&c("pre-x"), "pre-").map(t), Some("x".to_string()));
    assert_eq!(strip(&c("x"), "pre"), None);
    assert_eq!(t(drop_tail(&c("12%%"), '%')), "12");
    assert_eq!(find(&c("abcbc"), &c("bc")), Some(1));
    assert!(contains(&c("hello"), "ell") && !contains(&c("hello"), "xyz"));
    assert_eq!(t(lower(&c("AbC"))), "abc");
    assert_eq!(join(&vec!["a".to_string(), "b".to_string()], ", "), "a, b");
    assert!(same_text("x", "x") && !same_text("x", "y"));
}

#[test]
fn what_no_record_can_hold_is_refused() {
    let long = vec![1u8; 65536];
    let (run, a) = PutPass::begin(&long, &[7u8; 9000], None, 4096, false, 512, 0);
    match a {
        PutAction::Finish(Err(e)) => {
            assert_eq!(e.message(), "io: put: key longer than 65535 bytes")
        }
        _ => panic!("{run:?}"),
    }
    // a small body needs no record
    let (_, a) = PutPass::begin(&long, b"small", None, 4096, false, 512, 0);
    assert!(matches!(a, PutAction::Inline));
    let (_, a) = PutPass::begin(&long[1..], &[7u8; 9000], None, 4096, false, 512, 0);
    assert!(matches!(a, PutAction::Append));
    assert!(writer().append(&long, b"body").is_none());
    assert!(writer().append(&long[1..], b"body").is_some());
}
