use ozd::domain::{BlockKey, DomainError};
use ozd::verified::{
    at_stage, bao_slice, is_ob_key, make_outboard, ob_key, record_sane, verified_slice,
    verify_bao_slice, SliceStage,
};

#[test]
fn outboard_is_small_and_slices_verify() {
    let body: Vec<u8> = (0..1_000_000u32).map(|i| (i % 251) as u8).collect();
    let ob = make_outboard(&body);
    // groups of 16 KiB: the outboard is about 0.4% of the body
    assert!(ob.len() < body.len() / 100, "outboard of {} bytes", ob.len());
    assert!(record_sane(&ob));

    for (start, len) in [(0u64, 1000u64), (123_456, 50_000), (900_000, 5_000)] {
        let got = verified_slice(&body, &ob, start, len).unwrap();
        assert_eq!(got, &body[start as usize..(start + len) as usize]);
    }
    // a range past the end gives what there is
    let tail = verified_slice(&body, &ob, 999_990, 1000).unwrap();
    assert_eq!(tail, &body[999_990..]);
}

#[test]
fn corruption_in_range_is_caught_crc_would_not_be() {
    let body: Vec<u8> = (0..500_000u32).map(|i| (i * 7 % 256) as u8).collect();
    let ob = make_outboard(&body);
    let mut bad = body.clone();
    bad[200_000] ^= 0x01; // one bit flipped in the middle
    // a range over the damage is refused
    let err = verified_slice(&bad, &ob, 190_000, 20_000).unwrap_err();
    assert!(matches!(err, DomainError::IntegrityViolation(_)), "{err:?}");
    // a range outside the damaged group is read
    let ok = verified_slice(&bad, &ob, 0, 10_000).unwrap();
    assert_eq!(ok, &body[..10_000]);
    // with another root every range is refused
    let mut bad_ob = ob.clone();
    bad_ob[0] ^= 0xFF;
    assert!(verified_slice(&body, &bad_ob, 0, 1000).is_err());
}

#[test]
fn bao_slice_roundtrip_and_tamper_detection() {
    let body: Vec<u8> = (0..300_000u32).map(|i| (i * 3 % 256) as u8).collect();
    let ob = make_outboard(&body);
    let (slice, root) = bao_slice(&body, &ob, 50_000, 10_000).unwrap();
    // whole 16 KiB groups and the hashes that prove them
    assert!(slice.len() >= 10_000 && slice.len() < 40_000, "{}", slice.len());
    let got = verify_bao_slice(&slice, &root, 50_000, 10_000).unwrap();
    assert_eq!(got, &body[50_000..60_000]);
    // a byte replaced in the slice is caught without the server
    let mut bad = slice.clone();
    let n = bad.len();
    bad[n - 1] ^= 0xFF;
    assert!(verify_bao_slice(&bad, &root, 50_000, 10_000).is_err());
    // another root is refused
    let mut wrong = root;
    wrong[0] ^= 1;
    assert!(verify_bao_slice(&slice, &wrong, 50_000, 10_000).is_err());
}

#[test]
fn ob_key_namespacing() {
    let k = BlockKey::from("/blocks/CIQAAA");
    let okk = ob_key(&k);
    assert_eq!(okk.as_bytes(), b"/ozd/ob3/blocks/CIQAAA");
    assert!(is_ob_key(&okk));
    assert!(!is_ob_key(&k));
    // a listing of /blocks/ does not see outboard records
    assert!(!okk.as_bytes().starts_with(b"/blocks/"));
}

#[test]
fn short_records_are_refused() {
    assert!(record_sane(b"short"));
    assert!(matches!(
        verified_slice(b"body", b"short", 0, 1),
        Err(DomainError::IntegrityViolation(_))
    ));
    assert!(bao_slice(b"body", b"short", 0, 1).is_err());
    // a length beyond what a body can have
    let mut record = vec![0u8; 32];
    record.extend_from_slice(&u64::MAX.to_le_bytes());
    assert!(!record_sane(&record));
}

#[test]
fn failures_name_their_stage() {
    let m = |s| at_stage(Err("why".to_string()), s).unwrap_err().message();
    assert!(m(SliceStage::Extract).contains("why"));
    assert_ne!(m(SliceStage::Extract), m(SliceStage::Verify));
    assert_ne!(m(SliceStage::Verify), m(SliceStage::Proof));
    assert_eq!(at_stage(Ok(vec![1]), SliceStage::Proof).unwrap(), [1]);
}
