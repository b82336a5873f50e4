use ozd::domain::DomainError;
use ozd::index::{
    bump_in, check_inflated, choose_stored, decode_addr, delete, discard_key, encode_addr, lookup,
    open_body, plan_body, put_addr, put_inline, set_obj_logical, stat, stat_obj, AddrEntry,
    BodyPlan, Lookup, RowChange,
};
use ozd::segment::{RecordAddr, FLAG_ZSTD};

fn entry(obj: Option<u64>) -> AddrEntry {
    AddrEntry {
        addr: RecordAddr { seg_id: 7, offset: 4096, stored_len: 1234, key_len: 10 },
        crc: 0xDEADBEEF,
        logical_len: 5000,
        flags: FLAG_ZSTD,
        obj_logical: obj,
    }
}

#[test]
fn legacy_addr_v1_decodes() {
    // a 22-byte row: logical = stored, flags = 0
    let mut v = [0u8; 22];
    v[..4].copy_from_slice(&7u32.to_le_bytes());
    v[4..12].copy_from_slice(&4096u64.to_le_bytes());
    v[12..16].copy_from_slice(&1234u32.to_le_bytes());
    v[16..18].copy_from_slice(&10u16.to_le_bytes());
    v[18..22].copy_from_slice(&0xDEADBEEFu32.to_le_bytes());
    let e = decode_addr(&v).unwrap();
    assert_eq!(e.addr.seg_id, 7);
    assert_eq!(e.addr.stored_len, 1234);
    assert_eq!(e.logical_len, 1234);
    assert_eq!(e.flags, 0);
    assert_eq!(e.crc, 0xDEADBEEF);
}

#[test]
fn rows_read_back() {
    for e in [entry(None), entry(Some(1 << 40))] {
        let row = encode_addr(&e);
        assert_eq!(row.len(), if e.obj_logical.is_some() { 36 } else { 28 });
        assert_eq!(decode_addr(&row), Some(e));
    }
    assert_eq!(decode_addr(&[0; 10]), None);
}

#[test]
fn bodies_are_packed_when_it_pays() {
    let big = vec![7u8; 10_000];
    match plan_body(3, &big, None, 4096, true, 1024) {
        BodyPlan::Segment { stored, logical_len, flags } => {
            assert!(stored.len() < 1000);
            assert_eq!((logical_len, flags), (10_000, FLAG_ZSTD));
            assert_eq!(open_body(stored, flags, logical_len).unwrap(), big);
        }
        other => panic!("{other:?}"),
    }
    // noise does not shrink: kept as it is
    let mut x = 1u64;
    let noise: Vec<u8> = (0..10_000)
        .map(|_| {
            x ^= x << 13;
            x ^= x >> 7;
            x ^= x << 17;
            x as u8
        })
        .collect();
    match plan_body(3, &noise, None, 4096, true, 1024) {
        BodyPlan::Segment { stored, flags, .. } => {
            assert_eq!(flags, 0);
            assert_eq!(stored, noise);
        }
        other => panic!("{other:?}"),
    }
    assert!(matches!(plan_body(3, b"tiny", None, 4096, true, 0), BodyPlan::Inline));
    // a piece of an object never goes inline
    assert!(matches!(
        plan_body(3, b"tiny", Some(9), 4096, true, 1024),
        BodyPlan::Segment { .. }
    ));
    assert_eq!(choose_stored(b"abc", Some(vec![1])), (vec![1], FLAG_ZSTD));
    assert_eq!(choose_stored(b"abc", Some(vec![1, 2, 3])), (b"abc".to_vec(), 0));
    assert_eq!(choose_stored(b"abc", None), (b"abc".to_vec(), 0));
}

#[test]
fn damaged_bodies_are_noticed() {
    assert!(matches!(open_body(vec![1, 2, 3], FLAG_ZSTD, 10), Err(DomainError::IntegrityViolation(_))));
    assert!(check_inflated(vec![1, 2], 3).is_err());
    assert_eq!(check_inflated(vec![1, 2], 2).unwrap(), [1, 2]);
    assert_eq!(open_body(vec![1, 2, 3], 0, 99).unwrap(), [1, 2, 3]);
}

#[test]
fn lookups_prefer_the_inline_row() {
    let row = encode_addr(&entry(Some(77)));
    let l = lookup(Some(b"abc".to_vec()), Some(row.clone())).unwrap();
    assert!(matches!(&l, Lookup::Inline(b) if b == b"abc"));
    assert_eq!(stat(&l).unwrap(), 3);
    let l = lookup(None, Some(row)).unwrap();
    assert_eq!(stat_obj(&l).unwrap(), (5000, Some(77)));
    let l = lookup(None, None).unwrap();
    assert!(matches!(stat(&l), Err(DomainError::NotFound)));
    assert!(lookup(None, Some(vec![1, 2, 3])).is_err());
}

#[test]
fn replaced_records_are_counted_as_garbage() {
    let old = Some(encode_addr(&entry(None)));
    let u = put_inline(b"new".to_vec(), &old);
    assert!(matches!(u.addr, RowChange::Remove));
    assert!(matches!(&u.inline, RowChange::Insert(b) if b == b"new"));
    // the stored body counts
    assert_eq!(u.bump, Some((7, 1234)));
    let u = put_addr(&entry(None), &None);
    assert!(matches!(u.inline, RowChange::Remove));
    assert_eq!(u.bump, None);
    let u = delete(&old);
    assert!(matches!((&u.addr, &u.inline), (RowChange::Remove, RowChange::Remove)));
    assert_eq!(u.bump, Some((7, 1234)));
    assert_eq!(bump_in(Some(5), 3), 8);
    assert_eq!(bump_in(None, 3), 3);
    assert_eq!(discard_key(12), "discard.12");
}

#[test]
fn object_length_is_added_to_a_row() {
    let row = Some(encode_addr(&entry(None)));
    let new = set_obj_logical(&row, 99).unwrap();
    assert_eq!(decode_addr(&new), Some(entry(Some(99))));
    assert_eq!(set_obj_logical(&None, 99), None);
}
