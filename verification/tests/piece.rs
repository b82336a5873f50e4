use ozd::domain::DomainError;
use ozd::erasure::{ec_decode, ec_encode, ec_repair_pieces, join_stripes, EcConfig};
use ozd::piece::{encode_piece_header, parse_piece_header, PieceHeader, EC_HEADER_LEN};

fn cfg(k: usize, m: usize) -> EcConfig {
    EcConfig { data: k, parity: m, ..Default::default() }
}

fn all(pieces: &[Vec<u8>]) -> Vec<Option<Vec<u8>>> {
    pieces.iter().cloned().map(Some).collect()
}

#[test]
fn envelope_layout() {
    let h = PieceHeader { k: 4, m: 2, piece_idx: 3, logical_len: 1000 };
    let b = encode_piece_header(&h);
    assert_eq!(&b[..8], b"OZEC\x01\x04\x02\x03");
    assert_eq!(&b[8..], &[0xe8, 3, 0, 0, 0, 0, 0, 0]);
    let mut body = b.to_vec();
    body.extend_from_slice(&[9u8; 250]);
    assert_eq!(parse_piece_header(&body), Some(h));
}

#[test]
fn roundtrip_all_pieces_fast_path() {
    let data: Vec<u8> = (0..300_001u32).map(|i| (i % 251) as u8).collect();
    let pieces = ec_encode(&data, &cfg(4, 2)).unwrap();
    assert_eq!(pieces.len(), 6);
    // every piece has the same length: ceil(300001 / 4) + 16
    let want = 300_001usize.div_ceil(4) + EC_HEADER_LEN;
    assert!(pieces.iter().all(|p| p.len() == want));
    let out = ec_decode(pieces.into_iter().map(Some).collect(), 4, 2).unwrap();
    assert_eq!(out, data);
}

#[test]
fn reconstructs_from_any_k_of_km() {
    let data: Vec<u8> = (0..100_000u32).map(|i| (i * 7 % 256) as u8).collect();
    let pieces = ec_encode(&data, &cfg(4, 2)).unwrap();
    // the worst case: two data pieces lost, two parity pieces stand in
    let mut slots = all(&pieces);
    slots[0] = None;
    slots[2] = None;
    assert_eq!(ec_decode(slots, 4, 2).unwrap(), data);
    // one loss more than the parity covers cannot be made good
    let mut slots = all(&pieces);
    slots[0] = None;
    slots[1] = None;
    slots[4] = None;
    assert!(ec_decode(slots, 4, 2).is_err());
}

#[test]
fn every_pair_of_losses_is_survived() {
    let data: Vec<u8> = (0..1003u32).map(|i| (i * 31 % 253) as u8).collect();
    let pieces = ec_encode(&data, &cfg(4, 2)).unwrap();
    for a in 0..6 {
        for b in 0..6 {
            let mut slots = all(&pieces);
            slots[a] = None;
            slots[b] = None;
            assert_eq!(ec_decode(slots, 4, 2).unwrap(), data, "lost {a} and {b}");
        }
    }
}

#[test]
fn repair_rebuilds_missing_pieces_bit_exact() {
    let data = vec![42u8; 50_000];
    let pieces = ec_encode(&data, &cfg(4, 2)).unwrap();
    let mut slots = all(&pieces);
    slots[1] = None;
    slots[5] = None;
    let rebuilt = ec_repair_pieces(slots, 4, 2).unwrap();
    assert_eq!(rebuilt[1], pieces[1], "the data piece came back bit for bit");
    assert_eq!(rebuilt[5], pieces[5], "the parity piece came back bit for bit");
}

#[test]
fn header_rejects_raw_bodies_and_size_mismatch() {
    assert!(parse_piece_header(b"raw user data, not a piece").is_none());
    // the right magic with a stripe that does not fit logical / k is no piece
    let mut fake = encode_piece_header(&PieceHeader {
        k: 4,
        m: 2,
        piece_idx: 0,
        logical_len: 1000,
    })
    .to_vec();
    fake.extend_from_slice(&[0u8; 17]); // ceil(1000 / 4) = 250, not 17
    assert!(parse_piece_header(&fake).is_none());
    // an honest piece parses
    let pieces = ec_encode(&[7u8; 1000], &cfg(4, 2)).unwrap();
    let h = parse_piece_header(&pieces[3]).unwrap();
    assert_eq!((h.k, h.m, h.piece_idx, h.logical_len), (4, 2, 3, 1000));
}

#[test]
fn pieces_hold_the_stripes_in_order() {
    let pieces = ec_encode(&[1, 2, 3, 4, 5], &cfg(2, 1)).unwrap();
    assert_eq!(&pieces[0][16..], &[1, 2, 3]);
    assert_eq!(&pieces[1][16..], &[4, 5, 0]);
    let stripes = vec![Some(vec![1, 2, 3]), Some(vec![4, 5, 0]), None];
    assert_eq!(join_stripes(&stripes, 2, 5), vec![1, 2, 3, 4, 5]);
}

#[test]
fn impossible_codes_are_refused() {
    let e = ec_encode(&[1, 2, 3], &cfg(2, 0)).unwrap_err();
    assert!(matches!(e, DomainError::Io(_)), "{e:?}");
    let e = ec_encode(&[1, 2, 3], &cfg(200, 100)).unwrap_err();
    assert!(matches!(e, DomainError::Io(_)), "{e:?}");
    assert!(ec_decode(vec![None, None, None], 2, 1).is_err());
}

#[test]
fn empty_objects_have_pieces_of_a_header_alone() {
    let pieces = ec_encode(&[], &cfg(4, 2)).unwrap();
    assert_eq!(pieces.len(), 6);
    for (i, p) in pieces.iter().enumerate() {
        assert_eq!(p.len(), EC_HEADER_LEN);
        let h = PieceHeader { k: 4, m: 2, piece_idx: i as u8, logical_len: 0 };
        assert_eq!(parse_piece_header(p), Some(h));
    }
    let mut slots = all(&pieces);
    slots[0] = None;
    slots[5] = None;
    assert_eq!(ec_decode(slots.clone(), 4, 2).unwrap(), Vec::<u8>::new());
    assert_eq!(ec_repair_pieces(slots, 4, 2).unwrap(), pieces);
    // a stripe behind the header does not belong to an empty object
    let mut long = pieces[0].clone();
    long.push(0);
    assert_eq!(parse_piece_header(&long), None);
}
