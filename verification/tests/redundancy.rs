use std::collections::BTreeMap;

use ozd::domain::{DomainError, ShardId};
use ozd::erasure::{ec_encode, EcConfig};
use ozd::pool::{plan_put, PoolConfig};
use ozd::migrate::{MigAction, MigEvent, MigrateOutcome, Migration};
use ozd::repair::{Repair, RepairAction, RepairEvent};

const EC: EcConfig = EcConfig { data: 2, parity: 2, min_size: 10, write_quorum: 3 };

type Held = BTreeMap<u16, Vec<u8>>;

fn body() -> Vec<u8> {
    (0u8..100).collect()
}

fn ids(v: &[u16]) -> Vec<ShardId> {
    v.iter().map(|i| ShardId(*i)).collect()
}

fn fault() -> DomainError {
    DomainError::Io("disk".to_string())
}

/// Migrates an object whose shards by rank are 0, 1, 2 and 3; every state on the way is
/// looked at.
fn migrate(
    held: &mut Held,
    bad_writes: &[u16],
    garbled: &[u16],
    look: &mut dyn FnMut(&Held),
) -> Result<MigrateOutcome, DomainError> {
    let (mut run, mut a) = Migration::begin(ids(&[0, 1, 2, 3]), 5, &EC, 2).unwrap();
    loop {
        look(held);
        let ev = match a {
            MigAction::AskHas(s) => MigEvent::Has(held.contains_key(&s.0)),
            MigAction::AskStat(s) => MigEvent::Stat(held.get(&s.0).map(|b| (b.len() as u64, None))),
            MigAction::AskBody(s) => {
                MigEvent::Body(held.get(&s.0).cloned().ok_or(DomainError::NotFound))
            }
            MigAction::SetLength(_, _) => MigEvent::Has(true),
            MigAction::PutPiece(s, p, len) => {
                assert_eq!(len, 100);
                if bad_writes.contains(&s.0) {
                    MigEvent::Put(Err(fault()))
                } else {
                    let stored = if garbled.contains(&s.0) { b"garbled".to_vec() } else { p };
                    held.insert(s.0, stored);
                    MigEvent::Put(Ok(()))
                }
            }
            MigAction::Delete(s) => {
                held.remove(&s.0);
                MigEvent::Ack
            }
            MigAction::Finish(r) => return r,
        };
        a = run.advance(ev);
    }
}

fn readable(held: &Held) -> bool {
    let pieces = ec_encode(&body(), &EC).unwrap();
    let copy = (0..2).any(|r| held.get(&r) == Some(&body()));
    let in_place = (0..4).filter(|r| held.get(&(*r as u16)) == Some(&pieces[*r])).count();
    copy || in_place >= 2
}

#[test]
fn migrated_objects_stay_readable() {
    let pieces = ec_encode(&body(), &EC).unwrap();
    let mut look = |h: &Held| assert!(readable(h));

    // with a stray copy on the fifth shard
    let mut held: Held = [0, 1, 4].into_iter().map(|i| (i, body())).collect();
    assert_eq!(migrate(&mut held, &[], &[], &mut look).unwrap(), MigrateOutcome::Migrated);
    for r in 0..4u16 {
        assert_eq!(held[&r], pieces[r as usize]);
    }
    assert!(!held.contains_key(&4));

    // a copy that cannot be replaced stays
    let mut held: Held = [0, 1].into_iter().map(|i| (i, body())).collect();
    assert_eq!(migrate(&mut held, &[1], &[], &mut look).unwrap(), MigrateOutcome::Migrated);
    assert_eq!(held[&0], pieces[0]);
    assert_eq!(held[&1], body());

    // even garbled writes over the copies leave enough pieces
    let mut held: Held = [0, 1].into_iter().map(|i| (i, body())).collect();
    assert_eq!(migrate(&mut held, &[], &[0, 1], &mut look).unwrap(), MigrateOutcome::Migrated);

    // behind the copies they undo the migration
    let before: Held = [0, 1].into_iter().map(|i| (i, body())).collect();
    let mut held = before.clone();
    assert_eq!(migrate(&mut held, &[], &[3], &mut look).unwrap(), MigrateOutcome::CanaryFailed);
    assert_eq!(held, before);
    let r = migrate(&mut held, &[2], &[], &mut look);
    assert_eq!(r.err().unwrap().message(), fault().message());
    assert_eq!(held, before);
}

/// Repairs an object; how many writes succeeded, and how many are left.
fn mend(
    held: &mut Held,
    ec: Option<(usize, Vec<ShardId>)>,
    desired: &[u16],
    bad_writes: &[u16],
) -> Result<(usize, usize), DomainError> {
    let (mut run, mut a) = Repair::begin(ec, ids(desired), 6, 2);
    loop {
        let (s, p) = match a {
            RepairAction::AskHas(s) => {
                a = run.advance(RepairEvent::Has(held.contains_key(&s.0)));
                continue;
            }
            RepairAction::AskBody(s) => {
                a = run.advance(RepairEvent::Body(held.get(&s.0).cloned()));
                continue;
            }
            RepairAction::PutPiece(s, p, len) => {
                assert_eq!(len, 100);
                (s, p)
            }
            RepairAction::PutCopy(s, p) => (s, p),
            RepairAction::Finish(r) => return r,
        };
        let ok = !bad_writes.contains(&s.0);
        if ok {
            held.insert(s.0, p);
        }
        a = run.advance(RepairEvent::Put(ok));
    }
}

#[test]
fn repaired_mirrors_are_whole() {
    // the only copy left is on a shard that should not have one
    for ec in [None, Some((4, ids(&[2, 0, 1, 3])))] {
        let mut held: Held = [(5, body())].into_iter().collect();
        assert_eq!(mend(&mut held, ec.clone(), &[2, 0], &[]).unwrap(), (2, 0));
        assert_eq!(held.keys().copied().collect::<Vec<u16>>(), [0, 2, 5]);
        assert!(held.values().all(|b| *b == body()));

        // a write that fails is left to do
        let mut held: Held = [(2, body())].into_iter().collect();
        assert_eq!(mend(&mut held, ec.clone(), &[2, 0], &[0]).unwrap(), (0, 1));

        let mut held = Held::new();
        assert!(mend(&mut held, ec, &[2, 0], &[]).is_err());
    }
}

#[test]
fn repaired_pieces_are_whole() {
    let pieces = ec_encode(&body(), &EC).unwrap();
    let ec = || Some((4, ids(&[2, 0, 1, 3])));
    let ranks = [2u16, 0, 1, 3];
    // any two of four pieces are enough; those on the first two shards alone look like
    // the copies of a small object
    for lost in [[0usize, 1], [0, 2], [0, 3], [1, 2], [1, 3]] {
        let mut held = Held::new();
        for r in 0..4 {
            if !lost.contains(&r) {
                held.insert(ranks[r], pieces[r].clone());
            }
        }
        assert_eq!(mend(&mut held, ec(), &[2, 0], &[]).unwrap(), (2, 0));
        for r in 0..4 {
            assert_eq!(held[&ranks[r]], pieces[r]);
        }
    }
    // strays count, and a piece on the wrong shard gives way
    let mut held: Held = [(2, pieces[3].clone()), (5, pieces[1].clone())].into_iter().collect();
    assert_eq!(mend(&mut held, ec(), &[2, 0], &[]).unwrap(), (4, 0));
    for r in 0..4 {
        assert_eq!(held[&ranks[r]], pieces[r]);
    }
    // one piece is too few
    let mut held: Held = [(3, pieces[3].clone())].into_iter().collect();
    let r = mend(&mut held, ec(), &[2, 0], &[]);
    assert_eq!(r.err().unwrap().message(), "io: ec repair: fewer than 2 pieces");
}

#[test]
fn writes_need_their_quorum_of_shards() {
    let mirror = PoolConfig { replicas: 3, write_quorum: 2, ..PoolConfig::default() };
    for legs in 0..2 {
        let e = plan_put(&mirror, b"x", legs).unwrap_err();
        assert!(matches!(e, DomainError::QuorumNotReached { ok: 0, want: 2 }), "{e:?}");
    }
    let p = plan_put(&mirror, b"x", 2).unwrap();
    assert_eq!((p.need, p.want, p.pieces), (2, 2, None));
    let coded = PoolConfig { ec: Some(EC), ..mirror };
    assert!(plan_put(&coded, &body(), 2).is_err());
    let p = plan_put(&coded, &body(), 3).unwrap();
    assert_eq!((p.need, p.obj), (3, Some(100)));
    assert_eq!(p.pieces.unwrap(), ec_encode(&body(), &EC).unwrap());
}

#[test]
fn migrations_cost_what_they_move() {
    let (mut run, _) = Migration::begin(ids(&[0, 1, 2, 3]), 5, &EC, 2).unwrap();
    run.body_len = 100;
    run.old_bytes = 7;
    assert_eq!(run.cost(&Ok(MigrateOutcome::Migrated)), 407);
    assert_eq!(run.cost(&Ok(MigrateOutcome::SkippedEc)), 7);
    assert_eq!(run.cost(&Err(fault())), 7);
}
