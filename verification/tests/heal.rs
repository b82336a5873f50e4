use ozd::domain::{BlockKey, DomainError};
use ozd::heal::{HealPriority, HealQueue};
use ozd::walk::{is_healed, settle_batch, take_batch};

#[test]
fn heal_queue_priority_dedup_and_upgrade() {
    let mut q = HealQueue::new();
    q.push(BlockKey::from("/k/a"), HealPriority::Normal);
    q.push(BlockKey::from("/k/b"), HealPriority::Urgent);
    q.push(BlockKey::from("/k/c"), HealPriority::Normal);
    q.push(BlockKey::from("/k/a"), HealPriority::Normal); // a double: merged
    assert_eq!(q.len(), 3);
    // c is raised to High and passes a
    q.push(BlockKey::from("/k/c"), HealPriority::High);
    assert_eq!(q.len(), 3);
    let order: Vec<(String, HealPriority)> = std::iter::from_fn(|| q.pop())
        .map(|(k, p)| (String::from_utf8_lossy(k.as_bytes()).into_owned(), p))
        .collect();
    assert_eq!(
        order.iter().map(|(k, _)| k.as_str()).collect::<Vec<_>>(),
        vec!["/k/b", "/k/c", "/k/a"],
        "Urgent, then High (raised), then Normal: {order:?}"
    );
    assert_eq!(order[1].1, HealPriority::High);
    assert_eq!(q.len(), 0);
}

#[test]
fn equal_priorities_leave_in_order() {
    let mut q = HealQueue::new();
    for i in 0..5 {
        q.push(BlockKey::new(vec![i]), HealPriority::Low);
    }
    // a lower request does not push a key back
    q.push(BlockKey::new(vec![9]), HealPriority::High);
    q.push(BlockKey::new(vec![9]), HealPriority::Low);
    let batch = take_batch(&mut q, 4);
    let keys: Vec<u8> = batch.iter().map(|(k, _)| k.as_bytes()[0]).collect();
    assert_eq!(keys, [9, 0, 1, 2]);
    assert_eq!(batch[0].1, HealPriority::High);
    assert_eq!(q.len(), 2);
}

#[test]
fn healed_means_no_leg_failed() {
    assert!(is_healed(&Ok((2, 0))));
    assert!(!is_healed(&Ok((1, 1))));
    assert!(!is_healed(&Err(DomainError::NotFound)));
}

#[test]
fn priorities_have_levels() {
    assert!(HealPriority::Urgent.level() > HealPriority::High.level());
    assert!(HealPriority::High.level() > HealPriority::Normal.level());
    assert!(HealPriority::Normal.level() > HealPriority::Low.level());
}

#[test]
fn drains_lose_no_request() {
    let mut q = HealQueue::new();
    for (k, p) in [("/a", HealPriority::Low), ("/b", HealPriority::Urgent), ("/c", HealPriority::High)] {
        q.push(BlockKey::from(k), p);
    }
    let batch = take_batch(&mut q, 8);
    assert_eq!(q.len(), 0);
    // raised again while it was being worked on
    q.push(BlockKey::from("/a"), HealPriority::High);
    // the batch is b, c, a; c is healed
    assert_eq!(settle_batch(&mut q, batch, &vec![false, true, false]), (1, 2));
    let left = take_batch(&mut q, 8);
    let left: Vec<(&[u8], HealPriority)> = left.iter().map(|(k, p)| (k.as_bytes(), *p)).collect();
    assert_eq!(left, [(&b"/b"[..], HealPriority::Urgent), (&b"/a"[..], HealPriority::High)]);
}
