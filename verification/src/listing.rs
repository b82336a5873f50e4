//! Sorted listings: filtering by prefix and position, merging, paging.
use vstd::prelude::*;
use crate::bytes;
use crate::domain::BlockKey;
use crate::index;

verus! {

/// A listed key with its size.
pub type Item = (Vec<u8>, u64);

/// Keys and sizes taken by value.
pub open spec fn item_views(v: Seq<(Vec<u8>, u64)>) -> Seq<(Seq<u8>, u64)> {
    Seq::new(v.len(), |i: int| (v[i].0@, v[i].1))
}

/// Keys in strictly rising order.
pub open spec fn keys_rise(v: Seq<(Seq<u8>, u64)>) -> bool {
    forall|i: int, j: int|
        0 <= i < j < v.len() ==> bytes::lex_lt((#[trigger] v[i]).0, (#[trigger] v[j]).0)
}

/// Whether a key has the prefix and comes strictly after a position.
pub open spec fn wanted(prefix: Seq<u8>, after: Option<Seq<u8>>, key: Seq<u8>) -> bool {
    bytes::has_prefix(key, prefix) && match after {
        Some(a) => bytes::lex_lt(a, key),
        None => true,
    }
}

/// The wanted items, in order.
pub open spec fn picked(
    items: Seq<(Seq<u8>, u64)>,
    prefix: Seq<u8>,
    after: Option<Seq<u8>>,
) -> Seq<(Seq<u8>, u64)>
    decreases items.len(),
{
    if items.len() == 0 {
        Seq::empty()
    } else if wanted(prefix, after, items[0].0) {
        seq![items[0]] + picked(items.skip(1), prefix, after)
    } else {
        picked(items.skip(1), prefix, after)
    }
}

/// Two rising listings as one.  Of a key in both, the left size is kept when
/// `left` is set, the smaller one otherwise.
pub open spec fn merged(
    a: Seq<(Seq<u8>, u64)>,
    b: Seq<(Seq<u8>, u64)>,
    left: bool,
) -> Seq<(Seq<u8>, u64)>
    decreases a.len() + b.len(),
{
    if a.len() == 0 {
        b
    } else if b.len() == 0 {
        a
    } else if a[0].0 == b[0].0 {
        seq![(a[0].0, kept_size(a[0].1, b[0].1, left))] + merged(a.skip(1), b.skip(1), left)
    } else if bytes::lex_lt(a[0].0, b[0].0) {
        seq![a[0]] + merged(a.skip(1), b, left)
    } else {
        seq![b[0]] + merged(a, b.skip(1), left)
    }
}

pub open spec fn kept_size(a: u64, b: u64, left: bool) -> u64 {
    if left || a <= b {
        a
    } else {
        b
    }
}

/// At most the first `n` items.
pub open spec fn first_items(v: Seq<(Seq<u8>, u64)>, n: nat) -> Seq<(Seq<u8>, u64)> {
    if v.len() <= n {
        v
    } else {
        v.take(n as int)
    }
}

/// Copies a key.
fn copy_key(k: &Vec<u8>) -> (r: Vec<u8>)
    ensures
        r@ == k@,
{
    let r = bytes::copy_range(k.as_slice(), 0, k.len());
    assert(r@ =~= k@);
    r
}

/// Whether a key has the prefix and comes strictly after a position.
pub fn is_wanted(prefix: &[u8], after: Option<&BlockKey>, key: &[u8]) -> (r: bool)
    ensures
        r == wanted(
            prefix@,
            match after {
                Some(a) => Some(a@),
                None => None,
            },
            key@,
        ),
{
    if !bytes::starts_with(key, prefix) {
        return false;
    }
    match after {
        Some(a) => bytes::bytes_lt(a.as_bytes(), key),
        None => true,
    }
}

/// The wanted items, in order.
pub fn pick(items: &Vec<(Vec<u8>, u64)>, prefix: &[u8], after: Option<&BlockKey>) -> (r: Vec<
    (Vec<u8>, u64),
>)
    ensures
        item_views(r@) == picked(
            item_views(items@),
            prefix@,
            match after {
                Some(a) => Some(a@),
                None => None,
            },
        ),
{
    let ghost iv = item_views(items@);
    let ghost av = match after {
        Some(a) => Some(a@),
        None => None,
    };
    let mut out: Vec<(Vec<u8>, u64)> = Vec::new();
    let mut i: usize = 0;
    assert(iv.skip(0) =~= iv);
    assert(item_views(out@) + picked(iv, prefix@, av) =~= picked(iv, prefix@, av));
    while i < items.len()
        invariant
            i <= items@.len(),
            iv == item_views(items@),
            av == (match after {
                Some(a) => Some(a@),
                None => None,
            }),
            picked(iv, prefix@, av) == item_views(out@) + picked(iv.skip(i as int), prefix@, av),
        decreases items@.len() - i,
    {
        let ghost before = out@;
        let ghost rest = iv.skip(i as int);
        assert(rest[0] == (items@[i as int].0@, items@[i as int].1));
        assert(rest.skip(1) =~= iv.skip(i + 1));
        if is_wanted(prefix, after, items[i].0.as_slice()) {
            out.push((copy_key(&items[i].0), items[i].1));
            assert(item_views(out@) =~= item_views(before).push(rest[0]));
            assert(item_views(before) + (seq![rest[0]] + picked(iv.skip(i + 1), prefix@, av))
                =~= item_views(out@) + picked(iv.skip(i + 1), prefix@, av));
        }
        i = i + 1;
    }
    assert(iv.skip(items@.len() as int) =~= Seq::empty());
    assert(item_views(out@) + Seq::<(Seq<u8>, u64)>::empty() =~= item_views(out@));
    out
}

/// Merges two rising listings; with a limit at most so many items are kept.
pub fn merge(
    a: &Vec<(Vec<u8>, u64)>,
    b: &Vec<(Vec<u8>, u64)>,
    left: bool,
    limit: Option<usize>,
) -> (r: Vec<(Vec<u8>, u64)>)
    ensures
        item_views(r@) == match limit {
            Some(n) => first_items(merged(item_views(a@), item_views(b@), left), n as nat),
            None => merged(item_views(a@), item_views(b@), left),
        },
{
    let ghost av = item_views(a@);
    let ghost bv = item_views(b@);
    let ghost whole = merged(av, bv, left);
    let mut out: Vec<(Vec<u8>, u64)> = Vec::new();
    let mut i: usize = 0;
    let mut j: usize = 0;
    assert(av.skip(0) =~= av && bv.skip(0) =~= bv);
    assert(item_views(out@) + whole =~= whole);
    let mut more = match limit {
        Some(n) => n > 0,
        None => true,
    };
    while more && (i < a.len() || j < b.len())
        invariant
            i <= a@.len(),
            j <= b@.len(),
            limit matches Some(n) ==> out@.len() <= n && more == (out@.len() < n),
            limit is None ==> more,
            av == item_views(a@),
            bv == item_views(b@),
            whole == item_views(out@) + merged(av.skip(i as int), bv.skip(j as int), left),
        decreases (a@.len() - i) + (b@.len() - j),
    {
        let ghost x = av.skip(i as int);
        let ghost y = bv.skip(j as int);
        let ghost before = item_views(out@);
        let ghost rest = merged(x, y, left);
        assert(x.len() > 0 ==> x[0] == (a@[i as int].0@, a@[i as int].1));
        assert(y.len() > 0 ==> y[0] == (b@[j as int].0@, b@[j as int].1));
        assert(x.len() > 0 ==> x.skip(1) =~= av.skip(i + 1));
        assert(y.len() > 0 ==> y.skip(1) =~= bv.skip(j + 1));
        let take_a = if i >= a.len() {
            false
        } else if j >= b.len() {
            true
        } else {
            bytes::same_bytes(a[i].0.as_slice(), b[j].0.as_slice()) || bytes::bytes_lt(
                a[i].0.as_slice(),
                b[j].0.as_slice(),
            )
        };
        if take_a {
            let both = j < b.len() && bytes::same_bytes(a[i].0.as_slice(), b[j].0.as_slice());
            let size: u64 = if both && !left && b[j].1 < a[i].1 {
                b[j].1
            } else {
                a[i].1
            };
            out.push((copy_key(&a[i].0), size));
            i = i + 1;
            if both {
                j = j + 1;
            }
        } else {
            out.push((copy_key(&b[j].0), b[j].1));
            j = j + 1;
        }
        proof {
            let now = item_views(out@);
            assert(now =~= before.push(now.last()));
            let tail = merged(av.skip(i as int), bv.skip(j as int), left);
            assert(rest =~= seq![now.last()] + tail);
            assert(before + (seq![now.last()] + tail) =~= now + tail);
        }
        more = match limit {
            Some(n) => out.len() < n,
            None => true,
        };
    }
    proof {
        if i == a@.len() && j == b@.len() {
            assert(av.skip(i as int) =~= Seq::empty());
            assert(bv.skip(j as int) =~= Seq::empty());
            assert(whole =~= item_views(out@));
        } else {
            assert(item_views(out@) =~= whole.take(limit->0 as int));
            lemma_merged_len(av.skip(i as int), bv.skip(j as int), left);
        }
    }
    out
}

proof fn lemma_merged_len(a: Seq<(Seq<u8>, u64)>, b: Seq<(Seq<u8>, u64)>, left: bool)
    ensures
        merged(a, b, left).len() >= a.len(),
        merged(a, b, left).len() >= b.len(),
    decreases a.len() + b.len(),
{
    if a.len() > 0 && b.len() > 0 {
        if a[0].0 == b[0].0 {
            lemma_merged_len(a.skip(1), b.skip(1), left);
        } else if bytes::lex_lt(a[0].0, b[0].0) {
            lemma_merged_len(a.skip(1), b, left);
        } else {
            lemma_merged_len(a, b.skip(1), left);
        }
    }
}

/// Where a scan for keys with the prefix, after a position, starts.
pub fn list_start(prefix: &[u8], after: Option<&BlockKey>) -> (r: Vec<u8>)
    ensures
        r@ == (match after {
            Some(a) => if bytes::lex_lt(a@.push(0u8), prefix@) {
                prefix@
            } else {
                a@.push(0u8)
            },
            None => prefix@,
        }),
{
    match after {
        Some(a) => {
            let mut s = bytes::copy_range(a.as_bytes(), 0, a.len());
            s.push(0);
            assert(s@ =~= a@.push(0u8));
            if bytes::bytes_lt(s.as_slice(), prefix) {
                let p = bytes::copy_range(prefix, 0, prefix.len());
                assert(p@ =~= prefix@);
                p
            } else {
                s
            }
        },
        None => {
            let p = bytes::copy_range(prefix, 0, prefix.len());
            assert(p@ =~= prefix@);
            p
        },
    }
}

/// The size under which an address row is listed: for a piece that of its
/// object.
pub open spec fn listed_size(row: Seq<u8>) -> u64 {
    match index::decoded_addr(row) {
        Some(e) => match e.obj_logical {
            Some(o) => o,
            None => e.logical_len as u64,
        },
        None => 0,
    }
}

pub fn row_size(row: &[u8]) -> (r: u64)
    ensures
        r == listed_size(row@),
{
    match index::decode_addr(row) {
        Some(e) => match e.obj_logical {
            Some(o) => o,
            None => e.logical_len as u64,
        },
        None => 0,
    }
}

/// Address rows as listed items.
pub open spec fn addr_items(rows: Seq<(Vec<u8>, Vec<u8>)>) -> Seq<(Seq<u8>, u64)> {
    Seq::new(rows.len(), |i: int| (rows[i].0@, listed_size(rows[i].1@)))
}

/// One page of a shard's keys: those of both tables that have the prefix and
/// come after the position, in order, at most `limit`.
pub fn list(
    addr_rows: &Vec<(Vec<u8>, Vec<u8>)>,
    inline_rows: &Vec<(Vec<u8>, u64)>,
    prefix: &[u8],
    after: Option<&BlockKey>,
    limit: usize,
) -> (r: Vec<(Vec<u8>, u64)>)
    ensures
        item_views(r@) == ({
            let at = match after {
                Some(a) => Some(a@),
                None => None,
            };
            first_items(
                merged(
                    picked(addr_items(addr_rows@), prefix@, at),
                    picked(item_views(inline_rows@), prefix@, at),
                    false,
                ),
                limit as nat,
            )
        }),
{
    let mut items: Vec<(Vec<u8>, u64)> = Vec::new();
    let mut i: usize = 0;
    while i < addr_rows.len()
        invariant
            i <= addr_rows@.len(),
            item_views(items@) =~= addr_items(addr_rows@).take(i as int),
        decreases addr_rows@.len() - i,
    {
        let ghost before = items@;
        items.push((copy_key(&addr_rows[i].0), row_size(addr_rows[i].1.as_slice())));
        assert(item_views(items@) =~= item_views(before).push(addr_items(addr_rows@)[i as int]));
        i = i + 1;
    }
    assert(addr_items(addr_rows@).take(addr_rows@.len() as int) =~= addr_items(addr_rows@));
    let a = pick(&items, prefix, after);
    let b = pick(inline_rows, prefix, after);
    merge(&a, &b, false, Some(limit))
}

/// Whether a listing holds a key.
pub open spec fn lists_key(v: Seq<(Seq<u8>, u64)>, key: Seq<u8>) -> bool {
    exists|i: int| 0 <= i < v.len() && (#[trigger] v[i]).0 == key
}

proof fn lemma_lists_skip(v: Seq<(Seq<u8>, u64)>, key: Seq<u8>)
    requires
        v.len() > 0,
    ensures
        lists_key(v, key) <==> (v[0].0 == key || lists_key(v.skip(1), key)),
{
    if lists_key(v, key) {
        let i = choose|i: int| 0 <= i < v.len() && (#[trigger] v[i]).0 == key;
        if i > 0 {
            assert(v.skip(1)[i - 1].0 == key);
        }
    }
    if lists_key(v.skip(1), key) {
        let i = choose|i: int| 0 <= i < v.skip(1).len() && (#[trigger] v.skip(1)[i]).0 == key;
        assert(v[i + 1].0 == key);
    }
}

proof fn lemma_lists_cons(x: (Seq<u8>, u64), v: Seq<(Seq<u8>, u64)>, key: Seq<u8>)
    ensures
        lists_key(seq![x] + v, key) <==> (x.0 == key || lists_key(v, key)),
{
    let w = seq![x] + v;
    assert(w.skip(1) =~= v);
    lemma_lists_skip(w, key);
}

/// A merge lists exactly the keys that one of the two listings has.
pub proof fn merge_lists_union(
    a: Seq<(Seq<u8>, u64)>,
    b: Seq<(Seq<u8>, u64)>,
    left: bool,
    key: Seq<u8>,
)
    ensures
        lists_key(merged(a, b, left), key) <==> (lists_key(a, key) || lists_key(b, key)),
    decreases a.len() + b.len(),
{
    if a.len() > 0 && b.len() > 0 {
        lemma_lists_skip(a, key);
        lemma_lists_skip(b, key);
        if a[0].0 == b[0].0 {
            merge_lists_union(a.skip(1), b.skip(1), left, key);
            lemma_lists_cons(
                (a[0].0, kept_size(a[0].1, b[0].1, left)),
                merged(a.skip(1), b.skip(1), left),
                key,
            );
        } else if bytes::lex_lt(a[0].0, b[0].0) {
            merge_lists_union(a.skip(1), b, left, key);
            lemma_lists_cons(a[0], merged(a.skip(1), b, left), key);
        } else {
            merge_lists_union(a, b.skip(1), left, key);
            lemma_lists_cons(b[0], merged(a, b.skip(1), left), key);
        }
    }
}

proof fn lemma_rise_skip(v: Seq<(Seq<u8>, u64)>)
    requires
        keys_rise(v),
        v.len() > 0,
    ensures
        keys_rise(v.skip(1)),
        forall|k: Seq<u8>| #[trigger] lists_key(v.skip(1), k) ==> bytes::lex_lt(v[0].0, k),
{
    let w = v.skip(1);
    assert forall|i: int, j: int| 0 <= i < j < w.len() implies bytes::lex_lt(
        (#[trigger] w[i]).0,
        (#[trigger] w[j]).0,
    ) by {
        assert(w[i] == v[i + 1] && w[j] == v[j + 1]);
    }
    assert forall|k: Seq<u8>| #[trigger] lists_key(w, k) implies bytes::lex_lt(v[0].0, k) by {
        let i = choose|i: int| 0 <= i < w.len() && (#[trigger] w[i]).0 == k;
        assert(w[i] == v[i + 1]);
    }
}

proof fn lemma_rise_cons(x: (Seq<u8>, u64), v: Seq<(Seq<u8>, u64)>)
    requires
        keys_rise(v),
        forall|k: Seq<u8>| #[trigger] lists_key(v, k) ==> bytes::lex_lt(x.0, k),
    ensures
        keys_rise(seq![x] + v),
{
    let w = seq![x] + v;
    assert forall|i: int, j: int| 0 <= i < j < w.len() implies bytes::lex_lt(
        (#[trigger] w[i]).0,
        (#[trigger] w[j]).0,
    ) by {
        assert(w[j] == v[j - 1]);
        if i == 0 {
            assert(lists_key(v, v[j - 1].0));
        } else {
            assert(w[i] == v[i - 1]);
        }
    }
}

/// A merge of two rising listings rises: no key is listed twice.
pub proof fn merge_rises(a: Seq<(Seq<u8>, u64)>, b: Seq<(Seq<u8>, u64)>, left: bool)
    requires
        keys_rise(a),
        keys_rise(b),
    ensures
        keys_rise(merged(a, b, left)),
    decreases a.len() + b.len(),
{
    if a.len() > 0 && b.len() > 0 {
        lemma_rise_skip(a);
        lemma_rise_skip(b);
        if a[0].0 == b[0].0 {
            let m = merged(a.skip(1), b.skip(1), left);
            merge_rises(a.skip(1), b.skip(1), left);
            assert forall|k: Seq<u8>| #[trigger] lists_key(m, k) implies bytes::lex_lt(
                a[0].0,
                k,
            ) by {
                merge_lists_union(a.skip(1), b.skip(1), left, k);
            }
            lemma_rise_cons((a[0].0, kept_size(a[0].1, b[0].1, left)), m);
        } else if bytes::lex_lt(a[0].0, b[0].0) {
            let m = merged(a.skip(1), b, left);
            merge_rises(a.skip(1), b, left);
            assert forall|k: Seq<u8>| #[trigger] lists_key(m, k) implies bytes::lex_lt(
                a[0].0,
                k,
            ) by {
                merge_lists_union(a.skip(1), b, left, k);
                lemma_lists_skip(b, k);
                if lists_key(b.skip(1), k) {
                    bytes::lemma_lex_transitive(a[0].0, b[0].0, k);
                }
            }
            lemma_rise_cons(a[0], m);
        } else {
            bytes::lemma_lex_total(a[0].0, b[0].0);
            let m = merged(a, b.skip(1), left);
            merge_rises(a, b.skip(1), left);
            assert forall|k: Seq<u8>| #[trigger] lists_key(m, k) implies bytes::lex_lt(
                b[0].0,
                k,
            ) by {
                merge_lists_union(a, b.skip(1), left, k);
                lemma_lists_skip(a, k);
                if lists_key(a.skip(1), k) {
                    bytes::lemma_lex_transitive(b[0].0, a[0].0, k);
                }
            }
            lemma_rise_cons(b[0], m);
        }
    }
}

proof fn lemma_picked_keys(
    v: Seq<(Seq<u8>, u64)>,
    prefix: Seq<u8>,
    after: Option<Seq<u8>>,
    key: Seq<u8>,
)
    ensures
        lists_key(picked(v, prefix, after), key) <==> lists_key(v, key) && wanted(
            prefix,
            after,
            key,
        ),
    decreases v.len(),
{
    if v.len() > 0 {
        lemma_picked_keys(v.skip(1), prefix, after, key);
        lemma_lists_skip(v, key);
        lemma_lists_cons(v[0], picked(v.skip(1), prefix, after), key);
    }
}

proof fn lemma_picked_rises(v: Seq<(Seq<u8>, u64)>, prefix: Seq<u8>, after: Option<Seq<u8>>)
    requires
        keys_rise(v),
    ensures
        keys_rise(picked(v, prefix, after)),
    decreases v.len(),
{
    if v.len() > 0 {
        lemma_rise_skip(v);
        lemma_picked_rises(v.skip(1), prefix, after);
        let p = picked(v.skip(1), prefix, after);
        if wanted(prefix, after, v[0].0) {
            assert forall|k: Seq<u8>| #[trigger] lists_key(p, k) implies bytes::lex_lt(
                v[0].0,
                k,
            ) by {
                lemma_picked_keys(v.skip(1), prefix, after, k);
            }
            lemma_rise_cons(v[0], p);
        }
    }
}

/// A page rises, and holds exactly keys that are in one of the tables, have the
/// prefix and come after the position.
pub proof fn page_is_sorted_and_sound(
    a: Seq<(Seq<u8>, u64)>,
    b: Seq<(Seq<u8>, u64)>,
    prefix: Seq<u8>,
    after: Option<Seq<u8>>,
    limit: nat,
)
    requires
        keys_rise(a),
        keys_rise(b),
    ensures
        ({
            let page = first_items(
                merged(picked(a, prefix, after), picked(b, prefix, after), false),
                limit,
            );
            &&& page.len() <= limit
            &&& keys_rise(page)
            &&& forall|k: Seq<u8>| #[trigger]
                lists_key(page, k) ==> wanted(prefix, after, k) && (lists_key(a, k) || lists_key(
                    b,
                    k,
                ))
            // a page with room left holds all of them
            &&& page.len() < limit ==> forall|k: Seq<u8>| #[trigger]
                lists_key(page, k) <==> wanted(prefix, after, k) && (lists_key(a, k) || lists_key(
                    b,
                    k,
                ))
        }),
{
    let pa = picked(a, prefix, after);
    let pb = picked(b, prefix, after);
    let m = merged(pa, pb, false);
    let page = first_items(m, limit);
    lemma_picked_rises(a, prefix, after);
    lemma_picked_rises(b, prefix, after);
    merge_rises(pa, pb, false);
    assert forall|i: int, j: int| 0 <= i < j < page.len() implies bytes::lex_lt(
        (#[trigger] page[i]).0,
        (#[trigger] page[j]).0,
    ) by {
        assert(page[i] == m[i] && page[j] == m[j]);
    }
    assert forall|k: Seq<u8>| #[trigger] lists_key(m, k) <==> wanted(prefix, after, k) && (
    lists_key(a, k) || lists_key(b, k)) by {
        merge_lists_union(pa, pb, false, k);
        lemma_picked_keys(a, prefix, after, k);
        lemma_picked_keys(b, prefix, after, k);
    }
    assert forall|k: Seq<u8>| #[trigger] lists_key(page, k) implies lists_key(m, k) by {
        let i = choose|i: int| 0 <= i < page.len() && (#[trigger] page[i]).0 == k;
        assert(m[i].0 == k);
    }
}

proof fn lemma_picked_twice(
    v: Seq<(Seq<u8>, u64)>,
    prefix: Seq<u8>,
    after: Option<Seq<u8>>,
    k: Seq<u8>,
)
    requires
        after matches Some(a) ==> bytes::lex_lt(a, k),
    ensures
        picked(picked(v, prefix, after), prefix, Some(k)) == picked(v, prefix, Some(k)),
    decreases v.len(),
{
    if v.len() > 0 {
        let t = picked(v.skip(1), prefix, after);
        lemma_picked_twice(v.skip(1), prefix, after, k);
        if wanted(prefix, after, v[0].0) {
            assert((seq![v[0]] + t).skip(1) =~= t);
        } else if wanted(prefix, Some(k), v[0].0) {
            bytes::lemma_lex_transitive(after->0, k, v[0].0);
        }
    }
}

proof fn lemma_merged_cons(
    x: (Seq<u8>, u64),
    a: Seq<(Seq<u8>, u64)>,
    b: Seq<(Seq<u8>, u64)>,
    left: bool,
)
    requires
        forall|k: Seq<u8>| #[trigger] lists_key(b, k) ==> bytes::lex_lt(x.0, k),
    ensures
        merged(seq![x] + a, b, left) == seq![x] + merged(a, b, left),
        merged(b, seq![x] + a, left) == seq![x] + merged(b, a, left),
{
    let w = seq![x] + a;
    assert(w.skip(1) =~= a);
    if b.len() > 0 {
        assert(lists_key(b, b[0].0));
        bytes::lemma_lex_total(x.0, b[0].0);
    } else {
        assert(merged(a, b, left) =~= a);
        assert(b =~= Seq::empty());
    }
}

proof fn lemma_picked_merged(
    a: Seq<(Seq<u8>, u64)>,
    b: Seq<(Seq<u8>, u64)>,
    left: bool,
    prefix: Seq<u8>,
    at: Option<Seq<u8>>,
)
    requires
        keys_rise(a),
        keys_rise(b),
    ensures
        picked(merged(a, b, left), prefix, at) == merged(
            picked(a, prefix, at),
            picked(b, prefix, at),
            left,
        ),
    decreases a.len() + b.len(),
{
    if a.len() == 0 {
        assert(picked(a, prefix, at) =~= Seq::empty());
    } else if b.len() == 0 {
        assert(picked(b, prefix, at) =~= Seq::empty());
    } else {
        lemma_rise_skip(a);
        lemma_rise_skip(b);
        let pa = picked(a.skip(1), prefix, at);
        let pb = picked(b.skip(1), prefix, at);
        if a[0].0 == b[0].0 {
            let x = (a[0].0, kept_size(a[0].1, b[0].1, left));
            let m = merged(a.skip(1), b.skip(1), left);
            lemma_picked_merged(a.skip(1), b.skip(1), left, prefix, at);
            assert((seq![x] + m).skip(1) =~= m);
            if wanted(prefix, at, x.0) {
                assert((seq![a[0]] + pa).skip(1) =~= pa);
                assert((seq![b[0]] + pb).skip(1) =~= pb);
            }
        } else if bytes::lex_lt(a[0].0, b[0].0) {
            let m = merged(a.skip(1), b, left);
            lemma_picked_merged(a.skip(1), b, left, prefix, at);
            assert((seq![a[0]] + m).skip(1) =~= m);
            let fb = picked(b, prefix, at);
            assert forall|k: Seq<u8>| #[trigger] lists_key(fb, k) implies bytes::lex_lt(
                a[0].0,
                k,
            ) by {
                lemma_picked_keys(b, prefix, at, k);
                lemma_lists_skip(b, k);
                if lists_key(b.skip(1), k) {
                    bytes::lemma_lex_transitive(a[0].0, b[0].0, k);
                }
            }
            lemma_merged_cons(a[0], pa, fb, left);
        } else {
            bytes::lemma_lex_total(a[0].0, b[0].0);
            let m = merged(a, b.skip(1), left);
            lemma_picked_merged(a, b.skip(1), left, prefix, at);
            assert((seq![b[0]] + m).skip(1) =~= m);
            let fa = picked(a, prefix, at);
            assert forall|k: Seq<u8>| #[trigger] lists_key(fa, k) implies bytes::lex_lt(
                b[0].0,
                k,
            ) by {
                lemma_picked_keys(a, prefix, at, k);
                lemma_lists_skip(a, k);
                if lists_key(a.skip(1), k) {
                    bytes::lemma_lex_transitive(b[0].0, a[0].0, k);
                }
            }
            lemma_merged_cons(b[0], pb, fa, left);
        }
    }
}

/// Items at or before a position are not picked, all others are.
proof fn lemma_picked_is_rest(m: Seq<(Seq<u8>, u64)>, prefix: Seq<u8>, k: Seq<u8>, n: int)
    requires
        keys_rise(m),
        0 <= n <= m.len(),
        forall|i: int| 0 <= i < m.len() ==> bytes::has_prefix((#[trigger] m[i]).0, prefix),
        forall|i: int| 0 <= i < n ==> !bytes::lex_lt(k, (#[trigger] m[i]).0),
        forall|i: int| n <= i < m.len() ==> bytes::lex_lt(k, (#[trigger] m[i]).0),
    ensures
        picked(m, prefix, Some(k)) == m.skip(n),
    decreases m.len(),
{
    if m.len() == 0 {
        assert(m.skip(n) =~= Seq::empty());
    } else {
        let w = m.skip(1);
        lemma_rise_skip(m);
        assert forall|i: int| 0 <= i < w.len() implies bytes::has_prefix(
            (#[trigger] w[i]).0,
            prefix,
        ) by {
            assert(w[i] == m[i + 1]);
        }
        let n1 = if n > 0 {
            n - 1
        } else {
            0
        };
        assert forall|i: int| 0 <= i < n1 implies !bytes::lex_lt(k, (#[trigger] w[i]).0) by {
            assert(w[i] == m[i + 1]);
        }
        assert forall|i: int| n1 <= i < w.len() implies bytes::lex_lt(k, (#[trigger] w[i]).0) by {
            assert(w[i] == m[i + 1]);
        }
        lemma_picked_is_rest(w, prefix, k, n1);
        assert(bytes::has_prefix(m[0].0, prefix));
        if n > 0 {
            assert(w.skip(n1) =~= m.skip(n));
        } else {
            assert(w.skip(0) =~= w);
            assert(m.skip(0) =~= seq![m[0]] + w);
        }
    }
}

/// Pages join: what follows a page of `n` keys is the listing after the page's
/// last key, so walking page by page visits every key once.
pub proof fn pages_join(
    a: Seq<(Seq<u8>, u64)>,
    b: Seq<(Seq<u8>, u64)>,
    prefix: Seq<u8>,
    after: Option<Seq<u8>>,
    n: int,
)
    requires
        keys_rise(a),
        keys_rise(b),
        0 < n <= merged(picked(a, prefix, after), picked(b, prefix, after), false).len(),
    ensures
        ({
            let all = merged(picked(a, prefix, after), picked(b, prefix, after), false);
            let next = Some(all[n - 1].0);
            merged(picked(a, prefix, next), picked(b, prefix, next), false) == all.skip(n)
        }),
{
    let pa = picked(a, prefix, after);
    let pb = picked(b, prefix, after);
    let all = merged(pa, pb, false);
    let k = all[n - 1].0;
    lemma_picked_rises(a, prefix, after);
    lemma_picked_rises(b, prefix, after);
    merge_rises(pa, pb, false);
    assert forall|i: int| 0 <= i < all.len() implies wanted(
        prefix,
        after,
        (#[trigger] all[i]).0,
    ) by {
        let key = all[i].0;
        assert(lists_key(all, key));
        merge_lists_union(pa, pb, false, key);
        lemma_picked_keys(a, prefix, after, key);
        lemma_picked_keys(b, prefix, after, key);
    }
    assert(wanted(prefix, after, all[n - 1].0));
    lemma_picked_twice(a, prefix, after, k);
    lemma_picked_twice(b, prefix, after, k);
    lemma_picked_merged(pa, pb, false, prefix, Some(k));
    assert forall|i: int| 0 <= i < n implies !bytes::lex_lt(k, (#[trigger] all[i]).0) by {
        bytes::lemma_lex_total(all[i].0, k);
        if i < n - 1 {
            assert(bytes::lex_lt(all[i].0, all[n - 1].0));
        }
    }
    lemma_picked_is_rest(all, prefix, k, n);
}

/// A key is listed with the size of its object where its row is that of a piece, and with the
/// length of its body otherwise.
pub proof fn rows_are_listed_by_size(row: &[u8], e: index::AddrEntry, r: u64)
    requires
        call_ensures(row_size, (row,), r),
    ensures
        row@ == e.encoded() && e.obj_logical is Some ==> r == e.obj_logical->0,
        row@ == e.encoded() && e.obj_logical is None ==> r == e.logical_len,
{
    index::addr_round_trip(e);
}

/// A key is wanted exactly when the prefix stands in front of it and it comes after the
/// position.
pub proof fn wanted_keys_are_told(
    prefix: &[u8],
    after: Option<&BlockKey>,
    rest: Seq<u8>,
    key: &[u8],
    r: bool,
)
    requires
        call_ensures(is_wanted, (prefix, after, key), r),
    ensures
        key@ == prefix@ + rest && after is None ==> r,
        key@ == prefix@ + rest && after is Some ==> r == bytes::lex_lt(after->0@, key@),
        r ==> key@.len() >= prefix@.len() && key@.take(prefix@.len() as int) == prefix@,
{
    bytes::prefixes_stand_in_front(prefix@, rest, 0, key@);
    if r {
        assert(key@.take(prefix@.len() as int) =~= key@.subrange(0, prefix@.len() as int));
    }
}

pub(crate) proof fn lemma_merged_keeps(
    a: Seq<(Seq<u8>, u64)>,
    b: Seq<(Seq<u8>, u64)>,
    left: bool,
    x: (Seq<u8>, u64),
)
    requires
        keys_rise(a),
        keys_rise(b),
    ensures
        a.contains(x) && !lists_key(b, x.0) ==> merged(a, b, left).contains(x),
        b.contains(x) && !lists_key(a, x.0) ==> merged(a, b, left).contains(x),
    decreases a.len() + b.len(),
{
    if a.len() > 0 && b.len() > 0 {
        let m = merged(a, b, left);
        lemma_rise_skip(a);
        lemma_rise_skip(b);
        lemma_lists_skip(a, x.0);
        lemma_lists_skip(b, x.0);
        if a[0].0 == b[0].0 {
            let t = merged(a.skip(1), b.skip(1), left);
            lemma_merged_keeps(a.skip(1), b.skip(1), left, x);
            lemma_in_rest(a, x);
            lemma_in_rest(b, x);
            if t.contains(x) {
                let i = choose|i: int| 0 <= i < t.len() && t[i] == x;
                assert(m[i + 1] == x);
            }
            assert(b[0].0 == a[0].0);
            lemma_lists_at(a, 0);
            lemma_lists_at(b, 0);
        } else if bytes::lex_lt(a[0].0, b[0].0) {
            let t = merged(a.skip(1), b, left);
            lemma_merged_keeps(a.skip(1), b, left, x);
            lemma_in_rest(a, x);
            assert(m[0] == a[0]);
            if t.contains(x) {
                let i = choose|i: int| 0 <= i < t.len() && t[i] == x;
                assert(m[i + 1] == x);
            }
        } else {
            let t = merged(a, b.skip(1), left);
            lemma_merged_keeps(a, b.skip(1), left, x);
            lemma_in_rest(b, x);
            assert(m[0] == b[0]);
            if t.contains(x) {
                let i = choose|i: int| 0 <= i < t.len() && t[i] == x;
                assert(m[i + 1] == x);
            }
        }
    }
}

proof fn lemma_lists_at(v: Seq<(Seq<u8>, u64)>, i: int)
    requires
        0 <= i < v.len(),
    ensures
        lists_key(v, v[i].0),
{
}

proof fn lemma_in_rest(v: Seq<(Seq<u8>, u64)>, x: (Seq<u8>, u64))
    requires
        v.len() > 0,
    ensures
        v.contains(x) <==> v[0] == x || v.skip(1).contains(x),
{
    if v.contains(x) && v[0] != x {
        let i = choose|i: int| 0 <= i < v.len() && v[i] == x;
        assert(v.skip(1)[i - 1] == x);
    }
    if v.skip(1).contains(x) {
        let i = choose|i: int| 0 <= i < v.skip(1).len() && v.skip(1)[i] == x;
        assert(v[i + 1] == x);
    }
}

pub(crate) proof fn lemma_merged_both(
    a: Seq<(Seq<u8>, u64)>,
    b: Seq<(Seq<u8>, u64)>,
    left: bool,
    i: int,
    j: int,
)
    requires
        keys_rise(a),
        keys_rise(b),
        0 <= i < a.len(),
        0 <= j < b.len(),
        a[i].0 == b[j].0,
    ensures
        left || a[i].1 <= b[j].1 ==> merged(a, b, left).contains(a[i]),
        !left && b[j].1 <= a[i].1 ==> merged(a, b, left).contains(b[j]),
    decreases a.len() + b.len(),
{
    let m = merged(a, b, left);
    lemma_rise_skip(a);
    lemma_rise_skip(b);
    if a[0].0 == b[0].0 {
        if i == 0 || j == 0 {
            assert(i == 0 && j == 0) by {
                if i > 0 {
                    assert(bytes::lex_lt(a[0].0, a[i].0));
                    bytes::lemma_lex_total(a[0].0, a[i].0);
                }
                if j > 0 {
                    assert(bytes::lex_lt(b[0].0, b[j].0));
                    bytes::lemma_lex_total(b[0].0, b[j].0);
                }
            }
            assert(m[0] == (a[0].0, kept_size(a[0].1, b[0].1, left)));
        } else {
            let t = merged(a.skip(1), b.skip(1), left);
            assert(a.skip(1)[i - 1] == a[i] && b.skip(1)[j - 1] == b[j]);
            lemma_merged_both(a.skip(1), b.skip(1), left, i - 1, j - 1);
            assert(m =~= seq![m[0]] + t);
            lemma_behind(m[0], t, a[i]);
            lemma_behind(m[0], t, b[j]);
        }
    } else if bytes::lex_lt(a[0].0, b[0].0) {
        let t = merged(a.skip(1), b, left);
        if i == 0 {
            bytes::lemma_lex_total(a[0].0, b[0].0);
            if j > 0 {
                assert(bytes::lex_lt(b[0].0, b[j].0));
                bytes::lemma_lex_total(b[0].0, b[j].0);
            }
        } else {
            assert(a.skip(1)[i - 1] == a[i]);
            lemma_merged_both(a.skip(1), b, left, i - 1, j);
            lemma_behind(a[0], t, a[i]);
            lemma_behind(a[0], t, b[j]);
        }
    } else {
        let t = merged(a, b.skip(1), left);
        bytes::lemma_lex_total(a[0].0, b[0].0);
        if j == 0 {
            if i > 0 {
                assert(bytes::lex_lt(a[0].0, a[i].0));
                bytes::lemma_lex_total(a[0].0, a[i].0);
            }
        } else {
            assert(b.skip(1)[j - 1] == b[j]);
            lemma_merged_both(a, b.skip(1), left, i, j - 1);
            lemma_behind(b[0], t, a[i]);
            lemma_behind(b[0], t, b[j]);
        }
    }
}

proof fn lemma_behind(x: (Seq<u8>, u64), v: Seq<(Seq<u8>, u64)>, y: (Seq<u8>, u64))
    ensures
        v.contains(y) ==> (seq![x] + v).contains(y),
{
    if v.contains(y) {
        let i = choose|i: int| 0 <= i < v.len() && v[i] == y;
        assert((seq![x] + v)[i + 1] == y);
    }
}

/// A merge keeps every item with its size; of a key in both listings it keeps the left item,
/// or the smaller one where neither is preferred. A limit cuts the end off and nothing else.
pub proof fn merges_keep_sizes(
    a: &Vec<(Vec<u8>, u64)>,
    b: &Vec<(Vec<u8>, u64)>,
    left: bool,
    r: Vec<(Vec<u8>, u64)>,
    limited: Vec<(Vec<u8>, u64)>,
    limit: usize,
    i: int,
    j: int,
)
    requires
        keys_rise(item_views(a@)),
        keys_rise(item_views(b@)),
        call_ensures(merge, (a, b, left, None::<usize>), r),
        call_ensures(merge, (a, b, left, Some(limit)), limited),
        0 <= i < a@.len(),
    ensures
        !lists_key(item_views(b@), a@[i].0@) ==> item_views(r@).contains((a@[i].0@, a@[i].1)),
        0 <= j < b@.len() && b@[j].0@ == a@[i].0@ ==> item_views(r@).contains(
            (
                a@[i].0@,
                if left || a@[i].1 <= b@[j].1 {
                    a@[i].1
                } else {
                    b@[j].1
                },
            ),
        ),
        0 <= j < b@.len() && !lists_key(item_views(a@), b@[j].0@) ==> item_views(r@).contains(
            (b@[j].0@, b@[j].1),
        ),
        limited@.len() == if limit < r@.len() {
            limit as nat
        } else {
            r@.len()
        },
        item_views(limited@) == item_views(r@).take(limited@.len() as int),
{
    let av = item_views(a@);
    let bv = item_views(b@);
    assert(av[i] == (a@[i].0@, a@[i].1));
    assert(av.contains(av[i]));
    lemma_merged_keeps(av, bv, left, av[i]);
    if 0 <= j < b@.len() {
        assert(bv[j] == (b@[j].0@, b@[j].1));
        assert(bv.contains(bv[j]));
        lemma_merged_keeps(av, bv, left, bv[j]);
        if b@[j].0@ == a@[i].0@ {
            lemma_merged_both(av, bv, left, i, j);
        }
    }
    assert(item_views(r@).len() == r@.len());
    assert(item_views(limited@).len() == limited@.len());
    assert(item_views(limited@) =~= item_views(r@).take(limited@.len() as int));
}

proof fn lemma_picked_has(
    v: Seq<(Seq<u8>, u64)>,
    prefix: Seq<u8>,
    after: Option<Seq<u8>>,
    i: int,
)
    requires
        0 <= i < v.len(),
        wanted(prefix, after, v[i].0),
    ensures
        picked(v, prefix, after).contains(v[i]),
    decreases v.len(),
{
    let t = picked(v.skip(1), prefix, after);
    if i > 0 {
        assert(v.skip(1)[i - 1] == v[i]);
        lemma_picked_has(v.skip(1), prefix, after, i - 1);
        if wanted(prefix, after, v[0].0) {
            lemma_behind(v[0], t, v[i]);
        }
    } else {
        assert(picked(v, prefix, after)[0] == v[0]);
    }
}

/// A page with room left lists every wanted key of a shard with its size: that of the row for
/// one in a segment, that of the body for one in the inline table.
pub proof fn shards_list_their_keys(
    addr_rows: &Vec<(Vec<u8>, Vec<u8>)>,
    inline_rows: &Vec<(Vec<u8>, u64)>,
    prefix: &[u8],
    after: Option<&BlockKey>,
    limit: usize,
    r: Vec<(Vec<u8>, u64)>,
    i: int,
)
    requires
        call_ensures(list, (addr_rows, inline_rows, prefix, after, limit), r),
        keys_rise(addr_items(addr_rows@)),
        keys_rise(item_views(inline_rows@)),
        r@.len() < limit,
    ensures
        0 <= i < addr_rows@.len() && after is None && bytes::has_prefix(
            addr_rows@[i].0@,
            prefix@,
        ) && !lists_key(item_views(inline_rows@), addr_rows@[i].0@) ==> item_views(r@).contains(
            (addr_rows@[i].0@, listed_size(addr_rows@[i].1@)),
        ),
        0 <= i < addr_rows@.len() && after is Some && bytes::has_prefix(
            addr_rows@[i].0@,
            prefix@,
        ) && bytes::lex_lt(after->0@, addr_rows@[i].0@) && !lists_key(
            item_views(inline_rows@),
            addr_rows@[i].0@,
        ) ==> item_views(r@).contains((addr_rows@[i].0@, listed_size(addr_rows@[i].1@))),
        0 <= i < inline_rows@.len() && after is None && bytes::has_prefix(
            inline_rows@[i].0@,
            prefix@,
        ) && !lists_key(addr_items(addr_rows@), inline_rows@[i].0@) ==> item_views(r@).contains(
            (inline_rows@[i].0@, inline_rows@[i].1),
        ),
        0 <= i < inline_rows@.len() && after is Some && bytes::has_prefix(
            inline_rows@[i].0@,
            prefix@,
        ) && bytes::lex_lt(after->0@, inline_rows@[i].0@) && !lists_key(
            addr_items(addr_rows@),
            inline_rows@[i].0@,
        ) ==> item_views(r@).contains((inline_rows@[i].0@, inline_rows@[i].1)),
{
    let at = match after {
        Some(a) => Some(a@),
        None => None,
    };
    let a = addr_items(addr_rows@);
    let b = item_views(inline_rows@);
    let pa = picked(a, prefix@, at);
    let pb = picked(b, prefix@, at);
    lemma_picked_rises(a, prefix@, at);
    lemma_picked_rises(b, prefix@, at);
    assert(item_views(r@).len() == r@.len());
    assert(item_views(r@) == merged(pa, pb, false));
    if 0 <= i < a.len() && wanted(prefix@, at, a[i].0) {
        lemma_picked_has(a, prefix@, at, i);
        lemma_picked_keys(b, prefix@, at, a[i].0);
        lemma_merged_keeps(pa, pb, false, a[i]);
    }
    if 0 <= i < b.len() && wanted(prefix@, at, b[i].0) {
        lemma_picked_has(b, prefix@, at, i);
        lemma_picked_keys(a, prefix@, at, b[i].0);
        lemma_merged_keeps(pa, pb, false, b[i]);
    }
}

/// A scan starts at the prefix, or right after the position where that comes later, so that it
/// meets every wanted key.
pub proof fn scans_start_in_time(
    prefix: &[u8],
    after: Option<&BlockKey>,
    r: Vec<u8>,
    key: Seq<u8>,
)
    requires
        call_ensures(list_start, (prefix, after), r),
        bytes::has_prefix(key, prefix@),
        after is Some ==> bytes::lex_lt(after->0@, key),
    ensures
        !bytes::lex_lt(key, r@),
        after is Some ==> bytes::lex_lt(after->0@, r@),
{
    let rest = key.skip(prefix@.len() as int);
    assert(prefix@ + rest =~= key);
    bytes::order_is_by_the_first_difference(prefix@, rest, rest);
    if after is Some {
        let a = after->0@;
        lemma_next_key(a, key);
        assert(a + seq![0u8] =~= a.push(0u8));
        bytes::order_is_by_the_first_difference(a, seq![0u8], seq![0u8]);
        if bytes::lex_lt(a.push(0u8), prefix@) {
            bytes::lemma_lex_transitive(a, a.push(0u8), prefix@);
        }
    }
}

proof fn lemma_next_key(a: Seq<u8>, key: Seq<u8>)
    requires
        bytes::lex_lt(a, key),
    ensures
        !bytes::lex_lt(key, a.push(0u8)),
    decreases a.len(),
{
    reveal_with_fuel(bytes::lex_lt, 2);
    let n = a.push(0u8);
    if a.len() == 0 {
        assert(n.skip(1) =~= Seq::<u8>::empty());
        assert(n[0] == 0);
    } else if a[0] == key[0] {
        lemma_next_key(a.skip(1), key.skip(1));
        assert(n.skip(1) =~= a.skip(1).push(0u8));
    }
}

} // verus!
