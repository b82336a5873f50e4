//! The answers of the administration interface, as JSON text, and the metrics page.
use vstd::prelude::*;
use vstd::string::*;
use crate::digest;
use crate::car::{CarExportReport, CarImportReport};
use crate::domain::{Capacity, DomainResult, GcReport, ShardStatus, StructureReport};
use crate::domain;
use crate::text;
use crate::walk::{MigrateReport, ResilverReport, ScrubReport};
use crate::zfs::PoolMetrics;
use crate::zfs_parser::{to_shard_status, PoolHealth};
use crate::zfs_parser;
use crate::zfs_properties::{DriftIssue, PropertySource};
use crate::zfs_properties;

verus! {

/// JSON text.
#[derive(Debug)]
pub struct Value(pub String);

/// A member of an object: its name and its value as it is written.
#[derive(Debug)]
pub struct Member {
    pub name: &'static str,
    pub value: String,
}

/// `"name":value`.
pub open spec fn member_text(m: (Seq<char>, Seq<char>)) -> Seq<char> {
    "\""@ + m.0 + "\":"@ + m.1
}

/// An object with the given members.
pub open spec fn object_text(m: Seq<(Seq<char>, Seq<char>)>) -> Seq<char> {
    "{"@ + text::joined(Seq::new(m.len(), |i: int| member_text(m[i])), ","@) + "}"@
}

/// A list of values.
pub open spec fn array_text(v: Seq<Seq<char>>) -> Seq<char> {
    "["@ + text::joined(v, ","@) + "]"@
}

/// A character of a text as JSON writes it: quotation marks, backslashes and control
/// characters are escaped.
pub open spec fn escaped_char(c: char) -> Seq<char> {
    if c == '"' || c == '\\' {
        seq!['\\', c]
    } else if c == '\n' {
        seq!['\\', 'n']
    } else if c == '\r' {
        seq!['\\', 'r']
    } else if c == '\t' {
        seq!['\\', 't']
    } else if c == '\u{8}' {
        seq!['\\', 'b']
    } else if c == '\u{c}' {
        seq!['\\', 'f']
    } else if (c as nat) < 32 {
        seq![
            '\\',
            'u',
            '0',
            '0',
            digest::hex_digit(c as nat / 16),
            digest::hex_digit(c as nat % 16),
        ]
    } else {
        seq![c]
    }
}

/// A text as JSON writes it, without the quotes.
pub open spec fn escaped(s: Seq<char>) -> Seq<char>
    decreases s.len(),
{
    if s.len() == 0 {
        Seq::empty()
    } else {
        escaped_char(s[0]) + escaped(s.skip(1))
    }
}

/// A text in quotes.
pub open spec fn quoted(s: Seq<char>) -> Seq<char> {
    seq!['"'] + escaped(s) + seq!['"']
}

pub open spec fn bool_text(b: bool) -> Seq<char> {
    if b {
        "true"@
    } else {
        "false"@
    }
}

spec fn member_views(m: Seq<Member>) -> Seq<(Seq<char>, Seq<char>)> {
    Seq::new(m.len(), |i: int| (m[i].name@, m[i].value@))
}

fn object(members: &Vec<Member>) -> (r: String)
    ensures
        r@ == object_text(member_views(members@)),
{
    let mut parts: Vec<String> = Vec::new();
    let ghost v = member_views(members@);
    let mut i: usize = 0;
    while i < members.len()
        invariant
            i <= members@.len(),
            v == member_views(members@),
            parts@.len() == i,
            forall|j: int| 0 <= j < i ==> (#[trigger] parts@[j])@ == member_text(v[j]),
        decreases members@.len() - i,
    {
        let mut t = "\"".to_owned();
        t.append(members[i].name);
        t.append("\":");
        t.append(members[i].value.as_str());
        parts.push(t);
        i = i + 1;
    }
    assert(text::texts(parts@) =~= Seq::new(v.len(), |i: int| member_text(v[i])));
    let mut t = "{".to_owned();
    t.append(text::join(&parts, ",").as_str());
    t.append("}");
    t
}

/// A list of values that are written already.
pub fn array(items: &Vec<String>) -> (r: Value)
    ensures
        r.0@ == array_text(text::texts(items@)),
{
    let mut t = "[".to_owned();
    t.append(text::join(items, ",").as_str());
    t.append("]");
    Value(t)
}

fn quote(s: &str) -> (r: String)
    ensures
        r@ == quoted(s@),
{
    let c = text::chars(s);
    let mut t = String::new();
    t.push('"');
    let mut i: usize = 0;
    assert(c@.skip(0) =~= s@);
    assert(seq!['"'] + escaped(s@) =~= t@ + escaped(c@.skip(0)));
    while i < c.len()
        invariant
            i <= c@.len(),
            c@ == s@,
            seq!['"'] + escaped(s@) == t@ + escaped(c@.skip(i as int)),
        decreases c@.len() - i,
    {
        let ghost before = t@;
        push_escaped(&mut t, c[i]);
        proof {
            let rest = c@.skip(i as int);
            assert(rest[0] == c@[i as int]);
            assert(rest.skip(1) =~= c@.skip(i + 1));
            assert(before + (escaped_char(rest[0]) + escaped(rest.skip(1))) =~= t@ + escaped(
                rest.skip(1),
            ));
        }
        i = i + 1;
    }
    assert(t@ + escaped(c@.skip(i as int)) =~= t@);
    t.push('"');
    t
}

fn push_escaped(t: &mut String, c: char)
    ensures
        final(t)@ == old(t)@ + escaped_char(c),
{
    let short: Option<char> = match c {
        '"' => Some('"'),
        '\\' => Some('\\'),
        '\n' => Some('n'),
        '\r' => Some('r'),
        '\t' => Some('t'),
        '\u{8}' => Some('b'),
        '\u{c}' => Some('f'),
        _ => None,
    };
    match short {
        Some(x) => {
            t.push('\\');
            t.push(x);
        },
        None => {
            if (c as u32) < 32 {
                let d: u8 = c as u8;
                t.push('\\');
                t.push('u');
                t.push('0');
                t.push('0');
                t.push(digest::hex_char(d / 16));
                t.push(digest::hex_char(d % 16));
            } else {
                t.push(c);
            }
        },
    }
    assert(t@ =~= old(t)@ + escaped_char(c));
}

/// The value of a hexadecimal digit.
pub open spec fn hex_value(c: char) -> Option<nat> {
    if '0' <= c <= '9' {
        Some((c as nat - '0' as nat) as nat)
    } else if 'a' <= c <= 'f' {
        Some((c as nat - 'a' as nat + 10) as nat)
    } else if 'A' <= c <= 'F' {
        Some((c as nat - 'A' as nat + 10) as nat)
    } else {
        None
    }
}

/// The character that an escape stands for, and how long the escape is.
pub open spec fn unescaped(t: Seq<char>) -> Option<(char, nat)> {
    if t.len() < 2 {
        None
    } else if t[1] == '"' || t[1] == '\\' || t[1] == '/' {
        Some((t[1], 2))
    } else if t[1] == 'n' {
        Some(('\n', 2))
    } else if t[1] == 'r' {
        Some(('\r', 2))
    } else if t[1] == 't' {
        Some(('\t', 2))
    } else if t[1] == 'b' {
        Some(('\u{8}', 2))
    } else if t[1] == 'f' {
        Some(('\u{c}', 2))
    } else if t[1] == 'u' && t.len() >= 6 {
        match (hex_value(t[2]), hex_value(t[3]), hex_value(t[4]), hex_value(t[5])) {
            (Some(a), Some(b), Some(c), Some(d)) => {
                let n = a * 4096 + b * 256 + c * 16 + d;
                if 0xd800 <= n < 0xe000 {
                    None
                } else {
                    Some((n as char, 6))
                }
            },
            _ => None,
        }
    } else {
        None
    }
}

/// A JSON text read up to its closing quote: the text, and what follows. There is none
/// where a control character stands bare.
pub open spec fn read_text(t: Seq<char>) -> Option<(Seq<char>, Seq<char>)>
    decreases t.len(),
{
    if t.len() == 0 || (t[0] as nat) < 32 {
        None
    } else if t[0] == '"' {
        Some((Seq::empty(), t.skip(1)))
    } else {
        let first = if t[0] == '\\' {
            unescaped(t)
        } else {
            Some((t[0], 1))
        };
        match first {
            Some((c, n)) if 0 < n <= t.len() => match read_text(t.skip(n as int)) {
                Some((s, rest)) => Some((seq![c] + s, rest)),
                None => None,
            },
            _ => None,
        }
    }
}

/// A text in quotes is a JSON text: whatever it holds, a reader finds where it ends, and
/// gets it back.
pub proof fn quoted_texts_read_back(s: Seq<char>, rest: Seq<char>)
    ensures
        (quoted(s) + rest)[0] == '"',
        read_text((quoted(s) + rest).skip(1)) == Some((s, rest)),
{
    lemma_escaped_reads_back(s, rest);
    assert((quoted(s) + rest).skip(1) =~= escaped(s) + (seq!['"'] + rest));
}

proof fn lemma_small_char(c: char)
    requires
        (c as nat) < 32,
    ensures
        (c as nat) as char == c,
{
}

proof fn lemma_hex_digit(d: nat)
    requires
        d < 16,
    ensures
        hex_value(digest::hex_digit(d)) == Some(d),
        d == 0 ==> digest::hex_digit(d) == '0',
{
    if d < 10 {
        assert(digest::hex_digit(d) as nat == 48 + d);
    } else {
        assert(digest::hex_digit(d) as nat == 87 + d);
    }
}

#[verifier::spinoff_prover]
#[verifier::rlimit(40)]
proof fn lemma_escaped_reads_back(s: Seq<char>, rest: Seq<char>)
    ensures
        read_text(escaped(s) + (seq!['"'] + rest)) == Some((s, rest)),
    decreases s.len(),
{
    let tail = seq!['"'] + rest;
    let t = escaped(s) + tail;
    if s.len() == 0 {
        assert(t =~= tail);
        assert(t.skip(1) =~= rest);
        assert(s =~= Seq::empty());
    } else {
        let e = escaped_char(s[0]);
        lemma_escaped_reads_back(s.skip(1), rest);
        assert(t =~= e + (escaped(s.skip(1)) + tail));
        assert(t.skip(e.len() as int) =~= escaped(s.skip(1)) + tail);
        assert(forall|i: int| 0 <= i < e.len() ==> #[trigger] t[i] == e[i]);
        assert(t[0] == e[0]);
        if e.len() > 1 {
            assert(t[1] == e[1]);
        }
        if e.len() == 6 {
            let n = s[0] as nat;
            lemma_hex_digit(n / 16);
            lemma_hex_digit(n % 16);
            lemma_hex_digit(0);
            assert(t[2] == e[2] && t[3] == e[3] && t[4] == e[4] && t[5] == e[5]);
            assert(n == (n / 16) * 16 + n % 16);
            assert(hex_value(t[2]) == Some(0nat) && hex_value(t[3]) == Some(0nat));
            assert(hex_value(t[4]) == Some(n / 16) && hex_value(t[5]) == Some(n % 16));
            assert(t.len() >= 6);
            lemma_small_char(s[0]);
            assert(unescaped(t) == Some((s[0], 6nat)));
        } else if e.len() == 2 {
            assert(unescaped(t) == Some((s[0], 2nat)));
        }
        assert(seq![s[0]] + s.skip(1) =~= s);
    }
}

fn flag(b: bool) -> (r: String)
    ensures
        r@ == bool_text(b),
{
    if b {
        "true".to_owned()
    } else {
        "false".to_owned()
    }
}

fn num(name: &'static str, n: u64) -> (r: Member)
    ensures
        r.name@ == name@,
        r.value@ == text::dec_chars(n as nat),
{
    Member { name, value: text::dec(n) }
}

fn word(name: &'static str, s: &str) -> (r: Member)
    ensures
        r.name@ == name@,
        r.value@ == quoted(s@),
{
    Member { name, value: quote(s) }
}

/// The space of a shard.
#[derive(Clone, Copy, Debug, PartialEq, Eq, Structural)]
pub struct UsageItem {
    pub shard: usize,
    pub total: u64,
    pub free: u64,
}

impl UsageItem {
    pub fn new(shard: usize, cap: &Capacity) -> (r: Self)
        ensures
            r.shard == shard,
            r.total == cap.total_bytes,
            r.free == cap.free_bytes,
    {
        UsageItem { shard, total: cap.total_bytes, free: cap.free_bytes }
    }

    pub fn json(&self) -> (r: String)
        ensures
            r@ == object_text(
                seq![
                    ("shard"@, text::dec_chars(self.shard as nat)),
                    ("total"@, text::dec_chars(self.total as nat)),
                    ("free"@, text::dec_chars(self.free as nat)),
                ],
            ),
    {
        let m = vec![
            num("shard", self.shard as u64),
            num("total", self.total),
            num("free", self.free),
        ];
        assert(member_views(m@) =~= seq![
            ("shard"@, text::dec_chars(self.shard as nat)),
            ("total"@, text::dec_chars(self.total as nat)),
            ("free"@, text::dec_chars(self.free as nat)),
        ]);
        object(&m)
    }
}

/// The error of one shard.
pub open spec fn shard_error(shard: nat, msg: Seq<char>) -> Seq<char> {
    object_text(seq![("shard"@, text::dec_chars(shard)), ("error"@, quoted(msg))])
}

/// The error of one shard as JSON.
pub fn shard_error_json(shard: usize, msg: &str) -> (r: String)
    ensures
        r@ == shard_error(shard as nat, msg@),
{
    let m = vec![num("shard", shard as u64), word("error", msg)];
    assert(member_views(m@) =~= seq![
        ("shard"@, text::dec_chars(shard as nat)),
        ("error"@, quoted(msg@)),
    ]);
    object(&m)
}

/// An error.
#[derive(Debug)]
pub struct ErrorResponse {
    pub error: String,
}

impl ErrorResponse {
    pub fn new(e: &str) -> (r: Self)
        ensures
            r.error@ == e@,
    {
        ErrorResponse { error: e.to_owned() }
    }

    pub fn json(&self) -> (r: Value)
        ensures
            r.0@ == object_text(seq![("error"@, quoted(self.error@))]),
    {
        let m = vec![word("error", self.error.as_str())];
        assert(member_views(m@) =~= seq![("error"@, quoted(self.error@))]);
        Value(object(&m))
    }
}

/// What a collection pass did on a shard.
#[derive(Debug)]
pub struct GcItem {
    pub shard: usize,
    pub victim: Option<u32>,
    pub moved: usize,
    pub reclaimed: u64,
    pub orphans: u32,
    pub orphan_bytes: u64,
    pub error: Option<String>,
}

/// A number, or `null`.
pub open spec fn number_or_null(n: Option<u32>) -> Seq<char> {
    match n {
        Some(v) => text::dec_chars(v as nat),
        None => "null"@,
    }
}

impl GcItem {
    /// What a pass did, or why it failed.
    pub fn new(shard: usize, r: &DomainResult<GcReport>) -> (i: Self)
        ensures
            i.shard == shard,
            match *r {
                Ok(rep) => i.victim == rep.victim_seg && i.moved == rep.live_moved && i.reclaimed
                    == rep.reclaimed_bytes && i.orphans == rep.orphans_removed && i.orphan_bytes
                    == rep.orphan_bytes && i.error is None,
                Err(e) => i.victim is None && i.moved == 0 && i.reclaimed == 0 && i.orphans == 0
                    && i.orphan_bytes == 0 && i.error is Some && (i.error->0)@ == domain::error_text(
                    e@,
                ),
            },
    {
        match r {
            Ok(rep) => GcItem {
                shard,
                victim: rep.victim_seg,
                moved: rep.live_moved,
                reclaimed: rep.reclaimed_bytes,
                orphans: rep.orphans_removed,
                orphan_bytes: rep.orphan_bytes,
                error: None,
            },
            Err(e) => GcItem {
                shard,
                victim: None,
                moved: 0,
                reclaimed: 0,
                orphans: 0,
                orphan_bytes: 0,
                error: Some(e.message()),
            },
        }
    }

    pub fn json(&self) -> (r: String)
        ensures
            r@ == (match self.error {
                Some(e) => shard_error(self.shard as nat, e@),
                None => object_text(
                    seq![
                        ("shard"@, text::dec_chars(self.shard as nat)),
                        ("victim"@, number_or_null(self.victim)),
                        ("moved"@, text::dec_chars(self.moved as nat)),
                        ("reclaimed"@, text::dec_chars(self.reclaimed as nat)),
                        ("orphans"@, text::dec_chars(self.orphans as nat)),
                        ("orphan_bytes"@, text::dec_chars(self.orphan_bytes as nat)),
                    ],
                ),
            }),
    {
        match &self.error {
            Some(e) => shard_error_json(self.shard, e.as_str()),
            None => {
                let victim = match self.victim {
                    Some(v) => text::dec(v as u64),
                    None => "null".to_owned(),
                };
                let m = vec![
                    num("shard", self.shard as u64),
                    Member { name: "victim", value: victim },
                    num("moved", self.moved as u64),
                    num("reclaimed", self.reclaimed),
                    num("orphans", self.orphans as u64),
                    num("orphan_bytes", self.orphan_bytes),
                ];
                assert(member_views(m@) =~= seq![
                    ("shard"@, text::dec_chars(self.shard as nat)),
                    ("victim"@, number_or_null(self.victim)),
                    ("moved"@, text::dec_chars(self.moved as nat)),
                    ("reclaimed"@, text::dec_chars(self.reclaimed as nat)),
                    ("orphans"@, text::dec_chars(self.orphans as nat)),
                    ("orphan_bytes"@, text::dec_chars(self.orphan_bytes as nat)),
                ]);
                object(&m)
            },
        }
    }
}

/// What a scrub step found on a shard.
#[derive(Debug)]
pub struct ScrubItem {
    pub shard: usize,
    pub checked: Option<u64>,
    pub corrupt: Option<u64>,
    pub repaired: Option<u64>,
    pub unrepairable: Option<u64>,
    pub error: Option<String>,
}

/// A count, where there is one.
pub open spec fn count_member(name: Seq<char>, n: Option<u64>) -> Seq<(Seq<char>, Seq<char>)> {
    match n {
        Some(v) => seq![(name, text::dec_chars(v as nat))],
        None => Seq::empty(),
    }
}

fn push_count(m: &mut Vec<Member>, name: &'static str, n: Option<u64>)
    ensures
        member_views(final(m)@) == member_views(old(m)@) + count_member(name@, n),
{
    if let Some(v) = n {
        m.push(num(name, v));
    }
    assert(member_views(m@) =~= member_views(old(m)@) + count_member(name@, n));
}

impl ScrubItem {
    /// What a step found, or why it failed.
    pub fn new(shard: usize, r: &DomainResult<ScrubReport>) -> (i: Self)
        ensures
            i.shard == shard,
            match *r {
                Ok(rep) => i.checked == Some(rep.checked) && i.corrupt == Some(rep.corrupt)
                    && i.repaired == Some(rep.repaired) && i.unrepairable == Some(
                    rep.unrepairable,
                ) && i.error is None,
                Err(e) => i.checked is None && i.corrupt is None && i.repaired is None
                    && i.unrepairable is None && i.error is Some && (i.error->0)@
                    == domain::error_text(e@),
            },
    {
        match r {
            Ok(rep) => ScrubItem {
                shard,
                checked: Some(rep.checked),
                corrupt: Some(rep.corrupt),
                repaired: Some(rep.repaired),
                unrepairable: Some(rep.unrepairable),
                error: None,
            },
            Err(e) => ScrubItem {
                shard,
                checked: None,
                corrupt: None,
                repaired: None,
                unrepairable: None,
                error: Some(e.message()),
            },
        }
    }

    /// What there is of the item; after a failure that is the error.
    pub fn json(&self) -> (r: String)
        ensures
            r@ == object_text(
                seq![("shard"@, text::dec_chars(self.shard as nat))] + count_member(
                    "checked"@,
                    self.checked,
                ) + count_member("corrupt"@, self.corrupt) + count_member(
                    "repaired"@,
                    self.repaired,
                ) + count_member("unrepairable"@, self.unrepairable) + (match self.error {
                    Some(e) => seq![("error"@, quoted(e@))],
                    None => Seq::empty(),
                }),
            ),
    {
        let mut m = vec![num("shard", self.shard as u64)];
        assert(member_views(m@) =~= seq![("shard"@, text::dec_chars(self.shard as nat))]);
        push_count(&mut m, "checked", self.checked);
        push_count(&mut m, "corrupt", self.corrupt);
        push_count(&mut m, "repaired", self.repaired);
        push_count(&mut m, "unrepairable", self.unrepairable);
        let ghost counts = member_views(m@);
        match &self.error {
            Some(e) => {
                m.push(word("error", e.as_str()));
                assert(member_views(m@) =~= counts + seq![("error"@, quoted(e@))]);
            },
            None => {
                assert(counts =~= counts + Seq::empty());
            },
        }
        object(&m)
    }
}

/// What a resilver did.
#[derive(Clone, Copy, Debug, PartialEq, Eq, Structural)]
pub struct ResilverResponse {
    pub scanned: usize,
    pub repaired: usize,
    pub errors: usize,
    pub done: bool,
}

impl ResilverResponse {
    pub fn new(r: &ResilverReport) -> (o: Self)
        ensures
            o.scanned == r.scanned,
            o.repaired == r.repaired,
            o.errors == r.errors,
            o.done == r.done,
    {
        ResilverResponse {
            scanned: r.scanned,
            repaired: r.repaired,
            errors: r.errors,
            done: r.done,
        }
    }

    pub fn json(&self) -> (r: Value)
        ensures
            r.0@ == object_text(
                seq![
                    ("scanned"@, text::dec_chars(self.scanned as nat)),
                    ("repaired"@, text::dec_chars(self.repaired as nat)),
                    ("errors"@, text::dec_chars(self.errors as nat)),
                    ("done"@, bool_text(self.done)),
                ],
            ),
    {
        let m = vec![
            num("scanned", self.scanned as u64),
            num("repaired", self.repaired as u64),
            num("errors", self.errors as u64),
            Member { name: "done", value: flag(self.done) },
        ];
        assert(member_views(m@) =~= seq![
            ("scanned"@, text::dec_chars(self.scanned as nat)),
            ("repaired"@, text::dec_chars(self.repaired as nat)),
            ("errors"@, text::dec_chars(self.errors as nat)),
            ("done"@, bool_text(self.done)),
        ]);
        Value(object(&m))
    }
}

/// What a migration step did.
#[derive(Clone, Copy, Debug, PartialEq, Eq, Structural)]
pub struct MigrateResponse {
    pub scanned: usize,
    pub migrated: usize,
    pub skipped_small: usize,
    pub skipped_ec: usize,
    pub canary_failed: usize,
    pub errors: usize,
    pub done: bool,
}

impl MigrateResponse {
    pub fn new(r: &MigrateReport) -> (o: Self)
        ensures
            o.scanned == r.scanned,
            o.migrated == r.migrated,
            o.skipped_small == r.skipped_small,
            o.skipped_ec == r.skipped_ec,
            o.canary_failed == r.canary_failed,
            o.errors == r.errors,
            o.done == r.done,
    {
        MigrateResponse {
            scanned: r.scanned,
            migrated: r.migrated,
            skipped_small: r.skipped_small,
            skipped_ec: r.skipped_ec,
            canary_failed: r.canary_failed,
            errors: r.errors,
            done: r.done,
        }
    }

    pub fn json(&self) -> (r: Value)
        ensures
            r.0@ == object_text(
                seq![
                    ("scanned"@, text::dec_chars(self.scanned as nat)),
                    ("migrated"@, text::dec_chars(self.migrated as nat)),
                    ("skipped_small"@, text::dec_chars(self.skipped_small as nat)),
                    ("skipped_ec"@, text::dec_chars(self.skipped_ec as nat)),
                    ("canary_failed"@, text::dec_chars(self.canary_failed as nat)),
                    ("errors"@, text::dec_chars(self.errors as nat)),
                    ("done"@, bool_text(self.done)),
                ],
            ),
    {
        let m = vec![
            num("scanned", self.scanned as u64),
            num("migrated", self.migrated as u64),
            num("skipped_small", self.skipped_small as u64),
            num("skipped_ec", self.skipped_ec as u64),
            num("canary_failed", self.canary_failed as u64),
            num("errors", self.errors as u64),
            Member { name: "done", value: flag(self.done) },
        ];
        assert(member_views(m@) =~= seq![
            ("scanned"@, text::dec_chars(self.scanned as nat)),
            ("migrated"@, text::dec_chars(self.migrated as nat)),
            ("skipped_small"@, text::dec_chars(self.skipped_small as nat)),
            ("skipped_ec"@, text::dec_chars(self.skipped_ec as nat)),
            ("canary_failed"@, text::dec_chars(self.canary_failed as nat)),
            ("errors"@, text::dec_chars(self.errors as nat)),
            ("done"@, bool_text(self.done)),
        ]);
        Value(object(&m))
    }
}

/// What an import did.
#[derive(Clone, Copy, Debug, PartialEq, Eq, Structural)]
pub struct CarImportResponse {
    pub blocks: usize,
    pub bytes: u64,
    pub skipped: usize,
    pub corrupt: usize,
    pub errors: usize,
}

impl CarImportResponse {
    pub fn new(r: &CarImportReport) -> (o: Self)
        ensures
            o.blocks == r.blocks,
            o.bytes == r.bytes,
            o.skipped == r.skipped,
            o.corrupt == r.corrupt,
            o.errors == r.errors,
    {
        CarImportResponse {
            blocks: r.blocks,
            bytes: r.bytes,
            skipped: r.skipped,
            corrupt: r.corrupt,
            errors: r.errors,
        }
    }

    pub fn json(&self) -> (r: Value)
        ensures
            r.0@ == object_text(
                seq![
                    ("blocks"@, text::dec_chars(self.blocks as nat)),
                    ("bytes"@, text::dec_chars(self.bytes as nat)),
                    ("skipped"@, text::dec_chars(self.skipped as nat)),
                    ("corrupt"@, text::dec_chars(self.corrupt as nat)),
                    ("errors"@, text::dec_chars(self.errors as nat)),
                ],
            ),
    {
        let m = vec![
            num("blocks", self.blocks as u64),
            num("bytes", self.bytes as u64),
            num("skipped", self.skipped as u64),
            num("corrupt", self.corrupt as u64),
            num("errors", self.errors as u64),
        ];
        assert(member_views(m@) =~= seq![
            ("blocks"@, text::dec_chars(self.blocks as nat)),
            ("bytes"@, text::dec_chars(self.bytes as nat)),
            ("skipped"@, text::dec_chars(self.skipped as nat)),
            ("corrupt"@, text::dec_chars(self.corrupt as nat)),
            ("errors"@, text::dec_chars(self.errors as nat)),
        ]);
        Value(object(&m))
    }
}

/// What an export wrote.
#[derive(Clone, Copy, Debug, PartialEq, Eq, Structural)]
pub struct CarExportResponse {
    pub blocks: usize,
    pub bytes: u64,
}

impl CarExportResponse {
    pub fn new(r: &CarExportReport) -> (o: Self)
        ensures
            o.blocks == r.blocks,
            o.bytes == r.bytes,
    {
        CarExportResponse {
            blocks: r.blocks,
            bytes: r.bytes,
        }
    }

    pub fn json(&self) -> (r: Value)
        ensures
            r.0@ == object_text(
                seq![
                    ("blocks"@, text::dec_chars(self.blocks as nat)),
                    ("bytes"@, text::dec_chars(self.bytes as nat)),
                ],
            ),
    {
        let m = vec![
            num("blocks", self.blocks as u64),
            num("bytes", self.bytes as u64),
        ];
        assert(member_views(m@) =~= seq![
            ("blocks"@, text::dec_chars(self.blocks as nat)),
            ("bytes"@, text::dec_chars(self.bytes as nat)),
        ]);
        Value(object(&m))
    }
}

/// Numbers in brackets, with a comma and a blank between.
pub open spec fn list_text(v: Seq<u32>) -> Seq<char> {
    "["@ + text::joined(Seq::new(v.len(), |i: int| text::dec_chars(v[i] as nat)), ", "@) + "]"@
}

fn number_list(v: &Vec<u32>) -> (r: String)
    ensures
        r@ == list_text(v@),
{
    let mut parts: Vec<String> = Vec::new();
    let mut i: usize = 0;
    while i < v.len()
        invariant
            i <= v@.len(),
            parts@.len() == i,
            forall|j: int| 0 <= j < i ==> (#[trigger] parts@[j])@ == text::dec_chars(v@[j] as nat),
        decreases v@.len() - i,
    {
        parts.push(text::dec(v[i] as u64));
        i = i + 1;
    }
    assert(text::texts(parts@) =~= Seq::new(v@.len(), |i: int| text::dec_chars(v@[i] as nat)));
    let mut t = "[".to_owned();
    t.append(text::join(&parts, ", ").as_str());
    t.append("]");
    t
}

/// The result of comparing a shard's index with its segments.
pub fn structure_json(shard: usize, rep: &DomainResult<StructureReport>) -> (r: String)
    ensures
        r@ == (match *rep {
            Err(e) => shard_error(shard as nat, domain::error_text(e@)),
            Ok(s) => object_text(
                seq![
                    ("shard"@, text::dec_chars(shard as nat)),
                    ("healthy"@, bool_text(s.segments_missing@.len() == 0)),
                    ("segments"@, text::dec_chars(s.segments_referenced as nat)),
                    ("missing"@, list_text(s.segments_missing@)),
                    ("keys_at_risk"@, text::dec_chars(s.keys_at_risk as nat)),
                    ("orphans"@, list_text(s.orphan_segments@)),
                ],
            ),
        }),
{
    match rep {
        Err(e) => shard_error_json(shard, e.message().as_str()),
        Ok(s) => {
            let m = vec![
                num("shard", shard as u64),
                Member { name: "healthy", value: flag(s.is_healthy()) },
                num("segments", s.segments_referenced as u64),
                Member { name: "missing", value: number_list(&s.segments_missing) },
                num("keys_at_risk", s.keys_at_risk),
                Member { name: "orphans", value: number_list(&s.orphan_segments) },
            ];
            assert(member_views(m@) =~= seq![
                ("shard"@, text::dec_chars(shard as nat)),
                ("healthy"@, bool_text(s.segments_missing@.len() == 0)),
                ("segments"@, text::dec_chars(s.segments_referenced as nat)),
                ("missing"@, list_text(s.segments_missing@)),
                ("keys_at_risk"@, text::dec_chars(s.keys_at_risk as nat)),
                ("orphans"@, list_text(s.orphan_segments@)),
            ]);
            object(&m)
        },
    }
}

/// Whether a shard's ballast was released, or why it could not be.
pub fn ballast_json(shard: usize, released: &DomainResult<bool>) -> (r: String)
    ensures
        r@ == (match *released {
            Err(e) => shard_error(shard as nat, domain::error_text(e@)),
            Ok(b) => object_text(
                seq![("shard"@, text::dec_chars(shard as nat)), ("released"@, bool_text(b))],
            ),
        }),
{
    match released {
        Err(e) => shard_error_json(shard, e.message().as_str()),
        Ok(b) => {
            let m = vec![
                num("shard", shard as u64),
                Member { name: "released", value: flag(*b) },
            ];
            assert(member_views(m@) =~= seq![
                ("shard"@, text::dec_chars(shard as nat)),
                ("released"@, bool_text(*b)),
            ]);
            object(&m)
        },
    }
}

/// Whether a scrub of a shard's pool was started; `error` tells why not.
pub fn zfs_scrub_json(shard: usize, error: &Option<String>) -> (r: String)
    ensures
        r@ == (match *error {
            Some(e) => shard_error(shard as nat, e@),
            None => object_text(
                seq![("shard"@, text::dec_chars(shard as nat)), ("scrub"@, quoted("started"@))],
            ),
        }),
{
    match error {
        Some(e) => shard_error_json(shard, e.as_str()),
        None => {
            let m = vec![num("shard", shard as u64), word("scrub", "started")];
            assert(member_views(m@) =~= seq![
                ("shard"@, text::dec_chars(shard as nat)),
                ("scrub"@, quoted("started"@)),
            ]);
            object(&m)
        },
    }
}

/// A text in quotes with its special characters escaped.
pub uninterp spec fn debug_quoted_of(s: Seq<char>) -> Seq<char>;

/// The `Debug` form of a `str`, written by `format!`.
#[verifier::external_body]
fn debug_quoted(s: &str) -> (r: String)
    ensures
        r@ == debug_quoted_of(s@),
{
    format!("{s:?}")
}

/// How a source is written; `t` is its text in quotes where it has one.
pub open spec fn source_text(s: zfs_properties::SourceView, t: Seq<char>) -> Seq<char> {
    match s {
        zfs_properties::SourceView::Local => "Local"@,
        zfs_properties::SourceView::Default => "Default"@,
        zfs_properties::SourceView::Inherited(_) => "Inherited("@ + t + ")"@,
        zfs_properties::SourceView::Unset => "None"@,
        zfs_properties::SourceView::Other(_) => "Other("@ + t + ")"@,
    }
}

/// The text that a source carries.
pub open spec fn source_payload(s: zfs_properties::SourceView) -> Seq<char> {
    match s {
        zfs_properties::SourceView::Inherited(t) => t,
        zfs_properties::SourceView::Other(t) => t,
        _ => Seq::empty(),
    }
}

/// Writes a source, given its text in quotes.
pub fn write_source(s: &PropertySource, t: &str) -> (r: String)
    ensures
        r@ == source_text(s@, t@),
{
    match s {
        PropertySource::Local => "Local".to_owned(),
        PropertySource::Default => "Default".to_owned(),
        PropertySource::Inherited(_) => {
            let mut x = "Inherited(".to_owned();
            x.append(t);
            x.append(")");
            x
        },
        PropertySource::Unset => "None".to_owned(),
        PropertySource::Other(_) => {
            let mut x = "Other(".to_owned();
            x.append(t);
            x.append(")");
            x
        },
    }
}

/// How a source is written.
pub open spec fn written_source(s: zfs_properties::SourceView) -> Seq<char> {
    source_text(s, debug_quoted_of(source_payload(s)))
}

fn source_debug(s: &PropertySource) -> (r: String)
    ensures
        r@ == written_source(s@),
{
    match s {
        PropertySource::Inherited(t) => write_source(s, debug_quoted(t.as_str()).as_str()),
        PropertySource::Other(t) => write_source(s, debug_quoted(t.as_str()).as_str()),
        _ => write_source(s, ""),
    }
}

/// An issue in words, given its source as written.
pub open spec fn issue_text(i: zfs_properties::IssueView, source: Seq<char>) -> Seq<char> {
    quoted(
        i.property + ": expected "@ + i.expected + ", got "@ + i.actual + " (source="@ + source
            + ")"@,
    )
}

/// Writes an issue, given its source as written.
pub fn write_issue(i: &DriftIssue, source: &str) -> (r: String)
    ensures
        r@ == issue_text(i@, source@),
{
    let mut t = i.property.clone();
    t.append(": expected ");
    t.append(i.expected.as_str());
    t.append(", got ");
    t.append(i.actual.as_str());
    t.append(" (source=");
    t.append(source);
    t.append(")");
    quote(t.as_str())
}

/// Issues as written.
pub open spec fn written_issues(v: Seq<zfs_properties::IssueView>) -> Seq<Seq<char>> {
    Seq::new(v.len(), |i: int| issue_text(v[i], written_source(v[i].source)))
}

pub open spec fn status_text(s: ShardStatus) -> Seq<char> {
    match s {
        ShardStatus::Online => "Online"@,
        ShardStatus::Suspect => "Suspect"@,
        ShardStatus::Faulted => "Faulted"@,
    }
}

fn status_word(s: ShardStatus) -> (r: &'static str)
    ensures
        r@ == status_text(s),
{
    match s {
        ShardStatus::Online => "Online",
        ShardStatus::Suspect => "Suspect",
        ShardStatus::Faulted => "Faulted",
    }
}

/// The members that describe a pool, given the issues as written.
pub open spec fn pool_members(
    shard: nat,
    h: PoolHealth,
    status: ShardStatus,
    m: PoolMetrics,
    issues: Seq<Seq<char>>,
) -> Seq<(Seq<char>, Seq<char>)> {
    let e = zfs_parser::error_sums(h.devices@);
    seq![
        ("shard"@, text::dec_chars(shard)),
        ("pool"@, quoted(h.pool@)),
        ("state"@, quoted(zfs_parser::state_word(h.state))),
        ("shard_status"@, quoted(status_text(status))),
        ("read_errors"@, text::dec_chars(e.0 as nat)),
        ("write_errors"@, text::dec_chars(e.1 as nat)),
        ("cksum_errors"@, text::dec_chars(e.2 as nat)),
        ("scrub_in_progress"@, bool_text(h.scrub.in_progress)),
        ("free"@, text::dec_chars(m.free as nat)),
        ("freeing"@, text::dec_chars(m.freeing as nat)),
        ("effective_free"@, text::dec_chars((m.free + m.freeing) as nat)),
        ("fragmentation_pct"@, text::dec_chars(m.fragmentation_pct as nat)),
        ("drift"@, array_text(issues)),
    ]
}

/// Describes a pool, given the issues as written.
pub fn write_pool(
    shard: usize,
    h: &PoolHealth,
    status: ShardStatus,
    m: &PoolMetrics,
    issues: &Vec<String>,
) -> (r: String)
    requires
        zfs_parser::error_sums(h.devices@).0 <= u64::MAX,
        zfs_parser::error_sums(h.devices@).1 <= u64::MAX,
        zfs_parser::error_sums(h.devices@).2 <= u64::MAX,
        m.free + m.freeing <= u64::MAX,
    ensures
        r@ == object_text(pool_members(shard as nat, *h, status, *m, text::texts(issues@))),
{
    let (re, we, ce) = h.total_errors();
    let list = array(issues);
    let v = vec![
        num("shard", shard as u64),
        word("pool", h.pool.as_str()),
        word("state", h.state.as_str()),
        word("shard_status", status_word(status)),
        num("read_errors", re),
        num("write_errors", we),
        num("cksum_errors", ce),
        Member { name: "scrub_in_progress", value: flag(h.scrub.in_progress) },
        num("free", m.free),
        num("freeing", m.freeing),
        num("effective_free", m.effective_free()),
        num("fragmentation_pct", m.fragmentation_pct),
        Member { name: "drift", value: list.0 },
    ];
    assert(member_views(v@) =~= pool_members(shard as nat, *h, status, *m, text::texts(issues@)));
    object(&v)
}

/// The health of a shard's pool with the drift of its dataset.
pub fn zfs_health_json(shard: usize, h: &PoolHealth, m: &PoolMetrics, drift: &Vec<DriftIssue>) -> (r:
    String)
    requires
        zfs_parser::error_sums(h.devices@).0 <= u64::MAX,
        zfs_parser::error_sums(h.devices@).1 <= u64::MAX,
        zfs_parser::error_sums(h.devices@).2 <= u64::MAX,
        m.free + m.freeing <= u64::MAX,
    ensures
        r@ == object_text(
            pool_members(
                shard as nat,
                *h,
                zfs_parser::shard_status_of(*h),
                *m,
                written_issues(zfs_properties::issue_views(drift@)),
            ),
        ),
{
    let mut issues: Vec<String> = Vec::new();
    let ghost v = zfs_properties::issue_views(drift@);
    let mut i: usize = 0;
    while i < drift.len()
        invariant
            i <= drift@.len(),
            v == zfs_properties::issue_views(drift@),
            issues@.len() == i,
            forall|j: int|
                0 <= j < i ==> (#[trigger] issues@[j])@ == issue_text(
                    v[j],
                    written_source(v[j].source),
                ),
        decreases drift@.len() - i,
    {
        let source = source_debug(&drift[i].source);
        issues.push(write_issue(&drift[i], source.as_str()));
        i = i + 1;
    }
    assert(text::texts(issues@) =~= written_issues(v));
    write_pool(shard, h, to_shard_status(h), m, &issues)
}

/// Whether a request without or with a shard number means this shard.
pub fn selected(want: Option<usize>, shard: usize) -> (r: bool)
    ensures
        r == (want is None || want == Some(shard)),
{
    match want {
        None => true,
        Some(w) => w == shard,
    }
}

/// A numeric parameter; none where it is missing or not a number.
pub open spec fn parameter(v: Option<Seq<char>>) -> Option<usize> {
    match v {
        None => None,
        Some(t) => match text::parsed_uint(t, usize::MAX as nat) {
            Some(n) => Some(n as usize),
            None => None,
        },
    }
}

pub fn read_parameter(v: Option<&str>) -> (r: Option<usize>)
    ensures
        r == parameter(
            match v {
                Some(t) => Some(t@),
                None => None,
            },
        ),
{
    match v {
        None => None,
        Some(t) => match text::parse_uint(text::chars(t).as_slice(), usize::MAX as u64) {
            Some(n) => Some(n as usize),
            None => None,
        },
    }
}

/// A switch; none where it is missing or neither `true` nor `false`.
pub fn read_switch(v: Option<&str>) -> (r: Option<bool>)
    ensures
        r == (match v {
            Some(t) => if t@ == "true"@ {
                Some(true)
            } else if t@ == "false"@ {
                Some(false)
            } else {
                None
            },
            None => None,
        }),
{
    match v {
        Some(t) => {
            if text::same_text(t, "true") {
                Some(true)
            } else if text::same_text(t, "false") {
                Some(false)
            } else {
                None
            }
        },
        None => None,
    }
}

/// What the metrics page tells of a shard.
#[derive(Clone, Copy, Debug)]
pub struct ShardMetrics {
    pub cap: Capacity,
    pub status: Option<ShardStatus>,
    pub ballast_released: bool,
    pub ewma_ms: u64,
    pub slow: bool,
}

/// The number of a status on the metrics page.
pub open spec fn status_number(s: Option<ShardStatus>) -> Seq<char> {
    match s {
        Some(ShardStatus::Online) => "0"@,
        Some(ShardStatus::Suspect) => "1"@,
        Some(ShardStatus::Faulted) => "2"@,
        None => "-1"@,
    }
}

pub open spec fn bit(b: bool) -> Seq<char> {
    if b {
        "1"@
    } else {
        "0"@
    }
}

/// One line of a shard.
pub open spec fn shard_line(name: Seq<char>, shard: nat, value: Seq<char>) -> Seq<char> {
    name + "{shard=\""@ + text::dec_chars(shard) + "\"} "@ + value + "\n"@
}

/// The lines of a shard.
pub open spec fn shard_lines(shard: nat, m: ShardMetrics) -> Seq<char> {
    shard_line("ozd_shard_total_bytes"@, shard, text::dec_chars(m.cap.total_bytes as nat))
        + shard_line("ozd_shard_free_bytes"@, shard, text::dec_chars(m.cap.free_bytes as nat))
        + shard_line("ozd_shard_status"@, shard, status_number(m.status)) + shard_line(
        "ozd_shard_ballast_released"@,
        shard,
        bit(m.ballast_released),
    ) + shard_line("ozd_shard_lat_ewma_ms"@, shard, text::dec_chars(m.ewma_ms as nat)) + shard_line(
        "ozd_shard_slow"@,
        shard,
        bit(m.slow),
    )
}

/// The lines of the first shards.
pub open spec fn all_shard_lines(v: Seq<ShardMetrics>) -> Seq<char>
    decreases v.len(),
{
    if v.len() == 0 {
        Seq::empty()
    } else {
        all_shard_lines(v.drop_last()) + shard_lines((v.len() - 1) as nat, v.last())
    }
}

fn push_line(out: &mut String, name: &str, shard: usize, value: &str)
    ensures
        final(out)@ == old(out)@ + shard_line(name@, shard as nat, value@),
{
    let ghost before = out@;
    out.append(name);
    out.append("{shard=\"");
    text::push_dec(out, shard as u64);
    out.append("\"} ");
    out.append(value);
    out.append("\n");
    assert(out@ =~= before + shard_line(name@, shard as nat, value@));
}

fn push_shard(out: &mut String, shard: usize, m: &ShardMetrics)
    ensures
        final(out)@ == old(out)@ + shard_lines(shard as nat, *m),
{
    let ghost before = out@;
    let status = match m.status {
        Some(ShardStatus::Online) => "0",
        Some(ShardStatus::Suspect) => "1",
        Some(ShardStatus::Faulted) => "2",
        None => "-1",
    };
    push_line(out, "ozd_shard_total_bytes", shard, text::dec(m.cap.total_bytes).as_str());
    push_line(out, "ozd_shard_free_bytes", shard, text::dec(m.cap.free_bytes).as_str());
    push_line(out, "ozd_shard_status", shard, status);
    push_line(
        out,
        "ozd_shard_ballast_released",
        shard,
        if m.ballast_released {
            "1"
        } else {
            "0"
        },
    );
    push_line(out, "ozd_shard_lat_ewma_ms", shard, text::dec(m.ewma_ms).as_str());
    push_line(
        out,
        "ozd_shard_slow",
        shard,
        if m.slow {
            "1"
        } else {
            "0"
        },
    );
    assert(out@ =~= before + shard_lines(shard as nat, *m));
}

/// The metrics page: the shards, the heal queue and the counters.
pub open spec fn page(shards: Seq<ShardMetrics>, queue: nat, counters: Seq<char>) -> Seq<char> {
    "# TYPE ozd_shard_total_bytes gauge\n# TYPE ozd_shard_free_bytes gauge\n# TYPE ozd_shard_status gauge\n"@
        + all_shard_lines(shards) + "# TYPE ozd_mrf_queue gauge\nozd_mrf_queue "@
        + text::dec_chars(queue) + "\n"@ + counters
}

/// Writes the metrics page.
pub fn metrics_page(shards: &Vec<ShardMetrics>, queue: usize, counters: &str) -> (r: String)
    ensures
        r@ == page(shards@, queue as nat, counters@),
{
    let mut out =
        "# TYPE ozd_shard_total_bytes gauge\n# TYPE ozd_shard_free_bytes gauge\n# TYPE ozd_shard_status gauge\n".to_owned();
    let ghost head = out@;
    let mut i: usize = 0;
    assert(shards@.take(0) =~= Seq::<ShardMetrics>::empty());
    assert(head + Seq::<char>::empty() =~= head);
    while i < shards.len()
        invariant
            i <= shards@.len(),
            out@ == head + all_shard_lines(shards@.take(i as int)),
        decreases shards@.len() - i,
    {
        assert(shards@.take(i + 1).drop_last() =~= shards@.take(i as int));
        let ghost done = all_shard_lines(shards@.take(i as int));
        push_shard(&mut out, i, &shards[i]);
        assert(out@ =~= head + (done + shard_lines(i as nat, shards@[i as int])));
        i = i + 1;
    }
    assert(shards@.take(shards@.len() as int) =~= shards@);
    out.append("# TYPE ozd_mrf_queue gauge\nozd_mrf_queue ");
    text::push_dec(&mut out, queue as u64);
    out.append("\n");
    out.append(counters);
    out
}

/// What stands in a joined text: each part.
proof fn lemma_joined_has(parts: Seq<Seq<char>>, sep: Seq<char>, i: int)
    requires
        0 <= i < parts.len(),
    ensures
        text::occurs(text::joined(parts, sep), parts[i]),
    decreases parts.len(),
{
    let none = Seq::<char>::empty();
    if parts.len() == 1 {
        text::lemma_occurs_between(none, parts[0], none);
        assert(none + parts[0] + none =~= parts[0]);
    } else {
        let p = parts.drop_last();
        let a = text::joined(p, sep);
        if i < p.len() {
            lemma_joined_has(p, sep, i);
            assert(p[i] == parts[i]);
            lemma_still_occurs(none, a, sep + parts.last(), parts[i]);
            assert(none + a + (sep + parts.last()) =~= a + sep + parts.last());
        } else {
            text::lemma_occurs_between(a + sep, parts.last(), none);
            assert(a + sep + parts.last() + none =~= a + sep + parts.last());
        }
    }
}

proof fn lemma_still_occurs(a: Seq<char>, s: Seq<char>, b: Seq<char>, pat: Seq<char>)
    requires
        text::occurs(s, pat),
    ensures
        text::occurs(a + s + b, pat),
{
    let j = choose|j: int| #[trigger] text::stands_at(s, pat, j);
    let t = a + s + b;
    let k = a.len() as int + j;
    assert(t.subrange(k, k + pat.len()) =~= s.subrange(j, j + pat.len()));
    assert(text::stands_at(t, pat, k));
}

/// Every member of an object is written with its name in quotes and its value, whole, and in
/// braces with all others; every item of a list stands in its brackets.
pub proof fn members_stand_in_objects(
    m: Seq<(Seq<char>, Seq<char>)>,
    items: Seq<Seq<char>>,
    i: int,
)
    ensures
        0 <= i < m.len() ==> text::occurs(object_text(m), "\""@ + m[i].0 + "\":"@ + m[i].1),
        0 <= i < items.len() ==> text::occurs(array_text(items), items[i]),
        object_text(m).len() >= 2 && object_text(m)[0] == '{' && object_text(m)[object_text(
            m,
        ).len() - 1] == '}',
        array_text(items).len() >= 2 && array_text(items)[0] == '[' && array_text(
            items,
        )[array_text(items).len() - 1] == ']',
{
    reveal_strlit("{");
    reveal_strlit("}");
    reveal_strlit("[");
    reveal_strlit("]");
    let parts = Seq::new(m.len(), |j: int| member_text(m[j]));
    if 0 <= i < m.len() {
        lemma_joined_has(parts, ","@, i);
        assert(parts[i] == "\""@ + m[i].0 + "\":"@ + m[i].1);
        lemma_still_occurs("{"@, text::joined(parts, ","@), "}"@, parts[i]);
    }
    if 0 <= i < items.len() {
        lemma_joined_has(items, ","@, i);
        lemma_still_occurs("["@, text::joined(items, ","@), "]"@, items[i]);
    }
}

/// A text is written character by character: those that JSON forbids are escaped, and all
/// others stand for themselves.
pub proof fn plain_characters_are_kept(a: Seq<char>, c: char, b: Seq<char>)
    ensures
        escaped(a + seq![c] + b) == escaped(a) + escaped_char(c) + escaped(b),
        c != '"' && c != '\\' && (c as nat) >= 32 ==> escaped_char(c) == seq![c],
        c == '"' || c == '\\' ==> escaped_char(c) == seq!['\\', c],
        (c as nat) < 32 ==> escaped_char(c).len() >= 2 && escaped_char(c)[0] == '\\',
    decreases a.len(),
{
    let s = a + seq![c] + b;
    if a.len() == 0 {
        assert(s[0] == c);
        assert(s.skip(1) =~= b);
        assert(escaped(a) =~= Seq::<char>::empty());
        assert(escaped(s) =~= escaped(a) + escaped_char(c) + escaped(b));
    } else {
        let d = a.skip(1);
        plain_characters_are_kept(d, c, b);
        assert(s[0] == a[0]);
        assert(s.skip(1) =~= d + seq![c] + b);
        assert(escaped_char(a[0]) + (escaped(d) + escaped_char(c) + escaped(b)) =~= (escaped_char(
            a[0],
        ) + escaped(d)) + escaped_char(c) + escaped(b));
    }
}

/// A numeric parameter is the number it spells; a missing one, or one that is no number, is
/// none. A switch knows its two words alone, and a request without a shard means them all.
pub proof fn parameters_are_read(
    v: Option<&str>,
    n: usize,
    i: int,
    want: Option<usize>,
    shard: usize,
    a: Option<usize>,
    b: Option<bool>,
    c: bool,
)
    requires
        call_ensures(read_parameter, (v,), a),
        call_ensures(read_switch, (v,), b),
        call_ensures(selected, (want, shard), c),
    ensures
        v is None ==> a is None && b is None,
        v is Some && (v->0)@ == text::dec_chars(n as nat) ==> a == Some(n),
        v is Some && (v->0)@.len() == 0 ==> a is None,
        b == Some(true) <==> v is Some && (v->0)@ == "true"@,
        b == Some(false) <==> v is Some && (v->0)@ == "false"@,
        want is None ==> c,
        want matches Some(w) ==> c == (w == shard),
{
    text::numbers_read_back(n as nat, usize::MAX as nat);
    reveal_strlit("true");
    reveal_strlit("false");
    assert("true"@.len() == 4 && "false"@.len() == 5);
}

proof fn lemma_shard_lines(v: Seq<ShardMetrics>, i: int)
    requires
        0 <= i < v.len(),
    ensures
        text::occurs(all_shard_lines(v), shard_lines(i as nat, v[i])),
    decreases v.len(),
{
    let p = v.drop_last();
    let a = all_shard_lines(p);
    let b = shard_lines((v.len() - 1) as nat, v.last());
    let none = Seq::<char>::empty();
    if i < p.len() {
        lemma_shard_lines(p, i);
        assert(p[i] == v[i]);
        lemma_still_occurs(none, a, b, shard_lines(i as nat, v[i]));
        assert(none + a + b =~= a + b);
    } else {
        text::lemma_occurs_between(a, b, none);
        assert(a + b + none =~= a + b);
    }
}

/// The metrics page tells of every shard, under its number, the space, the status, the
/// ballast and the latency; the queue and the counters follow, whole.
pub proof fn every_shard_is_on_the_page(
    shards: &Vec<ShardMetrics>,
    queue: usize,
    counters: &str,
    r: String,
    i: int,
)
    requires
        call_ensures(metrics_page, (shards, queue, counters), r),
        0 <= i < shards@.len(),
    ensures
        ({
            let m = shards@[i];
            let n = "{shard=\""@ + text::dec_chars(i as nat) + "\"} "@;
            let status = if m.status == Some(ShardStatus::Online) {
                "0"@
            } else if m.status == Some(ShardStatus::Suspect) {
                "1"@
            } else if m.status == Some(ShardStatus::Faulted) {
                "2"@
            } else {
                "-1"@
            };
            let yes = |b: bool|
                if b {
                    "1"@
                } else {
                    "0"@
                };
            text::occurs(
                r@,
                "ozd_shard_total_bytes"@ + n + text::dec_chars(m.cap.total_bytes as nat) + "\n"@
                    + "ozd_shard_free_bytes"@ + n + text::dec_chars(m.cap.free_bytes as nat)
                    + "\n"@ + "ozd_shard_status"@ + n + status + "\n"@
                    + "ozd_shard_ballast_released"@ + n + yes(m.ballast_released) + "\n"@
                    + "ozd_shard_lat_ewma_ms"@ + n + text::dec_chars(m.ewma_ms as nat) + "\n"@
                    + "ozd_shard_slow"@ + n + yes(m.slow) + "\n"@,
            )
        }),
        text::occurs(r@, "\nozd_mrf_queue "@ + text::dec_chars(queue as nat) + "\n"@ + counters@),
{
    lemma_shard_lines(shards@, i);
    lemma_lines_apart(i as nat, shards@[i]);
    let head =
        "# TYPE ozd_shard_total_bytes gauge\n# TYPE ozd_shard_free_bytes gauge\n# TYPE ozd_shard_status gauge\n"@;
    let lines = all_shard_lines(shards@);
    let d = text::dec_chars(queue as nat);
    let (q, t, u) = (
        "# TYPE ozd_mrf_queue gauge\nozd_mrf_queue "@,
        "# TYPE ozd_mrf_queue gauge"@,
        "\nozd_mrf_queue "@,
    );
    lemma_queue_title();
    lemma_page_apart(head, lines, q, d, counters@, t, u);
    lemma_still_occurs(head, lines, q + d + "\n"@ + counters@, shard_lines(i as nat, shards@[i]));
    text::lemma_occurs_between(head + lines + t, u + d + "\n"@ + counters@, Seq::empty());
    let m = shards@[i];
    let yes = |b: bool|
        if b {
            "1"@
        } else {
            "0"@
        };
    assert(yes(m.ballast_released) == bit(m.ballast_released) && yes(m.slow) == bit(m.slow));
}

/// The parts of a page, taken together in two ways.
proof fn lemma_page_apart(
    head: Seq<char>,
    lines: Seq<char>,
    q: Seq<char>,
    d: Seq<char>,
    counters: Seq<char>,
    t: Seq<char>,
    u: Seq<char>,
)
    requires
        q == t + u,
    ensures
        head + lines + q + d + "\n"@ + counters == head + lines + (q + d + "\n"@ + counters),
        head + lines + q + d + "\n"@ + counters == head + lines + t + (u + d + "\n"@ + counters)
            + Seq::empty(),
{
    let nl = "\n"@;
    assert(head + lines + q + d + nl + counters =~= head + lines + (q + d + nl + counters));
    assert(head + lines + (t + u) + d + nl + counters =~= head + lines + t + (u + d + nl + counters)
        + Seq::<char>::empty());
}

proof fn lemma_queue_title()
    ensures
        "# TYPE ozd_mrf_queue gauge\nozd_mrf_queue "@ == "# TYPE ozd_mrf_queue gauge"@
            + "\nozd_mrf_queue "@,
{
    reveal_strlit("# TYPE ozd_mrf_queue gauge\nozd_mrf_queue ");
    reveal_strlit("# TYPE ozd_mrf_queue gauge");
    reveal_strlit("\nozd_mrf_queue ");
    assert("# TYPE ozd_mrf_queue gauge\nozd_mrf_queue "@ =~= "# TYPE ozd_mrf_queue gauge"@
        + "\nozd_mrf_queue "@);
}

/// The lines of a shard, piece by piece.
proof fn lemma_lines_apart(shard: nat, m: ShardMetrics)
    ensures
        ({
            let n = "{shard=\""@ + text::dec_chars(shard) + "\"} "@;
            shard_lines(shard, m) == "ozd_shard_total_bytes"@ + n + text::dec_chars(
                m.cap.total_bytes as nat,
            ) + "\n"@ + "ozd_shard_free_bytes"@ + n + text::dec_chars(m.cap.free_bytes as nat)
                + "\n"@ + "ozd_shard_status"@ + n + status_number(m.status) + "\n"@
                + "ozd_shard_ballast_released"@ + n + bit(m.ballast_released) + "\n"@
                + "ozd_shard_lat_ewma_ms"@ + n + text::dec_chars(m.ewma_ms as nat) + "\n"@
                + "ozd_shard_slow"@ + n + bit(m.slow) + "\n"@
        }),
{
    let n = "{shard=\""@ + text::dec_chars(shard) + "\"} "@;
    let t = text::dec_chars(m.cap.total_bytes as nat);
    let f = text::dec_chars(m.cap.free_bytes as nat);
    let e = text::dec_chars(m.ewma_ms as nat);
    let s0 = Seq::<char>::empty();
    lemma_line_behind(s0, "ozd_shard_total_bytes"@, shard, t);
    let s1 = s0 + shard_line("ozd_shard_total_bytes"@, shard, t);
    lemma_line_behind(s1, "ozd_shard_free_bytes"@, shard, f);
    let s2 = s1 + shard_line("ozd_shard_free_bytes"@, shard, f);
    lemma_line_behind(s2, "ozd_shard_status"@, shard, status_number(m.status));
    let s3 = s2 + shard_line("ozd_shard_status"@, shard, status_number(m.status));
    lemma_line_behind(s3, "ozd_shard_ballast_released"@, shard, bit(m.ballast_released));
    let s4 = s3 + shard_line("ozd_shard_ballast_released"@, shard, bit(m.ballast_released));
    lemma_line_behind(s4, "ozd_shard_lat_ewma_ms"@, shard, e);
    let s5 = s4 + shard_line("ozd_shard_lat_ewma_ms"@, shard, e);
    lemma_line_behind(s5, "ozd_shard_slow"@, shard, bit(m.slow));
    assert(s0 + shard_line("ozd_shard_total_bytes"@, shard, t) =~= shard_line(
        "ozd_shard_total_bytes"@,
        shard,
        t,
    ));
    assert(s0 + "ozd_shard_total_bytes"@ =~= "ozd_shard_total_bytes"@);
}

proof fn lemma_line_behind(a: Seq<char>, name: Seq<char>, shard: nat, value: Seq<char>)
    ensures
        a + shard_line(name, shard, value) == a + name + ("{shard=\""@ + text::dec_chars(shard)
            + "\"} "@) + value + "\n"@,
{
    let (x, d, y) = ("{shard=\""@, text::dec_chars(shard), "\"} "@);
    assert(a + (name + x + d + y + value + "\n"@) =~= a + name + (x + d + y) + value + "\n"@);
}

/// A pool is described by its own numbers: the sums of its devices' errors, its space, with
/// what is being freed counted as free, and the status that its state comes to.
pub proof fn pools_are_described(
    shard: nat,
    h: PoolHealth,
    status: ShardStatus,
    m: PoolMetrics,
    issues: Seq<Seq<char>>,
)
    requires
        m.free + m.freeing <= u64::MAX,
    ensures
        ({
            let e = zfs_parser::error_sums(h.devices@);
            let p = pool_members(shard, h, status, m, issues);
            &&& p.len() == 13
            &&& p[0] == ("shard"@, text::dec_chars(shard))
            &&& p[1] == ("pool"@, quoted(h.pool@))
            &&& p[2] == ("state"@, quoted(zfs_parser::state_word(h.state)))
            &&& p[3] == (
                "shard_status"@,
                quoted(
                    match status {
                        ShardStatus::Online => "Online"@,
                        ShardStatus::Suspect => "Suspect"@,
                        ShardStatus::Faulted => "Faulted"@,
                    },
                ),
            )
            &&& p[4] == ("read_errors"@, text::dec_chars(e.0 as nat))
            &&& p[5] == ("write_errors"@, text::dec_chars(e.1 as nat))
            &&& p[6] == ("cksum_errors"@, text::dec_chars(e.2 as nat))
            &&& h.scrub.in_progress ==> p[7] == ("scrub_in_progress"@, "true"@)
            &&& !h.scrub.in_progress ==> p[7] == ("scrub_in_progress"@, "false"@)
            &&& p[8] == ("free"@, text::dec_chars(m.free as nat))
            &&& p[9] == ("freeing"@, text::dec_chars(m.freeing as nat))
            &&& p[10] == ("effective_free"@, text::dec_chars((m.free + m.freeing) as nat))
            &&& p[11] == ("fragmentation_pct"@, text::dec_chars(m.fragmentation_pct as nat))
            &&& p[12] == ("drift"@, array_text(issues))
        }),
{
}

/// A pass is reported as it went, and a failed one by its error.
pub proof fn passes_are_reported(
    shard: usize,
    gc: &DomainResult<GcReport>,
    scrub: &DomainResult<ScrubReport>,
    a: GcItem,
    b: ScrubItem,
)
    requires
        call_ensures(GcItem::new, (shard, gc), a),
        call_ensures(ScrubItem::new, (shard, scrub), b),
    ensures
        a.shard == shard && b.shard == shard,
        gc matches Ok(r) ==> a.victim == r.victim_seg && a.moved == r.live_moved && a.reclaimed
            == r.reclaimed_bytes && a.orphans == r.orphans_removed && a.orphan_bytes
            == r.orphan_bytes && a.error is None,
        gc matches Err(e) ==> a.error is Some && (a.error->0)@ == domain::error_text(e@),
        scrub matches Ok(r) ==> b.checked == Some(r.checked) && b.corrupt == Some(r.corrupt)
            && b.repaired == Some(r.repaired) && b.unrepairable == Some(r.unrepairable)
            && b.error is None,
        scrub matches Err(e) ==> b.error is Some && (b.error->0)@ == domain::error_text(e@),
{
}

/// Whether a JSON text has a member with that name and value.
pub open spec fn says(t: Seq<char>, name: Seq<char>, value: Seq<char>) -> bool {
    text::occurs(t, "\""@ + name + "\":"@ + value)
}

proof fn lemma_object_says(m: Seq<(Seq<char>, Seq<char>)>)
    ensures
        forall|i: int| 0 <= i < m.len() ==> says(object_text(m), (#[trigger] m[i]).0, m[i].1),
{
    assert forall|i: int| 0 <= i < m.len() implies says(
        object_text(m),
        (#[trigger] m[i]).0,
        m[i].1,
    ) by {
        members_stand_in_objects(m, Seq::empty(), i);
    }
}

/// A shard's usage is told as its capacity has it, and what went wrong on a shard with the
/// shard's number and the whole message.
pub proof fn usage_and_errors_are_told(
    shard: usize,
    cap: &Capacity,
    item: UsageItem,
    usage: String,
    msg: &str,
    failed: String,
    e: ErrorResponse,
    answer: Value,
)
    requires
        call_ensures(UsageItem::new, (shard, cap), item),
        call_ensures(UsageItem::json, (&item,), usage),
        call_ensures(shard_error_json, (shard, msg), failed),
        call_ensures(ErrorResponse::new, (msg,), e),
        call_ensures(ErrorResponse::json, (&e,), answer),
    ensures
        says(usage@, "shard"@, text::dec_chars(shard as nat)),
        says(usage@, "total"@, text::dec_chars(cap.total_bytes as nat)),
        says(usage@, "free"@, text::dec_chars(cap.free_bytes as nat)),
        says(failed@, "shard"@, text::dec_chars(shard as nat)),
        says(failed@, "error"@, quoted(msg@)),
        says(answer.0@, "error"@, quoted(msg@)),
{
    let u = seq![
        ("shard"@, text::dec_chars(item.shard as nat)),
        ("total"@, text::dec_chars(item.total as nat)),
        ("free"@, text::dec_chars(item.free as nat)),
    ];
    lemma_object_says(u);
    assert(says(object_text(u), u[0].0, u[0].1));
    assert(says(object_text(u), u[1].0, u[1].1));
    assert(says(object_text(u), u[2].0, u[2].1));
    let f = seq![("shard"@, text::dec_chars(shard as nat)), ("error"@, quoted(msg@))];
    lemma_object_says(f);
    assert(says(object_text(f), f[0].0, f[0].1));
    assert(says(object_text(f), f[1].0, f[1].1));
    let x = seq![("error"@, quoted(e.error@))];
    lemma_object_says(x);
    assert(says(object_text(x), x[0].0, x[0].1));
}

/// A shard's structure is told with every missing and every orphaned segment, and is healthy
/// exactly when none is missing; a check that failed is told by its error.
pub proof fn structures_are_told(
    shard: usize,
    rep: &DomainResult<StructureReport>,
    r: String,
    released: &DomainResult<bool>,
    b: String,
    error: &Option<String>,
    s: String,
)
    requires
        call_ensures(structure_json, (shard, rep), r),
        call_ensures(ballast_json, (shard, released), b),
        call_ensures(zfs_scrub_json, (shard, error), s),
    ensures
        says(r@, "shard"@, text::dec_chars(shard as nat)),
        rep matches Ok(x) ==> {
            &&& x.segments_missing@.len() == 0 ==> says(r@, "healthy"@, "true"@)
            &&& x.segments_missing@.len() > 0 ==> says(r@, "healthy"@, "false"@)
            &&& says(r@, "segments"@, text::dec_chars(x.segments_referenced as nat))
            &&& says(r@, "missing"@, list_text(x.segments_missing@))
            &&& says(r@, "keys_at_risk"@, text::dec_chars(x.keys_at_risk as nat))
            &&& says(r@, "orphans"@, list_text(x.orphan_segments@))
        },
        rep matches Err(e) ==> says(r@, "error"@, quoted(domain::error_text(e@))),
        says(b@, "shard"@, text::dec_chars(shard as nat)),
        released matches Ok(x) ==> says(b@, "released"@, if *x {
            "true"@
        } else {
            "false"@
        }),
        released matches Err(e) ==> says(b@, "error"@, quoted(domain::error_text(e@))),
        says(s@, "shard"@, text::dec_chars(shard as nat)),
        error is None ==> says(s@, "scrub"@, quoted("started"@)),
        error matches Some(t) ==> says(s@, "error"@, quoted(t@)),
{
    let n = text::dec_chars(shard as nat);
    match *rep {
        Ok(x) => {
            let m = seq![
                ("shard"@, n),
                ("healthy"@, bool_text(x.segments_missing@.len() == 0)),
                ("segments"@, text::dec_chars(x.segments_referenced as nat)),
                ("missing"@, list_text(x.segments_missing@)),
                ("keys_at_risk"@, text::dec_chars(x.keys_at_risk as nat)),
                ("orphans"@, list_text(x.orphan_segments@)),
            ];
            lemma_object_says(m);
            assert(says(object_text(m), m[0].0, m[0].1));
            assert(says(object_text(m), m[1].0, m[1].1));
            assert(says(object_text(m), m[2].0, m[2].1));
            assert(says(object_text(m), m[3].0, m[3].1));
            assert(says(object_text(m), m[4].0, m[4].1));
            assert(says(object_text(m), m[5].0, m[5].1));
        },
        Err(e) => {
            lemma_error_says(shard as nat, domain::error_text(e@));
        },
    }
    match *released {
        Ok(x) => {
            let m = seq![("shard"@, n), ("released"@, bool_text(x))];
            lemma_object_says(m);
            assert(says(object_text(m), m[0].0, m[0].1));
            assert(says(object_text(m), m[1].0, m[1].1));
        },
        Err(e) => {
            lemma_error_says(shard as nat, domain::error_text(e@));
        },
    }
    match *error {
        None => {
            let m = seq![("shard"@, n), ("scrub"@, quoted("started"@))];
            lemma_object_says(m);
            assert(says(object_text(m), m[0].0, m[0].1));
            assert(says(object_text(m), m[1].0, m[1].1));
        },
        Some(t) => {
            lemma_error_says(shard as nat, t@);
        },
    }
}

proof fn lemma_error_says(shard: nat, msg: Seq<char>)
    ensures
        says(shard_error(shard, msg), "shard"@, text::dec_chars(shard)),
        says(shard_error(shard, msg), "error"@, quoted(msg)),
{
    let m = seq![("shard"@, text::dec_chars(shard)), ("error"@, quoted(msg))];
    lemma_object_says(m);
    assert(says(object_text(m), m[0].0, m[0].1));
    assert(says(object_text(m), m[1].0, m[1].1));
}

/// A walk over the keys is reported with its own counts, and with whether it is done.
pub proof fn walks_are_reported(
    a: &ResilverReport,
    x: ResilverResponse,
    r: Value,
    b: &MigrateReport,
    y: MigrateResponse,
    s: Value,
)
    requires
        call_ensures(ResilverResponse::new, (a,), x),
        call_ensures(ResilverResponse::json, (&x,), r),
        call_ensures(MigrateResponse::new, (b,), y),
        call_ensures(MigrateResponse::json, (&y,), s),
    ensures
        says(r.0@, "scanned"@, text::dec_chars(a.scanned as nat)),
        says(r.0@, "repaired"@, text::dec_chars(a.repaired as nat)),
        says(r.0@, "errors"@, text::dec_chars(a.errors as nat)),
        says(r.0@, "done"@, if a.done {
            "true"@
        } else {
            "false"@
        }),
        says(s.0@, "scanned"@, text::dec_chars(b.scanned as nat)),
        says(s.0@, "migrated"@, text::dec_chars(b.migrated as nat)),
        says(s.0@, "skipped_small"@, text::dec_chars(b.skipped_small as nat)),
        says(s.0@, "skipped_ec"@, text::dec_chars(b.skipped_ec as nat)),
        says(s.0@, "canary_failed"@, text::dec_chars(b.canary_failed as nat)),
        says(s.0@, "errors"@, text::dec_chars(b.errors as nat)),
        says(s.0@, "done"@, if b.done {
            "true"@
        } else {
            "false"@
        }),
{
    let m = seq![
        ("scanned"@, text::dec_chars(x.scanned as nat)),
        ("repaired"@, text::dec_chars(x.repaired as nat)),
        ("errors"@, text::dec_chars(x.errors as nat)),
        ("done"@, bool_text(x.done)),
    ];
    lemma_object_says(m);
    assert(says(object_text(m), m[0].0, m[0].1));
    assert(says(object_text(m), m[1].0, m[1].1));
    assert(says(object_text(m), m[2].0, m[2].1));
    assert(says(object_text(m), m[3].0, m[3].1));
    let n = seq![
        ("scanned"@, text::dec_chars(y.scanned as nat)),
        ("migrated"@, text::dec_chars(y.migrated as nat)),
        ("skipped_small"@, text::dec_chars(y.skipped_small as nat)),
        ("skipped_ec"@, text::dec_chars(y.skipped_ec as nat)),
        ("canary_failed"@, text::dec_chars(y.canary_failed as nat)),
        ("errors"@, text::dec_chars(y.errors as nat)),
        ("done"@, bool_text(y.done)),
    ];
    lemma_object_says(n);
    assert(says(object_text(n), n[0].0, n[0].1));
    assert(says(object_text(n), n[1].0, n[1].1));
    assert(says(object_text(n), n[2].0, n[2].1));
    assert(says(object_text(n), n[3].0, n[3].1));
    assert(says(object_text(n), n[4].0, n[4].1));
    assert(says(object_text(n), n[5].0, n[5].1));
    assert(says(object_text(n), n[6].0, n[6].1));
}

} // verus!
