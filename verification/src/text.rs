//! Text helpers: decimal and hexadecimal digits, splitting, trimming.
use vstd::prelude::*;

verus! {

/// `String::push` appends one character.
pub assume_specification[ String::push ](s: &mut String, c: char)
    ensures
        final(s)@ == old(s)@.push(c),
;

/// The decimal digit `d` as a character.
pub open spec fn digit_char(d: nat) -> char {
    (48 + d) as char
}

/// `n` in decimal, without leading zeros.
pub open spec fn dec_chars(n: nat) -> Seq<char>
    decreases n,
{
    if n < 10 {
        seq![digit_char(n)]
    } else {
        dec_chars(n / 10).push(digit_char(n % 10))
    }
}

pub fn digit(d: u8) -> (c: char)
    requires
        d < 10,
    ensures
        c == digit_char(d as nat),
{
    (48u8 + d) as char
}

/// Appends `n` in decimal.
pub fn push_dec(out: &mut String, n: u64)
    ensures
        final(out)@ == old(out)@ + dec_chars(n as nat),
    decreases n,
{
    if n >= 10 {
        push_dec(out, n / 10);
    }
    let ghost mid = out@;
    out.push(digit((n % 10) as u8));
    proof {
        if n >= 10 {
            assert(out@ =~= old(out)@ + dec_chars(n as nat / 10).push(digit_char(n as nat % 10)));
        } else {
            assert(out@ =~= old(out)@ + seq![digit_char(n as nat)]);
        }
    }
}

/// `n` in decimal.
pub fn dec(n: u64) -> (s: String)
    ensures
        s@ == dec_chars(n as nat),
{
    let mut s = String::new();
    push_dec(&mut s, n);
    assert(s@ =~= dec_chars(n as nat));
    s
}

/// The characters of a text.
pub fn chars(s: &str) -> (r: Vec<char>)
    ensures
        r@ == s@,
{
    let mut out: Vec<char> = Vec::new();
    for c in it: s.chars()
        invariant
            out@ =~= it.seq().take(it.index() as int),
            it.seq() == s@,
    {
        out.push(c);
    }
    assert(s@.take(s@.len() as int) =~= s@);
    out
}

/// The text made of these characters.
pub fn from_chars(c: &[char]) -> (r: String)
    ensures
        r@ == c@,
{
    let mut out = String::new();
    let mut i: usize = 0;
    while i < c.len()
        invariant
            i <= c@.len(),
            out@ =~= c@.take(i as int),
        decreases c@.len() - i,
    {
        out.push(c[i]);
        i = i + 1;
    }
    assert(c@.take(c@.len() as int) =~= c@);
    out
}

/// The characters `from..to`.
pub fn slice_of(c: &[char], from: usize, to: usize) -> (r: Vec<char>)
    requires
        from <= to <= c@.len(),
    ensures
        r@ == c@.subrange(from as int, to as int),
{
    let mut out: Vec<char> = Vec::new();
    let mut i: usize = from;
    while i < to
        invariant
            from <= i <= to <= c@.len(),
            out@ =~= c@.subrange(from as int, i as int),
        decreases to - i,
    {
        out.push(c[i]);
        i = i + 1;
    }
    out
}

/// Whether two character slices are equal.
pub fn same_chars(a: &[char], b: &[char]) -> (r: bool)
    ensures
        r == (a@ == b@),
{
    if a.len() != b.len() {
        return false;
    }
    let mut i: usize = 0;
    while i < a.len()
        invariant
            i <= a@.len(),
            a@.len() == b@.len(),
            forall|j: int| 0 <= j < i ==> a@[j] == b@[j],
        decreases a@.len() - i,
    {
        if a[i] != b[i] {
            return false;
        }
        i = i + 1;
    }
    assert(a@ =~= b@);
    true
}

/// Whether the characters spell the text `s`.
pub fn spells(a: &[char], s: &str) -> (r: bool)
    ensures
        r == (a@ == s@),
{
    same_chars(a, chars(s).as_slice())
}

/// Whether two texts are equal.
pub fn same_text(a: &str, b: &str) -> (r: bool)
    ensures
        r == (a@ == b@),
{
    same_chars(chars(a).as_slice(), chars(b).as_slice())
}

/// Whether `a` begins with `p`.
pub fn has_prefix(a: &[char], p: &[char]) -> (r: bool)
    ensures
        r == crate::bytes::has_prefix(a@, p@),
{
    if p.len() > a.len() {
        return false;
    }
    let head = slice_of(a, 0, p.len());
    same_chars(head.as_slice(), p)
}

/// Whether `a` ends with `p`.
pub open spec fn suffixed(a: Seq<char>, p: Seq<char>) -> bool {
    p.len() <= a.len() && a.subrange(a.len() - p.len(), a.len() as int) == p
}

pub fn has_suffix(a: &[char], p: &[char]) -> (r: bool)
    ensures
        r == suffixed(a@, p@),
{
    if p.len() > a.len() {
        return false;
    }
    let tail = slice_of(a, a.len() - p.len(), a.len());
    same_chars(tail.as_slice(), p)
}

pub open spec fn is_digit_char(c: char) -> bool {
    '0' <= c <= '9'
}

/// The number that decimal digits spell.
pub open spec fn dec_value(s: Seq<char>) -> nat
    decreases s.len(),
{
    if s.len() == 0 {
        0
    } else {
        (dec_value(s.drop_last()) * 10 + (s.last() as int - '0' as int)) as nat
    }
}

/// Whether all characters are decimal digits.
pub open spec fn all_digits(s: Seq<char>) -> bool {
    forall|i: int| 0 <= i < s.len() ==> is_digit_char(#[trigger] s[i])
}

/// The number up to `max` that a text spells: digits, with an optional plus
/// sign in front.
pub open spec fn parsed_uint(s: Seq<char>, max: nat) -> Option<nat> {
    let d = if s.len() > 0 && s[0] == '+' {
        s.skip(1)
    } else {
        s
    };
    if d.len() > 0 && all_digits(d) && dec_value(d) <= max {
        Some(dec_value(d))
    } else {
        None
    }
}

proof fn lemma_dec_value_grows(s: Seq<char>, n: int)
    requires
        all_digits(s),
        0 <= n <= s.len(),
    ensures
        dec_value(s.take(n)) <= dec_value(s),
    decreases s.len() - n,
{
    if n == s.len() {
        assert(s.take(n) =~= s);
    } else {
        lemma_dec_value_grows(s, n + 1);
        assert(s.take(n + 1).drop_last() =~= s.take(n));
        assert(is_digit_char(s[n]));
    }
}

/// Reads a number up to `max`.
pub fn parse_uint(s: &[char], max: u64) -> (r: Option<u64>)
    ensures
        match r {
            Some(v) => parsed_uint(s@, max as nat) == Some(v as nat),
            None => parsed_uint(s@, max as nat) is None,
        },
{
    let from: usize = if s.len() > 0 && s[0] == '+' {
        1
    } else {
        0
    };
    let d = slice_of(s, from, s.len());
    proof {
        if from == 1 {
            assert(d@ =~= s@.skip(1));
        } else {
            assert(d@ =~= s@);
        }
    }
    if d.len() == 0 {
        return None;
    }
    let mut v: u64 = 0;
    let mut i: usize = 0;
    while i < d.len()
        invariant
            i <= d@.len(),
            d@.len() > 0,
            parsed_uint(s@, max as nat) == (if all_digits(d@) && dec_value(d@) <= max {
                Some(dec_value(d@))
            } else {
                None::<nat>
            }),
            forall|j: int| 0 <= j < i ==> is_digit_char(#[trigger] d@[j]),
            v == dec_value(d@.take(i as int)),
            v <= max,
        decreases d@.len() - i,
    {
        let c = d[i];
        if !(c >= '0' && c <= '9') {
            assert(!is_digit_char(d@[i as int]));
            return None;
        }
        let x: u64 = (c as u32 - '0' as u32) as u64;
        proof {
            assert(d@.take(i + 1).drop_last() =~= d@.take(i as int));
            assert(dec_value(d@.take(i + 1)) == v * 10 + x);
            if all_digits(d@) {
                lemma_dec_value_grows(d@, i + 1);
            }
        }
        if v > (u64::MAX - x) / 10 {
            assert(v * 10 + x > u64::MAX);
            return None;
        }
        v = v * 10 + x;
        if v > max {
            return None;
        }
        i = i + 1;
    }
    assert(d@.take(d@.len() as int) =~= d@);
    Some(v)
}

/// The text that `String::from_utf8_lossy` makes of a byte sequence.
pub uninterp spec fn lossy_text(b: Seq<u8>) -> Seq<char>;

/// `String::from_utf8_lossy`.
#[verifier::external_body]
pub(crate) fn lossy(b: &[u8]) -> (r: String)
    ensures
        r@ == lossy_text(b@),
{
    String::from_utf8_lossy(b).into_owned()
}

/// Whether a character is white space: the Unicode property `White_Space`.
pub open spec fn is_white(c: char) -> bool {
    ||| '\u{9}' <= c <= '\u{d}'
    ||| c == ' '
    ||| c == '\u{85}'
    ||| c == '\u{a0}'
    ||| c == '\u{1680}'
    ||| '\u{2000}' <= c <= '\u{200a}'
    ||| c == '\u{2028}'
    ||| c == '\u{2029}'
    ||| c == '\u{202f}'
    ||| c == '\u{205f}'
    ||| c == '\u{3000}'
}

pub fn white(c: char) -> (r: bool)
    ensures
        r == is_white(c),
{
    (c >= '\u{9}' && c <= '\u{d}') || c == ' ' || c == '\u{85}' || c == '\u{a0}' || c == '\u{1680}'
        || (c >= '\u{2000}' && c <= '\u{200a}') || c == '\u{2028}' || c == '\u{2029}' || c == '\u{202f}'
        || c == '\u{205f}' || c == '\u{3000}'
}

/// A text without white space at its end.
pub open spec fn trimmed_end(s: Seq<char>) -> Seq<char>
    decreases s.len(),
{
    if s.len() > 0 && is_white(s.last()) {
        trimmed_end(s.drop_last())
    } else {
        s
    }
}

/// A text without white space at its start.
pub open spec fn trimmed_start(s: Seq<char>) -> Seq<char>
    decreases s.len(),
{
    if s.len() > 0 && is_white(s[0]) {
        trimmed_start(s.skip(1))
    } else {
        s
    }
}

/// A text without white space at either end.
pub open spec fn trimmed(s: Seq<char>) -> Seq<char> {
    trimmed_start(trimmed_end(s))
}

pub fn trim_end(s: &[char]) -> (r: Vec<char>)
    ensures
        r@ == trimmed_end(s@),
{
    let mut n: usize = s.len();
    assert(s@.take(n as int) =~= s@);
    while n > 0 && white(s[n - 1])
        invariant
            n <= s@.len(),
            trimmed_end(s@) == trimmed_end(s@.take(n as int)),
        decreases n,
    {
        assert(s@.take(n as int).drop_last() =~= s@.take(n - 1));
        n = n - 1;
    }
    let r = slice_of(s, 0, n);
    assert(r@ =~= s@.take(n as int));
    r
}

pub fn trim(s: &[char]) -> (r: Vec<char>)
    ensures
        r@ == trimmed(s@),
{
    let t = trim_end(s);
    let mut n: usize = 0;
    assert(t@.skip(0) =~= t@);
    while n < t.len() && white(t[n])
        invariant
            n <= t@.len(),
            trimmed_start(t@) == trimmed_start(t@.skip(n as int)),
        decreases t@.len() - n,
    {
        assert(t@.skip(n as int).skip(1) =~= t@.skip(n + 1));
        n = n + 1;
    }
    let r = slice_of(t.as_slice(), n, t.len());
    assert(r@ =~= t@.skip(n as int));
    r
}

/// A list of texts, each taken by value.
pub open spec fn views(v: Seq<Vec<char>>) -> Seq<Seq<char>> {
    Seq::new(v.len(), |i: int| v[i]@)
}

/// A list of strings, each taken by value.
pub open spec fn texts(v: Seq<String>) -> Seq<Seq<char>> {
    Seq::new(v.len(), |i: int| v[i]@)
}

/// The pieces between the separators: one more than there are separators.
pub open spec fn split_on(s: Seq<char>, sep: char) -> Seq<Seq<char>>
    decreases s.len(),
{
    if s.len() == 0 {
        seq![Seq::empty()]
    } else {
        let p = split_on(s.drop_last(), sep);
        if s.last() == sep {
            p.push(Seq::empty())
        } else {
            p.drop_last().push(p.last().push(s.last()))
        }
    }
}

pub proof fn lemma_split_nonempty(s: Seq<char>, sep: char)
    ensures
        split_on(s, sep).len() >= 1,
    decreases s.len(),
{
    if s.len() > 0 {
        lemma_split_nonempty(s.drop_last(), sep);
    }
}

/// Whether a character does not occur.
pub open spec fn lacks(s: Seq<char>, c: char) -> bool {
    forall|i: int| 0 <= i < s.len() ==> #[trigger] s[i] != c
}

/// A text without the separator is one piece.
pub proof fn lemma_split_plain(s: Seq<char>, sep: char)
    requires
        lacks(s, sep),
    ensures
        split_on(s, sep) == seq![s],
    decreases s.len(),
{
    if s.len() > 0 {
        let p = s.drop_last();
        assert forall|i: int| 0 <= i < p.len() implies #[trigger] p[i] != sep by {
            assert(p[i] == s[i]);
        }
        lemma_split_plain(p, sep);
        assert(s.last() != sep);
        assert(p.push(s.last()) =~= s);
        assert(split_on(s, sep) =~= seq![s]);
    } else {
        assert(s =~= Seq::empty());
        assert(split_on(s, sep) =~= seq![s]);
    }
}

/// Around a separator the two sides are split on their own.
pub proof fn lemma_split_around(a: Seq<char>, b: Seq<char>, sep: char)
    ensures
        split_on(a + seq![sep] + b, sep) == split_on(a, sep) + split_on(b, sep),
    decreases b.len(),
{
    let s = a + seq![sep] + b;
    if b.len() == 0 {
        assert(s =~= a.push(sep));
        assert(s.drop_last() =~= a);
        assert(split_on(s, sep) =~= split_on(a, sep) + split_on(b, sep));
    } else {
        let c = b.drop_last();
        lemma_split_around(a, c, sep);
        lemma_split_nonempty(c, sep);
        assert(s.drop_last() =~= a + seq![sep] + c);
        assert(s.last() == b.last());
        let p = split_on(a, sep) + split_on(c, sep);
        assert(p.last() == split_on(c, sep).last());
        assert(p.drop_last() =~= split_on(a, sep) + split_on(c, sep).drop_last());
        assert(split_on(s, sep) =~= split_on(a, sep) + split_on(b, sep));
    }
}

/// Text that neither begins nor ends with white space is left as it is.
pub proof fn lemma_trimmed_plain(s: Seq<char>)
    requires
        s.len() > 0,
        !is_white(s[0]),
        !is_white(s.last()),
    ensures
        trimmed(s) == s,
        trimmed(seq![' '] + s) == s,
{
    let t = seq![' '] + s;
    assert(t.last() == s.last());
    assert(trimmed_end(t) == t);
    assert(t.skip(1) =~= s);
    assert(trimmed_start(t) == trimmed_start(s));
}

pub fn split(s: &[char], sep: char) -> (r: Vec<Vec<char>>)
    ensures
        views(r@) == split_on(s@, sep),
        r@.len() >= 1,
{
    let mut out: Vec<Vec<char>> = Vec::new();
    let mut cur: Vec<char> = Vec::new();
    let mut i: usize = 0;
    assert(views(out@).push(cur@) =~= seq![Seq::<char>::empty()]);
    while i < s.len()
        invariant
            i <= s@.len(),
            views(out@).push(cur@) == split_on(s@.take(i as int), sep),
        decreases s@.len() - i,
    {
        let ghost p = split_on(s@.take(i as int), sep);
        assert(s@.take(i + 1).drop_last() =~= s@.take(i as int));
        assert(p.last() == cur@);
        assert(p.drop_last() =~= views(out@));
        if s[i] == sep {
            out.push(cur);
            cur = Vec::new();
            assert(views(out@) =~= p);
        } else {
            cur.push(s[i]);
        }
        i = i + 1;
    }
    out.push(cur);
    assert(s@.take(s@.len() as int) =~= s@);
    assert(views(out@) =~= split_on(s@, sep));
    out
}

/// The text behind a prefix.
pub open spec fn stripped(s: Seq<char>, prefix: Seq<char>) -> Option<Seq<char>> {
    if crate::bytes::has_prefix(s, prefix) {
        Some(s.skip(prefix.len() as int))
    } else {
        None
    }
}

pub fn strip(s: &[char], prefix: &str) -> (r: Option<Vec<char>>)
    ensures
        match r {
            Some(v) => stripped(s@, prefix@) == Some(v@),
            None => stripped(s@, prefix@) is None,
        },
{
    let p = chars(prefix);
    if has_prefix(s, p.as_slice()) {
        let r = slice_of(s, p.len(), s.len());
        assert(r@ =~= s@.skip(p@.len() as int));
        Some(r)
    } else {
        None
    }
}

/// A text without the given character at its end.
pub open spec fn without_tail(s: Seq<char>, c: char) -> Seq<char>
    decreases s.len(),
{
    if s.len() > 0 && s.last() == c {
        without_tail(s.drop_last(), c)
    } else {
        s
    }
}

pub fn drop_tail(s: &[char], c: char) -> (r: Vec<char>)
    ensures
        r@ == without_tail(s@, c),
{
    let mut n: usize = s.len();
    assert(s@.take(n as int) =~= s@);
    while n > 0 && s[n - 1] == c
        invariant
            n <= s@.len(),
            without_tail(s@, c) == without_tail(s@.take(n as int), c),
        decreases n,
    {
        assert(s@.take(n as int).drop_last() =~= s@.take(n - 1));
        n = n - 1;
    }
    let r = slice_of(s, 0, n);
    assert(r@ =~= s@.take(n as int));
    r
}

/// Whether a text stands at a position of another.
pub open spec fn stands_at(s: Seq<char>, pat: Seq<char>, i: int) -> bool {
    0 <= i && i + pat.len() <= s.len() && s.subrange(i, i + pat.len()) == pat
}

/// Whether a text occurs in another.
pub open spec fn occurs(s: Seq<char>, pat: Seq<char>) -> bool {
    exists|i: int| #[trigger] stands_at(s, pat, i)
}

/// Whether `i` is the first position at which a text stands.
pub open spec fn first_at(s: Seq<char>, pat: Seq<char>, i: int) -> bool {
    stands_at(s, pat, i) && forall|j: int| 0 <= j < i ==> !#[trigger] stands_at(s, pat, j)
}

/// The first position of a text in another.
pub fn find(s: &[char], pat: &[char]) -> (r: Option<usize>)
    ensures
        match r {
            Some(i) => first_at(s@, pat@, i as int),
            None => !occurs(s@, pat@),
        },
{
    if pat.len() > s.len() {
        return None;
    }
    let n: usize = s.len();
    let last: usize = n - pat.len();
    let mut i: usize = 0;
    while i <= last
        invariant
            n == s@.len(),
            pat@.len() + last == n,
            i <= last + 1,
            forall|j: int| 0 <= j < i ==> !#[trigger] stands_at(s@, pat@, j),
        decreases s@.len() + 1 - i,
    {
        if same_chars(slice_of(s, i, i + pat.len()).as_slice(), pat) {
            assert(stands_at(s@, pat@, i as int));
            return Some(i);
        }
        assert(!stands_at(s@, pat@, i as int));
        if i == last {
            return None;
        }
        i = i + 1;
    }
    None
}

/// Whether a text occurs in another.
pub fn contains(s: &[char], pat: &str) -> (r: bool)
    ensures
        r == occurs(s@, pat@),
{
    match find(s, chars(pat).as_slice()) {
        Some(i) => {
            assert(stands_at(s@, pat@, i as int));
            true
        },
        None => false,
    }
}

/// A line without the carriage return in front of its line feed.
pub open spec fn chomped(s: Seq<char>) -> Seq<char> {
    if s.len() > 0 && s.last() == '\r' {
        s.drop_last()
    } else {
        s
    }
}

/// The lines of a text; the line feed behind the last may be missing.
pub open spec fn lines_of(s: Seq<char>) -> Seq<Seq<char>> {
    let p = split_on(s, '\n');
    let ended = Seq::new((p.len() - 1) as nat, |i: int| chomped(p[i]));
    if p.last().len() == 0 {
        ended
    } else {
        ended.push(p.last())
    }
}

pub fn lines(s: &[char]) -> (r: Vec<Vec<char>>)
    ensures
        views(r@) == lines_of(s@),
{
    let p = split(s, '\n');
    let ghost v = views(p@);
    let mut out: Vec<Vec<char>> = Vec::new();
    let mut i: usize = 0;
    while i < p.len() - 1
        invariant
            i < p@.len(),
            v == views(p@),
            out@.len() == i,
            forall|j: int| 0 <= j < i ==> (#[trigger] out@[j])@ == chomped(v[j]),
        decreases p@.len() - i,
    {
        let n: usize = p[i].len();
        if n > 0 && p[i][n - 1] == '\r' {
            let c = slice_of(p[i].as_slice(), 0, n - 1);
            assert(c@ =~= v[i as int].drop_last());
            out.push(c);
        } else {
            out.push(slice_of(p[i].as_slice(), 0, n));
            assert(out@[i as int]@ =~= v[i as int]);
        }
        i = i + 1;
    }
    let ghost ended = Seq::new((v.len() - 1) as nat, |j: int| chomped(v[j]));
    assert(views(out@) =~= ended);
    let n: usize = p[i].len();
    assert(v.last() == p@[i as int]@);
    if n > 0 {
        out.push(slice_of(p[i].as_slice(), 0, n));
        assert(out@[i as int]@ =~= v.last());
        assert(views(out@) =~= ended.push(v.last()));
    }
    out
}

/// The part before the first separator and the part behind it; none without one.
pub open spec fn split_first(s: Seq<char>, sep: char) -> Option<(Seq<char>, Seq<char>)>
    decreases s.len(),
{
    if s.len() == 0 {
        None
    } else if s[0] == sep {
        Some((Seq::empty(), s.skip(1)))
    } else {
        match split_first(s.skip(1), sep) {
            Some(p) => Some((seq![s[0]] + p.0, p.1)),
            None => None,
        }
    }
}

pub fn split_once(s: &[char], sep: char) -> (r: Option<(Vec<char>, Vec<char>)>)
    ensures
        match r {
            Some(p) => split_first(s@, sep) == Some((p.0@, p.1@)),
            None => split_first(s@, sep) is None,
        },
{
    let mut i: usize = 0;
    assert(s@.skip(0) =~= s@);
    proof {
        assert(s@.take(0) =~= Seq::<char>::empty());
        if split_first(s@, sep) is Some {
            let p = split_first(s@, sep)->0;
            assert(s@.take(0) + p.0 =~= p.0);
        }
    }
    while i < s.len()
        invariant
            i <= s@.len(),
            split_first(s@, sep) == (match split_first(s@.skip(i as int), sep) {
                Some(p) => Some((s@.take(i as int) + p.0, p.1)),
                None => None::<(Seq<char>, Seq<char>)>,
            }),
        decreases s@.len() - i,
    {
        let ghost t = s@.skip(i as int);
        assert(t.skip(1) =~= s@.skip(i + 1));
        if s[i] == sep {
            let a = slice_of(s, 0, i);
            let b = slice_of(s, i + 1, s.len());
            assert(a@ =~= s@.take(i as int) + Seq::<char>::empty());
            assert(b@ =~= t.skip(1));
            return Some((a, b));
        }
        proof {
            match split_first(t.skip(1), sep) {
                Some(p) => {
                    assert(s@.take(i as int) + (seq![t[0]] + p.0) =~= s@.take(i + 1) + p.0);
                },
                None => {},
            }
        }
        i = i + 1;
    }
    None
}

/// The maximal runs of characters that are not white space.
pub open spec fn words_of(s: Seq<char>) -> Seq<Seq<char>>
    decreases s.len(),
{
    if s.len() == 0 {
        Seq::empty()
    } else {
        let w = words_of(s.drop_last());
        if is_white(s.last()) {
            w
        } else if s.len() == 1 || is_white(s[s.len() - 2]) {
            w.push(seq![s.last()])
        } else {
            w.drop_last().push(w.last().push(s.last()))
        }
    }
}

pub fn words(s: &[char]) -> (r: Vec<Vec<char>>)
    ensures
        views(r@) == words_of(s@),
{
    let mut out: Vec<Vec<char>> = Vec::new();
    let mut cur: Vec<char> = Vec::new();
    let mut i: usize = 0;
    assert(views(out@) =~= Seq::<Seq<char>>::empty());
    while i < s.len()
        invariant
            i <= s@.len(),
            cur@.len() > 0 ==> i > 0 && !is_white(s@[i - 1]) && words_of(s@.take(i as int)) == views(
                out@,
            ).push(cur@),
            cur@.len() == 0 ==> (i == 0 || is_white(s@[i - 1])) && words_of(s@.take(i as int))
                == views(out@),
        decreases s@.len() - i,
    {
        let ghost w = words_of(s@.take(i as int));
        let ghost t = s@.take(i + 1);
        assert(t.drop_last() =~= s@.take(i as int));
        let c = s[i];
        if white(c) {
            if cur.len() > 0 {
                out.push(cur);
                cur = Vec::new();
                assert(views(out@) =~= w);
            }
        } else {
            proof {
                if cur@.len() > 0 {
                    assert(w.drop_last() =~= views(out@));
                    assert(t[t.len() - 2] == s@[i - 1]);
                } else {
                    assert(i == 0 || t[t.len() - 2] == s@[i - 1]);
                    assert(cur@.push(c) =~= seq![c]);
                }
            }
            cur.push(c);
        }
        i = i + 1;
    }
    assert(s@.take(s@.len() as int) =~= s@);
    if cur.len() > 0 {
        let ghost w = words_of(s@);
        out.push(cur);
        assert(views(out@) =~= w);
    }
    out
}

/// Texts with a separator between each two.
pub open spec fn joined(parts: Seq<Seq<char>>, sep: Seq<char>) -> Seq<char>
    decreases parts.len(),
{
    if parts.len() == 0 {
        Seq::empty()
    } else if parts.len() == 1 {
        parts[0]
    } else {
        joined(parts.drop_last(), sep) + sep + parts.last()
    }
}

pub fn join(parts: &Vec<String>, sep: &str) -> (r: String)
    ensures
        r@ == joined(texts(parts@), sep@),
{
    let mut out = String::new();
    let mut i: usize = 0;
    let ghost t = texts(parts@);
    assert(t.take(0) =~= Seq::<Seq<char>>::empty());
    while i < parts.len()
        invariant
            i <= parts@.len(),
            t == texts(parts@),
            out@ == joined(t.take(i as int), sep@),
        decreases parts@.len() - i,
    {
        assert(t.take(i + 1).drop_last() =~= t.take(i as int));
        if i > 0 {
            out.append(sep);
        }
        out.append(parts[i].as_str());
        proof {
            if i == 0 {
                assert(out@ =~= t[0]);
            }
        }
        i = i + 1;
    }
    assert(t.take(t.len() as int) =~= t);
    out
}

/// A character with the ASCII capital letters made small.
pub open spec fn lower_char(c: char) -> char {
    if 'A' <= c <= 'Z' {
        (c as int + 32) as char
    } else {
        c
    }
}

/// A text with the ASCII capital letters made small.
pub open spec fn lowered(s: Seq<char>) -> Seq<char> {
    Seq::new(s.len(), |i: int| lower_char(s[i]))
}

pub fn lower(s: &[char]) -> (r: Vec<char>)
    ensures
        r@ == lowered(s@),
{
    let mut out: Vec<char> = Vec::new();
    let mut i: usize = 0;
    while i < s.len()
        invariant
            i <= s@.len(),
            out@ =~= lowered(s@.take(i as int)),
        decreases s@.len() - i,
    {
        let c = s[i];
        if c >= 'A' && c <= 'Z' {
            out.push((c as u8 + 32) as char);
        } else {
            out.push(c);
        }
        i = i + 1;
    }
    assert(s@.take(s@.len() as int) =~= s@);
    out
}

/// The integer that a text of digits with an optional sign spells, at most `max` in size.
pub open spec fn parsed_int(s: Seq<char>, max: nat) -> Option<int> {
    if s.len() > 1 && s[0] == '-' && s[1] != '+' {
        match parsed_uint(s.skip(1), max) {
            Some(v) => Some(-v),
            None => None,
        }
    } else {
        match parsed_uint(s, max) {
            Some(v) => Some(v as int),
            None => None,
        }
    }
}

pub fn parse_int(s: &[char], max: u32) -> (r: Option<i64>)
    ensures
        match r {
            Some(v) => parsed_int(s@, max as nat) == Some(v as int) && -max <= v <= max,
            None => parsed_int(s@, max as nat) is None,
        },
{
    if s.len() > 1 && s[0] == '-' && s[1] != '+' {
        let d = slice_of(s, 1, s.len());
        assert(d@ =~= s@.skip(1));
        match parse_uint(d.as_slice(), max as u64) {
            Some(v) => Some(0 - (v as i64)),
            None => None,
        }
    } else {
        match parse_uint(s, max as u64) {
            Some(v) => Some(v as i64),
            None => None,
        }
    }
}

/// Writing a number and reading it back gives the number.
pub proof fn dec_round_trip(n: nat)
    ensures
        dec_chars(n).len() > 0,
        all_digits(dec_chars(n)),
        dec_value(dec_chars(n)) == n,
    decreases n,
{
    reveal_with_fuel(dec_value, 2);
    if n < 10 {
        assert(dec_chars(n).drop_last() =~= Seq::<char>::empty());
    } else {
        dec_round_trip(n / 10);
        assert(dec_chars(n).drop_last() =~= dec_chars(n / 10));
    }
}

/// A number is read back from its decimal form, up to any bound that admits it.
pub proof fn numbers_read_back(n: nat, max: nat)
    ensures
        n <= max ==> parsed_uint(dec_chars(n), max) == Some(n),
        n > max ==> parsed_uint(dec_chars(n), max) is None,
{
    dec_round_trip(n);
    assert(is_digit_char(dec_chars(n)[0]));
}

/// What has no digits alone is no number.
pub proof fn other_texts_are_no_numbers(s: Seq<char>, i: int, max: nat)
    requires
        0 <= i < s.len(),
        !is_digit_char(s[i]),
        i > 0 || s[0] != '+',
    ensures
        parsed_uint(s, max) is None,
{
    if s[0] == '+' {
        assert(s.skip(1)[i - 1] == s[i]);
    }
}

/// Decimal digits hold no other character.
pub proof fn lemma_digits_lack(n: nat, c: char)
    requires
        !is_digit_char(c),
    ensures
        lacks(dec_chars(n), c),
{
    dec_round_trip(n);
}

/// A text is cut at the first separator, and not at all without one.
pub proof fn texts_are_cut_once(a: Seq<char>, sep: char, b: Seq<char>)
    requires
        lacks(a, sep),
    ensures
        split_first(a + seq![sep] + b, sep) == Some((a, b)),
        split_first(a, sep) is None,
    decreases a.len(),
{
    let s = a + seq![sep] + b;
    if a.len() == 0 {
        assert(s[0] == sep);
        assert(s.skip(1) =~= b);
        assert(a =~= Seq::empty());
    } else {
        let c = a.skip(1);
        assert forall|i: int| 0 <= i < c.len() implies #[trigger] c[i] != sep by {
            assert(c[i] == a[i + 1]);
        }
        texts_are_cut_once(c, sep, b);
        assert(s[0] == a[0]);
        assert(s.skip(1) =~= c + seq![sep] + b);
        assert(seq![a[0]] + c =~= a);
    }
}

/// What stands between two texts occurs in the whole.
pub proof fn lemma_occurs_between(a: Seq<char>, p: Seq<char>, b: Seq<char>)
    ensures
        occurs(a + p + b, p),
{
    let s = a + p + b;
    assert(s.subrange(a.len() as int, a.len() as int + p.len()) =~= p);
    assert(stands_at(s, p, a.len() as int));
}

/// Nothing but white space.
pub open spec fn all_white(s: Seq<char>) -> bool {
    forall|i: int| 0 <= i < s.len() ==> is_white(#[trigger] s[i])
}

/// No white space at all, and not nothing.
pub open spec fn is_word(s: Seq<char>) -> bool {
    s.len() > 0 && forall|i: int| 0 <= i < s.len() ==> !is_white(#[trigger] s[i])
}

/// White space behind a text adds no word, and none is in white space.
pub proof fn gaps_are_no_words(a: Seq<char>, gap: Seq<char>)
    requires
        all_white(gap),
    ensures
        words_of(a + gap) == words_of(a),
        words_of(gap) == Seq::<Seq<char>>::empty(),
    decreases gap.len(),
{
    let s = a + gap;
    if gap.len() == 0 {
        assert(s =~= a);
        assert(gap =~= Seq::empty());
    } else {
        let g = gap.drop_last();
        assert forall|i: int| 0 <= i < g.len() implies is_white(#[trigger] g[i]) by {
            assert(g[i] == gap[i]);
        }
        gaps_are_no_words(a, g);
        assert(s.drop_last() =~= a + g);
        assert(s.last() == gap[gap.len() - 1]);
    }
}

/// A word behind white space is one more word.
pub proof fn words_stand_apart(a: Seq<char>, w: Seq<char>)
    requires
        is_word(w),
        a.len() == 0 || is_white(a.last()),
    ensures
        words_of(a + w) == words_of(a).push(w),
    decreases w.len(),
{
    let s = a + w;
    let v = w.drop_last();
    assert(s.last() == w[w.len() - 1]);
    assert(s.drop_last() =~= a + v);
    if v.len() == 0 {
        assert(a + v =~= a);
        if a.len() > 0 {
            assert(s[s.len() - 2] == a.last());
        }
        assert(seq![s.last()] =~= w);
    } else {
        assert forall|i: int| 0 <= i < v.len() implies !is_white(#[trigger] v[i]) by {
            assert(v[i] == w[i]);
        }
        words_stand_apart(a, v);
        assert(s[s.len() - 2] == w[w.len() - 2]);
        let q = words_of(a).push(v);
        assert(q.drop_last() =~= words_of(a));
        assert(v.push(s.last()) =~= w);
    }
}

/// White space around a text goes, and nothing else.
pub proof fn trimming_takes_white_space(a: Seq<char>, s: Seq<char>, b: Seq<char>)
    requires
        all_white(a),
        all_white(b),
        s.len() > 0,
        !is_white(s[0]),
        !is_white(s.last()),
    ensures
        trimmed(a + s + b) == s,
{
    lemma_trimmed_end(a + s, b);
    lemma_trimmed_start(a, s);
    assert((a + s).last() == s.last());
}

proof fn lemma_trimmed_end(s: Seq<char>, b: Seq<char>)
    requires
        all_white(b),
        s.len() > 0,
        !is_white(s.last()),
    ensures
        trimmed_end(s + b) == s,
    decreases b.len(),
{
    if b.len() == 0 {
        assert(s + b =~= s);
    } else {
        let c = b.drop_last();
        assert forall|i: int| 0 <= i < c.len() implies is_white(#[trigger] c[i]) by {
            assert(c[i] == b[i]);
        }
        lemma_trimmed_end(s, c);
        assert((s + b).drop_last() =~= s + c);
        assert((s + b).last() == b[b.len() - 1]);
    }
}

proof fn lemma_trimmed_start(a: Seq<char>, s: Seq<char>)
    requires
        all_white(a),
        s.len() > 0,
        !is_white(s[0]),
    ensures
        trimmed_start(a + s) == s,
    decreases a.len(),
{
    if a.len() == 0 {
        assert(a + s =~= s);
    } else {
        let c = a.skip(1);
        assert forall|i: int| 0 <= i < c.len() implies is_white(#[trigger] c[i]) by {
            assert(c[i] == a[i + 1]);
        }
        lemma_trimmed_start(c, s);
        assert((a + s).skip(1) =~= c + s);
        assert((a + s)[0] == a[0]);
    }
}

/// Lines, each with its line feed, as one text.
pub open spec fn written_lines(lines: Seq<Seq<char>>) -> Seq<char>
    decreases lines.len(),
{
    if lines.len() == 0 {
        Seq::empty()
    } else {
        written_lines(lines.drop_last()) + lines.last() + seq!['\n']
    }
}

/// A line by itself: no line feed in it, no carriage return at its end.
pub open spec fn is_line(s: Seq<char>) -> bool {
    lacks(s, '\n') && (s.len() == 0 || s.last() != '\r')
}

/// Lines are read back in their order.
pub proof fn lines_read_back(lines: Seq<Seq<char>>)
    requires
        forall|i: int| 0 <= i < lines.len() ==> is_line(#[trigger] lines[i]),
    ensures
        lines_of(written_lines(lines)) == lines,
{
    lemma_written_lines(lines);
    let p = split_on(written_lines(lines), '\n');
    assert(p == lines.push(Seq::empty()));
    assert(p.last() =~= Seq::<char>::empty());
    let ended = Seq::new((p.len() - 1) as nat, |i: int| chomped(p[i]));
    assert forall|i: int| 0 <= i < ended.len() implies #[trigger] ended[i] == lines[i] by {
        assert(is_line(lines[i]));
        assert(p[i] == lines[i]);
    }
    assert(ended =~= lines);
}

proof fn lemma_written_lines(lines: Seq<Seq<char>>)
    requires
        forall|i: int| 0 <= i < lines.len() ==> is_line(#[trigger] lines[i]),
    ensures
        split_on(written_lines(lines), '\n') == lines.push(Seq::empty()),
    decreases lines.len(),
{
    if lines.len() == 0 {
        assert(lines.push(Seq::empty()) =~= seq![Seq::<char>::empty()]);
    } else {
        let p = lines.drop_last();
        assert forall|i: int| 0 <= i < p.len() implies is_line(#[trigger] p[i]) by {
            assert(p[i] == lines[i]);
        }
        lemma_written_lines(p);
        let (a, l) = (written_lines(p), lines.last());
        assert(is_line(lines[lines.len() - 1]));
        let none = Seq::<char>::empty();
        assert(a + l + seq!['\n'] + none =~= a + l + seq!['\n']);
        lemma_split_around(a + l, none, '\n');
        lemma_split_plain(none, '\n');
        lemma_split_extends(a, l, '\n');
        let q = p.push(Seq::<char>::empty());
        assert(split_on(a, '\n') == q);
        assert(q.last() + l =~= l);
        assert(q.drop_last() =~= p);
        assert(p.push(l) =~= lines);
        assert(lines + seq![none] =~= lines.push(none));
    }
}

/// A text without the separator lengthens the last piece.
proof fn lemma_split_extends(a: Seq<char>, l: Seq<char>, sep: char)
    requires
        lacks(l, sep),
    ensures
        split_on(a + l, sep) == split_on(a, sep).drop_last().push(split_on(a, sep).last() + l),
    decreases l.len(),
{
    lemma_split_nonempty(a, sep);
    let p = split_on(a, sep);
    if l.len() == 0 {
        assert(a + l =~= a);
        assert(p.last() + l =~= p.last());
        assert(p.drop_last().push(p.last()) =~= p);
    } else {
        let m = l.drop_last();
        assert forall|i: int| 0 <= i < m.len() implies #[trigger] m[i] != sep by {
            assert(m[i] == l[i]);
        }
        lemma_split_extends(a, m, sep);
        assert((a + l).drop_last() =~= a + m);
        assert((a + l).last() == l[l.len() - 1]);
        let q = p.drop_last().push(p.last() + m);
        assert(q.drop_last() =~= p.drop_last());
        assert((p.last() + m).push(l.last()) =~= p.last() + l);
    }
}

/// A separator that occurs in no piece gives the pieces back.
pub proof fn pieces_split_back(parts: Seq<Seq<char>>, sep: char)
    requires
        parts.len() > 0,
        forall|i: int| 0 <= i < parts.len() ==> lacks(#[trigger] parts[i], sep),
    ensures
        split_on(joined(parts, seq![sep]), sep) == parts,
    decreases parts.len(),
{
    if parts.len() == 1 {
        assert(lacks(parts[0], sep));
        lemma_split_plain(parts[0], sep);
        assert(parts =~= seq![parts[0]]);
    } else {
        let p = parts.drop_last();
        assert forall|i: int| 0 <= i < p.len() implies lacks(#[trigger] p[i], sep) by {
            assert(p[i] == parts[i]);
        }
        pieces_split_back(p, sep);
        assert(lacks(parts[parts.len() - 1], sep));
        lemma_split_around(joined(p, seq![sep]), parts.last(), sep);
        lemma_split_plain(parts.last(), sep);
        assert(p + seq![parts.last()] =~= parts);
    }
}

/// Zeros in front of digits change nothing of the number.
pub proof fn zeros_in_front(zeros: nat, s: Seq<char>, max: nat)
    requires
        s.len() > 0,
        all_digits(s),
    ensures
        parsed_uint(Seq::new(zeros, |i: int| '0') + s, max) == parsed_uint(s, max),
{
    let z = Seq::new(zeros, |i: int| '0');
    let t = z + s;
    lemma_zeros_value(zeros, s);
    assert(all_digits(t)) by {
        assert forall|i: int| 0 <= i < t.len() implies is_digit_char(#[trigger] t[i]) by {
            if i >= zeros {
                assert(t[i] == s[i - zeros]);
            }
        }
    }
    assert(is_digit_char(t[0]) && is_digit_char(s[0]));
}

proof fn lemma_zeros_value(zeros: nat, s: Seq<char>)
    ensures
        dec_value(Seq::new(zeros, |i: int| '0') + s) == dec_value(s),
    decreases zeros + s.len(),
{
    let z = Seq::new(zeros, |i: int| '0');
    if s.len() > 0 {
        lemma_zeros_value(zeros, s.drop_last());
        assert((z + s).drop_last() =~= z + s.drop_last());
    } else if zeros > 0 {
        let y = Seq::new((zeros - 1) as nat, |i: int| '0');
        lemma_zeros_value((zeros - 1) as nat, s);
        assert((z + s).drop_last() =~= y + s);
    }
}

/// A sign in front of digits is read with them; a sign alone, or nothing, is no number.
pub proof fn signs_are_read(n: nat, max: nat)
    requires
        n <= max,
    ensures
        parsed_uint(seq!['+'] + dec_chars(n), max) == Some(n),
        parsed_uint(Seq::empty(), max) is None,
        parsed_uint(seq!['+'], max) is None,
        parsed_int(dec_chars(n), max) == Some(n as int),
        parsed_int(seq!['+'] + dec_chars(n), max) == Some(n as int),
        parsed_int(seq!['-'] + dec_chars(n), max) == Some(-(n as int)),
        parsed_int(seq!['-'], max) is None,
        parsed_int(Seq::empty(), max) is None,
{
    let d = dec_chars(n);
    numbers_read_back(n, max);
    dec_round_trip(n);
    assert(is_digit_char(d[0]));
    let p = seq!['+'] + d;
    assert(p[0] == '+' && p.skip(1) =~= d);
    let m = seq!['-'] + d;
    assert(m[0] == '-' && m[1] == d[0] && m.skip(1) =~= d);
    assert(seq!['+'].skip(1).len() == 0);
    other_texts_are_no_numbers(seq!['-'], 0, max);
}

} // verus!
