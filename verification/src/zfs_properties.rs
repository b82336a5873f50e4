//! Properties of a dataset with their sources, and the audit of its tuning.
use vstd::prelude::*;
use vstd::string::*;
use vstd::arithmetic::power::*;
use vstd::arithmetic::power2::*;
use crate::text;
use crate::zfs_parser;

verus! {

/// Where a property's value comes from.
#[derive(Debug, PartialEq, Eq)]
pub enum PropertySource {
    /// set on this dataset
    Local,
    /// the default of ZFS: no tuning was applied
    Default,
    /// inherited from an ancestor
    Inherited(String),
    /// a read-only statistic, "-"
    Unset,
    Other(String),
}

/// A [`PropertySource`] with its text taken by value.
pub ghost enum SourceView {
    Local,
    Default,
    Inherited(Seq<char>),
    Unset,
    Other(Seq<char>),
}

impl View for PropertySource {
    type V = SourceView;

    open spec fn view(&self) -> SourceView {
        match *self {
            PropertySource::Local => SourceView::Local,
            PropertySource::Default => SourceView::Default,
            PropertySource::Inherited(t) => SourceView::Inherited(t@),
            PropertySource::Unset => SourceView::Unset,
            PropertySource::Other(t) => SourceView::Other(t@),
        }
    }
}

impl Clone for PropertySource {
    fn clone(&self) -> (r: Self)
        ensures
            r@ == self@,
    {
        match self {
            PropertySource::Local => PropertySource::Local,
            PropertySource::Default => PropertySource::Default,
            PropertySource::Inherited(t) => PropertySource::Inherited(t.clone()),
            PropertySource::Unset => PropertySource::Unset,
            PropertySource::Other(t) => PropertySource::Other(t.clone()),
        }
    }
}

/// The source that a column names.
pub open spec fn source_named(s: Seq<char>) -> SourceView {
    if s == "local"@ {
        SourceView::Local
    } else if s == "default"@ {
        SourceView::Default
    } else if s == "-"@ {
        SourceView::Unset
    } else {
        match text::stripped(s, "inherited from "@) {
            Some(t) => SourceView::Inherited(t),
            None => SourceView::Other(s),
        }
    }
}

impl PropertySource {
    pub fn parse(s: &str) -> (r: Self)
        ensures
            r@ == source_named(s@),
    {
        if text::same_text(s, "local") {
            PropertySource::Local
        } else if text::same_text(s, "default") {
            PropertySource::Default
        } else if text::same_text(s, "-") {
            PropertySource::Unset
        } else {
            match text::strip(text::chars(s).as_slice(), "inherited from ") {
                Some(t) => PropertySource::Inherited(text::from_chars(t.as_slice())),
                None => PropertySource::Other(s.to_owned()),
            }
        }
    }
}

/// A value and where it comes from.
#[derive(Debug)]
pub struct Property {
    pub value: String,
    pub source: PropertySource,
}

/// The properties of a dataset or pool by name. Of several entries of a name the last counts.
#[derive(Debug)]
pub struct Properties(pub Vec<(String, Property)>);

/// A value and its source, taken by value.
pub type Entry = (Seq<char>, SourceView);

/// The map that a list of entries makes.
pub open spec fn entry_map(v: Seq<(String, Property)>) -> Map<Seq<char>, Entry>
    decreases v.len(),
{
    if v.len() == 0 {
        Map::empty()
    } else {
        entry_map(v.drop_last()).insert(v.last().0@, (v.last().1.value@, v.last().1.source@))
    }
}

impl View for Properties {
    type V = Map<Seq<char>, Entry>;

    open spec fn view(&self) -> Map<Seq<char>, Entry> {
        entry_map(self.0@)
    }
}

/// The properties that lines of three columns, separated by tabs, list.
pub open spec fn listed(lines: Seq<Seq<char>>) -> Map<Seq<char>, Entry>
    decreases lines.len(),
{
    if lines.len() == 0 {
        Map::empty()
    } else {
        let rest = listed(lines.drop_last());
        let cols = text::split_on(lines.last(), '\t');
        if cols.len() >= 3 {
            rest.insert(cols[0], (cols[1], source_named(cols[2])))
        } else {
            rest
        }
    }
}

impl Properties {
    /// Reads the output of `zfs get -Hp -o property,value,source`.
    pub fn parse(output: &str) -> (r: Self)
        ensures
            r@ == listed(text::lines_of(output@)),
    {
        let lines = text::lines(text::chars(output).as_slice());
        let ghost v = text::lines_of(output@);
        let mut out: Vec<(String, Property)> = Vec::new();
        let mut i: usize = 0;
        assert(v.take(0) =~= Seq::<Seq<char>>::empty());
        while i < lines.len()
            invariant
                i <= lines@.len(),
                v == text::views(lines@),
                entry_map(out@) == listed(v.take(i as int)),
            decreases lines@.len() - i,
        {
            assert(v.take(i + 1).drop_last() =~= v.take(i as int));
            assert(v.take(i + 1).last() == lines@[i as int]@);
            let cols = text::split(lines[i].as_slice(), '\t');
            let ghost c = text::split_on(lines@[i as int]@, '\t');
            if cols.len() >= 3 {
                assert(forall|j: int| 0 <= j < cols@.len() ==> c[j] == (#[trigger] cols@[j])@);
                let name = text::from_chars(cols[0].as_slice());
                let value = text::from_chars(cols[1].as_slice());
                let source = PropertySource::parse(text::from_chars(cols[2].as_slice()).as_str());
                let ghost before = out@;
                out.push((name, Property { value, source }));
                assert(out@.drop_last() =~= before);
            }
            i = i + 1;
        }
        assert(v.take(v.len() as int) =~= v);
        Properties(out)
    }

    fn get(&self, prop: &str) -> (r: Option<&Property>)
        ensures
            match r {
                Some(p) => self@.contains_key(prop@) && self@[prop@] == (p.value@, p.source@),
                None => !self@.contains_key(prop@),
            },
    {
        let mut n: usize = self.0.len();
        assert(self.0@.take(n as int) =~= self.0@);
        while n > 0
            invariant
                n <= self.0@.len(),
                self@.contains_key(prop@) == entry_map(self.0@.take(n as int)).contains_key(prop@),
                self@.contains_key(prop@) ==> self@[prop@] == entry_map(
                    self.0@.take(n as int),
                )[prop@],
            decreases n,
        {
            assert(self.0@.take(n as int).drop_last() =~= self.0@.take(n - 1));
            if text::same_text(self.0[n - 1].0.as_str(), prop) {
                return Some(&self.0[n - 1].1);
            }
            n = n - 1;
        }
        None
    }

    /// A property's value; none where it is missing or "-".
    pub fn string(&self, prop: &str) -> (r: Option<&str>)
        ensures
            match r {
                Some(v) => value_of(self@, prop@) == Some(v@),
                None => value_of(self@, prop@) is None,
            },
    {
        match self.get(prop) {
            Some(p) => {
                if text::same_text(p.value.as_str(), "-") {
                    None
                } else {
                    Some(p.value.as_str())
                }
            },
            None => None,
        }
    }

    /// A property as a number of bytes.
    pub fn bytes(&self, prop: &str) -> (r: Option<u64>)
        ensures
            r == (match value_of(self@, prop@) {
                Some(v) => size_in(v),
                None => None,
            }),
    {
        match self.string(prop) {
            Some(v) => parse_size(v),
            None => None,
        }
    }

    /// A property as a percentage: "9%" is 9.
    pub fn percent(&self, prop: &str) -> (r: Option<u64>)
        ensures
            r == (match value_of(self@, prop@) {
                Some(v) => number_in(text::without_tail(v, '%')),
                None => None,
            }),
    {
        match self.string(prop) {
            Some(v) => text::parse_uint(
                text::drop_tail(text::chars(v).as_slice(), '%').as_slice(),
                u64::MAX,
            ),
            None => None,
        }
    }

    /// The number of a ratio as written: "1.50x" is 1.50.
    pub fn ratio_text(&self, prop: &str) -> (r: Option<String>)
        ensures
            match r {
                Some(t) => ratio_in(self@, prop@) == Some(t@),
                None => ratio_in(self@, prop@) is None,
            },
    {
        match self.string(prop) {
            Some(v) => Some(
                text::from_chars(text::drop_tail(text::chars(v).as_slice(), 'x').as_slice()),
            ),
            None => None,
        }
    }

    /// Whether a switch is on.
    pub fn bool_(&self, prop: &str) -> (r: Option<bool>)
        ensures
            r == (match value_of(self@, prop@) {
                Some(v) => Some(v == "on"@ || v == "enabled"@ || v == "yes"@),
                None => None,
            }),
    {
        match self.string(prop) {
            Some(v) => Some(
                text::same_text(v, "on") || text::same_text(v, "enabled") || text::same_text(
                    v,
                    "yes",
                ),
            ),
            None => None,
        }
    }

    /// Where a property's value comes from.
    pub fn source(&self, prop: &str) -> (r: Option<&PropertySource>)
        ensures
            match r {
                Some(s) => self@.contains_key(prop@) && self@[prop@].1 == s@,
                None => !self@.contains_key(prop@),
            },
    {
        match self.get(prop) {
            Some(p) => Some(&p.source),
            None => None,
        }
    }
}

/// A property's value; none where it is missing or "-".
pub open spec fn value_of(m: Map<Seq<char>, Entry>, prop: Seq<char>) -> Option<Seq<char>> {
    if m.contains_key(prop) && m[prop].0 != "-"@ {
        Some(m[prop].0)
    } else {
        None
    }
}

/// The number of a ratio as written.
pub open spec fn ratio_in(m: Map<Seq<char>, Entry>, prop: Seq<char>) -> Option<Seq<char>> {
    match value_of(m, prop) {
        Some(v) => Some(text::without_tail(v, 'x')),
        None => None,
    }
}

/// The number a text spells that fits in 64 bits.
pub open spec fn number_in(s: Seq<char>) -> Option<u64> {
    match text::parsed_uint(s, u64::MAX as nat) {
        Some(v) => Some(v as u64),
        None => None,
    }
}

/// How many characters at the front are digits or points.
pub open spec fn numeral_len(s: Seq<char>) -> nat
    decreases s.len(),
{
    if s.len() > 0 && (text::is_digit_char(s[0]) || s[0] == '.') {
        1 + numeral_len(s.skip(1))
    } else {
        0
    }
}

/// A suffix without the letters that only say "bytes".
pub open spec fn bare_suffix(s: Seq<char>) -> Seq<char>
    decreases s.len(),
{
    if s.len() > 0 && (s.last() == 'B' || s.last() == 'b' || s.last() == 'i') {
        bare_suffix(s.drop_last())
    } else {
        s
    }
}

/// The power of two that a suffix stands for.
pub open spec fn suffix_shift(s: Seq<char>) -> Option<nat> {
    if s == ""@ {
        Some(0)
    } else if s == "K"@ || s == "k"@ {
        Some(10)
    } else if s == "M"@ || s == "m"@ {
        Some(20)
    } else if s == "G"@ || s == "g"@ {
        Some(30)
    } else if s == "T"@ || s == "t"@ {
        Some(40)
    } else if s == "P"@ || s == "p"@ {
        Some(50)
    } else {
        None
    }
}

/// The digits before and behind the point of a numeral.
pub open spec fn numeral_parts(d: Seq<char>) -> (Seq<char>, Seq<char>) {
    match text::split_first(d, '.') {
        Some(p) => p,
        None => (d, Seq::empty()),
    }
}

/// The binary digits of a number; none of zero.
pub open spec fn bits(n: nat) -> nat
    decreases n,
{
    if n == 0 {
        0
    } else {
        1 + bits(n / 2)
    }
}

/// The whole number nearest to `a / b`; of two, the even one.
pub open spec fn nearest(a: nat, b: nat) -> nat {
    let (q, r) = (a / b, a % b);
    if 2 * r < b || (2 * r == b && q % 2 == 0) {
        q
    } else {
        q + 1
    }
}

/// The whole part of the double-precision number nearest to `a / b`.  Such a number has 53
/// binary digits; below one half there are more of them behind the point, and the whole
/// part is nothing in any case.
pub open spec fn whole_of_double(a: nat, b: nat) -> nat {
    let n = bits(a / b);
    if n > 53 {
        let unit = pow2((n - 53) as nat);
        nearest(a, b * unit) * unit
    } else {
        let unit = pow2((53 - n) as nat);
        nearest(a * unit, b) / unit
    }
}

/// A decimal numeral, which is read in double precision, times a power of two, rounded down.
pub open spec fn scaled(d: Seq<char>, shift: nat) -> nat {
    let p = numeral_parts(d);
    let tens = pow(10, p.1.len()) as nat;
    whole_of_double((text::dec_value(p.0) * tens + text::dec_value(p.1)) * pow2(shift), tens)
}

/// The number of bytes that a text names: a plain number, or a decimal numeral with a
/// suffix for a power of 1024, rounded down and at most the largest number.
pub open spec fn size_in(s: Seq<char>) -> Option<u64> {
    let t = text::trimmed(s);
    match number_in(t) {
        Some(v) => Some(v),
        None => {
            let n = numeral_len(t) as int;
            let d = t.take(n);
            match suffix_shift(bare_suffix(text::trimmed(t.skip(n)))) {
                None => None,
                Some(shift) => if !zfs_parser::is_decimal(d) {
                    None
                } else if scaled(d, shift) <= u64::MAX {
                    Some(scaled(d, shift) as u64)
                } else {
                    Some(u64::MAX)
                },
            }
        },
    }
}

/// The number that digits spell, the first the highest.
spec fn digits_value(d: Seq<u8>) -> nat
    decreases d.len(),
{
    if d.len() == 0 {
        0
    } else {
        digits_value(d.drop_last()) * 10 + d.last() as nat
    }
}

spec fn are_digits(d: Seq<u8>) -> bool {
    forall|i: int| 0 <= i < d.len() ==> #[trigger] d[i] < 10
}

proof fn lemma_pow10_step(n: nat)
    ensures
        pow(10, n + 1) == 10 * pow(10, n),
        pow(10, n) > 0,
{
    lemma_pow_positive(10, n);
    reveal(pow);
}

proof fn lemma_digits_front(x: u8, t: Seq<u8>)
    ensures
        digits_value(seq![x] + t) == x * pow(10, t.len()) + digits_value(t),
    decreases t.len(),
{
    let s = seq![x] + t;
    if t.len() == 0 {
        reveal(pow);
        assert(s =~= seq![x]);
        assert(s.drop_last() =~= Seq::<u8>::empty());
        assert(t =~= Seq::<u8>::empty());
    } else {
        let u = t.drop_last();
        lemma_digits_front(x, u);
        assert(s.drop_last() =~= seq![x] + u);
        lemma_pow10_step(u.len());
        assert(x * (10 * pow(10, u.len())) == (x * pow(10, u.len())) * 10) by (nonlinear_arith);
    }
}

proof fn lemma_digits_bound(d: Seq<u8>)
    requires
        are_digits(d),
    ensures
        digits_value(d) < pow(10, d.len()),
    decreases d.len(),
{
    if d.len() == 0 {
        reveal(pow);
    } else {
        let p = d.drop_last();
        assert forall|i: int| 0 <= i < p.len() implies #[trigger] p[i] < 10 by {
            assert(p[i] == d[i]);
        }
        lemma_digits_bound(p);
        lemma_pow10_step(p.len());
        assert(d[d.len() - 1] < 10);
    }
}

/// Doubles the number that digits spell; returns what no longer fits.
fn double(d: &mut Vec<u8>) -> (c: u8)
    requires
        are_digits(old(d)@),
    ensures
        final(d)@.len() == old(d)@.len(),
        are_digits(final(d)@),
        c <= 1,
        digits_value(final(d)@) + c * pow(10, old(d)@.len()) == 2 * digits_value(old(d)@),
{
    let n: usize = d.len();
    let ghost o = d@;
    let mut c: u8 = 0;
    let mut i: usize = n;
    proof {
        reveal(pow);
        assert(d@.skip(n as int) =~= Seq::<u8>::empty());
    }
    while i > 0
        invariant
            i <= n,
            n == o.len(),
            d@.len() == n,
            c <= 1,
            are_digits(o),
            are_digits(d@),
            d@.take(i as int) =~= o.take(i as int),
            digits_value(d@.skip(i as int)) + c * pow(10, (n - i) as nat) == 2 * digits_value(
                o.skip(i as int),
            ),
        decreases i,
    {
        let x: u8 = d[i - 1];
        let ghost old_tail = d@.skip(i as int);
        let ghost carried = c as int;
        proof {
            assert(d@.take(i as int)[i - 1] == o.take(i as int)[i - 1]);
            assert(x == o[i - 1]);
        }
        let sum: u8 = 2 * x + c;
        let (digit, up): (u8, u8) = if sum >= 10 {
            (sum - 10, 1)
        } else {
            (sum, 0)
        };
        d.set(i - 1, digit);
        c = up;
        proof {
            let k = (n - i) as nat;
            let p = pow(10, k);
            assert(d@.skip(i as int) =~= old_tail);
            assert(d@.skip(i - 1) =~= seq![digit] + old_tail);
            assert(o.skip(i - 1) =~= seq![x] + o.skip(i as int));
            lemma_digits_front(digit, old_tail);
            lemma_digits_front(x, o.skip(i as int));
            lemma_pow10_step(k);
            assert(d@.take(i - 1) =~= o.take(i - 1)) by {
                assert forall|j: int| 0 <= j < i - 1 implies #[trigger] d@[j] == o[j] by {
                    assert(o.take(i as int)[j] == o[j]);
                }
            }
            assert(digit + 10 * up == 2 * x + carried);
            assert(digit * p + up * (10 * p) == 2 * (x * p) + carried * p) by (nonlinear_arith)
                requires
                    digit + 10 * up == 2 * x + carried,
            ;
        }
        i = i - 1;
    }
    assert(d@.skip(0) =~= d@);
    assert(o.skip(0) =~= o);
    c
}

/// The digits of a text.
fn digits_of(s: &[char]) -> (r: Vec<u8>)
    requires
        text::all_digits(s@),
    ensures
        r@.len() == s@.len(),
        are_digits(r@),
        digits_value(r@) == text::dec_value(s@),
{
    let mut out: Vec<u8> = Vec::new();
    let mut i: usize = 0;
    while i < s.len()
        invariant
            i <= s@.len(),
            text::all_digits(s@),
            out@.len() == i,
            are_digits(out@),
            digits_value(out@) == text::dec_value(s@.take(i as int)),
        decreases s@.len() - i,
    {
        let c = s[i];
        assert(text::is_digit_char(s@[i as int]));
        let ghost before = out@;
        out.push((c as u32 - '0' as u32) as u8);
        assert(out@.drop_last() =~= before);
        assert(s@.take(i + 1).drop_last() =~= s@.take(i as int));
        i = i + 1;
    }
    assert(s@.take(s@.len() as int) =~= s@);
    out
}

/// Doubles the fraction that digits behind the point spell, `times` times: what has become
/// whole of it.
fn double_often(d: &mut Vec<u8>, times: u32) -> (r: u64)
    requires
        are_digits(old(d)@),
        times <= 53,
    ensures
        final(d)@.len() == old(d)@.len(),
        are_digits(final(d)@),
        r * pow(10, old(d)@.len()) + digits_value(final(d)@) == digits_value(old(d)@) * pow2(
            times as nat,
        ),
        digits_value(final(d)@) < pow(10, old(d)@.len()),
        r < pow2(times as nat),
{
    let ghost f = digits_value(d@);
    let ghost k = d@.len();
    let mut r: u64 = 0;
    let mut j: u32 = 0;
    proof {
        lemma2_to64();
        lemma2_to64_rest();
    }
    while j < times
        invariant
            j <= times <= 53,
            d@.len() == k,
            are_digits(d@),
            r * pow(10, k) + digits_value(d@) == f * pow2(j as nat),
            r < pow2(j as nat),
            pow2(53) == 0x20_0000_0000_0000,
        decreases times - j,
    {
        proof {
            lemma_pow2_unfold((j + 1) as nat);
            if j < 52 {
                lemma_pow2_strictly_increases((j + 1) as nat, 53);
            }
        }
        let ghost v = digits_value(d@);
        let ghost r0 = r as int;
        let c = double(d);
        r = 2 * r + c as u64;
        proof {
            let p = pow(10, k);
            let m = pow2(j as nat) as int;
            let w = digits_value(d@) as int;
            assert((2 * r0 + c) * p + w == f * (2 * m)) by (nonlinear_arith)
                requires
                    r0 * p + v == f * m,
                    w + c * p == 2 * v,
            ;
        }
        j = j + 1;
    }
    proof {
        lemma_digits_bound(d@);
    }
    r
}

/// Whether digits spell zero.
fn spell_zero(d: &Vec<u8>) -> (r: bool)
    requires
        are_digits(d@),
    ensures
        r == (digits_value(d@) == 0),
{
    let mut i: usize = 0;
    while i < d.len()
        invariant
            i <= d@.len(),
            digits_value(d@.take(i as int)) == 0,
        decreases d@.len() - i,
    {
        assert(d@.take(i + 1).drop_last() =~= d@.take(i as int));
        if d[i] != 0 {
            proof {
                lemma_digits_rise(d@, i + 1);
            }
            return false;
        }
        i = i + 1;
    }
    assert(d@.take(d@.len() as int) =~= d@);
    true
}

proof fn lemma_digits_rise(d: Seq<u8>, n: int)
    requires
        0 <= n <= d.len(),
    ensures
        digits_value(d.take(n)) <= digits_value(d),
    decreases d.len() - n,
{
    if n == d.len() {
        assert(d.take(n) =~= d);
    } else {
        assert(d.take(n + 1).drop_last() =~= d.take(n));
        lemma_digits_rise(d, n + 1);
    }
}

proof fn lemma_bits(n: nat, k: nat)
    ensures
        n < pow2(bits(n)),
        n > 0 ==> bits(n) > 0 && pow2((bits(n) - 1) as nat) <= n,
        n < pow2(k) ==> bits(n) <= k,
    decreases n,
{
    lemma2_to64();
    if n > 0 {
        lemma_bits(n / 2, if k > 0 {
            (k - 1) as nat
        } else {
            0
        });
        lemma_pow2_unfold(bits(n));
        if n / 2 > 0 {
            lemma_pow2_unfold(bits(n / 2));
        }
        if k > 0 {
            lemma_pow2_unfold(k);
        }
    }
}

/// The binary digits of a number.
fn count_bits(n: u64) -> (r: u32)
    ensures
        r == bits(n as nat),
        r <= 64,
{
    let mut x: u64 = n;
    let mut r: u32 = 0;
    proof {
        lemma2_to64();
        lemma2_to64_rest();
        lemma_bits(n as nat, 64);
    }
    while x > 0
        invariant
            bits(n as nat) == r + bits(x as nat),
            bits(n as nat) <= 64,
        decreases x,
    {
        x = x / 2;
        r = r + 1;
    }
    r
}

fn power_of_two(n: u32) -> (r: u64)
    requires
        n <= 53,
    ensures
        r == pow2(n as nat),
        0 < r <= 0x20_0000_0000_0000,
{
    let mut r: u64 = 1;
    let mut j: u32 = 0;
    proof {
        lemma2_to64();
        lemma2_to64_rest();
    }
    while j < n
        invariant
            j <= n <= 53,
            r == pow2(j as nat),
            0 < r <= 0x20_0000_0000_0000,
            pow2(53) == 0x20_0000_0000_0000,
        decreases n - j,
    {
        proof {
            lemma_pow2_unfold((j + 1) as nat);
            if j < 52 {
                lemma_pow2_strictly_increases((j + 1) as nat, 53);
            }
        }
        r = 2 * r;
        j = j + 1;
    }
    r
}

/// A number beyond the largest stays beyond it when it is rounded.
proof fn lemma_double_large(a: nat, b: nat)
    requires
        b > 0,
        a / b > u64::MAX,
    ensures
        whole_of_double(a, b) > u64::MAX,
{
    let i = a / b;
    let n = bits(i);
    lemma2_to64();
    lemma2_to64_rest();
    lemma_bits(i, 64);
    if n <= 64 {
        if n < 64 {
            lemma_pow2_strictly_increases(n, 64);
        }
        assert(i < pow2(64));
    }
    let unit = pow2((n - 53) as nat);
    lemma_pow2_pos((n - 53) as nat);
    lemma_pow2_adds((n - 53) as nat, 52);
    vstd::arithmetic::div_mod::lemma_div_denominator(a as int, b as int, unit as int);
    assert(a / (b * unit) == i / unit);
    // the first 53 digits
    assert(i / unit >= pow2(52)) by {
        vstd::arithmetic::div_mod::lemma_div_is_ordered(
            (pow2(52) * unit) as int,
            i as int,
            unit as int,
        );
        vstd::arithmetic::div_mod::lemma_div_multiples_vanish(pow2(52) as int, unit as int);
        assert(pow2(52) * unit == unit * pow2(52)) by (nonlinear_arith);
    }
    assert(nearest(a, b * unit) >= pow2(52));
    assert(nearest(a, b * unit) * unit >= pow2(52) * unit) by (nonlinear_arith)
        requires
            nearest(a, b * unit) >= pow2(52),
    ;
    assert(pow2(52) * unit == unit * pow2(52)) by (nonlinear_arith);
    if n - 1 > 64 {
        lemma_pow2_strictly_increases(64, (n - 1) as nat);
    }
}

/// How a number with more than 53 binary digits is rounded.
proof fn lemma_double_long(i: nat, f: nat, b: nat, unit: nat)
    requires
        b > 0,
        f < b,
        bits(i) > 53,
        unit == pow2((bits(i) - 53) as nat),
    ensures
        ({
            let (q, s) = (i / unit, i % unit);
            let up = 2 * s > unit || (2 * s == unit && (f > 0 || q % 2 == 1));
            whole_of_double(i * b + f, b) == (if up {
                (q + 1) * unit
            } else {
                q * unit
            })
        }),
{
    let a = i * b + f;
    let j = (bits(i) - 53) as nat;
    lemma_pow2_pos(j);
    lemma_pow2_unfold(j);
    vstd::arithmetic::div_mod::lemma_fundamental_div_mod_converse(
        a as int,
        b as int,
        i as int,
        f as int,
    );
    let (q, s) = (i / unit, i % unit);
    vstd::arithmetic::div_mod::lemma_fundamental_div_mod(i as int, unit as int);
    let rest = s * b + f;
    assert(a == q * (b * unit) + rest) by (nonlinear_arith)
        requires
            a == i * b + f,
            i == unit * q + s,
            rest == s * b + f,
    ;
    assert(rest < b * unit) by (nonlinear_arith)
        requires
            rest == s * b + f,
            s + 1 <= unit,
            f < b,
    ;
    vstd::arithmetic::div_mod::lemma_fundamental_div_mod_converse(
        a as int,
        (b * unit) as int,
        q as int,
        rest as int,
    );
    let half = pow2((j - 1) as nat);
    assert(unit == 2 * half);
    if s > half {
        assert(2 * rest > b * unit) by (nonlinear_arith)
            requires
                rest == s * b + f,
                s >= half + 1,
                unit == 2 * half,
                f >= 0,
                b > 0,
        ;
    } else if s < half {
        assert(2 * rest < b * unit) by (nonlinear_arith)
            requires
                rest == s * b + f,
                s + 1 <= half,
                unit == 2 * half,
                f < b,
        ;
    } else {
        assert(2 * rest == b * unit + 2 * f) by (nonlinear_arith)
            requires
                rest == s * b + f,
                s == half,
                unit == 2 * half,
        ;
    }
}

/// How a number with at most 53 binary digits before the point is rounded: `g` are the
/// digits behind it that still count, `f` what follows them.
proof fn lemma_double_short(i: nat, f0: nat, b: nat, unit: nat, g: nat, f: nat)
    requires
        b > 0,
        f0 < b,
        f < b,
        bits(i) <= 53,
        unit == pow2((53 - bits(i)) as nat),
        g < unit,
        g * b + f == f0 * unit,
    ensures
        ({
            let up = g == unit - 1 && 2 * f >= b && (unit > 1 || 2 * f > b || i % 2 == 1);
            whole_of_double(i * b + f0, b) == (if up {
                i + 1
            } else {
                i
            })
        }),
{
    let a = i * b + f0;
    let t = (53 - bits(i)) as nat;
    lemma_pow2_pos(t);
    vstd::arithmetic::div_mod::lemma_fundamental_div_mod_converse(
        a as int,
        b as int,
        i as int,
        f0 as int,
    );
    let q = i * unit + g;
    assert(a * unit == q * b + f) by (nonlinear_arith)
        requires
            a == i * b + f0,
            q == i * unit + g,
            g * b + f == f0 * unit,
    ;
    vstd::arithmetic::div_mod::lemma_fundamental_div_mod_converse(
        (a * unit) as int,
        b as int,
        q as int,
        f as int,
    );
    vstd::arithmetic::div_mod::lemma_fundamental_div_mod_converse(
        q as int,
        unit as int,
        i as int,
        g as int,
    );
    if g == unit - 1 {
        assert(q + 1 == (i + 1) * unit) by (nonlinear_arith)
            requires
                q == i * unit + g,
                g + 1 == unit,
        ;
        vstd::arithmetic::div_mod::lemma_fundamental_div_mod_converse(
            (q + 1) as int,
            unit as int,
            (i + 1) as int,
            0,
        );
        if t == 0 {
            lemma2_to64();
            assert(i * 1 == i) by (nonlinear_arith);
        } else {
            lemma_pow2_unfold(t);
            let half = pow2((t - 1) as nat);
            assert(q + 1 == 2 * ((i + 1) * half)) by (nonlinear_arith)
                requires
                    q + 1 == (i + 1) * unit,
                    unit == 2 * half,
            ;
            assert(q % 2 == 1);
            lemma_pow2_pos((t - 1) as nat);
        }
    } else {
        vstd::arithmetic::div_mod::lemma_fundamental_div_mod_converse(
            (q + 1) as int,
            unit as int,
            i as int,
            (g + 1) as int,
        );
    }
}

/// Rounds a number to double precision: `i` is its whole part, the digits follow the point.
/// Returns the whole part, capped.
fn round_double(i: u64, d: Vec<u8>) -> (r: u64)
    requires
        are_digits(d@),
    ensures
        ({
            let tens = pow(10, d@.len()) as nat;
            let w = whole_of_double(i as nat * tens + digits_value(d@), tens);
            r == (if w <= u64::MAX {
                w as u64
            } else {
                u64::MAX
            })
        }),
{
    let n: u32 = count_bits(i);
    let ghost tens = pow(10, d@.len()) as nat;
    let ghost f0 = digits_value(d@);
    proof {
        lemma_pow10_step(d@.len());
        lemma_digits_bound(d@);
    }
    if n > 53 {
        let unit: u64 = power_of_two(n - 53);
        let q: u64 = i / unit;
        let s: u64 = i % unit;
        let exact: bool = spell_zero(&d);
        proof {
            lemma_double_long(i as nat, f0, tens, unit as nat);
            vstd::arithmetic::div_mod::lemma_fundamental_div_mod(i as int, unit as int);
            assert(q * unit <= i) by (nonlinear_arith)
                requires
                    i == unit * q + s,
                    s >= 0,
            ;
            assert((q + 1) * unit == q * unit + unit) by (nonlinear_arith);
            assert(q <= i) by (nonlinear_arith)
                requires
                    i == unit * q + s,
                    s >= 0,
                    unit >= 1,
            ;
        }
        if 2 * s > unit || (2 * s == unit && (!exact || q % 2 == 1)) {
            let low: u64 = q * unit;
            if low <= u64::MAX - unit {
                low + unit
            } else {
                u64::MAX
            }
        } else {
            q * unit
        }
    } else {
        let t: u32 = 53 - n;
        let unit: u64 = power_of_two(t);
        let mut e = d;
        let g: u64 = double_often(&mut e, t);
        let ghost f = digits_value(e@);
        let c: u8 = double(&mut e);
        let exact: bool = spell_zero(&e);
        proof {
            lemma_digits_bound(e@);
            lemma_double_short(i as nat, f0, tens, unit as nat, g as nat, f);
            assert(c * pow(10, d@.len()) == (if c == 1 {
                tens as int
            } else {
                0
            })) by (nonlinear_arith)
                requires
                    c <= 1,
                    tens == pow(10, d@.len()),
            ;
            lemma2_to64();
            lemma2_to64_rest();
            lemma_bits(i as nat, 53);
            if n < 53 {
                lemma_pow2_strictly_increases(n as nat, 53);
            }
        }
        if g == unit - 1 && c == 1 && (unit > 1 || !exact || i % 2 == 1) {
            i + 1
        } else {
            i
        }
    }
}

/// The power of two that a suffix stands for.
fn shift_of(s: &[char]) -> (r: Option<u32>)
    ensures
        match r {
            Some(n) => suffix_shift(s@) == Some(n as nat) && n <= 50,
            None => suffix_shift(s@) is None,
        },
{
    if text::spells(s, "") {
        Some(0)
    } else if text::spells(s, "K") || text::spells(s, "k") {
        Some(10)
    } else if text::spells(s, "M") || text::spells(s, "m") {
        Some(20)
    } else if text::spells(s, "G") || text::spells(s, "g") {
        Some(30)
    } else if text::spells(s, "T") || text::spells(s, "t") {
        Some(40)
    } else if text::spells(s, "P") || text::spells(s, "p") {
        Some(50)
    } else {
        None
    }
}

/// A decimal numeral, which is read in double precision, times a power of two, rounded down
/// and capped.
fn scale(d: &[char], shift: u32) -> (r: u64)
    requires
        zfs_parser::is_decimal(d@),
        shift <= 50,
    ensures
        r == (if scaled(d@, shift as nat) <= u64::MAX {
            scaled(d@, shift as nat) as u64
        } else {
            u64::MAX
        }),
{
    let (w, f) = match text::split_once(d, '.') {
        Some(p) => p,
        None => (text::slice_of(d, 0, d.len()), Vec::new()),
    };
    let ghost tens = pow(10, f@.len()) as nat;
    let ghost whole_value = text::dec_value(w@);
    let ghost part_value = text::dec_value(f@);
    let ghost m = pow2(shift as nat);
    let ghost a = (whole_value * tens + part_value) * m;
    proof {
        let p = numeral_parts(d@);
        if text::split_first(d@, '.') is None {
            assert(w@ =~= d@);
            assert(f@ =~= Seq::<char>::empty());
        }
        assert(w@ == p.0 && f@ == p.1);
        lemma_pow2_pos(shift as nat);
        lemma_pow10_step(f@.len());
    }
    let mut digits = digits_of(f.as_slice());
    let part: u64 = double_often(&mut digits, shift);
    let ghost rest = digits_value(digits@);
    assert(a == (whole_value * m + part) * tens + rest) by (nonlinear_arith)
        requires
            a == (whole_value * tens + part_value) * m,
            part * tens + rest == part_value * m,
    ;
    proof {
        vstd::arithmetic::div_mod::lemma_fundamental_div_mod_converse(
            a as int,
            tens as int,
            whole_value * m + part,
            rest as int,
        );
    }
    let whole: u64 = if w.len() == 0 {
        0
    } else {
        if w[0] == '+' {
            assert(text::is_digit_char(w@[0]));
        }
        match text::parse_uint(w.as_slice(), u64::MAX) {
            Some(v) => v,
            None => {
                proof {
                    assert(whole_value > u64::MAX);
                    assert(whole_value * m >= whole_value) by (nonlinear_arith)
                        requires
                            m >= 1,
                    ;
                    lemma_double_large(a, tens);
                }
                return u64::MAX;
            },
        }
    };
    let scale: u64 = power_of_two(shift);
    proof {
        assert(whole * scale <= 0xffff_ffff_ffff_ffff * 0x20_0000_0000_0000) by (nonlinear_arith)
            requires
                whole <= 0xffff_ffff_ffff_ffff,
                scale <= 0x20_0000_0000_0000,
        ;
    }
    let total: u128 = whole as u128 * scale as u128 + part as u128;
    if total <= u64::MAX as u128 {
        round_double(total as u64, digits)
    } else {
        proof {
            lemma_double_large(a, tens);
        }
        u64::MAX
    }
}

/// The number of bytes that a text names, as `zfs` writes sizes.
pub fn parse_size(s: &str) -> (r: Option<u64>)
    ensures
        r == size_in(s@),
{
    let t = text::trim(text::chars(s).as_slice());
    let plain = text::parse_uint(t.as_slice(), u64::MAX);
    if plain.is_some() {
        return plain;
    }
    let mut n: usize = 0;
    assert(t@.skip(0) =~= t@);
    while n < t.len() && ((t[n] >= '0' && t[n] <= '9') || t[n] == '.')
        invariant
            n <= t@.len(),
            numeral_len(t@) == n + numeral_len(t@.skip(n as int)),
        decreases t@.len() - n,
    {
        assert(t@.skip(n as int).skip(1) =~= t@.skip(n + 1));
        n = n + 1;
    }
    assert(numeral_len(t@.skip(n as int)) == 0);
    let d = text::slice_of(t.as_slice(), 0, n);
    assert(d@ =~= t@.take(n as int));
    let rest = text::slice_of(t.as_slice(), n, t.len());
    assert(rest@ =~= t@.skip(n as int));
    let suffix = text::trim(rest.as_slice());
    let mut k: usize = suffix.len();
    assert(suffix@.take(k as int) =~= suffix@);
    while k > 0 && (suffix[k - 1] == 'B' || suffix[k - 1] == 'b' || suffix[k - 1] == 'i')
        invariant
            k <= suffix@.len(),
            bare_suffix(suffix@) == bare_suffix(suffix@.take(k as int)),
        decreases k,
    {
        assert(suffix@.take(k as int).drop_last() =~= suffix@.take(k - 1));
        k = k - 1;
    }
    let bare = text::slice_of(suffix.as_slice(), 0, k);
    assert(bare@ =~= suffix@.take(k as int));
    match shift_of(bare.as_slice()) {
        None => None,
        Some(shift) => {
            if zfs_parser::decimal(d.as_slice()) {
                Some(scale(d.as_slice(), shift))
            } else {
                None
            }
        },
    }
}

/// A plain number is the number of bytes it names.
pub proof fn plain_numbers_are_exact(n: u64)
    ensures
        size_in(text::dec_chars(n as nat)) == Some(n),
{
    let c = text::dec_chars(n as nat);
    text::dec_round_trip(n as nat);
    assert(text::is_digit_char(c[0]) && text::is_digit_char(c[c.len() - 1]));
    text::lemma_trimmed_plain(c);
}

/// A property that is not as it should be.
#[derive(Debug)]
pub struct DriftIssue {
    pub property: String,
    pub expected: String,
    pub actual: String,
    pub source: PropertySource,
}

/// A [`DriftIssue`] taken by value.
pub ghost struct IssueView {
    pub property: Seq<char>,
    pub expected: Seq<char>,
    pub actual: Seq<char>,
    pub source: SourceView,
}

impl View for DriftIssue {
    type V = IssueView;

    open spec fn view(&self) -> IssueView {
        IssueView {
            property: self.property@,
            expected: self.expected@,
            actual: self.actual@,
            source: self.source@,
        }
    }
}

/// What a property is found to be.
pub open spec fn finding(
    m: Map<Seq<char>, Entry>,
    name: Seq<char>,
    want: Seq<char>,
) -> IssueView {
    IssueView {
        property: name,
        expected: want,
        actual: match value_of(m, name) {
            Some(v) => v,
            None => "<absent>"@,
        },
        source: if m.contains_key(name) {
            m[name].1
        } else {
            SourceView::Other("absent"@)
        },
    }
}

/// Whether a finding is drift: another value, or a value that was not set here.
pub open spec fn is_drift(i: IssueView) -> bool {
    i.actual != i.expected || i.source != SourceView::Local
}

/// The drift among the expected properties, in their order.
pub open spec fn drift(
    m: Map<Seq<char>, Entry>,
    expected: Seq<(Seq<char>, Seq<char>)>,
) -> Seq<IssueView>
    decreases expected.len(),
{
    if expected.len() == 0 {
        Seq::empty()
    } else {
        let rest = drift(m, expected.drop_last());
        let f = finding(m, expected.last().0, expected.last().1);
        if is_drift(f) {
            rest.push(f)
        } else {
            rest
        }
    }
}

/// Names and values taken by value.
pub open spec fn wants(v: Seq<(&str, &str)>) -> Seq<(Seq<char>, Seq<char>)> {
    Seq::new(v.len(), |i: int| (v[i].0@, v[i].1@))
}

/// Issues taken by value.
pub open spec fn issue_views(v: Seq<DriftIssue>) -> Seq<IssueView> {
    Seq::new(v.len(), |i: int| v[i]@)
}

/// The properties that differ from the expected tuning or were not set on the dataset.
pub fn audit_drift(props: &Properties, expected: &[(&str, &str)]) -> (r: Vec<DriftIssue>)
    ensures
        issue_views(r@) == drift(props@, wants(expected@)),
{
    let mut out: Vec<DriftIssue> = Vec::new();
    let mut i: usize = 0;
    let ghost w = wants(expected@);
    assert(w.take(0) =~= Seq::<(Seq<char>, Seq<char>)>::empty());
    assert(issue_views(out@) =~= Seq::<IssueView>::empty());
    while i < expected.len()
        invariant
            i <= expected@.len(),
            w == wants(expected@),
            issue_views(out@) == drift(props@, w.take(i as int)),
        decreases expected@.len() - i,
    {
        assert(w.take(i + 1).drop_last() =~= w.take(i as int));
        let name = expected[i].0;
        let want = expected[i].1;
        assert(w.take(i + 1).last() == (name@, want@));
        let actual = match props.string(name) {
            Some(v) => v.to_owned(),
            None => "<absent>".to_owned(),
        };
        let source = match props.source(name) {
            Some(s) => s.clone(),
            None => PropertySource::Other("absent".to_owned()),
        };
        let local = match source {
            PropertySource::Local => true,
            _ => false,
        };
        let ghost f = finding(props@, name@, want@);
        assert(f.actual == actual@ && f.source == source@);
        if !text::same_text(actual.as_str(), want) || !local {
            let ghost before = issue_views(out@);
            out.push(
                DriftIssue { property: name.to_owned(), expected: want.to_owned(), actual, source },
            );
            assert(issue_views(out@) =~= before.push(f));
        }
        i = i + 1;
    }
    assert(w.take(w.len() as int) =~= w);
    out
}

/// The tuning of a dataset of the store.
pub const EXPECTED_TUNING: [(&'static str, &'static str); 3] = [
    ("recordsize", "1048576"),
    ("compression", "lz4"),
    ("atime", "off"),
];

/// An audit is silent just when every expected property was set here to the expected value.
pub proof fn silence_means_tuned(
    m: Map<Seq<char>, Entry>,
    expected: Seq<(Seq<char>, Seq<char>)>,
)
    ensures
        drift(m, expected).len() == 0 <==> forall|i: int|
            0 <= i < expected.len() ==> !is_drift(
                finding(m, (#[trigger] expected[i]).0, expected[i].1),
            ),
    decreases expected.len(),
{
    if expected.len() > 0 {
        let p = expected.drop_last();
        silence_means_tuned(m, p);
        if drift(m, expected).len() == 0 {
            assert forall|i: int| 0 <= i < expected.len() implies !is_drift(
                finding(m, (#[trigger] expected[i]).0, expected[i].1),
            ) by {
                if i < p.len() {
                    assert(p[i] == expected[i]);
                }
            }
        }
        if forall|i: int|
            0 <= i < expected.len() ==> !is_drift(
                finding(m, (#[trigger] expected[i]).0, expected[i].1),
            ) {
            assert forall|i: int| 0 <= i < p.len() implies !is_drift(
                finding(m, (#[trigger] p[i]).0, p[i].1),
            ) by {
                assert(p[i] == expected[i]);
            }
            let e = expected[expected.len() - 1];
            assert(!is_drift(finding(m, e.0, e.1)));
        }
    }
}

proof fn lemma_bits_shift(n: nat, shift: nat)
    requires
        n > 0,
    ensures
        bits(n * pow2(shift)) == bits(n) + shift,
    decreases shift,
{
    lemma2_to64();
    if shift > 0 {
        let s = (shift - 1) as nat;
        lemma_bits_shift(n, s);
        lemma_pow2_unfold(shift);
        lemma_pow2_pos(s);
        let x = n * pow2(s);
        assert(n * (2 * pow2(s)) == 2 * x) by (nonlinear_arith)
            requires
                x == n * pow2(s),
        ;
        assert(x > 0) by (nonlinear_arith)
            requires
                n > 0,
                pow2(s) > 0,
                x == n * pow2(s),
        ;
        assert((2 * x) / 2 == x);
    } else {
        assert(n * 1 == n);
    }
}

/// A number of up to 53 binary digits times a power of two is a double.
proof fn lemma_exact_double(n: nat, shift: nat)
    requires
        n < pow2(53),
    ensures
        whole_of_double(n * pow2(shift), 1) == n * pow2(shift),
{
    let p = pow2(shift);
    let a = n * p;
    assert(a / 1 == a);
    lemma_bits(n, 53);
    lemma_pow2_pos(shift);
    if n > 0 {
        lemma_bits_shift(n, shift);
    } else {
        assert(a == 0) by (nonlinear_arith)
            requires
                a == n * p,
                n == 0,
        ;
    }
    let b = bits(a);
    if b > 53 {
        let k = (b - 53) as nat;
        let unit = pow2(k);
        lemma_pow2_pos(k);
        lemma_pow2_adds(k, (shift - k) as nat);
        let q = n * pow2((shift - k) as nat);
        assert(a == q * unit) by (nonlinear_arith)
            requires
                a == n * p,
                p == unit * pow2((shift - k) as nat),
                q == n * pow2((shift - k) as nat),
        ;
        vstd::arithmetic::div_mod::lemma_fundamental_div_mod_converse(
            a as int,
            unit as int,
            q as int,
            0,
        );
        assert(1 * unit == unit);
    } else {
        let unit = pow2((53 - b) as nat);
        lemma_pow2_pos((53 - b) as nat);
        let x = a * unit;
        assert(x / 1 == x && x % 1 == 0);
        vstd::arithmetic::div_mod::lemma_div_multiples_vanish(a as int, unit as int);
        assert(x == unit * a) by (nonlinear_arith)
            requires
                x == a * unit,
        ;
    }
}

/// The power of 1024 that a letter stands for.
pub open spec fn letter_shift(c: char) -> nat {
    if c == 'K' || c == 'k' {
        10
    } else if c == 'M' || c == 'm' {
        20
    } else if c == 'G' || c == 'g' {
        30
    } else if c == 'T' || c == 't' {
        40
    } else {
        50
    }
}

proof fn lemma_letter(c: char)
    requires
        c == 'K' || c == 'k' || c == 'M' || c == 'm' || c == 'G' || c == 'g' || c == 'T' || c == 't'
            || c == 'P' || c == 'p',
    ensures
        suffix_shift(seq![c]) == Some(letter_shift(c)),
{
    reveal_strlit("");
    reveal_strlit("K");
    reveal_strlit("k");
    reveal_strlit("M");
    reveal_strlit("m");
    reveal_strlit("G");
    reveal_strlit("g");
    reveal_strlit("T");
    reveal_strlit("t");
    reveal_strlit("P");
    reveal_strlit("p");
    let s = seq![c];
    assert(s.len() == 1 && s[0] == c);
    if c == 'K' {
        assert(s =~= "K"@);
    } else if c == 'k' {
        assert(s =~= "k"@);
    } else if c == 'M' {
        assert(s =~= "M"@);
    } else if c == 'm' {
        assert(s =~= "m"@);
    } else if c == 'G' {
        assert(s =~= "G"@);
    } else if c == 'g' {
        assert(s =~= "g"@);
    } else if c == 'T' {
        assert(s =~= "T"@);
    } else if c == 't' {
        assert(s =~= "t"@);
    } else if c == 'P' {
        assert(s =~= "P"@);
    } else {
        assert(s =~= "p"@);
    }
    assert("K"@[0] == 'K' && "k"@[0] == 'k' && "M"@[0] == 'M' && "m"@[0] == 'm');
    assert("G"@[0] == 'G' && "g"@[0] == 'g' && "T"@[0] == 'T' && "t"@[0] == 't');
    assert("P"@[0] == 'P' && "p"@[0] == 'p');
}

proof fn lemma_bare(s: Seq<char>, tail: Seq<char>)
    requires
        forall|i: int|
            0 <= i < tail.len() ==> #[trigger] tail[i] == 'B' || tail[i] == 'b' || tail[i] == 'i',
    ensures
        bare_suffix(s + tail) == bare_suffix(s),
    decreases tail.len(),
{
    if tail.len() > 0 {
        let t = tail.drop_last();
        assert forall|i: int| 0 <= i < t.len() implies #[trigger] t[i] == 'B' || t[i] == 'b' || t[i]
            == 'i' by {
            assert(t[i] == tail[i]);
        }
        lemma_bare(s, t);
        assert((s + tail).drop_last() =~= s + t);
        assert((s + tail).last() == tail[tail.len() - 1]);
    } else {
        assert(s + tail =~= s);
    }
}

proof fn lemma_numeral(d: Seq<char>, rest: Seq<char>)
    requires
        text::all_digits(d),
        rest.len() == 0 || (!text::is_digit_char(rest[0]) && rest[0] != '.'),
    ensures
        numeral_len(d + rest) == d.len(),
    decreases d.len(),
{
    let s = d + rest;
    if d.len() > 0 {
        let e = d.skip(1);
        assert forall|i: int| 0 <= i < e.len() implies text::is_digit_char(#[trigger] e[i]) by {
            assert(e[i] == d[i + 1]);
        }
        lemma_numeral(e, rest);
        assert(s.skip(1) =~= e + rest);
        assert(s[0] == d[0]);
        assert(text::is_digit_char(d[0]));
    } else {
        assert(s =~= rest);
    }
}

/// A whole number with a suffix is that number times the power of 1024, to the byte: with the
/// letter alone or with the letters for bytes behind it, up to the largest number of bytes.
pub proof fn suffixed_sizes_are_exact(
    n: u64,
    letter: char,
    tail: Seq<char>,
    s: &str,
    r: Option<u64>,
)
    requires
        n < pow2(53),
        letter == 'K' || letter == 'k' || letter == 'M' || letter == 'm' || letter == 'G' || letter
            == 'g' || letter == 'T' || letter == 't' || letter == 'P' || letter == 'p',
        forall|i: int|
            0 <= i < tail.len() ==> #[trigger] tail[i] == 'B' || tail[i] == 'b' || tail[i] == 'i',
        s@ == text::dec_chars(n as nat) + seq![letter] + tail,
        call_ensures(parse_size, (s,), r),
    ensures
        n * pow2(letter_shift(letter)) <= u64::MAX ==> (r matches Some(v) && v == n * pow2(
            letter_shift(letter),
        )),
        n * pow2(letter_shift(letter)) > u64::MAX ==> r == Some(u64::MAX),
{
    let d = text::dec_chars(n as nat);
    let rest = seq![letter] + tail;
    let t = s@;
    let shift = letter_shift(letter);
    text::dec_round_trip(n as nat);
    assert(t =~= d + rest);
    assert(text::is_digit_char(d[0]));
    assert(t[0] == d[0]);
    assert(t.last() == if tail.len() > 0 {
        tail[tail.len() - 1]
    } else {
        letter
    });
    text::lemma_trimmed_plain(t);
    assert(t[d.len() as int] == letter);
    text::other_texts_are_no_numbers(t, d.len() as int, u64::MAX as nat);
    assert(rest[0] == letter);
    lemma_numeral(d, rest);
    assert(t.take(d.len() as int) =~= d);
    assert(t.skip(d.len() as int) =~= rest);
    assert(rest.last() == t.last());
    text::lemma_trimmed_plain(rest);
    lemma_bare(seq![letter], tail);
    assert(seq![letter].last() == letter);
    assert(bare_suffix(seq![letter]) == seq![letter]);
    lemma_letter(letter);
    // the numeral has no point
    text::lemma_digits_lack(n as nat, '.');
    text::texts_are_cut_once(d, '.', Seq::empty());
    assert(zfs_parser::is_decimal(d));
    assert(text::dec_value(Seq::<char>::empty()) == 0);
    lemma_pow0(10);
    assert(numeral_parts(d) == (d, Seq::<char>::empty()));
    lemma_exact_double(n as nat, shift);
    assert((n as nat * 1 + 0) * pow2(shift) == n as nat * pow2(shift));
    assert(scaled(d, shift) == n as nat * pow2(shift));
    assert(number_in(t) is None);
}

/// The source of a property is told apart: set here, a default, none, inherited from a named
/// dataset, or what else the column says.
pub proof fn sources_are_told_apart(s: &str, from: Seq<char>, r: PropertySource)
    requires
        call_ensures(PropertySource::parse, (s,), r),
    ensures
        s@ == "local"@ <==> r is Local,
        s@ == "default"@ <==> r is Default,
        s@ == "-"@ <==> r is Unset,
        s@ == "inherited from "@ + from ==> (r matches PropertySource::Inherited(t) && t@ == from),
        r matches PropertySource::Inherited(t) ==> s@ == "inherited from "@ + t@,
        r matches PropertySource::Other(t) ==> t@ == s@,
{
    reveal_strlit("local");
    reveal_strlit("default");
    reveal_strlit("-");
    reveal_strlit("inherited from ");
    let p = "inherited from "@;
    assert("local"@ != "default"@ && "local"@ != "-"@ && "default"@ != "-"@) by {
        assert("local"@.len() == 5 && "default"@.len() == 7 && "-"@.len() == 1);
    }
    assert(r@ is Local <==> r is Local);
    assert(r@ is Default <==> r is Default);
    assert(r@ is Unset <==> r is Unset);
    if s@ == p + from {
        assert(s@.len() >= 15);
        assert(s@.subrange(0, p.len() as int) =~= p);
        assert(s@.skip(p.len() as int) =~= from);
    }
    if text::stripped(s@, p) is Some {
        let t = text::stripped(s@, p)->0;
        assert(p + t =~= s@);
    }
}

/// One line of a listing: name, value and source, with tabs between.
pub open spec fn property_line(name: Seq<char>, value: Seq<char>, source: Seq<char>) -> Seq<char> {
    name + seq!['\t'] + value + seq!['\t'] + source
}

proof fn lemma_property_line(name: Seq<char>, value: Seq<char>, source: Seq<char>)
    requires
        text::lacks(name, '\t'),
        text::lacks(value, '\t'),
        text::lacks(source, '\t'),
    ensures
        text::split_on(property_line(name, value, source), '\t') == seq![name, value, source],
{
    text::lemma_split_plain(name, '\t');
    text::lemma_split_plain(value, '\t');
    text::lemma_split_plain(source, '\t');
    text::lemma_split_around(name, value, '\t');
    text::lemma_split_around(name + seq!['\t'] + value, source, '\t');
    assert(seq![name] + seq![value] + seq![source] =~= seq![name, value, source]);
}

/// Every line of a listing is a property with its value and source; of several lines of a name
/// the last counts, and no line touches another name.
pub proof fn property_lines_are_read(
    lines: Seq<Seq<char>>,
    name: Seq<char>,
    value: Seq<char>,
    source: Seq<char>,
    other: Seq<char>,
)
    requires
        text::lacks(name, '\t'),
        text::lacks(value, '\t'),
        text::lacks(source, '\t'),
        other != name,
    ensures
        ({
            let m = listed(lines.push(property_line(name, value, source)));
            &&& m.contains_key(name) && m[name] == (value, source_named(source))
            &&& m.contains_key(other) == listed(lines).contains_key(other)
            &&& m.contains_key(other) ==> m[other] == listed(lines)[other]
        }),
        listed(Seq::empty()) == Map::<Seq<char>, Entry>::empty(),
{
    lemma_property_line(name, value, source);
    let all = lines.push(property_line(name, value, source));
    assert(all.drop_last() =~= lines);
}

/// What a property is read as: nothing where it is missing or a dash, its text otherwise; a
/// switch is on for the three words that say so.
pub proof fn values_are_read(
    p: &Properties,
    prop: &str,
    value: Seq<char>,
    source: SourceView,
    switch: Option<bool>,
    bytes: Option<u64>,
    percent: Option<u64>,
    n: u64,
)
    requires
        call_ensures(Properties::bool_, (p, prop), switch),
        call_ensures(Properties::bytes, (p, prop), bytes),
        call_ensures(Properties::percent, (p, prop), percent),
    ensures
        !p@.contains_key(prop@) ==> switch is None && bytes is None && percent is None,
        p@.contains_key(prop@) && p@[prop@] == (value, source) ==> {
            &&& value == "-"@ ==> switch is None && bytes is None && percent is None
            &&& value == "on"@ || value == "enabled"@ || value == "yes"@ ==> switch == Some(true)
            &&& value != "-"@ && value != "on"@ && value != "enabled"@ && value != "yes"@
                ==> switch == Some(false)
            &&& value == text::dec_chars(n as nat) ==> bytes == Some(n) && percent == Some(n)
            &&& value == text::dec_chars(n as nat) + seq!['%'] ==> percent == Some(n)
        },
{
    reveal_strlit("-");
    reveal_strlit("on");
    reveal_strlit("enabled");
    reveal_strlit("yes");
    let d = text::dec_chars(n as nat);
    text::dec_round_trip(n as nat);
    text::numbers_read_back(n as nat, u64::MAX as nat);
    plain_numbers_are_exact(n);
    assert(text::is_digit_char(d[0]) && text::is_digit_char(d[d.len() - 1]));
    assert((d + seq!['%']).drop_last() =~= d);
    assert((d + seq!['%']).last() == '%');
    assert(text::without_tail(d, '%') == d);
    assert(text::without_tail(d + seq!['%'], '%') == d);
    assert("-"@[0] == '-');
    assert("on"@[0] == 'o' && "enabled"@[0] == 'e' && "yes"@[0] == 'y');
    assert((d + seq!['%'])[0] == d[0]);
}

/// A property that is not the expected one, or was not set on the dataset, is reported with
/// what was found; one that is as it should be is not.
pub proof fn drift_is_reported(
    m: Map<Seq<char>, Entry>,
    expected: Seq<(Seq<char>, Seq<char>)>,
    i: int,
)
    requires
        0 <= i < expected.len(),
    ensures
        ({
            let (name, want) = expected[i];
            let tuned = m.contains_key(name) && m[name] == (want, SourceView::Local) && want
                != "-"@;
            let found = IssueView {
                property: name,
                expected: want,
                actual: if m.contains_key(name) && m[name].0 != "-"@ {
                    m[name].0
                } else {
                    "<absent>"@
                },
                source: if m.contains_key(name) {
                    m[name].1
                } else {
                    SourceView::Other("absent"@)
                },
            };
            &&& !tuned && want != "<absent>"@ ==> drift(m, expected).contains(found)
            &&& (forall|j: int|
                0 <= j < expected.len() ==> m.contains_key((#[trigger] expected[j]).0)
                    && m[expected[j].0] == (expected[j].1, SourceView::Local) && expected[j].1
                    != "-"@) ==> drift(m, expected).len() == 0
        }),
    decreases expected.len(),
{
    let p = expected.drop_last();
    let rest = drift(m, p);
    let all = drift(m, expected);
    let (name, want) = expected[i];
    let f = finding(m, name, want);
    if i < p.len() {
        assert(p[i] == expected[i]);
        drift_is_reported(m, p, i);
        if rest.contains(f) {
            let j = choose|j: int| 0 <= j < rest.len() && rest[j] == f;
            assert(all[j] == f);
        }
    } else {
        if is_drift(f) {
            assert(all[rest.len() as int] == f);
        }
        if p.len() > 0 {
            drift_is_reported(m, p, 0);
        }
    }
    if forall|j: int|
        0 <= j < expected.len() ==> m.contains_key((#[trigger] expected[j]).0)
            && m[expected[j].0] == (expected[j].1, SourceView::Local) && expected[j].1 != "-"@ {
        assert forall|j: int| 0 <= j < p.len() implies m.contains_key((#[trigger] p[j]).0)
            && m[p[j].0] == (p[j].1, SourceView::Local) && p[j].1 != "-"@ by {
            assert(p[j] == expected[j]);
        }
        let e = expected[expected.len() - 1];
        assert(m.contains_key(e.0));
        assert(rest.len() == 0);
    }
}

/// A property's text is its value where there is one, and a ratio is its value without the
/// sign behind it; a property names where it was set.
pub proof fn texts_and_ratios_are_read(
    p: &Properties,
    prop: &str,
    ratio: Seq<char>,
    r: Option<&str>,
    t: Option<String>,
    s: Option<&PropertySource>,
)
    requires
        call_ensures(Properties::string, (p, prop), r),
        call_ensures(Properties::ratio_text, (p, prop), t),
        call_ensures(Properties::source, (p, prop), s),
        ratio.len() > 0,
        ratio.last() != 'x',
    ensures
        !p@.contains_key(prop@) ==> r is None && t is None && s is None,
        p@.contains_key(prop@) ==> s is Some && (s->0)@ == p@[prop@].1,
        p@.contains_key(prop@) && p@[prop@].0 == "-"@ ==> r is None && t is None,
        p@.contains_key(prop@) && p@[prop@].0 != "-"@ ==> r is Some && (r->0)@ == p@[prop@].0,
        p@.contains_key(prop@) && p@[prop@].0 == ratio && ratio != "-"@ ==> t is Some && (
        t->0)@ == ratio,
        p@.contains_key(prop@) && p@[prop@].0 == ratio + seq!['x'] ==> t is Some && (t->0)@
            == ratio,
{
    reveal_strlit("-");
    let w = ratio + seq!['x'];
    assert(w.last() == 'x');
    assert(w.drop_last() =~= ratio);
    assert(text::without_tail(ratio, 'x') == ratio);
    assert(text::without_tail(w, 'x') == ratio);
    assert("-"@.last() == '-');
}

} // verus!
