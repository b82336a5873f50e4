//! Reading the output of `zpool status -p` and of `zfs get -Hp`.
use vstd::prelude::*;
use vstd::string::*;
use crate::bytes;
use crate::domain::ShardStatus;
use crate::text;

verus! {

/// The state of a pool or of a device in it.
#[derive(Debug, Clone, Copy, PartialEq, Eq, Structural)]
pub enum PoolState {
    Online,
    Degraded,
    Faulted,
    Offline,
    Unavail,
    Removed,
    Unknown,
}

/// The word that names a state.
pub open spec fn state_word(s: PoolState) -> Seq<char> {
    match s {
        PoolState::Online => "ONLINE"@,
        PoolState::Degraded => "DEGRADED"@,
        PoolState::Faulted => "FAULTED"@,
        PoolState::Offline => "OFFLINE"@,
        PoolState::Unavail => "UNAVAIL"@,
        PoolState::Removed => "REMOVED"@,
        PoolState::Unknown => "UNKNOWN"@,
    }
}

/// The state that a word names; every other word names none.
pub open spec fn state_named(w: Seq<char>) -> PoolState {
    if w == "ONLINE"@ {
        PoolState::Online
    } else if w == "DEGRADED"@ {
        PoolState::Degraded
    } else if w == "FAULTED"@ {
        PoolState::Faulted
    } else if w == "OFFLINE"@ {
        PoolState::Offline
    } else if w == "UNAVAIL"@ {
        PoolState::Unavail
    } else if w == "REMOVED"@ {
        PoolState::Removed
    } else {
        PoolState::Unknown
    }
}

impl PoolState {
    pub fn parse(s: &str) -> (r: Self)
        ensures
            r == state_named(s@),
    {
        if text::same_text(s, "ONLINE") {
            PoolState::Online
        } else if text::same_text(s, "DEGRADED") {
            PoolState::Degraded
        } else if text::same_text(s, "FAULTED") {
            PoolState::Faulted
        } else if text::same_text(s, "OFFLINE") {
            PoolState::Offline
        } else if text::same_text(s, "UNAVAIL") {
            PoolState::Unavail
        } else if text::same_text(s, "REMOVED") {
            PoolState::Removed
        } else {
            PoolState::Unknown
        }
    }

    pub fn as_str(&self) -> (r: &'static str)
        ensures
            r@ == state_word(*self),
    {
        match self {
            PoolState::Online => "ONLINE",
            PoolState::Degraded => "DEGRADED",
            PoolState::Faulted => "FAULTED",
            PoolState::Offline => "OFFLINE",
            PoolState::Unavail => "UNAVAIL",
            PoolState::Removed => "REMOVED",
            PoolState::Unknown => "UNKNOWN",
        }
    }
}

/// A state is read back from its word.
pub proof fn state_round_trip(s: PoolState)
    ensures
        state_named(state_word(s)) == s,
{
    reveal_strlit("ONLINE");
    reveal_strlit("DEGRADED");
    reveal_strlit("FAULTED");
    reveal_strlit("OFFLINE");
    reveal_strlit("UNAVAIL");
    reveal_strlit("REMOVED");
    reveal_strlit("UNKNOWN");
    assert("ONLINE"@.len() == 6 && "DEGRADED"@.len() == 8);
    assert("FAULTED"@[0] == 'F' && "OFFLINE"@[0] == 'O' && "UNAVAIL"@[2] == 'A');
    assert("REMOVED"@[0] == 'R' && "UNKNOWN"@[2] == 'K' && "UNKNOWN"@[0] == 'U');
}

/// One line of the device table.
#[derive(Debug)]
pub struct DeviceStatus {
    pub name: String,
    pub state: PoolState,
    pub read_errors: u64,
    pub write_errors: u64,
    pub cksum_errors: u64,
}

/// A [`DeviceStatus`] taken by value.
pub ghost struct DeviceView {
    pub name: Seq<char>,
    pub state: PoolState,
    pub read_errors: u64,
    pub write_errors: u64,
    pub cksum_errors: u64,
}

impl View for DeviceStatus {
    type V = DeviceView;

    open spec fn view(&self) -> DeviceView {
        DeviceView {
            name: self.name@,
            state: self.state,
            read_errors: self.read_errors,
            write_errors: self.write_errors,
            cksum_errors: self.cksum_errors,
        }
    }
}

/// Devices taken by value.
pub open spec fn device_views(v: Seq<DeviceStatus>) -> Seq<DeviceView> {
    Seq::new(v.len(), |i: int| v[i]@)
}

/// What the scan line tells.
#[derive(Debug)]
pub struct ScrubInfo {
    pub in_progress: bool,
    /// the number of "NN.NN% done", as written
    pub percent_done: Option<String>,
    /// the whole scan text
    pub raw: String,
}

impl Default for ScrubInfo {
    fn default() -> (r: Self)
        ensures
            !r.in_progress,
            r.percent_done is None,
            r.raw@ == Seq::<char>::empty(),
    {
        ScrubInfo { in_progress: false, percent_done: None, raw: String::new() }
    }
}

/// The health of a pool.
#[derive(Debug)]
pub struct PoolHealth {
    pub pool: String,
    pub state: PoolState,
    pub devices: Vec<DeviceStatus>,
    pub scrub: ScrubInfo,
}

/// The sums of the read, write and checksum errors of the first devices.
pub open spec fn error_sums(d: Seq<DeviceStatus>) -> (int, int, int)
    decreases d.len(),
{
    if d.len() == 0 {
        (0, 0, 0)
    } else {
        let s = error_sums(d.drop_last());
        (
            s.0 + d.last().read_errors,
            s.1 + d.last().write_errors,
            s.2 + d.last().cksum_errors,
        )
    }
}

proof fn lemma_sums_grow(d: Seq<DeviceStatus>, n: int)
    requires
        0 <= n <= d.len(),
    ensures
        0 <= error_sums(d.take(n)).0 <= error_sums(d).0,
        0 <= error_sums(d.take(n)).1 <= error_sums(d).1,
        0 <= error_sums(d.take(n)).2 <= error_sums(d).2,
    decreases d.len() - n, n,
{
    if n < d.len() {
        lemma_sums_grow(d, n + 1);
        assert(d.take(n + 1).drop_last() =~= d.take(n));
        lemma_sums_start(d.take(n));
    } else {
        assert(d.take(n) =~= d);
        lemma_sums_start(d);
    }
}

proof fn lemma_sums_start(d: Seq<DeviceStatus>)
    ensures
        0 <= error_sums(d).0,
        0 <= error_sums(d).1,
        0 <= error_sums(d).2,
    decreases d.len(),
{
    if d.len() > 0 {
        lemma_sums_start(d.drop_last());
    }
}

/// Whether a device line reports no error.
pub open spec fn is_clean(d: DeviceStatus) -> bool {
    d.read_errors == 0 && d.write_errors == 0 && d.cksum_errors == 0
}

impl PoolHealth {
    /// The errors of all devices, the pool's own line with them.
    pub fn total_errors(&self) -> (r: (u64, u64, u64))
        requires
            error_sums(self.devices@).0 <= u64::MAX,
            error_sums(self.devices@).1 <= u64::MAX,
            error_sums(self.devices@).2 <= u64::MAX,
        ensures
            (r.0 as int, r.1 as int, r.2 as int) == error_sums(self.devices@),
    {
        let mut reads: u64 = 0;
        let mut writes: u64 = 0;
        let mut sums: u64 = 0;
        let mut i: usize = 0;
        while i < self.devices.len()
            invariant
                i <= self.devices@.len(),
                error_sums(self.devices@).0 <= u64::MAX,
                error_sums(self.devices@).1 <= u64::MAX,
                error_sums(self.devices@).2 <= u64::MAX,
                (reads as int, writes as int, sums as int) == error_sums(
                    self.devices@.take(i as int),
                ),
            decreases self.devices@.len() - i,
        {
            proof {
                lemma_sums_grow(self.devices@, i + 1);
                assert(self.devices@.take(i + 1).drop_last() =~= self.devices@.take(i as int));
            }
            reads = reads + self.devices[i].read_errors;
            writes = writes + self.devices[i].write_errors;
            sums = sums + self.devices[i].cksum_errors;
            i = i + 1;
        }
        assert(self.devices@.take(self.devices@.len() as int) =~= self.devices@);
        (reads, writes, sums)
    }

    /// Whether no device reports an error.
    fn no_errors(&self) -> (r: bool)
        ensures
            r == (forall|i: int|
                0 <= i < self.devices@.len() ==> is_clean(#[trigger] self.devices@[i])),
    {
        let mut i: usize = 0;
        while i < self.devices.len()
            invariant
                i <= self.devices@.len(),
                forall|j: int| 0 <= j < i ==> is_clean(#[trigger] self.devices@[j]),
            decreases self.devices@.len() - i,
        {
            let d = &self.devices[i];
            if !(d.read_errors == 0 && d.write_errors == 0 && d.cksum_errors == 0) {
                assert(!is_clean(self.devices@[i as int]));
                return false;
            }
            i = i + 1;
        }
        true
    }

    /// Healthy: online, with every device online and free of errors.
    pub fn is_healthy(&self) -> (r: bool)
        ensures
            r == (self.state == PoolState::Online && forall|i: int|
                0 <= i < self.devices@.len() ==> (#[trigger] self.devices@[i]).state
                    == PoolState::Online && is_clean(self.devices@[i])),
    {
        if self.state != PoolState::Online {
            return false;
        }
        let mut i: usize = 0;
        while i < self.devices.len()
            invariant
                i <= self.devices@.len(),
                forall|j: int|
                    0 <= j < i ==> (#[trigger] self.devices@[j]).state == PoolState::Online
                        && is_clean(self.devices@[j]),
            decreases self.devices@.len() - i,
        {
            let d = &self.devices[i];
            if d.state != PoolState::Online || d.read_errors != 0 || d.write_errors != 0
                || d.cksum_errors != 0 {
                assert(!(self.devices@[i as int].state == PoolState::Online && is_clean(
                    self.devices@[i as int],
                )));
                return false;
            }
            i = i + 1;
        }
        true
    }
}

/// The shard status that a pool's health stands for.
pub open spec fn shard_status_of(h: PoolHealth) -> ShardStatus {
    match h.state {
        PoolState::Online => if forall|i: int|
            0 <= i < h.devices@.len() ==> is_clean(#[trigger] h.devices@[i]) {
            ShardStatus::Online
        } else {
            ShardStatus::Suspect
        },
        PoolState::Degraded => ShardStatus::Suspect,
        _ => ShardStatus::Faulted,
    }
}

pub fn to_shard_status(h: &PoolHealth) -> (r: ShardStatus)
    ensures
        r == shard_status_of(*h),
{
    match h.state {
        PoolState::Online => {
            if h.no_errors() {
                ShardStatus::Online
            } else {
                ShardStatus::Suspect
            }
        },
        PoolState::Degraded => ShardStatus::Suspect,
        _ => ShardStatus::Faulted,
    }
}

/// The sums of errors vanish just when no device reports one.
pub proof fn clean_means_no_errors(d: Seq<DeviceStatus>)
    ensures
        error_sums(d) == (0int, 0int, 0int) <==> forall|i: int|
            0 <= i < d.len() ==> is_clean(#[trigger] d[i]),
    decreases d.len(),
{
    if d.len() > 0 {
        let p = d.drop_last();
        clean_means_no_errors(p);
        lemma_sums_start(p);
        if error_sums(d) == (0int, 0int, 0int) {
            assert forall|i: int| 0 <= i < d.len() implies is_clean(#[trigger] d[i]) by {
                if i < p.len() {
                    assert(p[i] == d[i]);
                }
            }
        }
        if forall|i: int| 0 <= i < d.len() ==> is_clean(#[trigger] d[i]) {
            assert forall|i: int| 0 <= i < p.len() implies is_clean(#[trigger] p[i]) by {
                assert(d[i] == p[i]);
            }
            assert(is_clean(d[d.len() - 1]));
        }
    }
}

/// Digits with at most one point among them.
pub open spec fn is_decimal(s: Seq<char>) -> bool {
    match text::split_first(s, '.') {
        None => s.len() > 0 && text::all_digits(s),
        Some(p) => text::all_digits(p.0) && text::all_digits(p.1) && p.0.len() + p.1.len() > 0,
    }
}

/// A text without the sign in front of it.
pub open spec fn unsigned(s: Seq<char>) -> Seq<char> {
    if s.len() > 0 && (s[0] == '+' || s[0] == '-') {
        s.skip(1)
    } else {
        s
    }
}

/// Whether a text writes a floating-point number.
pub open spec fn is_float(s: Seq<char>) -> bool {
    let d = text::lowered(unsigned(s));
    d == "inf"@ || d == "infinity"@ || d == "nan"@ || match text::split_first(d, 'e') {
        None => is_decimal(d),
        Some(p) => is_decimal(p.0) && unsigned(p.1).len() > 0 && text::all_digits(unsigned(p.1)),
    }
}

fn digits_only(s: &[char]) -> (r: bool)
    ensures
        r == text::all_digits(s@),
{
    let mut i: usize = 0;
    while i < s.len()
        invariant
            i <= s@.len(),
            forall|j: int| 0 <= j < i ==> text::is_digit_char(#[trigger] s@[j]),
        decreases s@.len() - i,
    {
        if !(s[i] >= '0' && s[i] <= '9') {
            assert(!text::is_digit_char(s@[i as int]));
            return false;
        }
        i = i + 1;
    }
    true
}

pub fn decimal(s: &[char]) -> (r: bool)
    ensures
        r == is_decimal(s@),
{
    match text::split_once(s, '.') {
        None => s.len() > 0 && digits_only(s),
        Some((a, b)) => digits_only(a.as_slice()) && digits_only(b.as_slice()) && (a.len() > 0
            || b.len() > 0),
    }
}

fn drop_sign(s: &[char]) -> (r: Vec<char>)
    ensures
        r@ == unsigned(s@),
{
    let from: usize = if s.len() > 0 && (s[0] == '+' || s[0] == '-') {
        1
    } else {
        0
    };
    let r = text::slice_of(s, from, s.len());
    assert(r@ =~= unsigned(s@));
    r
}

fn float(s: &[char]) -> (r: bool)
    ensures
        r == is_float(s@),
{
    let d = text::lower(drop_sign(s).as_slice());
    text::spells(d.as_slice(), "inf") || text::spells(d.as_slice(), "infinity") || text::spells(
        d.as_slice(),
        "nan",
    ) || match text::split_once(d.as_slice(), 'e') {
        None => decimal(d.as_slice()),
        Some((m, e)) => {
            let x = drop_sign(e.as_slice());
            decimal(m.as_slice()) && x.len() > 0 && digits_only(x.as_slice())
        },
    }
}

/// The first word that ends with a percent sign.
pub open spec fn percent_word(words: Seq<Seq<char>>) -> Option<Seq<char>>
    decreases words.len(),
{
    if words.len() == 0 {
        None
    } else if words[0].len() > 0 && words[0].last() == '%' {
        Some(words[0])
    } else {
        percent_word(words.skip(1))
    }
}

/// The number of a progress line.
pub open spec fn percent_in(t: Seq<char>) -> Option<Seq<char>> {
    match percent_word(text::words_of(t)) {
        None => None,
        Some(w) => {
            let n = text::without_tail(text::without_tail(w, '%'), ',');
            if is_float(n) {
                Some(n)
            } else {
                None
            }
        },
    }
}

fn find_percent(t: &[char]) -> (r: Option<String>)
    ensures
        match r {
            Some(n) => percent_in(t@) == Some(n@),
            None => percent_in(t@) is None,
        },
{
    let w = text::words(t);
    let ghost v = text::views(w@);
    let mut i: usize = 0;
    assert(v.skip(0) =~= v);
    while i < w.len()
        invariant
            i <= w@.len(),
            v == text::views(w@),
            v == text::words_of(t@),
            percent_word(v) == percent_word(v.skip(i as int)),
        decreases w@.len() - i,
    {
        assert(v.skip(i as int).skip(1) =~= v.skip(i + 1));
        assert(v.skip(i as int)[0] == w@[i as int]@);
        let n: usize = w[i].len();
        if n > 0 && w[i][n - 1] == '%' {
            let num = text::drop_tail(text::drop_tail(w[i].as_slice(), '%').as_slice(), ',');
            return if float(num.as_slice()) {
                Some(text::from_chars(num.as_slice()))
            } else {
                None
            };
        }
        i = i + 1;
    }
    None
}

/// A count of errors; what is not a number counts as none.
pub open spec fn count_in(w: Seq<char>) -> u64 {
    match text::parsed_uint(w, u64::MAX as nat) {
        Some(v) => v as u64,
        None => 0,
    }
}

fn count(w: &[char]) -> (r: u64)
    ensures
        r == count_in(w@),
{
    match text::parse_uint(w, u64::MAX) {
        Some(v) => v,
        None => 0,
    }
}

/// The device that a line of the table describes: name, state and three counts. A line
/// whose second word names no state is no device.
pub open spec fn device_in(t: Seq<char>) -> Option<DeviceView> {
    let w = text::words_of(t);
    if w.len() < 5 || (state_named(w[1]) == PoolState::Unknown && w[1] != "UNKNOWN"@) {
        None
    } else {
        Some(
            DeviceView {
                name: w[0],
                state: state_named(w[1]),
                read_errors: count_in(w[2]),
                write_errors: count_in(w[3]),
                cksum_errors: count_in(w[4]),
            },
        )
    }
}

fn read_device(t: &[char]) -> (r: Option<DeviceStatus>)
    ensures
        match r {
            Some(d) => device_in(t@) == Some(d@),
            None => device_in(t@) is None,
        },
{
    let w = text::words(t);
    let ghost v = text::words_of(t@);
    if w.len() < 5 {
        return None;
    }
    assert(forall|i: int| 0 <= i < w@.len() ==> v[i] == (#[trigger] w@[i])@);
    let word = text::from_chars(w[1].as_slice());
    let state = PoolState::parse(word.as_str());
    if state == PoolState::Unknown && !text::same_text(word.as_str(), "UNKNOWN") {
        return None;
    }
    Some(
        DeviceStatus {
            name: text::from_chars(w[0].as_slice()),
            state,
            read_errors: count(w[2].as_slice()),
            write_errors: count(w[3].as_slice()),
            cksum_errors: count(w[4].as_slice()),
        },
    )
}

/// What has been read of a status report.
#[verifier::ext_equal]
pub ghost struct Report {
    pub pool: Seq<char>,
    pub state: PoolState,
    pub in_progress: bool,
    pub percent_done: Option<Seq<char>>,
    pub raw: Seq<char>,
    pub devices: Seq<DeviceView>,
    /// within the device table
    pub in_config: bool,
    /// within the scan text
    pub in_scan: bool,
}

/// Before the first line.
pub open spec fn blank_report() -> Report {
    Report {
        pool: Seq::empty(),
        state: PoolState::Unknown,
        in_progress: false,
        percent_done: None,
        raw: Seq::empty(),
        devices: Seq::empty(),
        in_config: false,
        in_scan: false,
    }
}

/// Whether a line opens with a label.
pub open spec fn opens(t: Seq<char>, label: Seq<char>) -> bool {
    bytes::has_prefix(t, label)
}

/// What one more line adds. Labels open sections; the scan text may go on over several
/// lines up to the table, and the table ends with the errors.
pub open spec fn after_line(r: Report, line: Seq<char>) -> Report {
    let t = text::trimmed(line);
    if opens(t, "pool:"@) {
        Report { pool: text::trimmed(t.skip("pool:"@.len() as int)), ..r }
    } else if opens(t, "state:"@) {
        Report { state: state_named(text::trimmed(t.skip("state:"@.len() as int))), ..r }
    } else if opens(t, "scan:"@) {
        let v = t.skip("scan:"@.len() as int);
        Report {
            in_scan: true,
            raw: text::trimmed(v),
            in_progress: r.in_progress || text::occurs(v, "scrub in progress"@),
            ..r
        }
    } else if r.in_scan && !r.in_config && t.len() > 0 && !opens(t, "config:"@) {
        Report {
            raw: r.raw + " "@ + t,
            percent_done: match percent_in(t) {
                Some(n) => Some(n),
                None => r.percent_done,
            },
            ..r
        }
    } else if opens(t, "config:"@) {
        Report { in_config: true, in_scan: false, ..r }
    } else if opens(t, "errors:"@) {
        Report { in_config: false, ..r }
    } else if r.in_config && t.len() > 0 && !opens(t, "NAME"@) {
        match device_in(t) {
            Some(d) => Report { devices: r.devices.push(d), ..r },
            None => r,
        }
    } else {
        r
    }
}

/// What the first lines tell.
pub open spec fn after_lines(lines: Seq<Seq<char>>) -> Report
    decreases lines.len(),
{
    if lines.len() == 0 {
        blank_report()
    } else {
        after_line(after_lines(lines.drop_last()), lines.last())
    }
}

/// The part of a report that a pool's health holds.
pub open spec fn holds_report(h: PoolHealth, r: Report) -> bool {
    &&& h.pool@ == r.pool
    &&& h.state == r.state
    &&& device_views(h.devices@) == r.devices
    &&& h.scrub.in_progress == r.in_progress
    &&& h.scrub.raw@ == r.raw
    &&& match h.scrub.percent_done {
        Some(n) => r.percent_done == Some(n@),
        None => r.percent_done is None,
    }
}

struct Scan {
    health: PoolHealth,
    in_config: bool,
    in_scan: bool,
}

impl Scan {
    spec fn holds(&self, r: Report) -> bool {
        holds_report(self.health, r) && self.in_config == r.in_config && self.in_scan == r.in_scan
    }

    fn line(&mut self, line: &[char], Ghost(r): Ghost<Report>)
        requires
            old(self).holds(r),
        ensures
            final(self).holds(after_line(r, line@)),
    {
        let t = text::trim(line);
        if let Some(v) = text::strip(t.as_slice(), "pool:") {
            self.health.pool = text::from_chars(text::trim(v.as_slice()).as_slice());
            return ;
        }
        if let Some(v) = text::strip(t.as_slice(), "state:") {
            self.health.state = PoolState::parse(
                text::from_chars(text::trim(v.as_slice()).as_slice()).as_str(),
            );
            return ;
        }
        if let Some(v) = text::strip(t.as_slice(), "scan:") {
            self.in_scan = true;
            self.health.scrub.raw = text::from_chars(text::trim(v.as_slice()).as_slice());
            if text::contains(v.as_slice(), "scrub in progress") {
                self.health.scrub.in_progress = true;
            }
            return ;
        }
        let config = text::has_prefix(t.as_slice(), text::chars("config:").as_slice());
        if self.in_scan && !self.in_config && t.len() > 0 && !config {
            self.health.scrub.raw.append(" ");
            self.health.scrub.raw.append(text::from_chars(t.as_slice()).as_str());
            let n = find_percent(t.as_slice());
            if n.is_some() {
                self.health.scrub.percent_done = n;
            }
            return ;
        }
        if config {
            self.in_config = true;
            self.in_scan = false;
            return ;
        }
        if text::has_prefix(t.as_slice(), text::chars("errors:").as_slice()) {
            self.in_config = false;
            return ;
        }
        if self.in_config && t.len() > 0 && !text::has_prefix(
            t.as_slice(),
            text::chars("NAME").as_slice(),
        ) {
            if let Some(d) = read_device(t.as_slice()) {
                let ghost before = device_views(self.health.devices@);
                let ghost dv = d@;
                self.health.devices.push(d);
                assert(device_views(self.health.devices@) =~= before.push(dv));
            }
        }
    }
}

/// Reads the output of `zpool status -p`. None where neither a pool nor a device is named.
pub fn parse_zpool_status(output: &str) -> (r: Option<PoolHealth>)
    ensures
        ({
            let rep = after_lines(text::lines_of(output@));
            match r {
                Some(h) => (rep.pool.len() > 0 || rep.devices.len() > 0) && holds_report(h, rep),
                None => rep.pool.len() == 0 && rep.devices.len() == 0,
            }
        }),
{
    let lines = text::lines(text::chars(output).as_slice());
    let ghost v = text::lines_of(output@);
    let mut scan = Scan {
        health: PoolHealth {
            pool: String::new(),
            state: PoolState::Unknown,
            devices: Vec::new(),
            scrub: ScrubInfo { in_progress: false, percent_done: None, raw: String::new() },
        },
        in_config: false,
        in_scan: false,
    };
    assert(v.take(0) =~= Seq::<Seq<char>>::empty());
    assert(device_views(scan.health.devices@) =~= Seq::<DeviceView>::empty());
    let mut i: usize = 0;
    while i < lines.len()
        invariant
            i <= lines@.len(),
            v == text::views(lines@),
            scan.holds(after_lines(v.take(i as int))),
        decreases lines@.len() - i,
    {
        proof {
            assert(v.take(i + 1).drop_last() =~= v.take(i as int));
            assert(v.take(i + 1).last() == lines@[i as int]@);
        }
        scan.line(lines[i].as_slice(), Ghost(after_lines(v.take(i as int))));
        i = i + 1;
    }
    assert(v.take(v.len() as int) =~= v);
    if text::chars(scan.health.pool.as_str()).len() == 0 && scan.health.devices.len() == 0 {
        return None;
    }
    Some(scan.health)
}

/// The value of the last line whose first word is `name`: its second word as a number.
pub open spec fn amount(lines: Seq<Seq<char>>, name: Seq<char>) -> Option<u64>
    decreases lines.len(),
{
    if lines.len() == 0 {
        None
    } else {
        let w = text::words_of(lines.last());
        if w.len() >= 2 && w[0] == name {
            match text::parsed_uint(w[1], u64::MAX as nat) {
                Some(v) => Some(v as u64),
                None => None,
            }
        } else {
            amount(lines.drop_last(), name)
        }
    }
}

fn find_amount(lines: &Vec<Vec<char>>, name: &str) -> (r: Option<u64>)
    ensures
        r == amount(text::views(lines@), name@),
{
    let ghost v = text::views(lines@);
    let mut n: usize = lines.len();
    assert(v.take(n as int) =~= v);
    while n > 0
        invariant
            n <= lines@.len(),
            v == text::views(lines@),
            amount(v, name@) == amount(v.take(n as int), name@),
        decreases n,
    {
        assert(v.take(n as int).drop_last() =~= v.take(n - 1));
        assert(v.take(n as int).last() == lines@[n - 1]@);
        let w = text::words(lines[n - 1].as_slice());
        let ghost wv = text::words_of(lines@[n - 1]@);
        assert(forall|i: int| 0 <= i < w@.len() ==> wv[i] == (#[trigger] w@[i])@);
        if w.len() >= 2 && text::spells(w[0].as_slice(), name) {
            return text::parse_uint(w[1].as_slice(), u64::MAX);
        }
        n = n - 1;
    }
    None
}

/// Reads the bytes used and available from the output of
/// `zfs get -Hp -o property,value used,available`.
pub fn parse_zfs_capacity(output: &str) -> (r: Option<(u64, u64)>)
    ensures
        ({
            let lines = text::lines_of(output@);
            r == (match (amount(lines, "used"@), amount(lines, "available"@)) {
                (Some(u), Some(a)) => Some((u, a)),
                _ => None,
            })
        }),
{
    let lines = text::lines(text::chars(output).as_slice());
    match (find_amount(&lines, "used"), find_amount(&lines, "available")) {
        (Some(u), Some(a)) => Some((u, a)),
        _ => None,
    }
}

/// A line of the device table as `zpool` writes it: the columns, with white space around
/// them.
pub open spec fn table_line(d: DeviceView, gaps: Seq<Seq<char>>) -> Seq<char> {
    gaps[0] + d.name + gaps[1] + state_word(d.state) + gaps[2] + text::dec_chars(
        d.read_errors as nat,
    ) + gaps[3] + text::dec_chars(d.write_errors as nat) + gaps[4] + text::dec_chars(
        d.cksum_errors as nat,
    ) + gaps[5]
}

/// White space that separates columns; at the ends of a line there may be none.
pub open spec fn are_gaps(gaps: Seq<Seq<char>>) -> bool {
    &&& gaps.len() == 6
    &&& forall|i: int| 0 <= i < 6 ==> text::all_white(#[trigger] gaps[i])
    &&& forall|i: int| 0 < i < 5 ==> (#[trigger] gaps[i]).len() > 0
}

proof fn lemma_state_word(s: PoolState)
    ensures
        text::is_word(state_word(s)),
        state_named(state_word(s)) == s,
        s == PoolState::Unknown ==> state_word(s) == "UNKNOWN"@,
{
    state_round_trip(s);
    reveal_strlit("ONLINE");
    reveal_strlit("DEGRADED");
    reveal_strlit("FAULTED");
    reveal_strlit("OFFLINE");
    reveal_strlit("UNAVAIL");
    reveal_strlit("REMOVED");
    reveal_strlit("UNKNOWN");
}

proof fn lemma_number_word(n: u64)
    ensures
        text::is_word(text::dec_chars(n as nat)),
        count_in(text::dec_chars(n as nat)) == n,
{
    text::dec_round_trip(n as nat);
    text::numbers_read_back(n as nat, u64::MAX as nat);
    let d = text::dec_chars(n as nat);
    assert forall|i: int| 0 <= i < d.len() implies !text::is_white(#[trigger] d[i]) by {
        assert(text::is_digit_char(d[i]));
    }
}

/// A word behind a gap.
proof fn lemma_column(a: Seq<char>, gap: Seq<char>, w: Seq<char>)
    requires
        text::all_white(gap),
        gap.len() > 0 || a.len() == 0,
        text::is_word(w),
    ensures
        text::words_of(a + gap + w) == text::words_of(a).push(w),
{
    text::gaps_are_no_words(a, gap);
    let b = a + gap;
    if b.len() > 0 {
        assert(b.last() == gap[gap.len() - 1]);
    }
    text::words_stand_apart(b, w);
}

/// Every line that names a device, one of the states and three counts is that device,
/// whichever state it is in.
pub proof fn device_lines_are_read(d: DeviceView, gaps: Seq<Seq<char>>)
    requires
        text::is_word(d.name),
        are_gaps(gaps),
    ensures
        text::words_of(table_line(d, gaps)).len() == 5,
        device_in(table_line(d, gaps)) == Some(d),
{
    let none = Seq::<char>::empty();
    let (r, w, c) = (
        text::dec_chars(d.read_errors as nat),
        text::dec_chars(d.write_errors as nat),
        text::dec_chars(d.cksum_errors as nat),
    );
    lemma_state_word(d.state);
    lemma_number_word(d.read_errors);
    lemma_number_word(d.write_errors);
    lemma_number_word(d.cksum_errors);
    assert forall|i: int| 0 <= i < 6 implies text::all_white(#[trigger] gaps[i]) by {}
    assert(text::all_white(gaps[0]) && text::all_white(gaps[5]));
    assert(gaps[1].len() > 0 && gaps[2].len() > 0 && gaps[3].len() > 0 && gaps[4].len() > 0);
    let l1 = none + gaps[0] + d.name;
    let l2 = l1 + gaps[1] + state_word(d.state);
    let l3 = l2 + gaps[2] + r;
    let l4 = l3 + gaps[3] + w;
    let l5 = l4 + gaps[4] + c;
    lemma_column(none, gaps[0], d.name);
    lemma_column(l1, gaps[1], state_word(d.state));
    lemma_column(l2, gaps[2], r);
    lemma_column(l3, gaps[3], w);
    lemma_column(l4, gaps[4], c);
    text::gaps_are_no_words(l5, gaps[5]);
    assert(none + gaps[0] =~= gaps[0]);
    assert(l5 + gaps[5] =~= table_line(d, gaps));
    let words = text::words_of(table_line(d, gaps));
    assert(words =~= seq![d.name, state_word(d.state), r, w, c]);
}

/// Whether a device's name opens none of the other lines of a report.
pub open spec fn is_device_name(n: Seq<char>) -> bool {
    &&& text::is_word(n)
    &&& !bytes::has_prefix(n, "pool:"@)
    &&& !bytes::has_prefix(n, "state:"@)
    &&& !bytes::has_prefix(n, "scan:"@)
    &&& !bytes::has_prefix(n, "config:"@)
    &&& !bytes::has_prefix(n, "errors:"@)
    &&& !bytes::has_prefix(n, "NAME"@)
}

/// A line that starts with a name and a gap opens with a label only where the name does.
proof fn lemma_no_label(n: Seq<char>, rest: Seq<char>, label: Seq<char>)
    requires
        text::is_word(label),
        rest.len() > 0,
        text::is_white(rest[0]),
        !bytes::has_prefix(n, label),
    ensures
        !bytes::has_prefix(n + rest, label),
{
    let s = n + rest;
    if bytes::has_prefix(s, label) {
        if label.len() <= n.len() {
            assert(s.subrange(0, label.len() as int) =~= n.subrange(0, label.len() as int));
        } else {
            assert(s[n.len() as int] == rest[0]);
            assert(s.subrange(0, label.len() as int)[n.len() as int] == label[n.len() as int]);
        }
    }
}

/// The words before the lines of a report.
proof fn lemma_labels()
    ensures
        text::is_word("pool:"@),
        text::is_word("state:"@),
        text::is_word("scan:"@),
        text::is_word("config:"@),
        text::is_word("errors:"@),
        text::is_word("NAME"@),
        "pool:"@.len() == 5 && "pool:"@[0] == 'p',
        "state:"@.len() == 6 && "state:"@[0] == 's' && "state:"@[1] == 't',
        "scan:"@.len() == 5 && "scan:"@[0] == 's' && "scan:"@[1] == 'c',
        "config:"@.len() == 7 && "config:"@[0] == 'c',
        "errors:"@.len() == 7 && "errors:"@[0] == 'e',
        "NAME"@.len() == 4 && "NAME"@[0] == 'N',
{
    reveal_strlit("pool:");
    reveal_strlit("state:");
    reveal_strlit("scan:");
    reveal_strlit("config:");
    reveal_strlit("errors:");
    reveal_strlit("NAME");
}

/// Six gaps around five words, regrouped.
proof fn lemma_line_parts(
    g: Seq<Seq<char>>,
    n: Seq<char>,
    s: Seq<char>,
    a: Seq<char>,
    b: Seq<char>,
    c: Seq<char>,
)
    ensures
        ({
            let none = Seq::<char>::empty();
            let rest = g[1] + s + g[2] + a + g[3] + b + g[4] + c;
            &&& none + n + g[1] + s + g[2] + a + g[3] + b + g[4] + c + none == n + rest
            &&& g[0] + n + g[1] + s + g[2] + a + g[3] + b + g[4] + c + g[5] == g[0] + (n + rest)
                + g[5]
        }),
{
    let none = Seq::<char>::empty();
    let rest = g[1] + s + g[2] + a + g[3] + b + g[4] + c;
    assert(n + g[1] + s + g[2] + a + g[3] + b + g[4] + c =~= n + rest);
    assert(none + n =~= n);
    assert((n + rest) + none =~= n + rest);
    assert(g[0] + n + g[1] + s + g[2] + a + g[3] + b + g[4] + c =~= g[0] + (n + rest));
}

/// The line of a device without the white space around it.
#[verifier::spinoff_prover]
#[verifier::rlimit(30)]
proof fn lemma_table_line(d: DeviceView, gaps: Seq<Seq<char>>)
    requires
        is_device_name(d.name),
        are_gaps(gaps),
    ensures
        ({
            let t = text::trimmed(table_line(d, gaps));
            &&& t.len() > 0
            &&& device_in(t) == Some(d)
            &&& !opens(t, "pool:"@) && !opens(t, "state:"@) && !opens(t, "scan:"@)
            &&& !opens(t, "config:"@) && !opens(t, "errors:"@) && !opens(t, "NAME"@)
        }),
{
    let none = Seq::<char>::empty();
    let inner = gaps.update(0, none).update(5, none);
    assert forall|i: int| 0 <= i < 6 implies text::all_white(#[trigger] inner[i]) by {
        assert(text::all_white(gaps[i]));
    }
    assert forall|i: int| 0 < i < 5 implies (#[trigger] inner[i]).len() > 0 by {
        assert(gaps[i].len() > 0);
    }
    let core = table_line(d, inner);
    let c = text::dec_chars(d.cksum_errors as nat);
    let rest = gaps[1] + state_word(d.state) + gaps[2] + text::dec_chars(d.read_errors as nat)
        + gaps[3] + text::dec_chars(d.write_errors as nat) + gaps[4] + c;
    lemma_number_word(d.cksum_errors);
    lemma_labels();
    assert(inner[1] == gaps[1] && inner[2] == gaps[2] && inner[3] == gaps[3] && inner[4]
        == gaps[4]);
    lemma_line_parts(
        gaps,
        d.name,
        state_word(d.state),
        text::dec_chars(d.read_errors as nat),
        text::dec_chars(d.write_errors as nat),
        c,
    );
    assert(core == d.name + rest);
    assert(gaps[1].len() > 0 && text::all_white(gaps[1]));
    assert(rest[0] == gaps[1][0]);
    assert(core[0] == d.name[0]);
    assert(core.last() == c.last()) by {
        assert(rest.last() == c.last());
    }
    assert(table_line(d, gaps) == gaps[0] + core + gaps[5]);
    assert(text::all_white(gaps[0]) && text::all_white(gaps[5]));
    text::trimming_takes_white_space(gaps[0], core, gaps[5]);
    device_lines_are_read(d, inner);
    lemma_no_label(d.name, rest, "pool:"@);
    lemma_no_label(d.name, rest, "state:"@);
    lemma_no_label(d.name, rest, "scan:"@);
    lemma_no_label(d.name, rest, "config:"@);
    lemma_no_label(d.name, rest, "errors:"@);
    lemma_no_label(d.name, rest, "NAME"@);
}

/// The lines of a device table.
pub open spec fn table_lines(devices: Seq<DeviceView>, gaps: Seq<Seq<char>>) -> Seq<Seq<char>> {
    Seq::new(devices.len(), |i: int| table_line(devices[i], gaps))
}

/// A line that adds no device: empty, or the head of the table.
proof fn lemma_other_lines(r: Report, line: Seq<char>)
    requires
        r.in_config,
        text::trimmed(line).len() == 0 || opens(text::trimmed(line), "NAME"@),
    ensures
        after_line(r, line) == r,
{
    lemma_labels();
    let t = text::trimmed(line);
    if t.len() > 0 {
        assert(t.subrange(0, 4)[0] == t[0]);
        assert(t[0] == 'N');
        if opens(t, "pool:"@) {
            assert(t.subrange(0, 5)[0] == t[0]);
        }
        if opens(t, "state:"@) {
            assert(t.subrange(0, 6)[0] == t[0]);
        }
        if opens(t, "scan:"@) {
            assert(t.subrange(0, 5)[0] == t[0]);
        }
        if opens(t, "config:"@) {
            assert(t.subrange(0, 7)[0] == t[0]);
        }
        if opens(t, "errors:"@) {
            assert(t.subrange(0, 7)[0] == t[0]);
        }
    }
}

/// What the lines behind `done` add.
proof fn lemma_table(done: Seq<Seq<char>>, devices: Seq<DeviceView>, gaps: Seq<Seq<char>>)
    requires
        after_lines(done).in_config,
        are_gaps(gaps),
        forall|i: int| 0 <= i < devices.len() ==> is_device_name((#[trigger] devices[i]).name),
    ensures
        after_lines(done + table_lines(devices, gaps)) == (Report {
            devices: after_lines(done).devices + devices,
            ..after_lines(done)
        }),
    decreases devices.len(),
{
    let all = done + table_lines(devices, gaps);
    if devices.len() == 0 {
        assert(all =~= done);
        assert(after_lines(done).devices + devices =~= after_lines(done).devices);
    } else {
        let p = devices.drop_last();
        assert forall|i: int| 0 <= i < p.len() implies is_device_name((#[trigger] p[i]).name) by {
            assert(p[i] == devices[i]);
        }
        lemma_table(done, p, gaps);
        assert(all.drop_last() =~= done + table_lines(p, gaps));
        let d = devices[devices.len() - 1];
        assert(all.last() == table_line(d, gaps));
        lemma_table_line(d, gaps);
        assert((after_lines(done).devices + p).push(d) =~= after_lines(done).devices + devices);
    }
}

/// A status report: the name of the pool, its state, and the table of its devices between
/// `config:` and `errors:`.
pub open spec fn status_lines(
    pool: Seq<char>,
    state: PoolState,
    devices: Seq<DeviceView>,
    gaps: Seq<Seq<char>>,
    head: Seq<char>,
    errors: Seq<char>,
) -> Seq<Seq<char>> {
    seq![
        "pool:"@ + seq![' '] + pool,
        "state:"@ + seq![' '] + state_word(state),
        "config:"@,
        Seq::empty(),
        "NAME"@ + head,
    ] + table_lines(devices, gaps) + seq![Seq::empty(), "errors:"@ + errors]
}

/// What one more line adds to a report.
proof fn lemma_one_more(lines: Seq<Seq<char>>, line: Seq<char>)
    ensures
        after_lines(lines.push(line)) == after_line(after_lines(lines), line),
{
    assert(lines.push(line).drop_last() =~= lines);
}

/// A label and a word behind it.
proof fn lemma_labelled(label: Seq<char>, w: Seq<char>)
    requires
        text::is_word(label),
        text::is_word(w),
    ensures
        ({
            let t = label + seq![' '] + w;
            &&& text::trimmed(t) == t
            &&& bytes::has_prefix(t, label)
            &&& text::trimmed(t.skip(label.len() as int)) == w
        }),
{
    let t = label + seq![' '] + w;
    let none = Seq::<char>::empty();
    assert(t[0] == label[0]);
    assert(t.last() == w[w.len() - 1]);
    text::trimming_takes_white_space(none, t, none);
    assert(none + t + none =~= t);
    assert(t.subrange(0, label.len() as int) =~= label);
    assert(!text::is_white(w[0]) && !text::is_white(w[w.len() - 1]));
    text::trimming_takes_white_space(seq![' '], w, none);
    assert(t.skip(label.len() as int) =~= seq![' '] + w + none);
}

/// A report is read back from its lines: the pool, its state, and every device of the
/// table in order, with its state and its counts.
pub proof fn status_reports_are_read(
    pool: Seq<char>,
    state: PoolState,
    devices: Seq<DeviceView>,
    gaps: Seq<Seq<char>>,
    head: Seq<char>,
    errors: Seq<char>,
)
    requires
        text::is_word(pool),
        are_gaps(gaps),
        forall|i: int| 0 <= i < devices.len() ==> is_device_name((#[trigger] devices[i]).name),
        text::trimmed("NAME"@ + head) == "NAME"@ + head,
        text::trimmed("errors:"@ + errors) == "errors:"@ + errors,
    ensures
        ({
            let r = after_lines(status_lines(pool, state, devices, gaps, head, errors));
            &&& r.pool == pool
            &&& r.state == state
            &&& r.devices == devices
            &&& !r.in_progress && r.percent_done is None
        }),
{
    let none = Seq::<char>::empty();
    let nothing = Seq::<Seq<char>>::empty();
    lemma_labels();
    lemma_state_word(state);
    let a = "pool:"@ + seq![' '] + pool;
    let b = "state:"@ + seq![' '] + state_word(state);
    let c = "config:"@;
    let h = "NAME"@ + head;
    let e = "errors:"@ + errors;
    lemma_labelled("pool:"@, pool);
    lemma_labelled("state:"@, state_word(state));
    text::trimming_takes_white_space(none, c, none);
    assert(none + c + none =~= c);
    let l1 = nothing.push(a);
    let l2 = l1.push(b);
    let l3 = l2.push(c);
    let l4 = l3.push(none);
    let l5 = l4.push(h);
    lemma_one_more(nothing, a);
    lemma_one_more(l1, b);
    lemma_one_more(l2, c);
    lemma_one_more(l3, none);
    lemma_one_more(l4, h);
    let r1 = after_lines(l1);
    assert(r1.pool == pool);
    assert(b[0] == 's' && b.subrange(0, 5)[0] == 's');
    let r2 = after_lines(l2);
    assert(r2.pool == pool && r2.state == state);
    assert(c.subrange(0, 5)[0] == 'c' && c.subrange(0, 6)[0] == 'c');
    assert(c.subrange(0, 7) =~= c);
    let r3 = after_lines(l3);
    assert(r3.in_config && r3.pool == pool && r3.state == state && r3.devices.len() == 0);
    assert(text::trimmed(none) =~= none);
    lemma_other_lines(r3, none);
    assert(h.subrange(0, 4) =~= "NAME"@);
    lemma_other_lines(after_lines(l4), h);
    let r5 = after_lines(l5);
    assert(r5 == r3);
    lemma_table(l5, devices, gaps);
    let l6 = l5 + table_lines(devices, gaps);
    let l7 = l6.push(none);
    lemma_one_more(l6, none);
    lemma_other_lines(after_lines(l6), none);
    lemma_one_more(l7, e);
    assert(l7.push(e) =~= status_lines(pool, state, devices, gaps, head, errors));
    assert(e[0] == 'e');
    assert(e.subrange(0, 7) =~= "errors:"@);
    assert(e.subrange(0, 5)[0] == 'e' && e.subrange(0, 6)[0] == 'e');
    assert(r3.devices + devices =~= devices);
    assert(opens(e, "errors:"@) && !opens(e, "pool:"@) && !opens(e, "state:"@) && !opens(
        e,
        "scan:"@,
    ) && !opens(e, "config:"@)) by {
        if opens(e, "config:"@) {
            assert(e.subrange(0, 7)[0] == 'c');
        }
    }
}

/// A shard is sound exactly while its pool is online and no device counts an error; it is
/// suspect while the pool is degraded or, though online, counts an error; in every other
/// state of the pool it is lost.
pub proof fn pool_states_decide(h: &PoolHealth, r: ShardStatus, healthy: bool)
    requires
        call_ensures(to_shard_status, (h,), r),
        call_ensures(PoolHealth::is_healthy, (h,), healthy),
    ensures
        r == ShardStatus::Online ==> h.state == PoolState::Online,
        h.state == PoolState::Degraded ==> r == ShardStatus::Suspect,
        h.state == PoolState::Faulted || h.state == PoolState::Offline || h.state
            == PoolState::Unavail || h.state == PoolState::Removed || h.state
            == PoolState::Unknown ==> r == ShardStatus::Faulted,
        h.state == PoolState::Online ==> (r == ShardStatus::Online <==> forall|i: int|
            0 <= i < h.devices@.len() ==> (#[trigger] h.devices@[i]).read_errors == 0
                && h.devices@[i].write_errors == 0 && h.devices@[i].cksum_errors == 0),
        h.state == PoolState::Online ==> r != ShardStatus::Faulted,
        healthy ==> r == ShardStatus::Online && forall|i: int|
            0 <= i < h.devices@.len() ==> (#[trigger] h.devices@[i]).state == PoolState::Online,
        !healthy && r == ShardStatus::Online ==> exists|i: int|
            0 <= i < h.devices@.len() && (#[trigger] h.devices@[i]).state != PoolState::Online,
{
    if forall|i: int|
        0 <= i < h.devices@.len() ==> (#[trigger] h.devices@[i]).read_errors == 0
            && h.devices@[i].write_errors == 0 && h.devices@[i].cksum_errors == 0 {
        assert(forall|i: int| 0 <= i < h.devices@.len() ==> is_clean(#[trigger] h.devices@[i]));
    }
    if forall|i: int| 0 <= i < h.devices@.len() ==> is_clean(#[trigger] h.devices@[i]) {
        assert forall|i: int| 0 <= i < h.devices@.len() implies (
        #[trigger] h.devices@[i]).read_errors == 0 && h.devices@[i].write_errors == 0
            && h.devices@[i].cksum_errors == 0 by {
            assert(is_clean(h.devices@[i]));
        }
    }
}

/// Every device adds its counts to the sums of a pool, in whatever state it is.
pub proof fn every_device_counts(d: Seq<DeviceStatus>, x: DeviceStatus)
    ensures
        error_sums(d.push(x)) == (
            error_sums(d).0 + x.read_errors,
            error_sums(d).1 + x.write_errors,
            error_sums(d).2 + x.cksum_errors,
        ),
        error_sums(Seq::empty()) == (0int, 0int, 0int),
{
    assert(d.push(x).drop_last() =~= d);
}

/// The amounts used and available are read back, in either order of their lines.
pub proof fn capacities_are_read(used: u64, available: u64, swapped: bool, output: &str, r: Option<
    (u64, u64),
>)
    requires
        output@ == text::written_lines(
            if swapped {
                seq![
                    "available"@ + seq!['\t'] + text::dec_chars(available as nat),
                    "used"@ + seq!['\t'] + text::dec_chars(used as nat),
                ]
            } else {
                seq![
                    "used"@ + seq!['\t'] + text::dec_chars(used as nat),
                    "available"@ + seq!['\t'] + text::dec_chars(available as nat),
                ]
            },
        ),
        call_ensures(parse_zfs_capacity, (output,), r),
    ensures
        r == Some((used, available)),
{
    reveal_strlit("used");
    reveal_strlit("available");
    lemma_amount_line("used"@, used);
    lemma_amount_line("available"@, available);
    let u = "used"@ + seq!['\t'] + text::dec_chars(used as nat);
    let a = "available"@ + seq!['\t'] + text::dec_chars(available as nat);
    let lines = if swapped {
        seq![a, u]
    } else {
        seq![u, a]
    };
    text::lines_read_back(lines);
    assert("used"@.len() != "available"@.len());
    reveal_with_fuel(amount, 3);
    assert(lines.drop_last() =~= seq![lines[0]]);
    assert(seq![lines[0]].drop_last() =~= Seq::<Seq<char>>::empty());
}

pub(crate) proof fn lemma_amount_line(name: Seq<char>, n: u64)
    requires
        text::is_word(name),
    ensures
        ({
            let l = name + seq!['\t'] + text::dec_chars(n as nat);
            &&& text::is_line(l)
            &&& text::words_of(l) == seq![name, text::dec_chars(n as nat)]
            &&& text::parsed_uint(text::dec_chars(n as nat), u64::MAX as nat) == Some(n as nat)
        }),
{
    let d = text::dec_chars(n as nat);
    let none = Seq::<char>::empty();
    let l = name + seq!['\t'] + d;
    lemma_number_word(n);
    text::numbers_read_back(n as nat, u64::MAX as nat);
    lemma_column(none, none, name);
    assert(none + none + name =~= name);
    lemma_column(name, seq!['\t'], d);
    assert(text::words_of(none) =~= Seq::<Seq<char>>::empty());
    assert(text::words_of(l) =~= seq![name, d]);
    assert(l.last() == d[d.len() - 1]);
    text::dec_round_trip(n as nat);
    assert(text::is_digit_char(d[d.len() - 1]));
    assert forall|i: int| 0 <= i < l.len() implies #[trigger] l[i] != '\n' by {
        if i < name.len() {
            assert(!text::is_white(name[i]));
            assert(l[i] == name[i]);
        } else if i > name.len() {
            assert(l[i] == d[i - name.len() - 1]);
            assert(text::is_digit_char(d[i - name.len() - 1]));
        }
    }
}

/// The output of `zpool status` is read as a whole: the pool, its state, and all devices of
/// the table, in order, with their states and counts.
pub proof fn status_output_is_read(
    pool: Seq<char>,
    state: PoolState,
    devices: Seq<DeviceView>,
    gaps: Seq<Seq<char>>,
    head: Seq<char>,
    errors: Seq<char>,
    output: &str,
    r: Option<PoolHealth>,
)
    requires
        text::is_word(pool),
        are_gaps(gaps),
        forall|i: int| 0 <= i < devices.len() ==> is_device_name((#[trigger] devices[i]).name),
        text::trimmed("NAME"@ + head) == "NAME"@ + head,
        text::trimmed("errors:"@ + errors) == "errors:"@ + errors,
        forall|i: int|
            0 <= i < status_lines(pool, state, devices, gaps, head, errors).len() ==> text::is_line(
                #[trigger] status_lines(pool, state, devices, gaps, head, errors)[i],
            ),
        output@ == text::written_lines(status_lines(pool, state, devices, gaps, head, errors)),
        call_ensures(parse_zpool_status, (output,), r),
    ensures
        r is Some,
        (r->0).pool@ == pool,
        (r->0).state == state,
        (r->0).devices@.len() == devices.len(),
        forall|i: int|
            0 <= i < devices.len() ==> (#[trigger] (r->0).devices@[i])@ == devices[i],
        !(r->0).scrub.in_progress,
{
    let lines = status_lines(pool, state, devices, gaps, head, errors);
    text::lines_read_back(lines);
    status_reports_are_read(pool, state, devices, gaps, head, errors);
    let v = device_views((r->0).devices@);
    assert(v == devices);
    assert forall|i: int| 0 <= i < devices.len() implies (#[trigger] (r->0).devices@[i])@
        == devices[i] by {
        assert(v[i] == (r->0).devices@[i]@);
    }
}

/// A scan line that tells of a scrub in progress is noticed, whatever was read before, and
/// its text is kept.
pub proof fn scrubs_are_noticed(r: Report, before: Seq<char>, after: Seq<char>)
    requires
        ({
            let t = "scan:"@ + before + "scrub in progress"@ + after;
            text::trimmed(t) == t
        }),
    ensures
        ({
            let next = after_line(r, "scan:"@ + before + "scrub in progress"@ + after);
            &&& next.in_progress
            &&& next.raw == text::trimmed(before + "scrub in progress"@ + after)
            &&& next.devices == r.devices && next.pool == r.pool && next.state == r.state
        }),
{
    lemma_labels();
    let v = before + "scrub in progress"@ + after;
    let t = "scan:"@ + before + "scrub in progress"@ + after;
    assert(t =~= "scan:"@ + v);
    assert(t.subrange(0, 5) =~= "scan:"@);
    assert(t.skip(5) =~= v);
    assert(t[0] == 's' && t[1] == 'c');
    if opens(t, "pool:"@) {
        assert(t.subrange(0, 5)[0] == 'p');
    }
    if opens(t, "state:"@) {
        assert(t.subrange(0, 6)[1] == 't');
    }
    text::lemma_occurs_between(before, "scrub in progress"@, after);
}

proof fn lemma_percent_word(words: Seq<Seq<char>>, w: Seq<char>, rest: Seq<Seq<char>>)
    requires
        w.len() > 0,
        w.last() == '%',
        forall|i: int|
            0 <= i < words.len() ==> (#[trigger] words[i]).len() > 0 && words[i].last() != '%',
    ensures
        percent_word(words + seq![w] + rest) == Some(w),
    decreases words.len(),
{
    let all = words + seq![w] + rest;
    if words.len() == 0 {
        assert(all[0] == w);
    } else {
        let p = words.skip(1);
        assert forall|i: int| 0 <= i < p.len() implies (#[trigger] p[i]).len() > 0 && p[i].last()
            != '%' by {
            assert(p[i] == words[i + 1]);
        }
        lemma_percent_word(p, w, rest);
        assert(all[0] == words[0]);
        assert(all.skip(1) =~= p + seq![w] + rest);
    }
}

/// The progress of a scrub is the number before the first percent sign: digits, a point and
/// digits.
pub proof fn progress_is_read(
    line: Seq<char>,
    before: Seq<Seq<char>>,
    a: nat,
    b: nat,
    after: Seq<Seq<char>>,
)
    requires
        forall|i: int|
            0 <= i < before.len() ==> (#[trigger] before[i]).len() > 0 && before[i].last() != '%',
        text::words_of(line) == before + seq![
            text::dec_chars(a) + seq!['.'] + text::dec_chars(b) + seq!['%'],
        ] + after,
    ensures
        percent_in(line) == Some(text::dec_chars(a) + seq!['.'] + text::dec_chars(b)),
{
    let (x, y) = (text::dec_chars(a), text::dec_chars(b));
    let n = x + seq!['.'] + y;
    let w = n + seq!['%'];
    text::dec_round_trip(a);
    text::dec_round_trip(b);
    lemma_percent_word(before, w, after);
    assert(w.drop_last() =~= n);
    assert(n.last() == y[y.len() - 1]);
    assert(text::is_digit_char(y[y.len() - 1]));
    assert(n[0] == x[0] && text::is_digit_char(x[0]));
    assert(text::without_tail(n, '%') == n);
    assert(text::without_tail(w, '%') == n);
    assert(text::without_tail(n, ',') == n);
    assert(unsigned(n) == n);
    assert forall|i: int| 0 <= i < n.len() implies #[trigger] n[i] != 'e' && !('A' <= n[i]
        <= 'Z') by {
        if i < x.len() {
            assert(n[i] == x[i] && text::is_digit_char(x[i]));
        } else if i > x.len() {
            assert(n[i] == y[i - x.len() - 1] && text::is_digit_char(y[i - x.len() - 1]));
        }
    }
    assert(text::lowered(n) =~= n);
    assert(text::lacks(n, 'e'));
    text::texts_are_cut_once(n, 'e', Seq::empty());
    text::lemma_digits_lack(a, '.');
    text::texts_are_cut_once(x, '.', y);
    assert(is_decimal(n));
}

} // verus!
