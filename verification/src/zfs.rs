//! One ZFS pool for each disk: what is asked of `zfs` and `zpool`, and what the answers mean.
use vstd::prelude::*;
use vstd::string::*;
use crate::domain::Capacity;
use crate::text;
use crate::zfs_parser::{parse_zfs_capacity, parse_zpool_status, PoolHealth};
use crate::zfs_parser;
use crate::zfs_properties::{parse_size, Properties};
use crate::zfs_properties;
use crate::zfs_runner::{CmdOutput, Runner};
use crate::zfs_runner;

verus! {

/// What can go wrong with a pool.
#[derive(Debug)]
pub enum ZfsError {
    /// there is no such dataset or pool
    NotFound(String),
    /// the command failed; its complaint, cleaned up
    CommandFailed(String),
    ParseFailed,
    Io(String),
}

/// A [`ZfsError`] with its text taken by value.
pub ghost enum ZfsErrorView {
    NotFound(Seq<char>),
    CommandFailed(Seq<char>),
    ParseFailed,
    Io(Seq<char>),
}

impl View for ZfsError {
    type V = ZfsErrorView;

    open spec fn view(&self) -> ZfsErrorView {
        match *self {
            ZfsError::NotFound(m) => ZfsErrorView::NotFound(m@),
            ZfsError::CommandFailed(m) => ZfsErrorView::CommandFailed(m@),
            ZfsError::ParseFailed => ZfsErrorView::ParseFailed,
            ZfsError::Io(m) => ZfsErrorView::Io(m@),
        }
    }
}

impl ZfsError {
    /// The text the error is reported with.
    pub fn message(&self) -> (r: String)
        ensures
            r@ == (match self@ {
                ZfsErrorView::NotFound(m) => "zfs: not found: "@ + m,
                ZfsErrorView::CommandFailed(m) => "zfs command failed: "@ + m,
                ZfsErrorView::ParseFailed => "failed to parse zfs output"@,
                ZfsErrorView::Io(m) => "zfs io: "@ + m,
            }),
    {
        match self {
            ZfsError::NotFound(m) => {
                let mut t = "zfs: not found: ".to_owned();
                t.append(m.as_str());
                t
            },
            ZfsError::CommandFailed(m) => {
                let mut t = "zfs command failed: ".to_owned();
                t.append(m.as_str());
                t
            },
            ZfsError::ParseFailed => "failed to parse zfs output".to_owned(),
            ZfsError::Io(m) => {
                let mut t = "zfs io: ".to_owned();
                t.append(m.as_str());
                t
            },
        }
    }
}

/// The lines that hold more than white space, without the white space around them.
pub open spec fn filled_lines(lines: Seq<Seq<char>>) -> Seq<Seq<char>>
    decreases lines.len(),
{
    if lines.len() == 0 {
        Seq::empty()
    } else {
        let t = text::trimmed(lines.last());
        if t.len() > 0 {
            filled_lines(lines.drop_last()).push(t)
        } else {
            filled_lines(lines.drop_last())
        }
    }
}

/// The text up to the usage hint.
pub open spec fn before_usage(s: Seq<char>) -> Seq<char> {
    if text::occurs(s, "\nusage:"@) {
        s.take(choose|i: int| text::first_at(s, "\nusage:"@, i))
    } else {
        s
    }
}

/// A complaint without its usage hint and empty lines, on one line.
pub open spec fn cleaned(s: Seq<char>) -> Seq<char> {
    text::joined(filled_lines(text::lines_of(before_usage(s))), ": "@)
}

/// Cleans up what a command printed to its error output.
pub fn clean_up_stderr(stderr: &str) -> (r: String)
    ensures
        r@ == cleaned(stderr@),
{
    let c = text::chars(stderr);
    let pat = text::chars("\nusage:");
    let cut = match text::find(c.as_slice(), pat.as_slice()) {
        Some(i) => {
            let r = text::slice_of(c.as_slice(), 0, i);
            proof {
                let s = stderr@;
                let p = "\nusage:"@;
                let j = choose|j: int| text::first_at(s, p, j);
                assert(text::first_at(s, p, i as int));
                assert(text::stands_at(s, p, i as int) && text::stands_at(s, p, j));
                assert(i == j);
                assert(r@ =~= before_usage(s));
            }
            r
        },
        None => {
            let r = text::slice_of(c.as_slice(), 0, c.len());
            assert(r@ =~= before_usage(stderr@));
            r
        },
    };
    let lines = text::lines(cut.as_slice());
    let ghost v = text::lines_of(cut@);
    let mut out: Vec<String> = Vec::new();
    let mut i: usize = 0;
    assert(v.take(0) =~= Seq::<Seq<char>>::empty());
    assert(text::texts(out@) =~= Seq::<Seq<char>>::empty());
    while i < lines.len()
        invariant
            i <= lines@.len(),
            v == text::views(lines@),
            text::texts(out@) == filled_lines(v.take(i as int)),
        decreases lines@.len() - i,
    {
        assert(v.take(i + 1).drop_last() =~= v.take(i as int));
        assert(v.take(i + 1).last() == lines@[i as int]@);
        let t = text::trim(lines[i].as_slice());
        if t.len() > 0 {
            let ghost before = text::texts(out@);
            out.push(text::from_chars(t.as_slice()));
            assert(text::texts(out@) =~= before.push(t@));
        }
        i = i + 1;
    }
    assert(v.take(v.len() as int) =~= v);
    text::join(&out, ": ")
}

/// Whether a complaint says that something does not exist.
pub open spec fn says_not_found(m: Seq<char>) -> bool {
    text::occurs(m, "dataset does not exist"@) || text::occurs(m, "parent does not exist"@)
        || text::occurs(m, "no such pool"@)
}

/// What a command's answer means: its output, or the kind of failure.
pub open spec fn outcome(
    program: Seq<char>,
    args: Seq<Seq<char>>,
    a: Result<zfs_runner::OutputView, Seq<char>>,
) -> Result<Seq<char>, ZfsErrorView> {
    match a {
        Err(e) => Err(ZfsErrorView::Io(program + ": "@ + e)),
        Ok(o) => if o.success {
            Ok(o.stdout)
        } else if says_not_found(cleaned(o.stderr)) {
            Err(ZfsErrorView::NotFound(cleaned(o.stderr)))
        } else {
            Err(
                ZfsErrorView::CommandFailed(
                    program + " "@ + text::joined(args, " "@) + ": "@ + cleaned(o.stderr),
                ),
            )
        },
    }
}

/// Judges a command's answer.
pub fn judge(
    program: &str,
    args: &Vec<String>,
    answer: Result<CmdOutput, String>,
) -> (r: Result<String, ZfsError>)
    ensures
        match r {
            Ok(t) => outcome(program@, text::texts(args@), zfs_runner::answer_view(answer)) == Ok::<
                Seq<char>,
                ZfsErrorView,
            >(t@),
            Err(e) => outcome(program@, text::texts(args@), zfs_runner::answer_view(answer)) == Err::<
                Seq<char>,
                ZfsErrorView,
            >(e@),
        },
{
    match answer {
        Err(e) => {
            let mut t = program.to_owned();
            t.append(": ");
            t.append(e.as_str());
            Err(ZfsError::Io(t))
        },
        Ok(o) => {
            if o.success {
                return Ok(o.stdout);
            }
            let clean = clean_up_stderr(o.stderr.as_str());
            let c = text::chars(clean.as_str());
            if text::contains(c.as_slice(), "dataset does not exist") || text::contains(
                c.as_slice(),
                "parent does not exist",
            ) || text::contains(c.as_slice(), "no such pool") {
                return Err(ZfsError::NotFound(clean));
            }
            let mut t = program.to_owned();
            t.append(" ");
            t.append(text::join(args, " ").as_str());
            t.append(": ");
            t.append(clean.as_str());
            Err(ZfsError::CommandFailed(t))
        },
    }
}

/// The space of a pool. What is being freed in the background is counted apart.
#[derive(Clone, Copy, Debug, PartialEq, Eq, Structural)]
pub struct PoolMetrics {
    pub size: u64,
    pub allocated: u64,
    pub free: u64,
    /// bytes on their way to being free
    pub freeing: u64,
    pub leaked: u64,
    pub fragmentation_pct: u64,
}

impl Default for PoolMetrics {
    fn default() -> (r: Self)
        ensures
            r == no_metrics(),
    {
        PoolMetrics {
            size: 0,
            allocated: 0,
            free: 0,
            freeing: 0,
            leaked: 0,
            fragmentation_pct: 0,
        }
    }
}

pub open spec fn no_metrics() -> PoolMetrics {
    PoolMetrics { size: 0, allocated: 0, free: 0, freeing: 0, leaked: 0, fragmentation_pct: 0 }
}

impl PoolMetrics {
    /// The free space that placement counts with: what is free and what is being freed, so
    /// that a shard's weight does not jump while space is released.
    pub fn effective_free(&self) -> (r: u64)
        requires
            self.free + self.freeing <= u64::MAX,
        ensures
            r == self.free + self.freeing,
    {
        self.free + self.freeing
    }
}

/// A value of the metrics; what is not understood counts as zero.
pub open spec fn metric_in(v: Seq<char>) -> u64 {
    match zfs_properties::size_in(text::without_tail(v, '%')) {
        Some(n) => n,
        None => 0,
    }
}

/// What one line adds to the metrics.
pub open spec fn with_metric(m: PoolMetrics, line: Seq<char>) -> PoolMetrics {
    let w = text::words_of(line);
    if w.len() < 2 {
        m
    } else if w[0] == "size"@ {
        PoolMetrics { size: metric_in(w[1]), ..m }
    } else if w[0] == "allocated"@ {
        PoolMetrics { allocated: metric_in(w[1]), ..m }
    } else if w[0] == "free"@ {
        PoolMetrics { free: metric_in(w[1]), ..m }
    } else if w[0] == "freeing"@ {
        PoolMetrics { freeing: metric_in(w[1]), ..m }
    } else if w[0] == "leaked"@ {
        PoolMetrics { leaked: metric_in(w[1]), ..m }
    } else if w[0] == "fragmentation"@ {
        PoolMetrics { fragmentation_pct: metric_in(w[1]), ..m }
    } else {
        m
    }
}

/// The metrics that lines of names and values list.
pub open spec fn metrics_in(lines: Seq<Seq<char>>) -> PoolMetrics
    decreases lines.len(),
{
    if lines.len() == 0 {
        no_metrics()
    } else {
        with_metric(metrics_in(lines.drop_last()), lines.last())
    }
}

fn read_metric(m: PoolMetrics, line: &[char]) -> (r: PoolMetrics)
    ensures
        r == with_metric(m, line@),
{
    let w = text::words(line);
    let ghost v = text::words_of(line@);
    if w.len() < 2 {
        return m;
    }
    assert(v[0] == w@[0]@ && v[1] == w@[1]@);
    let n: u64 = match parse_size(
        text::from_chars(text::drop_tail(w[1].as_slice(), '%').as_slice()).as_str(),
    ) {
        Some(x) => x,
        None => 0,
    };
    let k = w[0].as_slice();
    if text::spells(k, "size") {
        PoolMetrics { size: n, ..m }
    } else if text::spells(k, "allocated") {
        PoolMetrics { allocated: n, ..m }
    } else if text::spells(k, "free") {
        PoolMetrics { free: n, ..m }
    } else if text::spells(k, "freeing") {
        PoolMetrics { freeing: n, ..m }
    } else if text::spells(k, "leaked") {
        PoolMetrics { leaked: n, ..m }
    } else if text::spells(k, "fragmentation") {
        PoolMetrics { fragmentation_pct: n, ..m }
    } else {
        m
    }
}

/// Reads the output of `zpool get -Hp -o property,value`.
pub fn parse_pool_metrics(output: &str) -> (r: PoolMetrics)
    ensures
        r == metrics_in(text::lines_of(output@)),
{
    let lines = text::lines(text::chars(output).as_slice());
    let ghost v = text::lines_of(output@);
    let mut m = PoolMetrics {
        size: 0,
        allocated: 0,
        free: 0,
        freeing: 0,
        leaked: 0,
        fragmentation_pct: 0,
    };
    let mut i: usize = 0;
    assert(v.take(0) =~= Seq::<Seq<char>>::empty());
    while i < lines.len()
        invariant
            i <= lines@.len(),
            v == text::views(lines@),
            m == metrics_in(v.take(i as int)),
        decreases lines@.len() - i,
    {
        assert(v.take(i + 1).drop_last() =~= v.take(i as int));
        assert(v.take(i + 1).last() == lines@[i as int]@);
        m = read_metric(m, lines[i].as_slice());
        i = i + 1;
    }
    assert(v.take(v.len() as int) =~= v);
    m
}

/// Whether a disk is the one the configuration means.
#[derive(Debug, PartialEq, Eq)]
pub enum IdentityCheck {
    /// the dataset was new and has been marked
    Initialized,
    /// the mark is the expected one
    Verified,
    /// another shard's disk
    Mismatch { found: String, expected: String },
}

/// An [`IdentityCheck`] taken by value.
pub ghost enum IdentityView {
    Initialized,
    Verified,
    Mismatch(Seq<char>, Seq<char>),
}

impl View for IdentityCheck {
    type V = IdentityView;

    open spec fn view(&self) -> IdentityView {
        match *self {
            IdentityCheck::Initialized => IdentityView::Initialized,
            IdentityCheck::Verified => IdentityView::Verified,
            IdentityCheck::Mismatch { found, expected } => IdentityView::Mismatch(
                found@,
                expected@,
            ),
        }
    }
}

/// One ZFS pool, the dataset on it and what runs its commands.
pub struct ZfsPool<R: Runner> {
    pub pool: String,
    pub dataset: String,
    pub runner: R,
}

/// Whether exactly one command was added to the log.
pub open spec fn one_call(
    before: Seq<zfs_runner::Call>,
    after: Seq<zfs_runner::Call>,
    program: Seq<char>,
    args: Seq<Seq<char>>,
) -> bool {
    after.len() == before.len() + 1 && after.drop_last() == before && after.last().program
        == program && after.last().args == args
}

/// What the last command of a log came to.
pub open spec fn last_outcome(log: Seq<zfs_runner::Call>) -> Result<Seq<char>, ZfsErrorView> {
    outcome(log.last().program, log.last().args, log.last().answer)
}

/// The arguments that set properties on a dataset.
pub open spec fn set_args(
    props: Seq<(Seq<char>, Seq<char>)>,
    dataset: Seq<char>,
) -> Seq<Seq<char>> {
    seq!["set"@] + Seq::new(props.len(), |i: int| props[i].0 + "="@ + props[i].1) + seq![dataset]
}

/// The value of a property that was read; none where it is not set.
pub open spec fn prop_value(out: Seq<char>) -> Option<Seq<char>> {
    let v = text::trimmed(out);
    if v.len() == 0 || v == "-"@ {
        None
    } else {
        Some(v)
    }
}

/// Reads the value of a property.
pub fn read_prop(out: &str) -> (r: Option<String>)
    ensures
        match r {
            Some(t) => prop_value(out@) == Some(t@),
            None => prop_value(out@) is None,
        },
{
    let v = text::trim(text::chars(out).as_slice());
    if v.len() == 0 || text::spells(v.as_slice(), "-") {
        None
    } else {
        Some(text::from_chars(v.as_slice()))
    }
}

fn words3(a: &str, b: &str, c: &str) -> (r: Vec<String>)
    ensures
        text::texts(r@) == seq![a@, b@, c@],
{
    let r = vec![a.to_owned(), b.to_owned(), c.to_owned()];
    assert(text::texts(r@) =~= seq![a@, b@, c@]);
    r
}

fn get_words(columns: &str, props: &str, target: &str) -> (r: Vec<String>)
    ensures
        text::texts(r@) == get_args(columns@, props@, target@),
{
    let r = vec![
        "get".to_owned(),
        "-Hp".to_owned(),
        "-o".to_owned(),
        columns.to_owned(),
        props.to_owned(),
        target.to_owned(),
    ];
    assert(text::texts(r@) =~= get_args(columns@, props@, target@));
    r
}

/// The arguments that read properties in exact numbers.
pub open spec fn get_args(
    columns: Seq<char>,
    props: Seq<char>,
    target: Seq<char>,
) -> Seq<Seq<char>> {
    seq!["get"@, "-Hp"@, "-o"@, columns, props, target]
}

/// The capacity that the bytes used and available make up.
pub open spec fn capacity_in(out: Seq<char>) -> Option<Capacity> {
    let lines = text::lines_of(out);
    match (zfs_parser::amount(lines, "used"@), zfs_parser::amount(lines, "available"@)) {
        (Some(u), Some(a)) => if u + a <= u64::MAX {
            Some(Capacity { total_bytes: (u + a) as u64, free_bytes: a })
        } else {
            None
        },
        _ => None,
    }
}

/// Reads a dataset's capacity; none where a number is missing or their sum is too large.
pub fn read_capacity(out: &str) -> (r: Option<Capacity>)
    ensures
        r == capacity_in(out@),
{
    match parse_zfs_capacity(out) {
        Some((used, avail)) => {
            if used <= u64::MAX - avail {
                Some(Capacity { total_bytes: used + avail, free_bytes: avail })
            } else {
                None
            }
        },
        None => None,
    }
}

impl<R: Runner> ZfsPool<R> {
    pub fn new(pool: String, dataset: String, runner: R) -> (r: Self)
        ensures
            r.pool@ == pool@,
            r.dataset@ == dataset@,
            r.runner == runner,
    {
        ZfsPool { pool, dataset, runner }
    }

    /// The same pool with another runner.
    pub fn with_runner(self, runner: R) -> (r: Self)
        ensures
            r.pool@ == self.pool@,
            r.dataset@ == self.dataset@,
            r.runner == runner,
    {
        ZfsPool { pool: self.pool, dataset: self.dataset, runner }
    }

    /// Whether only the log differs.
    pub open spec fn same_pool(&self, other: &Self) -> bool {
        self.pool@ == other.pool@ && self.dataset@ == other.dataset@
    }

    /// Runs a command and judges its answer.
    fn run(&mut self, program: &str, args: &Vec<String>) -> (r: Result<String, ZfsError>)
        ensures
            final(self).same_pool(old(self)),
            one_call(
                old(self).runner.log(),
                final(self).runner.log(),
                program@,
                text::texts(args@),
            ),
            match r {
                Ok(t) => last_outcome(final(self).runner.log()) == Ok::<Seq<char>, ZfsErrorView>(
                    t@,
                ),
                Err(e) => last_outcome(final(self).runner.log()) == Err::<Seq<char>, ZfsErrorView>(
                    e@,
                ),
            },
    {
        let a = self.runner.run(program, args);
        assert(self.runner.log().drop_last() =~= old(self).runner.log());
        judge(program, args, a)
    }

    /// The pool's health: `zpool status -p`.
    pub fn status(&mut self) -> (r: Result<PoolHealth, ZfsError>)
        ensures
            final(self).same_pool(old(self)),
            one_call(
                old(self).runner.log(),
                final(self).runner.log(),
                "zpool"@,
                seq!["status"@, "-p"@, old(self).pool@],
            ),
            match last_outcome(final(self).runner.log()) {
                Err(e) => r matches Err(x) && x@ == e,
                Ok(out) => {
                    let rep = zfs_parser::after_lines(text::lines_of(out));
                    if rep.pool.len() == 0 && rep.devices.len() == 0 {
                        r matches Err(x) && x@ == ZfsErrorView::ParseFailed
                    } else {
                        r matches Ok(h) && zfs_parser::holds_report(h, rep)
                    }
                },
            },
    {
        let args = words3("status", "-p", self.pool.as_str());
        match self.run("zpool", &args) {
            Err(e) => Err(e),
            Ok(out) => match parse_zpool_status(out.as_str()) {
                Some(h) => Ok(h),
                None => Err(ZfsError::ParseFailed),
            },
        }
    }

    /// The dataset's capacity: bytes used and available.
    pub fn capacity(&mut self) -> (r: Result<Capacity, ZfsError>)
        ensures
            final(self).same_pool(old(self)),
            one_call(
                old(self).runner.log(),
                final(self).runner.log(),
                "zfs"@,
                get_args("property,value"@, "used,available"@, old(self).dataset@),
            ),
            match last_outcome(final(self).runner.log()) {
                Err(e) => r matches Err(x) && x@ == e,
                Ok(out) => match capacity_in(out) {
                    Some(c) => r matches Ok(x) && x == c,
                    None => r matches Err(x) && x@ == ZfsErrorView::ParseFailed,
                },
            },
    {
        let args = get_words("property,value", "used,available", self.dataset.as_str());
        match self.run("zfs", &args) {
            Err(e) => Err(e),
            Ok(out) => match read_capacity(out.as_str()) {
                Some(c) => Ok(c),
                None => Err(ZfsError::ParseFailed),
            },
        }
    }

    /// The pool's space.
    pub fn pool_metrics(&mut self) -> (r: Result<PoolMetrics, ZfsError>)
        ensures
            final(self).same_pool(old(self)),
            one_call(
                old(self).runner.log(),
                final(self).runner.log(),
                "zpool"@,
                get_args(
                    "property,value"@,
                    "size,allocated,free,freeing,leaked,fragmentation"@,
                    old(self).pool@,
                ),
            ),
            match last_outcome(final(self).runner.log()) {
                Err(e) => r matches Err(x) && x@ == e,
                Ok(out) => r matches Ok(m) && m == metrics_in(text::lines_of(out)),
            },
    {
        let args = get_words(
            "property,value",
            "size,allocated,free,freeing,leaked,fragmentation",
            self.pool.as_str(),
        );
        match self.run("zpool", &args) {
            Err(e) => Err(e),
            Ok(out) => Ok(parse_pool_metrics(out.as_str())),
        }
    }

    /// The capacity that placement counts with. Where the free space and what is being freed
    /// add up to more than a number holds, the answer was not understood.
    pub fn effective_capacity(&mut self) -> (r: Result<Capacity, ZfsError>)
        ensures
            final(self).same_pool(old(self)),
            one_call(
                old(self).runner.log(),
                final(self).runner.log(),
                "zpool"@,
                get_args(
                    "property,value"@,
                    "size,allocated,free,freeing,leaked,fragmentation"@,
                    old(self).pool@,
                ),
            ),
            match last_outcome(final(self).runner.log()) {
                Err(e) => r matches Err(x) && x@ == e,
                Ok(out) => {
                    let m = metrics_in(text::lines_of(out));
                    if m.free + m.freeing <= u64::MAX {
                        r matches Ok(c) && c.total_bytes == m.size && c.free_bytes == m.free
                            + m.freeing
                    } else {
                        r matches Err(x) && x@ == ZfsErrorView::ParseFailed
                    }
                },
            },
    {
        match self.pool_metrics() {
            Err(e) => Err(e),
            Ok(m) => {
                if m.free <= u64::MAX - m.freeing {
                    Ok(Capacity { total_bytes: m.size, free_bytes: m.effective_free() })
                } else {
                    Err(ZfsError::ParseFailed)
                }
            },
        }
    }

    /// All properties of the dataset with their sources.
    pub fn dataset_properties(&mut self) -> (r: Result<Properties, ZfsError>)
        ensures
            final(self).same_pool(old(self)),
            one_call(
                old(self).runner.log(),
                final(self).runner.log(),
                "zfs"@,
                get_args("property,value,source"@, "all"@, old(self).dataset@),
            ),
            match last_outcome(final(self).runner.log()) {
                Err(e) => r matches Err(x) && x@ == e,
                Ok(out) => r matches Ok(p) && p@ == zfs_properties::listed(text::lines_of(out)),
            },
    {
        let args = get_words("property,value,source", "all", self.dataset.as_str());
        match self.run("zfs", &args) {
            Err(e) => Err(e),
            Ok(out) => Ok(Properties::parse(out.as_str())),
        }
    }

    /// The value of a user property of the dataset; none where it is not set.
    pub fn get_user_prop(&mut self, name: &str) -> (r: Result<Option<String>, ZfsError>)
        ensures
            final(self).same_pool(old(self)),
            one_call(
                old(self).runner.log(),
                final(self).runner.log(),
                "zfs"@,
                get_args("value"@, name@, old(self).dataset@),
            ),
            match last_outcome(final(self).runner.log()) {
                Err(e) => r matches Err(x) && x@ == e,
                Ok(out) => match prop_value(out) {
                    Some(v) => r matches Ok(Some(t)) && t@ == v,
                    None => r matches Ok(None),
                },
            },
    {
        let args = get_words("value", name, self.dataset.as_str());
        match self.run("zfs", &args) {
            Err(e) => Err(e),
            Ok(out) => Ok(read_prop(out.as_str())),
        }
    }

    /// Sets user properties on the dataset.
    pub fn set_user_props(&mut self, props: &[(&str, &str)]) -> (r: Result<(), ZfsError>)
        ensures
            final(self).same_pool(old(self)),
            one_call(
                old(self).runner.log(),
                final(self).runner.log(),
                "zfs"@,
                set_args(zfs_properties::wants(props@), old(self).dataset@),
            ),
            match last_outcome(final(self).runner.log()) {
                Err(e) => r matches Err(x) && x@ == e,
                Ok(_) => r is Ok,
            },
    {
        let mut args: Vec<String> = Vec::new();
        args.push("set".to_owned());
        let ghost w = zfs_properties::wants(props@);
        let mut i: usize = 0;
        while i < props.len()
            invariant
                i <= props@.len(),
                w == zfs_properties::wants(props@),
                args@.len() == i + 1,
                args@[0]@ == "set"@,
                forall|j: int|
                    0 <= j < i ==> (#[trigger] args@[j + 1])@ == w[j].0 + "="@ + w[j].1,
            decreases props@.len() - i,
        {
            let mut t = props[i].0.to_owned();
            t.append("=");
            t.append(props[i].1);
            args.push(t);
            i = i + 1;
        }
        args.push(self.dataset.clone());
        proof {
            let want = set_args(w, self.dataset@);
            assert forall|k: int| 0 <= k < args@.len() implies #[trigger] text::texts(args@)[k]
                == want[k] by {
                if 0 < k < args@.len() - 1 {
                    assert(args@[(k - 1) + 1]@ == w[k - 1].0 + "="@ + w[k - 1].1);
                }
            }
            assert(text::texts(args@) =~= want);
        }
        match self.run("zfs", &args) {
            Err(e) => Err(e),
            Ok(_) => Ok(()),
        }
    }

    /// Checks that the dataset is the shard's. A new dataset is marked with the shard's
    /// number; another number means that disks were exchanged.
    pub fn ensure_identity(&mut self, shard_id: u16, format_version: &str) -> (r: Result<
        IdentityCheck,
        ZfsError,
    >)
        ensures
            final(self).same_pool(old(self)),
            ({
                let before = old(self).runner.log();
                let after = final(self).runner.log();
                let n = before.len() as int;
                let id = text::dec_chars(shard_id as nat);
                let asked = get_args("value"@, "ozd:shard_id"@, old(self).dataset@);
                &&& n < after.len()
                &&& one_call(before, after.take(n + 1), "zfs"@, asked)
                &&& match last_outcome(after.take(n + 1)) {
                    Err(e) => after.len() == n + 1 && (r matches Err(x) && x@ == e),
                    Ok(out) => match prop_value(out) {
                        None => {
                            &&& one_call(
                                after.take(n + 1),
                                after,
                                "zfs"@,
                                set_args(
                                    seq![
                                        ("ozd:shard_id"@, id),
                                        ("ozd:format_version"@, format_version@),
                                    ],
                                    old(self).dataset@,
                                ),
                            )
                            &&& match last_outcome(after) {
                                Err(e) => r matches Err(x) && x@ == e,
                                Ok(_) => r matches Ok(c) && c@ == IdentityView::Initialized,
                            }
                        },
                        Some(found) => after.len() == n + 1 && (if found == id {
                            r matches Ok(c) && c@ == IdentityView::Verified
                        } else {
                            r matches Ok(c) && c@ == IdentityView::Mismatch(found, id)
                        }),
                    },
                }
            }),
    {
        let expected = text::dec(shard_id as u64);
        let ghost before = self.runner.log();
        let got = self.get_user_prop("ozd:shard_id");
        let ghost mid = self.runner.log();
        assert(mid.take(before.len() as int + 1) =~= mid);
        match got {
            Err(e) => Err(e),
            Ok(None) => {
                let props = [
                    ("ozd:shard_id", expected.as_str()),
                    ("ozd:format_version", format_version),
                ];
                let set = self.set_user_props(props.as_slice());
                proof {
                    let after = self.runner.log();
                    assert(after.take(before.len() as int + 1) =~= after.drop_last());
                    assert(zfs_properties::wants(props@) =~= seq![
                        ("ozd:shard_id"@, expected@),
                        ("ozd:format_version"@, format_version@),
                    ]);
                }
                match set {
                    Err(e) => Err(e),
                    Ok(_) => Ok(IdentityCheck::Initialized),
                }
            },
            Ok(Some(found)) => {
                if text::same_text(found.as_str(), expected.as_str()) {
                    Ok(IdentityCheck::Verified)
                } else {
                    Ok(IdentityCheck::Mismatch { found, expected })
                }
            },
        }
    }

    fn run_unit(&mut self, args: &Vec<String>) -> (r: Result<(), ZfsError>)
        ensures
            final(self).same_pool(old(self)),
            one_call(
                old(self).runner.log(),
                final(self).runner.log(),
                "zpool"@,
                text::texts(args@),
            ),
            match last_outcome(final(self).runner.log()) {
                Err(e) => r matches Err(x) && x@ == e,
                Ok(_) => r is Ok,
            },
    {
        match self.run("zpool", args) {
            Err(e) => Err(e),
            Ok(_) => Ok(()),
        }
    }

    /// Starts a scrub of the pool.
    pub fn scrub_start(&mut self) -> (r: Result<(), ZfsError>)
        ensures
            final(self).same_pool(old(self)),
            one_call(
                old(self).runner.log(),
                final(self).runner.log(),
                "zpool"@,
                seq!["scrub"@, old(self).pool@],
            ),
            match last_outcome(final(self).runner.log()) {
                Err(e) => r matches Err(x) && x@ == e,
                Ok(_) => r is Ok,
            },
    {
        let args = vec!["scrub".to_owned(), self.pool.clone()];
        assert(text::texts(args@) =~= seq!["scrub"@, self.pool@]);
        self.run_unit(&args)
    }

    /// Stops a scrub of the pool.
    pub fn scrub_stop(&mut self) -> (r: Result<(), ZfsError>)
        ensures
            final(self).same_pool(old(self)),
            one_call(
                old(self).runner.log(),
                final(self).runner.log(),
                "zpool"@,
                seq!["scrub"@, "-s"@, old(self).pool@],
            ),
            match last_outcome(final(self).runner.log()) {
                Err(e) => r matches Err(x) && x@ == e,
                Ok(_) => r is Ok,
            },
    {
        let args = words3("scrub", "-s", self.pool.as_str());
        self.run_unit(&args)
    }

    /// Pauses a scrub of the pool.
    pub fn scrub_pause(&mut self) -> (r: Result<(), ZfsError>)
        ensures
            final(self).same_pool(old(self)),
            one_call(
                old(self).runner.log(),
                final(self).runner.log(),
                "zpool"@,
                seq!["scrub"@, "-p"@, old(self).pool@],
            ),
            match last_outcome(final(self).runner.log()) {
                Err(e) => r matches Err(x) && x@ == e,
                Ok(_) => r is Ok,
            },
    {
        let args = words3("scrub", "-p", self.pool.as_str());
        self.run_unit(&args)
    }
}

/// A command that succeeds gives all that it printed; one that fails tells of something that
/// is not there, or that it failed; one that could not be run is a fault of its own.
pub proof fn answers_are_judged(
    program: &str,
    args: &Vec<String>,
    answer: Result<CmdOutput, String>,
    r: Result<String, ZfsError>,
)
    requires
        call_ensures(judge, (program, args, answer), r),
    ensures
        answer is Err ==> (r matches Err(ZfsError::Io(_))),
        answer is Ok && (answer->Ok_0).success ==> (r matches Ok(t) && t@ == (answer->Ok_0).stdout@),
        answer is Ok && !(answer->Ok_0).success ==> {
            let m = cleaned((answer->Ok_0).stderr@);
            let gone = text::occurs(m, "dataset does not exist"@) || text::occurs(
                m,
                "parent does not exist"@,
            ) || text::occurs(m, "no such pool"@);
            &&& gone ==> (r matches Err(ZfsError::NotFound(t)) && t@ == m)
            &&& !gone ==> (r matches Err(ZfsError::CommandFailed(t)) && t@ == program@ + " "@
                + text::joined(text::texts(args@), " "@) + ": "@ + m)
        },
{
    match r {
        Ok(_) => {},
        Err(e) => {
            assert(e@ is Io || e@ is NotFound || e@ is CommandFailed || e@ is ParseFailed);
        },
    }
}

proof fn lemma_filled(lines: Seq<Seq<char>>)
    requires
        forall|i: int|
            0 <= i < lines.len() ==> (#[trigger] lines[i]).len() > 0 && !text::is_white(lines[i][0])
                && !text::is_white(lines[i].last()),
    ensures
        filled_lines(lines) == lines,
    decreases lines.len(),
{
    if lines.len() > 0 {
        let p = lines.drop_last();
        assert forall|i: int| 0 <= i < p.len() implies (#[trigger] p[i]).len() > 0
            && !text::is_white(p[i][0]) && !text::is_white(p[i].last()) by {
            assert(p[i] == lines[i]);
        }
        lemma_filled(p);
        let l = lines[lines.len() - 1];
        assert(l.len() > 0);
        text::lemma_trimmed_plain(l);
        assert(p.push(l) =~= lines);
    } else {
        assert(lines =~= Seq::empty());
    }
}

/// A complaint keeps all its lines, in order; the usage hint behind it goes.
pub proof fn complaints_keep_their_lines(lines: Seq<Seq<char>>, rest: Seq<char>)
    requires
        forall|i: int|
            0 <= i < lines.len() ==> text::is_line(#[trigger] lines[i]) && lines[i].len() > 0
                && !text::is_white(lines[i][0]) && !text::is_white(lines[i].last()),
        !text::occurs(text::written_lines(lines), "\nusage:"@),
    ensures
        cleaned(text::written_lines(lines)) == text::joined(lines, ": "@),
        cleaned(text::written_lines(lines) + "\nusage:"@ + rest) == text::joined(lines, ": "@),
{
    assert forall|i: int| 0 <= i < lines.len() implies text::is_line(#[trigger] lines[i]) by {}
    text::lines_read_back(lines);
    assert forall|i: int| 0 <= i < lines.len() implies (#[trigger] lines[i]).len() > 0
        && !text::is_white(lines[i][0]) && !text::is_white(lines[i].last()) by {}
    lemma_filled(lines);
    let w = text::written_lines(lines);
    lemma_usage_cut(w, rest);
}

proof fn lemma_usage_cut(w: Seq<char>, rest: Seq<char>)
    requires
        !text::occurs(w, "\nusage:"@),
    ensures
        before_usage(w + "\nusage:"@ + rest) == w,
{
    reveal_strlit("\nusage:");
    let p = "\nusage:"@;
    let s = w + p + rest;
    let n = w.len() as int;
    text::lemma_occurs_between(w, p, rest);
    assert(s.subrange(n, n + p.len()) =~= p);
    assert(text::stands_at(s, p, n));
    assert forall|j: int| 0 <= j < n implies !#[trigger] text::stands_at(s, p, j) by {
        if text::stands_at(s, p, j) {
            let t = s.subrange(j, j + p.len());
            assert(t == p);
            if j + p.len() <= n {
                assert(w.subrange(j, j + p.len()) =~= t);
                assert(text::stands_at(w, p, j));
            } else {
                assert(t[n - j] == s[n]);
                assert(s[n] == p[0]);
                assert(p[n - j] == '\n');
                assert(0 < n - j < 7);
            }
        }
    }
    assert(text::first_at(s, p, n));
    let i = choose|i: int| text::first_at(s, p, i);
    assert(text::first_at(s, p, i));
    assert(i == n) by {
        if i < n {
            assert(!text::stands_at(s, p, i));
        } else if i > n {
            assert(!text::stands_at(s, p, n));
        }
    }
    assert(s.take(n) =~= w);
}

/// A line of the metrics sets the value it names, to the byte, and no other; lines of other
/// names are passed over.
pub proof fn metrics_are_read(m: PoolMetrics, n: u64, other: Seq<char>)
    requires
        text::is_word(other),
        other != "size"@ && other != "allocated"@ && other != "free"@ && other != "freeing"@ && other
            != "leaked"@ && other != "fragmentation"@,
    ensures
        ({
            let d = seq!['\t'] + text::dec_chars(n as nat);
            &&& with_metric(m, "size"@ + d) == (PoolMetrics { size: n, ..m })
            &&& with_metric(m, "allocated"@ + d) == (PoolMetrics { allocated: n, ..m })
            &&& with_metric(m, "free"@ + d) == (PoolMetrics { free: n, ..m })
            &&& with_metric(m, "freeing"@ + d) == (PoolMetrics { freeing: n, ..m })
            &&& with_metric(m, "leaked"@ + d) == (PoolMetrics { leaked: n, ..m })
            &&& with_metric(m, "fragmentation"@ + d) == (PoolMetrics { fragmentation_pct: n, ..m })
            &&& with_metric(m, other + d) == m
        }),
{
    reveal_strlit("size");
    reveal_strlit("allocated");
    reveal_strlit("free");
    reveal_strlit("freeing");
    reveal_strlit("leaked");
    reveal_strlit("fragmentation");
    let t = text::dec_chars(n as nat);
    text::dec_round_trip(n as nat);
    assert(text::is_digit_char(t[t.len() - 1]));
    assert(text::without_tail(t, '%') == t);
    zfs_properties::plain_numbers_are_exact(n);
    lemma_metric_line("size"@, n);
    lemma_metric_line("allocated"@, n);
    lemma_metric_line("free"@, n);
    lemma_metric_line("freeing"@, n);
    lemma_metric_line("leaked"@, n);
    lemma_metric_line("fragmentation"@, n);
    lemma_metric_line(other, n);
    assert("size"@.len() == 4 && "allocated"@.len() == 9 && "free"@.len() == 4 && "freeing"@.len()
        == 7 && "leaked"@.len() == 6 && "fragmentation"@.len() == 13);
    assert("size"@[0] == 's' && "free"@[0] == 'f');
}

proof fn lemma_metric_line(name: Seq<char>, n: u64)
    requires
        text::is_word(name),
    ensures
        text::words_of(name + (seq!['\t'] + text::dec_chars(n as nat))) == seq![
            name,
            text::dec_chars(n as nat),
        ],
{
    zfs_parser::lemma_amount_line(name, n);
    let d = text::dec_chars(n as nat);
    assert(name + (seq!['\t'] + d) =~= name + seq!['\t'] + d);
}

/// The lines of the metrics are read in turn, all of them.
pub proof fn metric_lines_add_up(lines: Seq<Seq<char>>, line: Seq<char>)
    ensures
        metrics_in(lines.push(line)) == with_metric(metrics_in(lines), line),
        metrics_in(Seq::empty()) == (PoolMetrics {
            size: 0,
            allocated: 0,
            free: 0,
            freeing: 0,
            leaked: 0,
            fragmentation_pct: 0,
        }),
{
    assert(lines.push(line).drop_last() =~= lines);
}

/// The value of a property is what was printed, without the white space round it; a dash or
/// nothing means that it is not set.
pub proof fn properties_are_read(
    out: &str,
    a: Seq<char>,
    v: Seq<char>,
    b: Seq<char>,
    r: Option<String>,
)
    requires
        call_ensures(read_prop, (out,), r),
        text::all_white(a),
        text::all_white(b),
        v.len() > 0,
        !text::is_white(v[0]),
        !text::is_white(v.last()),
        out@ == a + v + b,
    ensures
        v != "-"@ ==> (r matches Some(t) && t@ == v),
        v == "-"@ ==> r is None,
{
    text::trimming_takes_white_space(a, v, b);
}

/// The space of a dataset is what is used and what is available together; where that is more
/// than a number holds there is none.
pub proof fn capacities_add_up(used: u64, available: u64, out: &str, r: Option<Capacity>)
    requires
        call_ensures(read_capacity, (out,), r),
        zfs_parser::amount(text::lines_of(out@), "used"@) == Some(used),
        zfs_parser::amount(text::lines_of(out@), "available"@) == Some(available),
    ensures
        used + available <= u64::MAX ==> (r matches Some(c) && c.total_bytes == used + available
            && c.free_bytes == available),
        used + available > u64::MAX ==> r is None,
{
}

/// Properties are asked for in parsable form, by columns, names and dataset; they are set as
/// names with values, in order, on a dataset.
pub proof fn commands_name_everything(
    columns: Seq<char>,
    names: Seq<char>,
    target: Seq<char>,
    props: Seq<(Seq<char>, Seq<char>)>,
    i: int,
)
    ensures
        ({
            let g = get_args(columns, names, target);
            &&& g.len() == 6
            &&& g[0] == seq!['g', 'e', 't'] && g[1] == seq!['-', 'H', 'p'] && g[2] == seq!['-', 'o']
            &&& g[3] == columns && g[4] == names && g[5] == target
        }),
        ({
            let s = set_args(props, target);
            &&& s.len() == props.len() + 2
            &&& s[0] == seq!['s', 'e', 't']
            &&& s.last() == target
            &&& 0 <= i < props.len() ==> s[i + 1] == props[i].0 + seq!['='] + props[i].1
        }),
{
    reveal_strlit("get");
    reveal_strlit("-Hp");
    reveal_strlit("-o");
    reveal_strlit("set");
    reveal_strlit("=");
    assert("get"@ =~= seq!['g', 'e', 't']);
    assert("-Hp"@ =~= seq!['-', 'H', 'p']);
    assert("-o"@ =~= seq!['-', 'o']);
    assert("set"@ =~= seq!['s', 'e', 't']);
    assert("="@ =~= seq!['=']);
}

/// A property's value is what the command printed, white space around it aside; a dash, or
/// nothing, means that it is not set.
pub proof fn printed_values_are_read(a: Seq<char>, v: Seq<char>, b: Seq<char>)
    requires
        text::all_white(a),
        text::all_white(b),
        v.len() > 0,
        !text::is_white(v[0]),
        !text::is_white(v.last()),
    ensures
        v != seq!['-'] ==> prop_value(a + v + b) == Some(v),
        v == seq!['-'] ==> prop_value(a + v + b) is None,
        prop_value(Seq::empty()) is None,
{
    reveal_strlit("-");
    assert("-"@ =~= seq!['-']);
    text::trimming_takes_white_space(a, v, b);
}

/// What is really free is what is free and what is being freed.
pub proof fn freeing_counts_as_free(m: &PoolMetrics, r: u64)
    requires
        call_ensures(PoolMetrics::effective_free, (m,), r),
    ensures
        r == m.free + m.freeing,
{
}

/// One call is one more entry in the log, behind all others, with its program and arguments;
/// what came of it is what its answer says.
pub proof fn calls_are_logged_once(before: Seq<zfs_runner::Call>, c: zfs_runner::Call)
    ensures
        one_call(before, before.push(c), c.program, c.args),
        forall|after: Seq<zfs_runner::Call>, program: Seq<char>, args: Seq<Seq<char>>| #[trigger]
            one_call(before, after, program, args) ==> after.len() == before.len() + 1
                && after.take(before.len() as int) == before && after[before.len() as int].program
                == program && after[before.len() as int].args == args,
        last_outcome(before.push(c)) == outcome(c.program, c.args, c.answer),
{
    assert(before.push(c).drop_last() =~= before);
    assert forall|after: Seq<zfs_runner::Call>, program: Seq<char>, args: Seq<Seq<char>>| #[trigger]
        one_call(before, after, program, args) implies after.len() == before.len() + 1
        && after.take(before.len() as int) == before && after[before.len() as int].program
        == program && after[before.len() as int].args == args by {
        assert(after.take(before.len() as int) =~= after.drop_last());
    }
}

} // verus!
