//! Counters of the store, and their text for Prometheus.
use vstd::prelude::*;
use vstd::string::*;
use crate::domain::{DomainError, DomainResult, ErrorView, GcReport};
use crate::text;

verus! {

/// The counters at one moment. They wrap around.
#[derive(Clone, Copy, Debug, PartialEq, Eq, Structural)]
pub struct OpsMetrics {
    pub puts: u64,
    pub put_errors: u64,
    pub put_micros: u64,
    pub gets: u64,
    pub get_not_found: u64,
    pub get_errors: u64,
    pub get_micros: u64,
    pub deletes: u64,
    pub hedged_reads: u64,
    pub handoff_writes: u64,
    pub mrf_enqueued: u64,
    pub mrf_healed: u64,
    pub scrub_checked: u64,
    pub scrub_corrupt: u64,
    pub scrub_repaired: u64,
    pub scrub_unrepairable: u64,
    pub resilver_repaired: u64,
    pub resilver_errors: u64,
    pub gc_victims: u64,
    pub gc_moved: u64,
    pub gc_reclaimed_bytes: u64,
    pub gc_orphans: u64,
    pub gc_orphan_bytes: u64,
    pub ec_puts: u64,
    pub ec_reconstructs: u64,
    pub ec_pieces_repaired: u64,
    pub migrate_migrated: u64,
    pub migrate_canary_failed: u64,
    pub migrate_errors: u64,
    /// older pieces that were given their mark during a migration
    pub migrate_era_backfilled: u64,
    pub cache_hits: u64,
    pub cache_misses: u64,
    pub cache_coalesced: u64,
    pub cache_self_heals: u64,
    pub cache_populated_bytes: u64,
    pub cache_evicted_segments: u64,
    pub cache_evicted_bytes: u64,
    pub bg_throttle_waits: u64,
    pub bg_throttle_bytes: u64,
    /// gauge: the background budget in bytes per second
    pub bg_rate_bps: u64,
    /// gauge: the hedging threshold in milliseconds
    pub hedge_threshold_ms: u64,
}

impl Default for OpsMetrics {
    fn default() -> (r: Self)
        ensures
            r.puts == 0,
            r.put_errors == 0,
            r.put_micros == 0,
            r.gets == 0,
            r.get_not_found == 0,
            r.get_errors == 0,
            r.get_micros == 0,
            r.deletes == 0,
            r.hedged_reads == 0,
            r.handoff_writes == 0,
            r.mrf_enqueued == 0,
            r.mrf_healed == 0,
            r.scrub_checked == 0,
            r.scrub_corrupt == 0,
            r.scrub_repaired == 0,
            r.scrub_unrepairable == 0,
            r.resilver_repaired == 0,
            r.resilver_errors == 0,
            r.gc_victims == 0,
            r.gc_moved == 0,
            r.gc_reclaimed_bytes == 0,
            r.gc_orphans == 0,
            r.gc_orphan_bytes == 0,
            r.ec_puts == 0,
            r.ec_reconstructs == 0,
            r.ec_pieces_repaired == 0,
            r.migrate_migrated == 0,
            r.migrate_canary_failed == 0,
            r.migrate_errors == 0,
            r.migrate_era_backfilled == 0,
            r.cache_hits == 0,
            r.cache_misses == 0,
            r.cache_coalesced == 0,
            r.cache_self_heals == 0,
            r.cache_populated_bytes == 0,
            r.cache_evicted_segments == 0,
            r.cache_evicted_bytes == 0,
            r.bg_throttle_waits == 0,
            r.bg_throttle_bytes == 0,
            r.bg_rate_bps == 0,
            r.hedge_threshold_ms == 0,
    {
        OpsMetrics {
            puts: 0,
            put_errors: 0,
            put_micros: 0,
            gets: 0,
            get_not_found: 0,
            get_errors: 0,
            get_micros: 0,
            deletes: 0,
            hedged_reads: 0,
            handoff_writes: 0,
            mrf_enqueued: 0,
            mrf_healed: 0,
            scrub_checked: 0,
            scrub_corrupt: 0,
            scrub_repaired: 0,
            scrub_unrepairable: 0,
            resilver_repaired: 0,
            resilver_errors: 0,
            gc_victims: 0,
            gc_moved: 0,
            gc_reclaimed_bytes: 0,
            gc_orphans: 0,
            gc_orphan_bytes: 0,
            ec_puts: 0,
            ec_reconstructs: 0,
            ec_pieces_repaired: 0,
            migrate_migrated: 0,
            migrate_canary_failed: 0,
            migrate_errors: 0,
            migrate_era_backfilled: 0,
            cache_hits: 0,
            cache_misses: 0,
            cache_coalesced: 0,
            cache_self_heals: 0,
            cache_populated_bytes: 0,
            cache_evicted_segments: 0,
            cache_evicted_bytes: 0,
            bg_throttle_waits: 0,
            bg_throttle_bytes: 0,
            bg_rate_bps: 0,
            hedge_threshold_ms: 0,
        }
    }
}

/// A counter's next value.
pub open spec fn counted(a: u64, n: u64) -> u64 {
    if a + n <= u64::MAX {
        (a + n) as u64
    } else {
        (a + n - u64::MAX - 1) as u64
    }
}

fn count(a: u64, n: u64) -> (r: u64)
    ensures
        r == counted(a, n),
{
    if n <= u64::MAX - a {
        a + n
    } else {
        a - (u64::MAX - n) - 1
    }
}

/// One exported value.
#[derive(Clone, Copy, Debug)]
pub enum Metric {
    Counter(&'static str, u64),
    /// a sum of microseconds, exported in seconds
    Seconds(&'static str, u64),
    Gauge(&'static str, u64),
}

/// The six decimal digits of a number below a million.
pub open spec fn six_digits(n: nat) -> Seq<char> {
    seq![
        text::digit_char(n / 100000 % 10),
        text::digit_char(n / 10000 % 10),
        text::digit_char(n / 1000 % 10),
        text::digit_char(n / 100 % 10),
        text::digit_char(n / 10 % 10),
        text::digit_char(n % 10),
    ]
}

/// Microseconds written as seconds.
pub open spec fn seconds_text(us: nat) -> Seq<char> {
    text::dec_chars(us / 1000000) + "."@ + six_digits(us % 1000000)
}

/// The lines of one value.
pub open spec fn metric_text(m: Metric) -> Seq<char> {
    match m {
        Metric::Counter(n, v) => "# TYPE "@ + n@ + " counter\n"@ + n@ + " "@ + text::dec_chars(
            v as nat,
        ) + "\n"@,
        Metric::Seconds(n, us) => "# TYPE "@ + n@ + " counter\n"@ + n@ + " "@ + seconds_text(
            us as nat,
        ) + "\n"@,
        Metric::Gauge(n, v) => "# TYPE "@ + n@ + " gauge\n"@ + n@ + " "@ + text::dec_chars(
            v as nat,
        ) + "\n"@,
    }
}

/// The lines of several values.
pub open spec fn metrics_text(v: Seq<Metric>) -> Seq<char>
    decreases v.len(),
{
    if v.len() == 0 {
        Seq::empty()
    } else {
        metrics_text(v.drop_last()) + metric_text(v.last())
    }
}

fn push_seconds(out: &mut String, us: u64)
    ensures
        final(out)@ == old(out)@ + seconds_text(us as nat),
{
    let ghost before = out@;
    text::push_dec(out, us / 1000000);
    out.append(".");
    let n: u64 = us % 1000000;
    let ghost mid = out@;
    out.push(text::digit((n / 100000 % 10) as u8));
    out.push(text::digit((n / 10000 % 10) as u8));
    out.push(text::digit((n / 1000 % 10) as u8));
    out.push(text::digit((n / 100 % 10) as u8));
    out.push(text::digit((n / 10 % 10) as u8));
    out.push(text::digit((n % 10) as u8));
    assert(out@ =~= mid + six_digits(n as nat));
    assert(out@ =~= before + seconds_text(us as nat));
}

fn push_metric(out: &mut String, m: Metric)
    ensures
        final(out)@ == old(out)@ + metric_text(m),
{
    let ghost before = out@;
    match m {
        Metric::Counter(n, v) => {
            out.append("# TYPE ");
            out.append(n);
            out.append(" counter\n");
            out.append(n);
            out.append(" ");
            text::push_dec(out, v);
            out.append("\n");
        },
        Metric::Seconds(n, us) => {
            out.append("# TYPE ");
            out.append(n);
            out.append(" counter\n");
            out.append(n);
            out.append(" ");
            push_seconds(out, us);
            out.append("\n");
        },
        Metric::Gauge(n, v) => {
            out.append("# TYPE ");
            out.append(n);
            out.append(" gauge\n");
            out.append(n);
            out.append(" ");
            text::push_dec(out, v);
            out.append("\n");
        },
    }
    assert(out@ =~= before + metric_text(m));
}

/// What is exported, in order.
pub open spec fn exported(m: OpsMetrics) -> Seq<Metric> {
    seq![
        Metric::Counter("ozd_puts_total", m.puts),
        Metric::Counter("ozd_put_errors_total", m.put_errors),
        Metric::Seconds("ozd_put_seconds_sum", m.put_micros),
        Metric::Counter("ozd_gets_total", m.gets),
        Metric::Counter("ozd_get_not_found_total", m.get_not_found),
        Metric::Counter("ozd_get_errors_total", m.get_errors),
        Metric::Seconds("ozd_get_seconds_sum", m.get_micros),
        Metric::Counter("ozd_deletes_total", m.deletes),
        Metric::Counter("ozd_hedged_reads_total", m.hedged_reads),
        Metric::Counter("ozd_handoff_writes_total", m.handoff_writes),
        Metric::Counter("ozd_mrf_enqueued_total", m.mrf_enqueued),
        Metric::Counter("ozd_mrf_healed_total", m.mrf_healed),
        Metric::Counter("ozd_scrub_checked_total", m.scrub_checked),
        Metric::Counter("ozd_scrub_corrupt_total", m.scrub_corrupt),
        Metric::Counter("ozd_scrub_repaired_total", m.scrub_repaired),
        Metric::Counter("ozd_scrub_unrepairable_total", m.scrub_unrepairable),
        Metric::Counter("ozd_resilver_repaired_total", m.resilver_repaired),
        Metric::Counter("ozd_resilver_errors_total", m.resilver_errors),
        Metric::Counter("ozd_ec_puts_total", m.ec_puts),
        Metric::Counter("ozd_ec_reconstructs_total", m.ec_reconstructs),
        Metric::Counter("ozd_ec_pieces_repaired_total", m.ec_pieces_repaired),
        Metric::Counter("ozd_migrate_migrated_total", m.migrate_migrated),
        Metric::Counter("ozd_migrate_canary_failed_total", m.migrate_canary_failed),
        Metric::Counter("ozd_migrate_errors_total", m.migrate_errors),
        Metric::Counter("ozd_migrate_era_backfilled_total", m.migrate_era_backfilled),
        Metric::Counter("ozd_cache_hits_total", m.cache_hits),
        Metric::Counter("ozd_cache_misses_total", m.cache_misses),
        Metric::Counter("ozd_cache_coalesced_total", m.cache_coalesced),
        Metric::Counter("ozd_cache_self_heals_total", m.cache_self_heals),
        Metric::Counter("ozd_cache_populated_bytes_total", m.cache_populated_bytes),
        Metric::Counter("ozd_cache_evicted_segments_total", m.cache_evicted_segments),
        Metric::Counter("ozd_cache_evicted_bytes_total", m.cache_evicted_bytes),
        Metric::Counter("ozd_bg_throttle_waits_total", m.bg_throttle_waits),
        Metric::Counter("ozd_bg_throttle_bytes_total", m.bg_throttle_bytes),
        Metric::Gauge("ozd_bg_rate_bps", m.bg_rate_bps),
        Metric::Gauge("ozd_hedge_threshold_ms", m.hedge_threshold_ms),
        Metric::Counter("ozd_gc_victims_total", m.gc_victims),
        Metric::Counter("ozd_gc_moved_total", m.gc_moved),
        Metric::Counter("ozd_gc_reclaimed_bytes_total", m.gc_reclaimed_bytes),
        Metric::Counter("ozd_gc_orphans_total", m.gc_orphans),
        Metric::Counter("ozd_gc_orphan_bytes_total", m.gc_orphan_bytes),
    ]
}

impl OpsMetrics {
    /// Adds what a collection pass did.
    pub fn record_gc(&mut self, r: &GcReport)
        ensures
            *final(self) == (OpsMetrics {
                gc_victims: counted(
                    old(self).gc_victims,
                    if r.victim_seg is Some {
                        1
                    } else {
                        0
                    },
                ),
                gc_moved: counted(old(self).gc_moved, r.live_moved as u64),
                gc_reclaimed_bytes: counted(old(self).gc_reclaimed_bytes, r.reclaimed_bytes),
                gc_orphans: counted(old(self).gc_orphans, r.orphans_removed as u64),
                gc_orphan_bytes: counted(old(self).gc_orphan_bytes, r.orphan_bytes),
                ..*old(self)
            }),
    {
        self.gc_victims = count(
            self.gc_victims,
            if r.victim_seg.is_some() {
                1
            } else {
                0
            },
        );
        self.gc_moved = count(self.gc_moved, r.live_moved as u64);
        self.gc_reclaimed_bytes = count(self.gc_reclaimed_bytes, r.reclaimed_bytes);
        self.gc_orphans = count(self.gc_orphans, r.orphans_removed as u64);
        self.gc_orphan_bytes = count(self.gc_orphan_bytes, r.orphan_bytes);
    }

    /// Counts a write and the microseconds it took.
    pub fn record_put(&mut self, outcome: &DomainResult<()>, us: u64)
        ensures
            *final(self) == (OpsMetrics {
                put_micros: counted(old(self).put_micros, us),
                puts: if *outcome is Ok {
                    counted(old(self).puts, 1)
                } else {
                    old(self).puts
                },
                put_errors: if *outcome is Err {
                    counted(old(self).put_errors, 1)
                } else {
                    old(self).put_errors
                },
                ..*old(self)
            }),
    {
        self.put_micros = count(self.put_micros, us);
        match outcome {
            Ok(_) => {
                self.puts = count(self.puts, 1);
            },
            Err(_) => {
                self.put_errors = count(self.put_errors, 1);
            },
        }
    }

    /// Counts a read and the microseconds it took; returns whether the time is one of a read
    /// that found its body.
    pub fn record_get(&mut self, outcome: &DomainResult<Vec<u8>>, us: u64) -> (found: bool)
        ensures
            found == (*outcome is Ok),
            *final(self) == (OpsMetrics {
                get_micros: counted(old(self).get_micros, us),
                gets: if *outcome is Ok {
                    counted(old(self).gets, 1)
                } else {
                    old(self).gets
                },
                get_not_found: if *outcome matches Err(e) && e@ == ErrorView::NotFound {
                    counted(old(self).get_not_found, 1)
                } else {
                    old(self).get_not_found
                },
                get_errors: if *outcome matches Err(e) && e@ != ErrorView::NotFound {
                    counted(old(self).get_errors, 1)
                } else {
                    old(self).get_errors
                },
                ..*old(self)
            }),
    {
        self.get_micros = count(self.get_micros, us);
        match outcome {
            Ok(_) => {
                self.gets = count(self.gets, 1);
                true
            },
            Err(DomainError::NotFound) => {
                self.get_not_found = count(self.get_not_found, 1);
                false
            },
            Err(_) => {
                self.get_errors = count(self.get_errors, 1);
                false
            },
        }
    }

    /// The text for Prometheus.
    pub fn prometheus(&self) -> (r: String)
        ensures
            r@ == metrics_text(exported(*self)),
    {
        let m = self;
        let list: Vec<Metric> = vec![
            Metric::Counter("ozd_puts_total", m.puts),
            Metric::Counter("ozd_put_errors_total", m.put_errors),
            Metric::Seconds("ozd_put_seconds_sum", m.put_micros),
            Metric::Counter("ozd_gets_total", m.gets),
            Metric::Counter("ozd_get_not_found_total", m.get_not_found),
            Metric::Counter("ozd_get_errors_total", m.get_errors),
            Metric::Seconds("ozd_get_seconds_sum", m.get_micros),
            Metric::Counter("ozd_deletes_total", m.deletes),
            Metric::Counter("ozd_hedged_reads_total", m.hedged_reads),
            Metric::Counter("ozd_handoff_writes_total", m.handoff_writes),
            Metric::Counter("ozd_mrf_enqueued_total", m.mrf_enqueued),
            Metric::Counter("ozd_mrf_healed_total", m.mrf_healed),
            Metric::Counter("ozd_scrub_checked_total", m.scrub_checked),
            Metric::Counter("ozd_scrub_corrupt_total", m.scrub_corrupt),
            Metric::Counter("ozd_scrub_repaired_total", m.scrub_repaired),
            Metric::Counter("ozd_scrub_unrepairable_total", m.scrub_unrepairable),
            Metric::Counter("ozd_resilver_repaired_total", m.resilver_repaired),
            Metric::Counter("ozd_resilver_errors_total", m.resilver_errors),
            Metric::Counter("ozd_ec_puts_total", m.ec_puts),
            Metric::Counter("ozd_ec_reconstructs_total", m.ec_reconstructs),
            Metric::Counter("ozd_ec_pieces_repaired_total", m.ec_pieces_repaired),
            Metric::Counter("ozd_migrate_migrated_total", m.migrate_migrated),
            Metric::Counter("ozd_migrate_canary_failed_total", m.migrate_canary_failed),
            Metric::Counter("ozd_migrate_errors_total", m.migrate_errors),
            Metric::Counter("ozd_migrate_era_backfilled_total", m.migrate_era_backfilled),
            Metric::Counter("ozd_cache_hits_total", m.cache_hits),
            Metric::Counter("ozd_cache_misses_total", m.cache_misses),
            Metric::Counter("ozd_cache_coalesced_total", m.cache_coalesced),
            Metric::Counter("ozd_cache_self_heals_total", m.cache_self_heals),
            Metric::Counter("ozd_cache_populated_bytes_total", m.cache_populated_bytes),
            Metric::Counter("ozd_cache_evicted_segments_total", m.cache_evicted_segments),
            Metric::Counter("ozd_cache_evicted_bytes_total", m.cache_evicted_bytes),
            Metric::Counter("ozd_bg_throttle_waits_total", m.bg_throttle_waits),
            Metric::Counter("ozd_bg_throttle_bytes_total", m.bg_throttle_bytes),
            Metric::Gauge("ozd_bg_rate_bps", m.bg_rate_bps),
            Metric::Gauge("ozd_hedge_threshold_ms", m.hedge_threshold_ms),
            Metric::Counter("ozd_gc_victims_total", m.gc_victims),
            Metric::Counter("ozd_gc_moved_total", m.gc_moved),
            Metric::Counter("ozd_gc_reclaimed_bytes_total", m.gc_reclaimed_bytes),
            Metric::Counter("ozd_gc_orphans_total", m.gc_orphans),
            Metric::Counter("ozd_gc_orphan_bytes_total", m.gc_orphan_bytes),
        ];
        assert(list@ =~= exported(*self));
        let mut out = String::new();
        let mut i: usize = 0;
        assert(list@.take(0) =~= Seq::<Metric>::empty());
        while i < list.len()
            invariant
                i <= list@.len(),
                out@ == metrics_text(list@.take(i as int)),
            decreases list@.len() - i,
        {
            assert(list@.take(i + 1).drop_last() =~= list@.take(i as int));
            push_metric(&mut out, list[i]);
            i = i + 1;
        }
        assert(list@.take(list@.len() as int) =~= list@);
        out
    }
}

/// Seconds are written with all their microseconds: read without the point, the digits are
/// the number of microseconds.
pub proof fn seconds_are_exact(us: nat)
    ensures
        text::dec_value(text::dec_chars(us / 1000000) + six_digits(us % 1000000)) == us,
{
    let q = us / 1000000;
    let n = us % 1000000;
    let a = text::dec_chars(q);
    let (d0, d1, d2) = (n / 100000 % 10, n / 10000 % 10, n / 1000 % 10);
    let (d3, d4, d5) = (n / 100 % 10, n / 10 % 10, n % 10);
    let s1 = a.push(text::digit_char(d0));
    let s2 = s1.push(text::digit_char(d1));
    let s3 = s2.push(text::digit_char(d2));
    let s4 = s3.push(text::digit_char(d3));
    let s5 = s4.push(text::digit_char(d4));
    let s6 = s5.push(text::digit_char(d5));
    assert(a + six_digits(n) =~= s6);
    text::dec_round_trip(q);
    lemma_digit_behind(a, d0);
    lemma_digit_behind(s1, d1);
    lemma_digit_behind(s2, d2);
    lemma_digit_behind(s3, d3);
    lemma_digit_behind(s4, d4);
    lemma_digit_behind(s5, d5);
    lemma_six(n);
}

proof fn lemma_digit_behind(s: Seq<char>, d: nat)
    requires
        d < 10,
    ensures
        text::dec_value(s.push(text::digit_char(d))) == text::dec_value(s) * 10 + d,
{
    let t = s.push(text::digit_char(d));
    assert(t.drop_last() =~= s);
}

proof fn lemma_six(n: nat)
    requires
        n < 1000000,
    ensures
        n / 100000 % 10 * 100000 + n / 10000 % 10 * 10000 + n / 1000 % 10 * 1000 + n / 100 % 10
            * 100 + n / 10 % 10 * 10 + n % 10 == n,
{
    let (n1, n2, n3, n4, n5) = (n / 10, n / 100, n / 1000, n / 10000, n / 100000);
    lemma_tenth(n, 1);
    lemma_tenth(n, 10);
    lemma_tenth(n, 100);
    lemma_tenth(n, 1000);
    lemma_tenth(n, 10000);
    assert(n5 % 10 == n5);
    assert(n4 == 10 * n5 + n4 % 10);
    assert(n3 == 10 * n4 + n3 % 10);
    assert(n2 == 10 * n3 + n2 % 10);
    assert(n1 == 10 * n2 + n1 % 10);
}

proof fn lemma_tenth(n: nat, k: nat)
    requires
        k > 0,
    ensures
        n / k == 10 * (n / (k * 10)) + n / k % 10,
{
    vstd::arithmetic::div_mod::lemma_div_denominator(n as int, k as int, 10);
    vstd::arithmetic::div_mod::lemma_fundamental_div_mod((n / k) as int, 10);
}

/// A counter grows by what is counted.
pub proof fn counters_grow(a: u64, n: u64)
    ensures
        a + n <= u64::MAX ==> counted(a, n) == a + n,
        counted(a, 0) == a,
{
}

/// Every counter and gauge is exported under its name with its value, sums of microseconds in
/// seconds.
pub proof fn every_counter_is_exported(m: OpsMetrics)
    ensures
        exported(m).len() == 41,
        exported(m)[0] == Metric::Counter("ozd_puts_total", m.puts),
        exported(m)[1] == Metric::Counter("ozd_put_errors_total", m.put_errors),
        exported(m)[2] == Metric::Seconds("ozd_put_seconds_sum", m.put_micros),
        exported(m)[3] == Metric::Counter("ozd_gets_total", m.gets),
        exported(m)[4] == Metric::Counter("ozd_get_not_found_total", m.get_not_found),
        exported(m)[5] == Metric::Counter("ozd_get_errors_total", m.get_errors),
        exported(m)[6] == Metric::Seconds("ozd_get_seconds_sum", m.get_micros),
        exported(m)[7] == Metric::Counter("ozd_deletes_total", m.deletes),
        exported(m)[8] == Metric::Counter("ozd_hedged_reads_total", m.hedged_reads),
        exported(m)[9] == Metric::Counter("ozd_handoff_writes_total", m.handoff_writes),
        exported(m)[10] == Metric::Counter("ozd_mrf_enqueued_total", m.mrf_enqueued),
        exported(m)[11] == Metric::Counter("ozd_mrf_healed_total", m.mrf_healed),
        exported(m)[12] == Metric::Counter("ozd_scrub_checked_total", m.scrub_checked),
        exported(m)[13] == Metric::Counter("ozd_scrub_corrupt_total", m.scrub_corrupt),
        exported(m)[14] == Metric::Counter("ozd_scrub_repaired_total", m.scrub_repaired),
        exported(m)[15] == Metric::Counter("ozd_scrub_unrepairable_total", m.scrub_unrepairable),
        exported(m)[16] == Metric::Counter("ozd_resilver_repaired_total", m.resilver_repaired),
        exported(m)[17] == Metric::Counter("ozd_resilver_errors_total", m.resilver_errors),
        exported(m)[18] == Metric::Counter("ozd_ec_puts_total", m.ec_puts),
        exported(m)[19] == Metric::Counter("ozd_ec_reconstructs_total", m.ec_reconstructs),
        exported(m)[20] == Metric::Counter("ozd_ec_pieces_repaired_total", m.ec_pieces_repaired),
        exported(m)[21] == Metric::Counter("ozd_migrate_migrated_total", m.migrate_migrated),
        exported(m)[22] == Metric::Counter("ozd_migrate_canary_failed_total", m.migrate_canary_failed),
        exported(m)[23] == Metric::Counter("ozd_migrate_errors_total", m.migrate_errors),
        exported(m)[24] == Metric::Counter("ozd_migrate_era_backfilled_total", m.migrate_era_backfilled),
        exported(m)[25] == Metric::Counter("ozd_cache_hits_total", m.cache_hits),
        exported(m)[26] == Metric::Counter("ozd_cache_misses_total", m.cache_misses),
        exported(m)[27] == Metric::Counter("ozd_cache_coalesced_total", m.cache_coalesced),
        exported(m)[28] == Metric::Counter("ozd_cache_self_heals_total", m.cache_self_heals),
        exported(m)[29] == Metric::Counter("ozd_cache_populated_bytes_total", m.cache_populated_bytes),
        exported(m)[30] == Metric::Counter("ozd_cache_evicted_segments_total", m.cache_evicted_segments),
        exported(m)[31] == Metric::Counter("ozd_cache_evicted_bytes_total", m.cache_evicted_bytes),
        exported(m)[32] == Metric::Counter("ozd_bg_throttle_waits_total", m.bg_throttle_waits),
        exported(m)[33] == Metric::Counter("ozd_bg_throttle_bytes_total", m.bg_throttle_bytes),
        exported(m)[34] == Metric::Gauge("ozd_bg_rate_bps", m.bg_rate_bps),
        exported(m)[35] == Metric::Gauge("ozd_hedge_threshold_ms", m.hedge_threshold_ms),
        exported(m)[36] == Metric::Counter("ozd_gc_victims_total", m.gc_victims),
        exported(m)[37] == Metric::Counter("ozd_gc_moved_total", m.gc_moved),
        exported(m)[38] == Metric::Counter("ozd_gc_reclaimed_bytes_total", m.gc_reclaimed_bytes),
        exported(m)[39] == Metric::Counter("ozd_gc_orphans_total", m.gc_orphans),
        exported(m)[40] == Metric::Counter("ozd_gc_orphan_bytes_total", m.gc_orphan_bytes),
{
}

/// The lines of a value stand in the page, whole, whatever the values before and behind it.
pub proof fn values_stand_on_the_page(m: &OpsMetrics, r: String, i: int)
    requires
        call_ensures(OpsMetrics::prometheus, (m,), r),
        0 <= i < exported(*m).len(),
    ensures
        text::occurs(r@, metric_text(exported(*m)[i])),
{
    lemma_lines_occur(exported(*m), i);
}

proof fn lemma_lines_occur(v: Seq<Metric>, i: int)
    requires
        0 <= i < v.len(),
    ensures
        text::occurs(metrics_text(v), metric_text(v[i])),
    decreases v.len(),
{
    let p = v.drop_last();
    let a = metrics_text(p);
    let b = metric_text(v.last());
    if i < p.len() {
        lemma_lines_occur(p, i);
        let pat = metric_text(v[i]);
        assert(p[i] == v[i]);
        let j = choose|j: int| #[trigger] text::stands_at(a, pat, j);
        assert((a + b).subrange(j, j + pat.len()) =~= a.subrange(j, j + pat.len()));
        assert(text::stands_at(a + b, pat, j));
    } else {
        text::lemma_occurs_between(a, b, Seq::empty());
        assert(a + b + Seq::<char>::empty() =~= a + b);
    }
}

/// A value is written with its type and its name, and as the number it is.
pub proof fn values_are_written_out(name: &'static str, v: u64)
    ensures
        metric_text(Metric::Counter(name, v)) == "# TYPE "@ + name@ + " counter\n"@ + name@ + " "@
            + text::dec_chars(v as nat) + "\n"@,
        metric_text(Metric::Gauge(name, v)) == "# TYPE "@ + name@ + " gauge\n"@ + name@ + " "@
            + text::dec_chars(v as nat) + "\n"@,
        metric_text(Metric::Seconds(name, v)) == "# TYPE "@ + name@ + " counter\n"@ + name@ + " "@
            + text::dec_chars(v as nat / 1000000) + "."@ + six_digits(v as nat % 1000000) + "\n"@,
        text::dec_value(text::dec_chars(v as nat / 1000000) + six_digits(v as nat % 1000000)) == v,
        six_digits(v as nat % 1000000).len() == 6,
{
    seconds_are_exact(v as nat);
    let h = "# TYPE "@ + name@ + " counter\n"@ + name@ + " "@;
    let d = text::dec_chars(v as nat / 1000000);
    assert(h + (d + "."@ + six_digits(v as nat % 1000000)) =~= h + d + "."@ + six_digits(
        v as nat % 1000000,
    ));
}

} // verus!
