//! The budget of background work, which must not get in the way of reads and writes.
//!
//! Background work pays for its bytes after the fact: a debt becomes a pause before the
//! next portion. The budget follows the load. While the foreground is busy it is halved,
//! down to a floor; while it is quiet a tenth of the ceiling comes back each second.
//! Time is counted in nanoseconds, the budget in billionths of a byte per second, and what
//! is left of it in the product of the two.
use vstd::prelude::*;

verus! {

/// The bounds of the budget.
#[derive(Clone, Copy, Debug, PartialEq, Eq, Structural)]
pub struct BgThrottleConfig {
    /// bytes per second at most; nothing is held back at zero
    pub max_bytes_per_sec: u64,
    /// bytes per second at least, so that repairs come to an end
    pub min_bytes_per_sec: u64,
    /// the foreground is busy above so many millionths of an operation per second
    pub fg_busy_micro_ops: u64,
}

impl Default for BgThrottleConfig {
    fn default() -> (r: Self)
        ensures
            r.max_bytes_per_sec == 64 * 1024 * 1024,
            r.min_bytes_per_sec == 4 * 1024 * 1024,
            r.fg_busy_micro_ops == 50_000_000,
    {
        BgThrottleConfig {
            max_bytes_per_sec: 67108864,
            min_bytes_per_sec: 4194304,
            fg_busy_micro_ops: 50_000_000,
        }
    }
}

/// The budget and what is left of it.
#[derive(Clone, Copy, Debug, PartialEq, Eq, Structural)]
pub struct BgThrottle {
    pub cfg: BgThrottleConfig,
    /// billionths of a byte per second
    pub rate: u128,
    /// what may be spent, at most a second's worth; below zero it is owed
    pub tokens: i128,
    pub last_refill: u64,
    /// when the foreground was last looked at, and its count then
    pub last_obs: u64,
    pub last_fg_ops: u64,
}

pub open spec fn since(from: u64, to: u64) -> int {
    if from < to {
        to - from
    } else {
        0
    }
}

/// Whether so many operations in so many nanoseconds are more than the foreground does
/// when it is quiet.
pub open spec fn is_busy(ops: int, window: int, limit: u64) -> bool {
    ops * 1_000_000_000_000_000 > limit * window
}

/// So many bytes per second, in the unit of the budget.
pub open spec fn budget_of(bytes: u64) -> u128 {
    (bytes * 1_000_000_000) as u128
}

/// Half the budget, no less than the floor, and not nothing.
pub open spec fn lowered(rate: u128, floor: u64) -> u128 {
    if rate / 2 >= budget_of(floor) && rate / 2 >= 1 {
        rate / 2
    } else if floor >= 1 {
        budget_of(floor)
    } else {
        1
    }
}

/// A tenth of the ceiling more, no more than the ceiling.
pub open spec fn raised(rate: u128, ceiling: u64) -> u128 {
    if rate + budget_of(ceiling) / 10 <= budget_of(ceiling) {
        (rate + budget_of(ceiling) / 10) as u128
    } else {
        budget_of(ceiling)
    }
}

impl BgThrottle {
    /// The budget after a look at the foreground, which is taken once a second.
    pub open spec fn rate_at(&self, now: u64, fg: u64) -> u128 {
        let window = since(self.last_obs, now);
        if window < 1_000_000_000 {
            self.rate
        } else if is_busy(since(self.last_fg_ops, fg), window, self.cfg.fg_busy_micro_ops) {
            lowered(self.rate, self.cfg.min_bytes_per_sec)
        } else {
            raised(self.rate, self.cfg.max_bytes_per_sec)
        }
    }

    /// What may be spent at a time, before anything is.
    pub open spec fn filled(&self, rate: u128, now: u64) -> int {
        let t = self.tokens + rate * since(self.last_refill, now);
        if t < rate * 1_000_000_000 {
            t
        } else {
            rate * 1_000_000_000
        }
    }

    /// The state after `bytes` were spent.
    pub open spec fn spent(&self, bytes: u64, now: u64, fg: u64) -> BgThrottle {
        let rate = self.rate_at(now, fg);
        let looked = since(self.last_obs, now) >= 1_000_000_000;
        BgThrottle {
            cfg: self.cfg,
            rate,
            tokens: (self.filled(rate, now) - bytes * 1_000_000_000_000_000_000) as i128,
            last_refill: now,
            last_obs: if looked {
                now
            } else {
                self.last_obs
            },
            last_fg_ops: if looked {
                fg
            } else {
                self.last_fg_ops
            },
        }
    }

    /// The pause that pays a debt off.
    pub open spec fn pause(&self) -> int {
        if self.tokens >= 0 {
            0
        } else {
            (-self.tokens + self.rate - 1) / self.rate as int
        }
    }

    /// There is a budget, no more is saved up than a second's worth of it, and what is owed
    /// can be counted.
    pub open spec fn wf(&self) -> bool {
        &&& 1 <= self.rate <= budget_of(u64::MAX)
        &&& 1 <= self.cfg.max_bytes_per_sec
        &&& self.tokens <= self.rate * 1_000_000_000
        &&& self.tokens >= -0x4000_0000_0000_0000_0000_0000_0000_0000
    }

    /// A full budget at the ceiling.
    pub fn new(cfg: BgThrottleConfig, now: u64, fg: u64) -> (r: Self)
        ensures
            r.cfg == cfg,
            r.rate == budget_of(cfg.max_bytes_per_sec),
            r.tokens == cfg.max_bytes_per_sec * 1_000_000_000_000_000_000,
            r.last_refill == now,
            r.last_obs == now,
            r.last_fg_ops == fg,
            1 <= cfg.max_bytes_per_sec ==> r.wf(),
    {
        BgThrottle {
            cfg,
            rate: cfg.max_bytes_per_sec as u128 * 1_000_000_000,
            tokens: cfg.max_bytes_per_sec as i128 * 1_000_000_000_000_000_000,
            last_refill: now,
            last_obs: now,
            last_fg_ops: fg,
        }
    }

    /// The budget in whole bytes per second.
    pub fn rate_bps(&self) -> (r: u64)
        requires
            self.rate <= budget_of(u64::MAX),
        ensures
            r == self.rate / 1_000_000_000,
    {
        (self.rate / 1_000_000_000) as u64
    }

    /// Whether anything has to be paid.
    pub fn charges(&self, bytes: u64) -> (r: bool)
        ensures
            r == (self.cfg.max_bytes_per_sec > 0 && bytes > 0),
    {
        self.cfg.max_bytes_per_sec > 0 && bytes > 0
    }

    fn new_rate(&self, now: u64, fg: u64) -> (r: u128)
        requires
            self.wf(),
        ensures
            r == self.rate_at(now, fg),
            1 <= r <= budget_of(u64::MAX),
    {
        let window: u64 = if self.last_obs < now {
            now - self.last_obs
        } else {
            0
        };
        if window < 1_000_000_000 {
            return self.rate;
        }
        let ops: u64 = if self.last_fg_ops < fg {
            fg - self.last_fg_ops
        } else {
            0
        };
        proof {
            assert(self.cfg.fg_busy_micro_ops * window <= 0xffff_ffff_ffff_ffff
                * 0xffff_ffff_ffff_ffff) by (nonlinear_arith)
                requires
                    self.cfg.fg_busy_micro_ops <= 0xffff_ffff_ffff_ffff,
                    window <= 0xffff_ffff_ffff_ffff,
            ;
        }
        let busy: bool = ops as u128 * 1_000_000_000_000_000 > self.cfg.fg_busy_micro_ops as u128
            * window as u128;
        let floor: u128 = self.cfg.min_bytes_per_sec as u128 * 1_000_000_000;
        let ceiling: u128 = self.cfg.max_bytes_per_sec as u128 * 1_000_000_000;
        if busy {
            let half: u128 = self.rate / 2;
            if half >= floor && half >= 1 {
                half
            } else if floor >= 1 {
                floor
            } else {
                1
            }
        } else {
            let step: u128 = ceiling / 10;
            if self.rate <= ceiling - step {
                self.rate + step
            } else {
                ceiling
            }
        }
    }

    /// Spends `bytes`; returns the pause, in nanoseconds, before the next portion.
    pub fn acquire_delay(&mut self, bytes: u64, now: u64, fg_total_ops: u64) -> (r: u128)
        requires
            old(self).wf(),
            old(self).tokens >= -0x2000_0000_0000_0000_0000_0000_0000_0000,
        ensures
            final(self).wf(),
            *final(self) == old(self).spent(bytes, now, fg_total_ops),
            r == final(self).pause(),
    {
        let rate: u128 = self.new_rate(now, fg_total_ops);
        let window: u64 = if self.last_obs < now {
            now - self.last_obs
        } else {
            0
        };
        if window >= 1_000_000_000 {
            self.last_obs = now;
            self.last_fg_ops = fg_total_ops;
        }
        let dt: u64 = if self.last_refill < now {
            now - self.last_refill
        } else {
            0
        };
        let cap: i128 = rate as i128 * 1_000_000_000;
        let full: i128 = if self.tokens >= cap {
            proof {
                assert(rate * dt >= 0) by (nonlinear_arith);
            }
            cap
        } else {
            let room: u128 = (cap - self.tokens) as u128;
            // nanoseconds until nothing more fits
            let rest: u128 = (room + rate - 1) / rate;
            proof {
                lemma_rounded_up(room as int, rate as int, dt as int);
            }
            if (dt as u128) < rest {
                self.tokens + (rate * dt as u128) as i128
            } else {
                cap
            }
        };
        self.rate = rate;
        self.last_refill = now;
        self.tokens = full - bytes as i128 * 1_000_000_000_000_000_000;
        if self.tokens >= 0 {
            0
        } else {
            let owed: i128 = 0 - self.tokens;
            let wait: i128 = (owed + rate as i128 - 1) / (rate as i128);
            proof {
                vstd::arithmetic::div_mod::lemma_div_pos_is_pos(
                    owed as int + rate as int - 1,
                    rate as int,
                );
            }
            wait as u128
        }
    }
}

/// A quotient rounded up is the first number of parts that make up the whole.
proof fn lemma_rounded_up(whole: int, part: int, n: int)
    requires
        0 < whole,
        0 < part,
        0 <= n,
    ensures
        n < (whole + part - 1) / part <==> part * n < whole,
        part * n >= 0,
{
    let q = (whole + part - 1) / part;
    vstd::arithmetic::div_mod::lemma_fundamental_div_mod(whole + part - 1, part);
    vstd::arithmetic::div_mod::lemma_mod_bound(whole + part - 1, part);
    assert(part * n >= 0) by (nonlinear_arith)
        requires
            part > 0,
            n >= 0,
    ;
    if n < q {
        assert(part * n <= part * q - part) by (nonlinear_arith)
            requires
                part > 0,
                n <= q - 1,
        ;
    } else {
        assert(part * n >= part * q) by (nonlinear_arith)
            requires
                part > 0,
                n >= q,
        ;
    }
}

/// The budget stays between the floor and the ceiling, and the foreground alone moves it.
pub proof fn budget_keeps_its_bounds(t: BgThrottle, now: u64, fg: u64)
    requires
        t.wf(),
        budget_of(t.cfg.min_bytes_per_sec) <= t.rate <= budget_of(t.cfg.max_bytes_per_sec),
    ensures
        budget_of(t.cfg.min_bytes_per_sec) <= t.rate_at(now, fg) <= budget_of(
            t.cfg.max_bytes_per_sec,
        ),
        t.rate_at(now, fg) < t.rate ==> is_busy(
            since(t.last_fg_ops, fg),
            since(t.last_obs, now),
            t.cfg.fg_busy_micro_ops,
        ),
{
}

/// A pause pays the whole debt at the rate it was taken at.
pub proof fn pauses_pay_debts(t: BgThrottle)
    requires
        t.wf(),
    ensures
        t.tokens + t.rate * t.pause() >= 0,
        t.tokens < 0 ==> t.tokens + t.rate * (t.pause() - 1) < 0,
{
    if t.tokens < 0 {
        let owed = -t.tokens as int;
        let r = t.rate as int;
        let p = (owed + r - 1) / r;
        vstd::arithmetic::div_mod::lemma_fundamental_div_mod(owed + r - 1, r);
        vstd::arithmetic::div_mod::lemma_mod_bound(owed + r - 1, r);
        assert(r * (p - 1) == r * p - r) by (nonlinear_arith);
    } else {
        assert(t.rate * 0 == 0) by (nonlinear_arith);
    }
}

/// Work of no more than what is left makes no pause.
pub proof fn budgeted_work_does_not_wait(t: BgThrottle, bytes: u64, now: u64, fg: u64)
    requires
        t.wf(),
        bytes * 1_000_000_000_000_000_000 <= t.filled(t.rate_at(now, fg), now),
        t.filled(t.rate_at(now, fg), now) <= i128::MAX,
    ensures
        t.spent(bytes, now, fg).pause() == 0,
{
}

/// Once a second the foreground moves the budget: a busy one halves it, down to the floor, and
/// a quiet one raises it by a tenth of the ceiling, up to the ceiling. Between two looks it
/// stays.
pub proof fn the_foreground_moves_the_budget(t: BgThrottle, now: u64, fg: u64)
    requires
        t.wf(),
        t.last_obs <= now,
        t.last_fg_ops <= fg,
    ensures
        ({
            let rate = t.rate_at(now, fg) as int;
            let window = now - t.last_obs;
            let ops = fg - t.last_fg_ops;
            let floor = t.cfg.min_bytes_per_sec * 1_000_000_000;
            let ceiling = t.cfg.max_bytes_per_sec * 1_000_000_000;
            let busy = ops * 1_000_000_000_000_000 > t.cfg.fg_busy_micro_ops * window;
            &&& window < 1_000_000_000 ==> rate == t.rate
            &&& window >= 1_000_000_000 && busy && t.rate / 2 >= floor && t.rate >= 2 ==> rate
                == t.rate / 2
            &&& window >= 1_000_000_000 && busy && t.rate / 2 < floor ==> rate == floor
            &&& window >= 1_000_000_000 && !busy && t.rate + ceiling / 10 <= ceiling ==> rate
                == t.rate + ceiling / 10
            &&& window >= 1_000_000_000 && !busy && t.rate + ceiling / 10 > ceiling ==> rate
                == ceiling
        }),
{
}

/// Work is paid for byte by byte, out of what was left and what the budget brought in since,
/// of which no more than a second's worth is kept; times and counts are remembered.
pub proof fn work_is_paid_for(t: BgThrottle, bytes: u64, now: u64, fg: u64)
    requires
        t.wf(),
        t.tokens >= -0x2000_0000_0000_0000_0000_0000_0000_0000,
        t.last_refill <= now,
    ensures
        ({
            let u = t.spent(bytes, now, fg);
            let rate = t.rate_at(now, fg);
            let whole = t.tokens + rate * (now - t.last_refill);
            let paid = bytes * 1_000_000_000_000_000_000;
            &&& u.cfg == t.cfg && u.rate == rate && u.last_refill == now
            &&& whole < rate * 1_000_000_000 ==> u.tokens == whole - paid
            &&& whole >= rate * 1_000_000_000 ==> u.tokens == rate * 1_000_000_000 - paid
            &&& now - t.last_obs >= 1_000_000_000 ==> u.last_obs == now && u.last_fg_ops == fg
            &&& now - t.last_obs < 1_000_000_000 ==> u.last_obs == t.last_obs && u.last_fg_ops
                == t.last_fg_ops
        }),
{
    let rate = t.rate_at(now, fg);
    assert(rate * (now - t.last_refill) >= 0) by (nonlinear_arith)
        requires
            rate >= 0,
            now >= t.last_refill,
    ;
    assert(rate <= 0xffff_ffff_ffff_ffff * 1_000_000_000);
}

/// A new budget is the ceiling, with a second's worth saved up; nothing is charged without a
/// ceiling or without work.
pub proof fn budgets_begin_full(cfg: BgThrottleConfig, now: u64, fg: u64, r: BgThrottle)
    requires
        call_ensures(BgThrottle::new, (cfg, now, fg), r),
    ensures
        r.cfg == cfg,
        r.rate == cfg.max_bytes_per_sec * 1_000_000_000,
        r.tokens == r.rate * 1_000_000_000,
        r.last_refill == now && r.last_obs == now && r.last_fg_ops == fg,
{
}

/// Work is charged for exactly when there is a ceiling and something to do, and the budget is
/// told in whole bytes.
pub proof fn ceilings_make_charges(t: &BgThrottle, bytes: u64, r: bool, bps: u64)
    requires
        t.rate <= budget_of(u64::MAX),
        call_ensures(BgThrottle::charges, (t, bytes), r),
        call_ensures(BgThrottle::rate_bps, (t,), bps),
    ensures
        r <==> t.cfg.max_bytes_per_sec > 0 && bytes > 0,
        bps * 1_000_000_000 <= t.rate < (bps + 1) * 1_000_000_000,
{
}

} // verus!
