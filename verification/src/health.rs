//! The health of a disk, with hysteresis.
//!
//! A disk goes from online over suspect to faulted, and comes back through a probing
//! period. Single glitches change nothing: it takes a run of failures to demote a disk and
//! a run of good observations to trust it again.
use vstd::prelude::*;
use crate::domain::ShardStatus;

verus! {

/// What one round of monitoring saw.
#[derive(Debug, Clone, Copy, PartialEq, Eq, Structural)]
pub enum Observation {
    /// all well
    Healthy,
    /// errors, or a degraded pool
    Degraded,
    /// not available
    Down,
}

/// Where a disk stands.
#[derive(Debug, Clone, Copy, PartialEq, Eq, Structural)]
pub enum FsmState {
    Online,
    Suspect,
    Faulted,
    /// back after a fault, not trusted yet
    Returning,
}

/// The health of one disk.
#[derive(Debug, Clone, Copy, PartialEq, Eq, Structural)]
pub struct HealthFsm {
    pub state: FsmState,
    pub fails: u32,
    pub oks: u32,
    /// failures in a row before the state gets worse
    pub suspect_after: u32,
    /// good observations in a row before the disk is online again
    pub recover_after: u32,
}

/// The shard status of a state. A returning disk gets no preference, and a faulted one is
/// left out of placement.
pub open spec fn status_of(s: FsmState) -> ShardStatus {
    match s {
        FsmState::Online => ShardStatus::Online,
        FsmState::Suspect => ShardStatus::Suspect,
        FsmState::Returning => ShardStatus::Suspect,
        FsmState::Faulted => ShardStatus::Faulted,
    }
}

impl HealthFsm {
    /// The run that is being counted is shorter than the one that ends it.
    pub open spec fn wf(&self) -> bool {
        &&& 1 <= self.suspect_after
        &&& 1 <= self.recover_after
        &&& match self.state {
            FsmState::Online => self.fails < self.suspect_after && self.oks == 0,
            FsmState::Suspect => self.fails < self.suspect_after && self.oks < self.recover_after,
            FsmState::Faulted => self.fails == 0 && self.oks == 0,
            FsmState::Returning => self.fails == 0 && 1 <= self.oks && (self.oks
                < self.recover_after || self.oks == 1),
        }
    }

    /// In a state with fresh counts.
    pub open spec fn entering(self, state: FsmState) -> HealthFsm {
        HealthFsm { state, fails: 0, oks: 0, ..self }
    }

    /// One failure more towards a worse state.
    pub open spec fn failing(self, worse: FsmState) -> HealthFsm {
        if self.fails + 1 >= self.suspect_after {
            self.entering(worse)
        } else {
            HealthFsm { fails: (self.fails + 1) as u32, ..self }
        }
    }

    /// One good observation more towards being online.
    pub open spec fn mending(self) -> HealthFsm {
        if self.oks + 1 >= self.recover_after {
            self.entering(FsmState::Online)
        } else {
            HealthFsm { oks: (self.oks + 1) as u32, ..self }
        }
    }

    /// The state after an observation.
    pub open spec fn step(self, obs: Observation) -> HealthFsm {
        match (self.state, obs) {
            (FsmState::Online, Observation::Healthy) => HealthFsm { fails: 0, ..self },
            (FsmState::Online, Observation::Degraded) => self.failing(FsmState::Suspect),
            (FsmState::Online, Observation::Down) => self.entering(FsmState::Suspect),
            (FsmState::Suspect, Observation::Healthy) => (HealthFsm { fails: 0, ..self }).mending(),
            (FsmState::Suspect, Observation::Degraded) => HealthFsm { oks: 0, ..self },
            (FsmState::Suspect, Observation::Down) => (HealthFsm { oks: 0, ..self }).failing(
                FsmState::Faulted,
            ),
            (FsmState::Faulted, Observation::Healthy) => HealthFsm {
                oks: 1,
                ..self.entering(FsmState::Returning)
            },
            (FsmState::Faulted, _) => self,
            (FsmState::Returning, Observation::Healthy) => self.mending(),
            (FsmState::Returning, _) => self.entering(FsmState::Faulted),
        }
    }

    /// The state after several observations.
    pub open spec fn run(self, seen: Seq<Observation>) -> HealthFsm
        decreases seen.len(),
    {
        if seen.len() == 0 {
            self
        } else {
            self.run(seen.drop_last()).step(seen.last())
        }
    }

    pub fn new(suspect_after: u32, recover_after: u32) -> (r: Self)
        ensures
            r.wf(),
            r.state == FsmState::Online,
            r.fails == 0,
            r.oks == 0,
            r.suspect_after == (if suspect_after == 0 {
                1
            } else {
                suspect_after
            }),
            r.recover_after == (if recover_after == 0 {
                1
            } else {
                recover_after
            }),
    {
        HealthFsm {
            state: FsmState::Online,
            fails: 0,
            oks: 0,
            suspect_after: if suspect_after == 0 {
                1
            } else {
                suspect_after
            },
            recover_after: if recover_after == 0 {
                1
            } else {
                recover_after
            },
        }
    }

    /// Takes an observation in and returns the status behind it.
    pub fn observe(&mut self, obs: Observation) -> (r: ShardStatus)
        requires
            old(self).wf(),
        ensures
            final(self).wf(),
            *final(self) == old(self).step(obs),
            r == status_of(final(self).state),
    {
        match self.state {
            FsmState::Online => match obs {
                Observation::Healthy => {
                    self.fails = 0;
                },
                Observation::Degraded => {
                    self.fails = self.fails + 1;
                    if self.fails >= self.suspect_after {
                        self.enter(FsmState::Suspect);
                    }
                },
                Observation::Down => {
                    self.enter(FsmState::Suspect);
                },
            },
            FsmState::Suspect => match obs {
                Observation::Healthy => {
                    self.fails = 0;
                    self.oks = self.oks + 1;
                    if self.oks >= self.recover_after {
                        self.enter(FsmState::Online);
                    }
                },
                Observation::Degraded => {
                    self.oks = 0;
                },
                Observation::Down => {
                    self.oks = 0;
                    self.fails = self.fails + 1;
                    if self.fails >= self.suspect_after {
                        self.enter(FsmState::Faulted);
                    }
                },
            },
            FsmState::Faulted => match obs {
                Observation::Healthy => {
                    self.enter(FsmState::Returning);
                    self.oks = 1;
                },
                _ => {},
            },
            FsmState::Returning => match obs {
                Observation::Healthy => {
                    self.oks = self.oks + 1;
                    if self.oks >= self.recover_after {
                        self.enter(FsmState::Online);
                    }
                },
                _ => {
                    self.enter(FsmState::Faulted);
                },
            },
        }
        self.status()
    }

    fn enter(&mut self, state: FsmState)
        ensures
            *final(self) == old(self).entering(state),
    {
        self.state = state;
        self.fails = 0;
        self.oks = 0;
    }

    /// The status for placement.
    pub fn status(&self) -> (r: ShardStatus)
        ensures
            r == status_of(self.state),
    {
        match self.state {
            FsmState::Online => ShardStatus::Online,
            FsmState::Suspect => ShardStatus::Suspect,
            FsmState::Returning => ShardStatus::Suspect,
            FsmState::Faulted => ShardStatus::Faulted,
        }
    }
}

/// The same observation several times.
pub open spec fn repeated(obs: Observation, n: nat) -> Seq<Observation> {
    Seq::new(n, |i: int| obs)
}

proof fn lemma_run_once_more(f: HealthFsm, obs: Observation, n: nat)
    ensures
        f.run(repeated(obs, n + 1)) == f.run(repeated(obs, n)).step(obs),
{
    assert(repeated(obs, n + 1).drop_last() =~= repeated(obs, n));
}

/// A disk without pending failures stays online through fewer degraded observations than
/// the limit, and turns suspect with the one that reaches it.
pub proof fn glitches_do_not_demote(f: HealthFsm, n: nat)
    requires
        f.wf(),
        f.state == FsmState::Online,
        f.fails == 0,
        n <= f.suspect_after,
    ensures
        n < f.suspect_after ==> f.run(repeated(Observation::Degraded, n)) == (HealthFsm {
            fails: n as u32,
            ..f
        }),
        n == f.suspect_after ==> f.run(repeated(Observation::Degraded, n)) == f.entering(
            FsmState::Suspect,
        ),
    decreases n,
{
    if n == 0 {
        assert(f.run(repeated(Observation::Degraded, 0)) == f);
    } else {
        let m = (n - 1) as nat;
        glitches_do_not_demote(f, m);
        lemma_run_once_more(f, Observation::Degraded, m);
    }
}

/// One good observation clears the failures of an online disk.
pub proof fn good_news_clears_failures(f: HealthFsm)
    requires
        f.wf(),
        f.state == FsmState::Online,
    ensures
        f.step(Observation::Healthy).state == FsmState::Online,
        f.step(Observation::Healthy).fails == 0,
{
}

/// No single observation takes a disk from online to faulted or back.
pub proof fn no_leap_between_extremes(f: HealthFsm, obs: Observation)
    requires
        f.wf(),
    ensures
        f.state == FsmState::Online ==> f.step(obs).state != FsmState::Faulted,
        f.state == FsmState::Faulted ==> status_of(f.step(obs).state) != ShardStatus::Online,
{
}

/// A faulted disk is not online before as many good observations in a row as recovery
/// takes, and never before the second; anything else on the way faults it again.
pub proof fn return_takes_probes(f: HealthFsm, n: nat, bad: Observation)
    requires
        f.wf(),
        f.state == FsmState::Faulted,
        bad != Observation::Healthy,
    ensures
        0 < n && (n == 1 || n < f.recover_after) ==> f.run(
            repeated(Observation::Healthy, n),
        ).state == FsmState::Returning && f.run(repeated(Observation::Healthy, n)).step(bad).state
            == FsmState::Faulted,
        n >= 2 && n >= f.recover_after ==> f.run(repeated(Observation::Healthy, n)).state
            == FsmState::Online,
{
    lemma_probe(f, n);
}

proof fn lemma_probe(f: HealthFsm, n: nat)
    requires
        f.wf(),
        f.state == FsmState::Faulted,
    ensures
        ({
            let g = f.run(repeated(Observation::Healthy, n));
            &&& g.suspect_after == f.suspect_after
            &&& g.recover_after == f.recover_after
            &&& n == 0 ==> g == f
            &&& 0 < n && (n == 1 || n < f.recover_after) ==> g == (HealthFsm {
                oks: n as u32,
                ..f.entering(FsmState::Returning)
            })
            &&& n >= 2 && n >= f.recover_after ==> g == f.entering(FsmState::Online)
        }),
    decreases n,
{
    if n > 0 {
        let m = (n - 1) as nat;
        lemma_probe(f, m);
        lemma_run_once_more(f, Observation::Healthy, m);
    }
}

/// The status that placement sees: a disk is online, suspect while it is doubted or returns,
/// and faulted.
pub proof fn states_have_their_status(f: &HealthFsm, r: ShardStatus)
    requires
        call_ensures(HealthFsm::status, (f,), r),
    ensures
        r is Online <==> f.state is Online,
        r is Suspect <==> f.state is Suspect || f.state is Returning,
        r is Faulted <==> f.state is Faulted,
{
}

/// A monitor takes the limits it is given; a limit of zero is one.
pub proof fn limits_are_taken(suspect_after: u32, recover_after: u32, r: HealthFsm)
    requires
        call_ensures(HealthFsm::new, (suspect_after, recover_after), r),
    ensures
        r.state is Online && r.fails == 0 && r.oks == 0,
        suspect_after > 0 ==> r.suspect_after == suspect_after,
        recover_after > 0 ==> r.recover_after == recover_after,
        suspect_after == 0 ==> r.suspect_after == 1,
        recover_after == 0 ==> r.recover_after == 1,
{
}

/// A suspect disk turns online with as many good observations in a row as recovery takes, and
/// no earlier; any other observation begins the count again.
pub proof fn suspects_recover(f: HealthFsm, n: nat)
    requires
        f.wf(),
        f.state is Suspect,
        f.oks == 0,
        n <= f.recover_after,
    ensures
        ({
            let g = f.run(repeated(Observation::Healthy, n));
            &&& n < f.recover_after ==> g.state is Suspect && g.oks == n
            &&& n == f.recover_after ==> g.state is Online && g.fails == 0 && g.oks == 0
            &&& n < f.recover_after ==> g.step(Observation::Degraded).state is Suspect && g.step(
                Observation::Degraded,
            ).oks == 0
            &&& n > 0 && n < f.recover_after ==> g.fails == 0
            &&& g.suspect_after == f.suspect_after && g.recover_after == f.recover_after
        }),
    decreases n,
{
    if n > 0 {
        let m = (n - 1) as nat;
        suspects_recover(f, m);
        lemma_run_once_more(f, Observation::Healthy, m);
    } else {
        assert(f.run(repeated(Observation::Healthy, 0)) == f);
    }
}

/// A suspect disk is faulted with as many outages in a row as the limit says, and no earlier.
pub proof fn outages_fault(f: HealthFsm, n: nat)
    requires
        f.wf(),
        f.state is Suspect,
        f.fails == 0,
        n <= f.suspect_after,
    ensures
        ({
            let g = f.run(repeated(Observation::Down, n));
            &&& n < f.suspect_after ==> g.state is Suspect && g.fails == n
            &&& n == f.suspect_after ==> g.state is Faulted && g.fails == 0 && g.oks == 0
            &&& n > 0 ==> g.oks == 0
            &&& g.suspect_after == f.suspect_after && g.recover_after == f.recover_after
        }),
    decreases n,
{
    if n > 0 {
        let m = (n - 1) as nat;
        outages_fault(f, m);
        lemma_run_once_more(f, Observation::Down, m);
    } else {
        assert(f.run(repeated(Observation::Down, 0)) == f);
    }
}

/// What a single observation does at once: an outage makes an online disk suspect, degraded
/// service never faults a suspect one, and a faulted disk stays so until a good observation.
pub proof fn observations_act_at_once(f: HealthFsm)
    requires
        f.wf(),
    ensures
        f.state is Online ==> f.step(Observation::Down).state is Suspect && f.step(
            Observation::Down,
        ).fails == 0,
        f.state is Online ==> f.step(Observation::Healthy) == (HealthFsm { fails: 0, ..f }),
        f.state is Suspect ==> f.step(Observation::Degraded).state is Suspect && f.step(
            Observation::Degraded,
        ).fails == f.fails && f.step(Observation::Degraded).oks == 0,
        f.state is Faulted ==> f.step(Observation::Down) == f && f.step(Observation::Degraded) == f,
        f.state is Faulted ==> f.step(Observation::Healthy).state is Returning && f.step(
            Observation::Healthy,
        ).oks == 1,
        f.state is Returning ==> f.step(Observation::Down).state is Faulted && f.step(
            Observation::Degraded,
        ).state is Faulted,
{
}

} // verus!
