//! The capture loop's decisions as a verified state machine.
//!
//! The surrounding loop (which owns the device, the channels and the file)
//! calls [`CaptureState::control`] at the top of every iteration with the
//! control signals it observed, performs the directed save when a reset was
//! consumed, polls the device, and then calls [`CaptureState::ingest`] with
//! the polled events. The contracts pin down exactly how the aggregate, the
//! save timer and the lifecycle phase evolve; the loop itself only performs
//! the directed actions.

use vstd::prelude::*;

use crate::stats::KeyPress;
use crate::stats::KeyStats;
use crate::stats::KeyTransition;
use crate::stats::StatsView;
use crate::stats::downs;

verus! {

/// Seconds between two periodic saves of the aggregate.
pub const SAVE_INTERVAL_SECS: u64 = 30;

/// Lifecycle of the capture loop: `Starting` until the device is open,
/// `Running` while iterating, `Stopping` once a stop was observed and the
/// final save is owed, `Stopped` after it.
#[derive(Clone, Copy, Debug, PartialEq, Eq, Structural)]
pub enum CapturePhase {
    Starting,
    Running,
    Stopping,
    Stopped,
}

/// State carried across capture-loop iterations.
#[derive(Clone, Debug)]
pub struct CaptureState {
    /// The aggregate; mutated only through this state machine.
    pub stats: KeyStats,
    /// When the periodic-save timer was last re-armed, in seconds since
    /// the Unix epoch.
    pub last_save: u64,
    /// Where in its lifecycle the loop stands.
    pub phase: CapturePhase,
}

/// What the loop must do after the control check of an iteration.
#[derive(Clone, Copy, Debug, PartialEq, Eq, Structural)]
pub struct ControlDirective {
    /// Persist the aggregate one final time and stop iterating.
    pub stop: bool,
    /// A reset was consumed: persist the aggregate now, before any further
    /// event is recorded, so a crash never resurrects the old statistics.
    pub save_now: bool,
}

/// What the loop must do after ingesting the polled events.
#[derive(Clone, Copy, Debug, PartialEq, Eq, Structural)]
pub struct IngestDirective {
    /// Publish a snapshot of the aggregate to the consumers (always owed;
    /// delivery is best-effort and must never block).
    pub publish: bool,
    /// The periodic-save interval elapsed: persist the aggregate.
    pub save: bool,
}

impl CaptureState {
    /// Well-formed capture state: the aggregate is well-formed.
    pub open spec fn wf(self) -> bool {
        self.stats.wf()
    }

    /// Enters the running phase with a freshly loaded aggregate, arming
    /// the periodic-save timer at `now`. Called once the device is open;
    /// a device that fails to open never reaches this state machine.
    pub fn begin(stats: KeyStats, now: u64) -> (s: CaptureState)
        requires
            stats.wf(),
        ensures
            s.stats == stats,
            s.last_save == now,
            s.phase == CapturePhase::Running,
            s.wf(),
    {
        CaptureState { stats, last_save: now, phase: CapturePhase::Running }
    }

    /// The control check at the top of an iteration. A latched shutdown
    /// flag and a closed snapshot consumer are both treated as a stop: the
    /// aggregate is left untouched and one final save is owed. Otherwise a
    /// pending reset request, consumed at most once per iteration, replaces
    /// the aggregate wholesale with a fresh one starting at `now` and owes
    /// an immediate save.
    pub fn control(
        &mut self,
        now: u64,
        shutdown: bool,
        consumer_closed: bool,
        reset_requested: bool,
    ) -> (c: ControlDirective)
        requires
            old(self).phase == CapturePhase::Running,
            old(self).wf(),
        ensures
            final(self).wf(),
            final(self).last_save == old(self).last_save,
            shutdown || consumer_closed ==> {
                &&& final(self).phase == CapturePhase::Stopping
                &&& final(self).stats == old(self).stats
                &&& c == (ControlDirective { stop: true, save_now: false })
            },
            !(shutdown || consumer_closed) ==> {
                &&& final(self).phase == CapturePhase::Running
                &&& c == (ControlDirective { stop: false, save_now: reset_requested })
                &&& (reset_requested ==> final(self).stats@ == StatsView::fresh(now))
                &&& (!reset_requested ==> final(self).stats == old(self).stats)
            },
    {
        if shutdown || consumer_closed {
            self.phase = CapturePhase::Stopping;
            ControlDirective { stop: true, save_now: false }
        } else if reset_requested {
            self.stats.reset(now);
            ControlDirective { stop: false, save_now: true }
        } else {
            ControlDirective { stop: false, save_now: false }
        }
    }

    /// Ingests one poll's worth of events: every `Down` transition is
    /// recorded in order, `Up` and `Repeat` transitions are observed but
    /// never mutate the aggregate. A snapshot publication is always owed
    /// afterwards, and a save exactly when more than
    /// [`SAVE_INTERVAL_SECS`] have elapsed since the timer was last armed,
    /// which re-arms the timer whatever the save's outcome.
    pub fn ingest(&mut self, now: u64, events: &Vec<KeyPress>) -> (d: IngestDirective)
        requires
            old(self).phase == CapturePhase::Running,
            old(self).wf(),
            old(self).stats.total_keystrokes + events@.len() <= u64::MAX,
        ensures
            final(self).wf(),
            final(self).phase == CapturePhase::Running,
            final(self).stats@ == old(self).stats@.record_all(downs(events@)),
            final(self).stats.total_keystrokes == old(self).stats.total_keystrokes + downs(
                events@,
            ).len(),
            d.publish,
            d.save == (now > old(self).last_save + SAVE_INTERVAL_SECS),
            final(self).last_save == if d.save {
                now
            } else {
                old(self).last_save
            },
    {
        let ghost base = self.stats@;
        let n = events.len();
        let mut i: usize = 0;
        proof {
            reveal(Seq::filter);
            assert(events@.take(0) =~= Seq::<KeyPress>::empty());
            assert(downs(events@.take(0)) =~= Seq::<KeyPress>::empty());
        }
        while i < n
            invariant
                n == events@.len(),
                0 <= i <= n,
                base.wf(),
                base.total_keystrokes + n <= u64::MAX,
                self.stats@ == base.record_all(downs(events@.take(i as int))),
                self.stats.wf(),
                self.stats.total_keystrokes == base.total_keystrokes + downs(
                    events@.take(i as int),
                ).len(),
                self.last_save == old(self).last_save,
                self.phase == old(self).phase,
            decreases n - i,
        {
            let ghost pre = events@.take(i as int);
            let ghost d_pre = downs(pre);
            proof {
                crate::stats::lemma_downs_len(pre);
                assert(d_pre.len() <= pre.len());
            }
            let ev = events[i];
            if ev.transition == KeyTransition::Down {
                self.stats.add_keypress(ev.code, ev.timestamp);
            }
            proof {
                let post = events@.take(i + 1);
                reveal(Seq::filter);
                assert(post.drop_last() =~= pre);
                assert(post.last() == ev);
                if ev.transition == KeyTransition::Down {
                    assert(downs(post) == downs(pre).push(ev));
                    assert(downs(post).drop_last() =~= downs(pre));
                    assert(self.stats@ == base.record_all(downs(post)));
                } else {
                    assert(downs(post) == downs(pre));
                }
            }
            i = i + 1;
        }
        proof {
            assert(events@.take(n as int) =~= events@);
        }
        let due = now > self.last_save && now - self.last_save > SAVE_INTERVAL_SECS;
        if due {
            self.last_save = now;
        }
        IngestDirective { publish: true, save: due }
    }

    /// Leaves the stopping phase once the final save was attempted; the
    /// loop thread exits afterwards. There is no way back to `Running`.
    pub fn mark_stopped(&mut self)
        requires
            old(self).phase == CapturePhase::Stopping,
        ensures
            final(self).phase == CapturePhase::Stopped,
            final(self).stats == old(self).stats,
            final(self).last_save == old(self).last_save,
    {
        self.phase = CapturePhase::Stopped;
    }
}

} // verus!
