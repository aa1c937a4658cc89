//! The decisions of watch mode, which shows a fresh snapshot of the process
//! every `interval` seconds until Ctrl+C or until the process cannot be read.
//!
//! The caller runs the loop: it asks `next` what to do, handing in whether
//! Ctrl+C is still unpressed, performs the action (take and show a snapshot,
//! or sleep for one tick of 100 ms), and reports each snapshot's outcome to
//! `captured`.
use vstd::prelude::*;

verus! {

/// Ticks of 100 ms in one second.
pub const TICKS_PER_SECOND: u64 = 10;

/// Where the loop stands.
#[derive(Debug, Clone, Copy, PartialEq, Eq, Structural)]
pub enum WatchPhase {
    /// A snapshot is due.
    Ready,
    /// Waiting before the next snapshot, with this many ticks left.
    Waiting(u64),
    /// The loop is over.
    Stopped,
}

/// What the caller does next.
#[derive(Debug, Clone, Copy, PartialEq, Eq, Structural)]
pub enum WatchAction {
    /// Take and show a snapshot, then report its outcome to `captured`.
    Capture,
    /// Sleep for one tick.
    Sleep,
    /// Leave the loop.
    Stop,
}

pub struct WatchLoop {
    pub interval: u64,
    pub phase: WatchPhase,
}

/// The step of the loop: the phase that follows and the action to take, given
/// whether Ctrl+C is still unpressed.
pub open spec fn watch_step(phase: WatchPhase, running: bool) -> (WatchPhase, WatchAction) {
    match phase {
        WatchPhase::Stopped => (WatchPhase::Stopped, WatchAction::Stop),
        WatchPhase::Waiting(k) => if !running {
            (WatchPhase::Stopped, WatchAction::Stop)
        } else if k > 0 {
            (WatchPhase::Waiting((k - 1) as u64), WatchAction::Sleep)
        } else {
            (WatchPhase::Ready, WatchAction::Capture)
        },
        WatchPhase::Ready => if running {
            (WatchPhase::Ready, WatchAction::Capture)
        } else {
            (WatchPhase::Stopped, WatchAction::Stop)
        },
    }
}

/// The phase after a snapshot: waiting a whole interval after one that was
/// shown, stopped after one that failed.
pub open spec fn after_capture(interval: u64, ok: bool) -> WatchPhase {
    if ok {
        WatchPhase::Waiting((interval * TICKS_PER_SECOND) as u64)
    } else {
        WatchPhase::Stopped
    }
}

impl WatchLoop {
    /// A loop that takes a snapshot every `interval` seconds, its first one
    /// right away.
    pub fn new(interval: u64) -> (w: WatchLoop)
        ensures
            w.interval == interval,
            w.phase == WatchPhase::Ready,
    {
        WatchLoop { interval, phase: WatchPhase::Ready }
    }

    /// The next action, given whether Ctrl+C is still unpressed.
    pub fn next(&mut self, running: bool) -> (a: WatchAction)
        ensures
            (final(self).phase, a) == watch_step(old(self).phase, running),
            final(self).interval == old(self).interval,
    {
        match self.phase {
            WatchPhase::Stopped => WatchAction::Stop,
            WatchPhase::Waiting(k) => {
                if !running {
                    self.phase = WatchPhase::Stopped;
                    WatchAction::Stop
                } else if k > 0 {
                    self.phase = WatchPhase::Waiting(k - 1);
                    WatchAction::Sleep
                } else {
                    self.phase = WatchPhase::Ready;
                    WatchAction::Capture
                }
            },
            WatchPhase::Ready => {
                if running {
                    WatchAction::Capture
                } else {
                    self.phase = WatchPhase::Stopped;
                    WatchAction::Stop
                }
            },
        }
    }

    /// Takes in the outcome of a snapshot: `ok` where it was shown.
    pub fn captured(&mut self, ok: bool)
        requires
            ok ==> old(self).interval * TICKS_PER_SECOND <= u64::MAX,
        ensures
            final(self).phase == after_capture(old(self).interval, ok),
            final(self).interval == old(self).interval,
    {
        if ok {
            self.phase = WatchPhase::Waiting(self.interval * TICKS_PER_SECOND);
        } else {
            self.phase = WatchPhase::Stopped;
        }
    }
}


// ---------------------------------------------------------------------------
// Laws of the loop

/// The phase after `n` steps with Ctrl+C unpressed.
pub open spec fn run_steps(phase: WatchPhase, n: nat) -> WatchPhase
    decreases n,
{
    if n == 0 {
        phase
    } else {
        run_steps(watch_step(phase, true).0, (n - 1) as nat)
    }
}

/// Once stopped, the loop stays stopped and only ever says stop.
pub proof fn lemma_stopped_is_final(running: bool)
    ensures
        watch_step(WatchPhase::Stopped, running) == (WatchPhase::Stopped, WatchAction::Stop),
{
}

/// Ctrl+C ends the loop at its next step, whatever it was doing.
pub proof fn lemma_interrupt_stops(phase: WatchPhase)
    ensures
        watch_step(phase, false) == (WatchPhase::Stopped, WatchAction::Stop),
{
}

/// A snapshot that fails ends the loop.
pub proof fn lemma_failure_stops(interval: u64, running: bool)
    ensures
        after_capture(interval, false) == WatchPhase::Stopped,
        watch_step(after_capture(interval, false), running).1 == WatchAction::Stop,
{
}

/// While waiting with `k` ticks left and Ctrl+C unpressed, the loop sleeps
/// once per step, `k` times in all, and then takes a snapshot.
pub proof fn lemma_waiting_sleeps(k: u64)
    ensures
        forall|j: nat| j < k ==> #[trigger] watch_step(run_steps(WatchPhase::Waiting(k), j), true).1
            == WatchAction::Sleep,
        run_steps(WatchPhase::Waiting(k), k as nat) == WatchPhase::Waiting(0),
        watch_step(WatchPhase::Waiting(0), true) == (WatchPhase::Ready, WatchAction::Capture),
    decreases k,
{
    if k > 0 {
        lemma_waiting_sleeps((k - 1) as u64);
        assert(run_steps(WatchPhase::Waiting(k), k as nat) == run_steps(
            WatchPhase::Waiting((k - 1) as u64),
            (k - 1) as nat,
        ));
        assert forall|j: nat| j < k implies #[trigger] watch_step(
            run_steps(WatchPhase::Waiting(k), j),
            true,
        ).1 == WatchAction::Sleep by {
            if j > 0 {
                assert(run_steps(WatchPhase::Waiting(k), j) == run_steps(
                    WatchPhase::Waiting((k - 1) as u64),
                    (j - 1) as nat,
                ));
                assert(watch_step(
                    run_steps(WatchPhase::Waiting((k - 1) as u64), (j - 1) as nat),
                    true,
                ).1 == WatchAction::Sleep);
            }
        }
    }
}

/// Between two snapshots of an uninterrupted watch there are exactly
/// `interval` seconds of ticks: after a snapshot is shown, the loop sleeps
/// `interval * 10` times, then takes the next one.
pub proof fn lemma_snapshot_period(interval: u64)
    requires
        interval * TICKS_PER_SECOND <= u64::MAX,
    ensures
        ({
            let start = after_capture(interval, true);
            let ticks = (interval * TICKS_PER_SECOND) as nat;
            &&& forall|j: nat| j < ticks ==> #[trigger] watch_step(run_steps(start, j), true).1
                == WatchAction::Sleep
            &&& watch_step(run_steps(start, ticks), true) == (
                WatchPhase::Ready,
                WatchAction::Capture,
            )
        }),
{
    lemma_waiting_sleeps((interval * TICKS_PER_SECOND) as u64);
}

} // verus!
