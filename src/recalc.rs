//! Decisions of the recalculation loop: which event to handle next and what to
//! do about it. The loop that waits, sleeps and runs the planner lives outside.
use vstd::prelude::*;

verus! {

/// Seconds that must pass without a modification before a recalculation.
pub const DEBOUNCE_SECS: u64 = 300;

/// The debounce timer: `None` when disarmed, else the instant (in seconds) it fires.
#[derive(Clone, Copy, Debug, PartialEq, Eq, Structural)]
pub struct LoopState {
    pub deadline: Option<u64>,
}

#[derive(Clone, Copy, Debug, PartialEq, Eq, Structural)]
pub enum LoopEvent {
    /// An explicit request to recalculate.
    Manual,
    /// The manual channel was closed.
    ManualClosed,
    /// Something in the model changed (also when modifications were dropped).
    Modified,
    /// The modification channel was closed.
    ModifyClosed,
    /// The debounce timer fired.
    Timer,
}

#[derive(Clone, Copy, Debug, PartialEq, Eq, Structural)]
pub enum LoopAction {
    /// Run a recalculation now.
    Recalculate,
    /// Publish the `Modified` state.
    MarkModified,
    /// Leave the loop.
    Stop,
    /// Nothing to do.
    Idle,
}

pub open spec fn step_spec(s: LoopState, e: LoopEvent, now: u64) -> (LoopState, LoopAction) {
    match e {
        LoopEvent::Manual => (LoopState { deadline: None }, LoopAction::Recalculate),
        LoopEvent::ManualClosed => (s, LoopAction::Stop),
        LoopEvent::Modified => (
            LoopState { deadline: Some(sat_add(now, DEBOUNCE_SECS)) },
            LoopAction::MarkModified,
        ),
        LoopEvent::ModifyClosed => (s, LoopAction::Stop),
        LoopEvent::Timer => match s.deadline {
            Some(d) => if now >= d {
                (LoopState { deadline: None }, LoopAction::Recalculate)
            } else {
                (s, LoopAction::Idle)
            },
            None => (s, LoopAction::Idle),
        },
    }
}

pub open spec fn sat_add(a: u64, b: u64) -> u64 {
    if a + b > u64::MAX {
        u64::MAX
    } else {
        (a + b) as u64
    }
}

impl LoopState {
    /// At start-up the timer is due at once, so a first calculation runs.
    pub fn new(now: u64) -> (r: LoopState)
        ensures
            r.deadline == Some(now),
    {
        LoopState { deadline: Some(now) }
    }

    /// Whether the timer is due at `now`.
    pub fn timer_due(&self, now: u64) -> (r: bool)
        ensures
            r == (self.deadline matches Some(d) && now >= d),
    {
        match self.deadline {
            Some(d) => now >= d,
            None => false,
        }
    }

    /// Handles one event at instant `now`: the next state and the action to take.
    pub fn step(&self, event: LoopEvent, now: u64) -> (r: (LoopState, LoopAction))
        ensures
            r == step_spec(*self, event, now),
    {
        match event {
            LoopEvent::Manual => (LoopState { deadline: None }, LoopAction::Recalculate),
            LoopEvent::ManualClosed => (*self, LoopAction::Stop),
            LoopEvent::Modified => (
                LoopState { deadline: Some(now.saturating_add(DEBOUNCE_SECS)) },
                LoopAction::MarkModified,
            ),
            LoopEvent::ModifyClosed => (*self, LoopAction::Stop),
            LoopEvent::Timer => {
                if self.timer_due(now) {
                    (LoopState { deadline: None }, LoopAction::Recalculate)
                } else {
                    (*self, LoopAction::Idle)
                }
            },
        }
    }
}

pub open spec fn pick_spec(manual: Option<bool>, modified: Option<bool>, timer_due: bool) -> Option<LoopEvent> {
    match manual {
        Some(true) => Some(LoopEvent::Manual),
        Some(false) => Some(LoopEvent::ManualClosed),
        None => match modified {
            Some(true) => Some(LoopEvent::Modified),
            Some(false) => Some(LoopEvent::ModifyClosed),
            None => if timer_due {
                Some(LoopEvent::Timer)
            } else {
                None
            },
        },
    }
}

/// Chooses the event to handle among those ready, manual first, then
/// modifications, then the timer. `Some(false)` on a channel means it was closed.
pub fn pick_event(manual: Option<bool>, modified: Option<bool>, timer_due: bool) -> (r: Option<
    LoopEvent,
>)
    ensures
        r == pick_spec(manual, modified, timer_due),
{
    match manual {
        Some(true) => Some(LoopEvent::Manual),
        Some(false) => Some(LoopEvent::ManualClosed),
        None => match modified {
            Some(true) => Some(LoopEvent::Modified),
            Some(false) => Some(LoopEvent::ModifyClosed),
            None => if timer_due {
                Some(LoopEvent::Timer)
            } else {
                None
            },
        },
    }
}

/// The state and the recalculations after handling `events` in order, each
/// with its instant.
pub open spec fn run_spec(s: LoopState, events: Seq<(LoopEvent, u64)>) -> (LoopState, nat)
    decreases events.len(),
{
    if events.len() == 0 {
        (s, 0)
    } else {
        let (prev, n) = run_spec(s, events.drop_last());
        let (next, a) = step_spec(prev, events.last().0, events.last().1);
        (next, if a == LoopAction::Recalculate { n + 1 } else { n })
    }
}

/// A burst of modifications runs no recalculation and leaves the timer armed
/// `DEBOUNCE_SECS` after the last one.
pub proof fn lemma_modifications_coalesce(s: LoopState, times: Seq<u64>)
    requires
        times.len() > 0,
    ensures
        run_spec(s, times.map_values(|t: u64| (LoopEvent::Modified, t))).1 == 0,
        run_spec(s, times.map_values(|t: u64| (LoopEvent::Modified, t))).0.deadline == Some(
            sat_add(times.last(), DEBOUNCE_SECS),
        ),
    decreases times.len(),
{
    let ev = times.map_values(|t: u64| (LoopEvent::Modified, t));
    assert(ev.drop_last() =~= times.drop_last().map_values(|t: u64| (LoopEvent::Modified, t)));
    if times.len() > 1 {
        lemma_modifications_coalesce(s, times.drop_last());
    } else {
        assert(ev.drop_last().len() == 0);
        assert(run_spec(s, ev.drop_last()) == (s, 0nat));
    }
}

/// A manual trigger recalculates at once and disarms the timer, whatever the state.
pub proof fn lemma_manual_is_immediate(s: LoopState, now: u64)
    ensures
        step_spec(s, LoopEvent::Manual, now) == (LoopState { deadline: None }, LoopAction::Recalculate),
{
}

/// With the timer disarmed, only a manual trigger or a modification followed by
/// the timer leads to a recalculation: the timer alone does nothing.
pub proof fn lemma_disarmed_timer_idle(now: u64)
    ensures
        step_spec(LoopState { deadline: None }, LoopEvent::Timer, now) == (
            LoopState { deadline: None },
            LoopAction::Idle,
        ),
{
}

} // verus!
