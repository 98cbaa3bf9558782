//! The bounce loop as a state machine.
//!
//! A pixel's colour is accumulated over a bounded chain of bounces. The caller
//! owns the ray and the accumulator. For every bounce it intersects the ray
//! with the scene and reports what it found as an [`Event`]; [`step`] answers
//! with what to do to the accumulator and whether the chain goes on. When it
//! does, the caller moves the ray to the hit position and turns it into the
//! reflected direction.

use vstd::prelude::*;

verus! {

/// What one intersection of the ray with the scene found.
#[derive(Clone, Copy, Debug, PartialEq, Eq)]
pub enum Event {
    /// The ray left the scene.
    Miss,
    /// The ray hit a surface, which is a mirror or is not.
    Hit { reflective: bool },
}

/// What a bounce does to the accumulated colour.
#[derive(Clone, Copy, Debug, PartialEq, Eq)]
pub enum Update {
    /// The accumulator becomes black, the colour of the background.
    Clear,
    /// The accumulator stays as it is.
    Keep,
    /// The hit's shaded colour replaces the accumulator.
    Replace,
    /// The hit's shaded colour is blended into the accumulator with the decay
    /// weight `w` that the caller has chosen: `old * (1 - w) + hit * w`.
    Blend,
}

/// The state of the chain.
#[derive(Clone, Copy, Debug, PartialEq, Eq)]
pub enum Tracer {
    /// The ray is about to make the bounce with this index, counted from 0.
    Tracing { bounce: u32 },
    /// The chain has ended; the accumulator holds the pixel's colour.
    Terminated,
}

/// The answer of the machine to one event.
#[derive(Clone, Copy, Debug, PartialEq, Eq)]
pub struct Step {
    /// What to do to the accumulator.
    pub update: Update,
    /// The state after the bounce. While it is `Tracing` the caller reflects
    /// the ray off the surface it hit and intersects again.
    pub next: Tracer,
}

impl Tracer {
    /// The chain may make another bounce under the given limit.
    pub open spec fn live(self, limit: u32) -> bool {
        match self {
            Tracer::Tracing { bounce } => bounce < limit,
            Tracer::Terminated => false,
        }
    }

    /// The number of bounces that the chain may still make.
    pub open spec fn budget(self, limit: u32) -> nat {
        match self {
            Tracer::Tracing { bounce } => if bounce < limit {
                (limit - bounce) as nat
            } else {
                0
            },
            Tracer::Terminated => 0,
        }
    }
}

/// The state in which a chain starts: before bounce 0, or terminated at once
/// where the limit allows no bounce at all.
pub open spec fn initial(limit: u32) -> Tracer {
    if limit > 0 {
        Tracer::Tracing { bounce: 0 }
    } else {
        Tracer::Terminated
    }
}

/// The transition of the machine.
///
/// A miss ends the chain: on bounce 0 the pixel shows the background, later
/// it keeps what the earlier bounces left. A surface that is no mirror ends
/// the chain with its own colour. A mirror replaces the accumulator on bounce
/// 0 and is blended in on every later bounce; the chain then goes on unless
/// the limit is reached.
pub open spec fn transition(state: Tracer, limit: u32, event: Event) -> Step {
    match (state, event) {
        (Tracer::Tracing { bounce }, Event::Miss) if bounce < limit => Step {
            update: if bounce == 0 {
                Update::Clear
            } else {
                Update::Keep
            },
            next: Tracer::Terminated,
        },
        (Tracer::Tracing { bounce }, Event::Hit { reflective }) if bounce < limit => Step {
            update: if bounce == 0 || !reflective {
                Update::Replace
            } else {
                Update::Blend
            },
            next: if reflective && bounce + 1 < limit {
                Tracer::Tracing { bounce: (bounce + 1) as u32 }
            } else {
                Tracer::Terminated
            },
        },
        _ => Step { update: Update::Keep, next: Tracer::Terminated },
    }
}

/// The updates that a chain makes, in order, when its intersections find
/// `events` one after the other. Events after the end of the chain are never
/// asked for and leave no trace.
pub open spec fn run(state: Tracer, limit: u32, events: Seq<Event>) -> Seq<Update>
    decreases events.len(),
{
    if events.len() == 0 || !state.live(limit) {
        Seq::empty()
    } else {
        let s = transition(state, limit, events[0]);
        seq![s.update] + run(s.next, limit, events.drop_first())
    }
}

/// Starts a chain of at most `limit` bounces.
pub fn start(limit: u32) -> (state: Tracer)
    ensures
        state == initial(limit),
        state.live(limit) <==> limit > 0,
{
    if limit > 0 {
        Tracer::Tracing { bounce: 0 }
    } else {
        Tracer::Terminated
    }
}

/// Takes the chain through one bounce. A state that is not live under `limit`
/// answers every event with `Keep` and `Terminated`.
pub fn step(state: Tracer, limit: u32, event: Event) -> (s: Step)
    ensures
        s == transition(state, limit, event),
        s.next.budget(limit) < state.budget(limit) || !state.live(limit),
        s.next is Tracing ==> s.next.live(limit),
{
    match state {
        Tracer::Tracing { bounce } => {
            if bounce < limit {
                match event {
                    Event::Miss => {
                        let update = if bounce == 0 {
                            Update::Clear
                        } else {
                            Update::Keep
                        };
                        Step { update, next: Tracer::Terminated }
                    },
                    Event::Hit { reflective } => {
                        let update = if bounce == 0 || !reflective {
                            Update::Replace
                        } else {
                            Update::Blend
                        };
                        let next = if reflective && bounce + 1 < limit {
                            Tracer::Tracing { bounce: bounce + 1 }
                        } else {
                            Tracer::Terminated
                        };
                        Step { update, next }
                    },
                }
            } else {
                Step { update: Update::Keep, next: Tracer::Terminated }
            }
        },
        Tracer::Terminated => Step { update: Update::Keep, next: Tracer::Terminated },
    }
}

/// A chain makes no more bounces than its budget allows, whatever the scene
/// answers.
pub proof fn lemma_run_within_budget(state: Tracer, limit: u32, events: Seq<Event>)
    ensures
        run(state, limit, events).len() <= state.budget(limit),
        run(state, limit, events).len() <= events.len(),
    decreases events.len(),
{
    if events.len() > 0 && state.live(limit) {
        let s = transition(state, limit, events[0]);
        lemma_run_within_budget(s.next, limit, events.drop_first());
    }
}

/// A pixel costs at most `limit` intersections with the scene.
pub proof fn lemma_run_is_bounded(limit: u32, events: Seq<Event>)
    ensures
        run(initial(limit), limit, events).len() <= limit,
{
    lemma_run_within_budget(initial(limit), limit, events);
}

/// With a limit of one bounce the chain ends after a single intersection: a
/// hit, mirror or not, becomes the pixel's colour and no reflection follows; a
/// miss leaves the pixel black.
pub proof fn lemma_single_bounce(events: Seq<Event>)
    requires
        events.len() > 0,
    ensures
        transition(initial(1), 1, events[0]).next is Terminated,
        run(initial(1), 1, events) == seq![
            if events[0] is Hit {
                Update::Replace
            } else {
                Update::Clear
            },
        ],
{
    let s = transition(initial(1), 1, events[0]);
    assert(run(s.next, 1, events.drop_first()) == Seq::<Update>::empty());
    assert(run(initial(1), 1, events) =~= seq![s.update]);
}

/// Each update is settled by its event and by whether it is the chain's
/// first: a first hit replaces the accumulator and a first miss clears it;
/// later a mirror is blended in, a surface that is no mirror replaces, and a
/// miss keeps.
pub proof fn lemma_updates_follow_events(state: Tracer, limit: u32, events: Seq<Event>, k: int)
    requires
        0 <= k < run(state, limit, events).len(),
        state is Tracing,
    ensures
        k < events.len(),
        run(state, limit, events)[k] == match events[k] {
            Event::Miss => if state->bounce == 0 && k == 0 {
                Update::Clear
            } else {
                Update::Keep
            },
            Event::Hit { reflective } => if !reflective || (state->bounce == 0 && k == 0) {
                Update::Replace
            } else {
                Update::Blend
            },
        },
    decreases events.len(),
{
    let s = transition(state, limit, events[0]);
    let rest = events.drop_first();
    if k > 0 {
        assert(run(state, limit, events)[k] == run(s.next, limit, rest)[k - 1]);
        assert(run(s.next, limit, rest).len() > 0);
        assert(s.next is Tracing);
        lemma_updates_follow_events(s.next, limit, rest, k - 1);
        assert(rest[k - 1] == events[k]);
    }
}

/// A miss, or a hit on a surface that is no mirror, ends the chain: the update
/// it causes is the last.
pub proof fn lemma_run_stops_at_last_surface(state: Tracer, limit: u32, events: Seq<Event>, k: int)
    requires
        0 <= k < run(state, limit, events).len(),
        k < events.len(),
        events[k] != (Event::Hit { reflective: true }),
    ensures
        run(state, limit, events).len() == k + 1,
    decreases events.len(),
{
    let s = transition(state, limit, events[0]);
    let rest = events.drop_first();
    if k > 0 {
        assert(rest[k - 1] == events[k]);
        lemma_run_stops_at_last_surface(s.next, limit, rest, k - 1);
    } else {
        assert(s.next is Terminated);
        assert(run(s.next, limit, rest) =~= Seq::<Update>::empty());
    }
}

/// As long as the ray keeps hitting mirrors, the chain uses its whole budget.
pub proof fn lemma_mirrors_exhaust_budget(state: Tracer, limit: u32, events: Seq<Event>)
    requires
        forall|k: int| 0 <= k < events.len() ==> events[k] == (Event::Hit { reflective: true }),
        events.len() >= state.budget(limit),
    ensures
        run(state, limit, events).len() == state.budget(limit),
    decreases events.len(),
{
    if events.len() > 0 && state.live(limit) {
        let s = transition(state, limit, events[0]);
        let rest = events.drop_first();
        assert(forall|k: int| 0 <= k < rest.len() ==> rest[k] == events[k + 1]);
        lemma_mirrors_exhaust_budget(s.next, limit, rest);
    }
}

} // verus!
