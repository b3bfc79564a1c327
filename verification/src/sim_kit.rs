//! The stepping contract of a simulation run by the kit: each tick the state
//! is replaced by the one the simulation computes from it and the actions
//! received, and the events it emits are passed on.
use vstd::prelude::*;
use std::collections::VecDeque;
use crate::playback::Tick;
use crate::pod::POD;

verus! {

/// A simulation the kit can run: from a tick, the current state and the
/// actions received during the tick, compute the next state and the events
/// to emit.
pub trait Simulation: Sized {
    type State: POD + Default;
    type Actions: POD;
    type Event: POD;

    /// What one step does, as the simulation itself states it: from `before`
    /// to `after`, at `tick`, from `state` and `actions` to `next` and `events`.
    /// A simulation that states nothing leaves every outcome possible.
    open spec fn step_spec(
        before: &Self,
        after: &Self,
        tick: Tick,
        state: Self::State,
        actions: Seq<Self::Actions>,
        next: Self::State,
        events: Seq<Self::Event>,
    ) -> bool {
        true
    }

    fn step(&mut self, tick: Tick, state: Self::State, actions: &Vec<Self::Actions>) -> (r: (Self::State, VecDeque<
        Self::Event,
    >))
        ensures
            Self::step_spec(&*old(self), &*final(self), tick, state, actions@, r.0, r.1@),
    ;
}

/// Run one step of `simulation` at `tick` on a clone of `state`: `state`
/// becomes the state the step returns, and the events it returns are handed
/// back.
pub fn run_sim_step<S: Simulation>(
    simulation: &mut S,
    tick: Tick,
    state: &mut S::State,
    actions: &Vec<S::Actions>,
) -> (r: VecDeque<S::Event>)
    ensures
        exists|c: S::State|
            cloned::<S::State>(*old(state), c) && #[trigger] S::step_spec(
                &*old(simulation),
                &*final(simulation),
                tick,
                c,
                actions@,
                *final(state),
                r@,
            ),
{
    let current = state.clone();
    let (next, events) = simulation.step(tick, current, actions);
    *state = next;
    events
}

} // verus!
