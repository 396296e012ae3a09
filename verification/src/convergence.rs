//! The convergence loop: relocation steps repeated until the centroids settle.

use vstd::prelude::*;
use crate::ieee::less_eq;
use crate::ieee::spec_less_eq;

verus! {

/// A step that moved the centroids by `displacement` on average has met the
/// goal `goal_diff`: the displacement compares less than or equal to it. A
/// NaN on either side never meets it.
pub open spec fn reached(displacement: u64, goal_diff: u64) -> bool {
    spec_less_eq(displacement, goal_diff)
}

/// The state that step number `i` of a run starts from: `start` for the
/// first, and what the step before left for every other.
pub open spec fn state_before<S>(start: S, states: Seq<S>, i: int) -> S {
    if i == 0 {
        start
    } else {
        states[i - 1]
    }
}

/// `states` and `moved` record a run of `step` from `start`: step number `i`
/// took the state before it to `states[i]` and reported the displacement
/// `moved[i]`.
pub open spec fn is_run<S, E, F: Fn(S) -> Result<(S, u64), E>>(
    step: F,
    start: S,
    states: Seq<S>,
    moved: Seq<u64>,
) -> bool {
    &&& states.len() == moved.len()
    &&& forall|i: int|
        0 <= i < states.len() ==> call_ensures(
            step,
            (state_before(start, states, i),),
            Ok::<(S, u64), E>((#[trigger] states[i], moved[i])),
        )
}

/// No step of the run before step number `count` met the goal.
pub open spec fn none_reached(moved: Seq<u64>, goal_diff: u64, count: int) -> bool {
    forall|i: int| 0 <= i < count && i < moved.len() ==> !reached(#[trigger] moved[i], goal_diff)
}

/// A run of `step` from `start` can end in `state` after `count` steps: that
/// many steps succeeded one after the other, `state` is what the last of them
/// left, none before the last met the goal, and the last met it unless all
/// `max_loop` steps ran.
pub open spec fn stopped_after<S, E, F: Fn(S) -> Result<(S, u64), E>>(
    step: F,
    start: S,
    max_loop: usize,
    goal_diff: u64,
    state: S,
    count: usize,
) -> bool {
    &&& count <= max_loop
    &&& exists|states: Seq<S>, moved: Seq<u64>|
        {
            &&& #[trigger] is_run(step, start, states, moved)
            &&& states.len() == count
            &&& state == state_before(start, states, count as int)
            &&& none_reached(moved, goal_diff, count - 1)
            &&& count == max_loop || (count > 0 && reached(moved[count - 1], goal_diff))
        }
}

/// A run of `step` from `start` can end in `error`: fewer than `max_loop`
/// steps succeeded one after the other, none of them met the goal, and the
/// step after them failed with `error`.
pub open spec fn failed_with<S, E, F: Fn(S) -> Result<(S, u64), E>>(
    step: F,
    start: S,
    max_loop: usize,
    goal_diff: u64,
    error: E,
) -> bool {
    exists|states: Seq<S>, moved: Seq<u64>|
        {
            &&& #[trigger] is_run(step, start, states, moved)
            &&& states.len() < max_loop
            &&& none_reached(moved, goal_diff, moved.len() as int)
            &&& call_ensures(
                step,
                (state_before(start, states, states.len() as int),),
                Err::<(S, u64), E>(error),
            )
        }
}

/// Runs `step` from `start` until a step meets the goal, `max_loop` steps have
/// run, or a step fails. The step must accept `start` and whatever state it
/// has itself produced.
///
/// On success the result is the state that the last step left and the number
/// of steps that ran, the one that met the goal included: that step is the
/// first of the run whose displacement is at most `goal_diff`, or else all
/// `max_loop` steps ran. With `max_loop` zero no step runs and `start` comes
/// back with a count of zero. When a step fails, its error is returned and
/// no step before it had met the goal.
pub fn fit<S, E, F: Fn(S) -> Result<(S, u64), E>>(
    start: S,
    max_loop: usize,
    goal_diff: u64,
    step: F,
) -> (r: Result<(S, usize), E>)
    requires
        max_loop > 0 ==> call_requires(step, (start,)),
        forall|before: S, after: S, moved: u64| #[trigger]
            call_ensures(step, (before,), Ok::<(S, u64), E>((after, moved))) ==> call_requires(
                step,
                (after,),
            ),
    ensures
        max_loop == 0 ==> r == Ok::<(S, usize), E>((start, 0)),
        r matches Ok(done) ==> stopped_after(step, start, max_loop, goal_diff, done.0, done.1),
        r matches Err(error) ==> failed_with(step, start, max_loop, goal_diff, error),
{
    let mut state = start;
    let mut count: usize = 0;
    let ghost mut states: Seq<S> = Seq::empty();
    let ghost mut moved: Seq<u64> = Seq::empty();
    while count < max_loop
        invariant
            count <= max_loop,
            count < max_loop ==> call_requires(step, (state,)),
            forall|before: S, after: S, moved: u64| #[trigger]
                call_ensures(step, (before,), Ok::<(S, u64), E>((after, moved))) ==> call_requires(
                    step,
                    (after,),
                ),
            is_run(step, start, states, moved),
            states.len() == count,
            state == state_before(start, states, count as int),
            none_reached(moved, goal_diff, count as int),
        decreases max_loop - count,
    {
        match step(state) {
            Ok((next, displacement)) => {
                proof {
                    let before = states;
                    states = states.push(next);
                    moved = moved.push(displacement);
                    assert forall|i: int| 0 <= i < states.len() implies call_ensures(
                        step,
                        (state_before(start, states, i),),
                        Ok::<(S, u64), E>((#[trigger] states[i], moved[i])),
                    ) by {
                        if i < before.len() {
                            assert(states[i] == before[i]);
                            assert(state_before(start, states, i) == state_before(start, before, i));
                        }
                    }
                    assert forall|i: int| 0 <= i < count implies !reached(
                        #[trigger] moved[i],
                        goal_diff,
                    ) by {
                        assert(moved[i] == moved.drop_last()[i]);
                    }
                    assert(moved[count as int] == displacement);
                    assert(states[count as int] == next);
                }
                state = next;
                count = count + 1;
                if less_eq(displacement, goal_diff) {
                    assert(is_run(step, start, states, moved));
                    assert(none_reached(moved, goal_diff, count - 1));
                    return Ok((state, count));
                }
            },
            Err(error) => {
                return Err(error);
            },
        }
    }
    Ok((state, count))
}

} // verus!
