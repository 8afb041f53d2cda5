//! Escape time: how many steps an orbit takes to escape.
//!
//! The orbit of a point is produced by a step supplied by the caller, which
//! moves the orbit on by one iteration and tells whether it has then
//! escaped: for the Mandelbrot set, `z * z + c` and whether its squared norm
//! exceeds 4. This module counts the steps, within a limit.

use vstd::prelude::*;

verus! {

/// The step gives at most one result for each state.
pub open spec fn single_valued<Z, S: Fn(Z) -> (Z, bool)>(step: S) -> bool {
    forall|z: Z, first: (Z, bool), second: (Z, bool)|
        #![trigger step.ensures((z,), first), step.ensures((z,), second)]
        step.ensures((z,), first) && step.ensures((z,), second) ==> first == second
}

/// `z` can be the state of the orbit after `steps` steps from `start`, with
/// none of which it escaped.
pub open spec fn stays_until<Z, S: Fn(Z) -> (Z, bool)>(step: S, start: Z, steps: nat, z: Z) -> bool
    decreases steps,
{
    if steps == 0 {
        z == start
    } else {
        exists|before: Z|
            #![trigger step.ensures((before,), (z, false))]
            stays_until(step, start, (steps - 1) as nat, before) && step.ensures(
                (before,),
                (z, false),
            )
    }
}

/// The orbit can escape with the step of the given zero-based index, not
/// having escaped with any step before it.
pub open spec fn escapes_at<Z, S: Fn(Z) -> (Z, bool)>(step: S, start: Z, index: nat) -> bool {
    exists|before: Z, after: Z|
        #![trigger step.ensures((before,), (after, true))]
        stays_until(step, start, index, before) && step.ensures((before,), (after, true))
}

/// The orbit can go on for `limit` steps without escaping.
pub open spec fn stays_within<Z, S: Fn(Z) -> (Z, bool)>(step: S, start: Z, limit: nat) -> bool {
    exists|z: Z| stays_until(step, start, limit, z)
}

/// `count` is a possible escape time of the orbit within `limit` steps: the
/// index, below the limit, of the step with which it escapes, or nothing
/// where it goes on for `limit` steps without escaping.
pub open spec fn escape_time_is<Z, S: Fn(Z) -> (Z, bool)>(
    step: S,
    start: Z,
    limit: u32,
    count: Option<u32>,
) -> bool {
    match count {
        Some(index) => index < limit && escapes_at(step, start, index as nat),
        None => stays_within(step, start, limit as nat),
    }
}

/// With a single-valued step the state after a number of steps without
/// escape is determined.
pub proof fn lemma_orbit_determined<Z, S: Fn(Z) -> (Z, bool)>(
    step: S,
    start: Z,
    steps: nat,
    z: Z,
    other: Z,
)
    requires
        single_valued(step),
        stays_until(step, start, steps, z),
        stays_until(step, start, steps, other),
    ensures
        z == other,
    decreases steps,
{
    if steps > 0 {
        let before = choose|before: Z|
            #![trigger step.ensures((before,), (z, false))]
            stays_until(step, start, (steps - 1) as nat, before) && step.ensures(
                (before,),
                (z, false),
            );
        let other_before = choose|before: Z|
            #![trigger step.ensures((before,), (other, false))]
            stays_until(step, start, (steps - 1) as nat, before) && step.ensures(
                (before,),
                (other, false),
            );
        lemma_orbit_determined(step, start, (steps - 1) as nat, before, other_before);
        assert(step.ensures((before,), (z, false)) && step.ensures((before,), (other, false)));
    }
}

/// An orbit that goes on for some number of steps without escaping has a
/// state after each smaller number of steps, from which the next step does
/// not escape.
pub proof fn lemma_orbit_prefix<Z, S: Fn(Z) -> (Z, bool)>(
    step: S,
    start: Z,
    steps: nat,
    z: Z,
    earlier: nat,
) -> (r: (Z, Z))
    requires
        stays_until(step, start, steps, z),
        earlier < steps,
    ensures
        stays_until(step, start, earlier, r.0),
        step.ensures((r.0,), (r.1, false)),
    decreases steps,
{
    let before = choose|before: Z|
        #![trigger step.ensures((before,), (z, false))]
        stays_until(step, start, (steps - 1) as nat, before) && step.ensures(
            (before,),
            (z, false),
        );
    if earlier == steps - 1 {
        (before, z)
    } else {
        lemma_orbit_prefix(step, start, (steps - 1) as nat, before, earlier)
    }
}

/// Once an orbit has been seen to escape, its escape time no longer depends
/// on the limit: with a single-valued step, an escape time `index` found
/// within one limit is the escape time within every limit above `index`.
pub proof fn lemma_escape_time_stable<Z, S: Fn(Z) -> (Z, bool)>(
    step: S,
    start: Z,
    limit: u32,
    index: u32,
    other_limit: u32,
    other_count: Option<u32>,
)
    requires
        single_valued(step),
        escape_time_is(step, start, limit, Some(index)),
        other_limit > index,
        escape_time_is(step, start, other_limit, other_count),
    ensures
        other_count == Some(index),
        escape_time_is(step, start, other_limit, Some(index)),
{
    let (before, after) = choose|before: Z, after: Z|
        #![trigger step.ensures((before,), (after, true))]
        stays_until(step, start, index as nat, before) && step.ensures((before,), (after, true));
    match other_count {
        Some(other_index) => {
            let (other_before, other_after) = choose|b: Z, a: Z|
                #![trigger step.ensures((b,), (a, true))]
                stays_until(step, start, other_index as nat, b) && step.ensures((b,), (a, true));
            if other_index < index {
                let (at, next) = lemma_orbit_prefix(
                    step,
                    start,
                    index as nat,
                    before,
                    other_index as nat,
                );
                lemma_orbit_determined(step, start, other_index as nat, at, other_before);
                assert(step.ensures((at,), (next, false)) && step.ensures(
                    (at,),
                    (other_after, true),
                ));
            } else if index < other_index {
                let (at, next) = lemma_orbit_prefix(
                    step,
                    start,
                    other_index as nat,
                    other_before,
                    index as nat,
                );
                lemma_orbit_determined(step, start, index as nat, at, before);
                assert(step.ensures((at,), (next, false)) && step.ensures((at,), (after, true)));
            }
        },
        None => {
            let z = choose|z: Z| stays_until(step, start, other_limit as nat, z);
            let (at, next) = lemma_orbit_prefix(step, start, other_limit as nat, z, index as nat);
            lemma_orbit_determined(step, start, index as nat, at, before);
            assert(step.ensures((at,), (next, false)) && step.ensures((at,), (after, true)));
        },
    }
}

/// An orbit whose start is left where it is by the step, without escape,
/// stays at its start for any number of steps.
pub proof fn lemma_resting_orbit<Z, S: Fn(Z) -> (Z, bool)>(step: S, start: Z, steps: nat, z: Z)
    requires
        forall|after: Z, escaped: bool|
            #![trigger step.ensures((start,), (after, escaped))]
            step.ensures((start,), (after, escaped)) ==> after == start && !escaped,
        stays_until(step, start, steps, z),
    ensures
        z == start,
    decreases steps,
{
    if steps > 0 {
        let before = choose|before: Z|
            #![trigger step.ensures((before,), (z, false))]
            stays_until(step, start, (steps - 1) as nat, before) && step.ensures(
                (before,),
                (z, false),
            );
        lemma_resting_orbit(step, start, (steps - 1) as nat, before);
    }
}

/// A point at rest never escapes: where the step leaves the start where it
/// is, without escape, there is no escape time, whatever the limit. Under
/// the step of the Mandelbrot set this is the orbit of the origin.
pub proof fn lemma_resting_point_never_escapes<Z, S: Fn(Z) -> (Z, bool)>(
    step: S,
    start: Z,
    limit: u32,
    count: Option<u32>,
)
    requires
        forall|after: Z, escaped: bool|
            #![trigger step.ensures((start,), (after, escaped))]
            step.ensures((start,), (after, escaped)) ==> after == start && !escaped,
        escape_time_is(step, start, limit, count),
    ensures
        count is None,
{
    if let Some(index) = count {
        let (before, after) = choose|before: Z, after: Z|
            #![trigger step.ensures((before,), (after, true))]
            stays_until(step, start, index as nat, before) && step.ensures(
                (before,),
                (after, true),
            );
        lemma_resting_orbit(step, start, index as nat, before);
    }
}

/// Follows the orbit of `start` for at most `limit` steps and returns the
/// zero-based index of the step with which it escaped, or nothing if it had
/// not escaped after `limit` steps.
pub fn escape_time<Z, S: Fn(Z) -> (Z, bool)>(start: Z, limit: u32, step: S) -> (count: Option<u32>)
    requires
        forall|steps: nat, z: Z|
            steps < limit && #[trigger] stays_until(step, start, steps, z) ==> step.requires((z,)),
    ensures
        escape_time_is(step, start, limit, count),
{
    let mut z: Z = start;
    let mut i: u32 = 0;
    while i < limit
        invariant
            i <= limit,
            forall|steps: nat, z: Z|
                steps < limit && #[trigger] stays_until(step, start, steps, z) ==> step.requires(
                    (z,),
                ),
            stays_until(step, start, i as nat, z),
        decreases limit - i,
    {
        let ghost before = z;
        let (next, escaped) = step(z);
        if escaped {
            assert(stays_until(step, start, i as nat, before) && step.ensures(
                (before,),
                (next, true),
            ));
            return Some(i);
        }
        z = next;
        i += 1;
        assert(stays_until(step, start, (i - 1) as nat, before) && step.ensures(
            (before,),
            (z, false),
        ));
    }
    None
}

} // verus!
