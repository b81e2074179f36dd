//! Laws of searches: when the numerical fits go on, and when they stop.
use vstd::prelude::*;

use crate::descent::{
    damped, good_enough, joint_round, lower, trial_values, DampedSearch, JointSearch, Step, Trial,
};

verus! {

/// A value is lower than another where it is a number below it; any number is
/// lower than no bound, and what is no number is lower than nothing.
pub proof fn lower_values_are_below(a: i64, b: i64, bound: Option<i64>)
    ensures
        lower(Some(a), Some(b)) <==> a < b,
        lower(Some(a), None),
        !lower(None, bound),
        good_enough(Some(a), bound, Some(b)) <==> a < b || lower(Some(a), bound),
        good_enough(Some(a), Some(b), bound) <==> a < b || lower(Some(a), bound),
        !good_enough(None, bound, bound),
{
}

/// A damped search that goes on has found the least of its trials, and that is
/// below what it had; it never goes on for more than eighty rounds.
pub proof fn damped_searches_go_down(
    before: DampedSearch,
    trials: Seq<Option<Trial>>,
    after: DampedSearch,
    step: Step,
    i: int,
)
    requires
        damped(before, trials, after, step),
        0 <= i < trials.len(),
    ensures
        before.rounds >= 80 ==> step is Stop,
        step is Stop ==> after == before,
        !(step is Stop) ==> after.rounds == before.rounds + 1 <= 80,
        step matches Step::Take(k) ==> {
            &&& k < trials.len()
            &&& trials[k as int] is Some
            &&& after.value == Some(trials[k as int]->0.value)
            &&& before.value is Some ==> trials[k as int]->0.value < before.value->0
            &&& trials[i] is Some ==> trials[k as int]->0.value <= trials[i]->0.value
            &&& trials[i] is Some && trials[i]->0.value == trials[k as int]->0.value ==> k <= i
            &&& !trials[k as int]->0.close
        },
        step is Repeat ==> before.value is None && after.value is None && trials[i] is None,
        step is Stop && before.rounds < 80 ==> before.value is Some || exists|k: int|
            0 <= k < trials.len() && (#[trigger] trials[k]) is Some && trials[k]->0.close,
{
    let values = trial_values(trials);
    assert(values[i] == crate::descent::trial_value(trials[i]));
    if let Step::Take(k) = step {
        assert(values[k as int] == crate::descent::trial_value(trials[k as int]));
        assert(!lower(values[i], values[k as int]));
        if i < k {
            assert(values[i] != values[k as int]);
        }
    }
    if step is Repeat {
        assert(!lower(values[i], before.value));
    }
    if step is Stop && before.rounds < 80 && before.value is None {
        let k = choose|k: int|
            crate::descent::is_least(values, before.value, k) && (#[trigger] trials[k])->0.close;
        assert(values[k] == crate::descent::trial_value(trials[k]));
        assert(lower(values[k], before.value));
        assert(trials[k] is Some);
    }
}

/// A joint search goes on until a round is close to the one before, and for ten
/// rounds at most; one that has ended stays ended.
pub proof fn joint_searches_end_after_ten_rounds(s: JointSearch, close: bool)
    ensures
        s.ended ==> joint_round(s, close).ended && joint_round(s, close).rounds == s.rounds,
        s.rounds >= 10 ==> joint_round(s, close).ended,
        !s.ended && s.rounds < 10 ==> joint_round(s, close).rounds == s.rounds + 1 && (joint_round(
            s,
            close,
        ).ended <==> close),
{
}

} // verus!
