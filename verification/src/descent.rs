//! The decisions of the numerical fits: where they start, which trial they
//! take, and when they stop. A value is given by a key that orders as it does.
use vstd::arithmetic::power::{lemma_pow0, lemma_pow1, lemma_pow_adds, lemma_pow_increases, pow};
use vstd::prelude::*;

use crate::order::{sort, sorted, sorted_items, sorted_members, Ranked};

verus! {

/// The rounds of a damped search.
pub const DAMPED_ROUNDS: u32 = 80;

/// The rounds of a line search.
pub const LINE_ROUNDS: u32 = 10;

/// The step of a grid, in billionths.
pub const GRID_STEP: i64 = 500_000_000;

/// The greatest jitter, in units of the first.
pub const JITTER_LIMIT: u64 = 10_000_000_000;

impl Ranked for i64 {
    open spec fn comes_first(a: Self, b: Self) -> bool {
        a <= b
    }

    proof fn total(a: Self, b: Self) {
    }

    proof fn transitive(a: Self, b: Self, c: Self) {
    }

    fn first(a: &Self, b: &Self) -> (r: bool) {
        *a <= *b
    }
}

/// Whether a value is below a bound. A value that is missing is below nothing;
/// where the bound is missing, every value is below it.
pub open spec fn lower(value: Option<i64>, bound: Option<i64>) -> bool {
    match (value, bound) {
        (None, _) => false,
        (Some(_), None) => true,
        (Some(v), Some(b)) => v < b,
    }
}

/// Whether a value is below a bound.
fn is_lower(value: Option<i64>, bound: Option<i64>) -> (r: bool)
    ensures
        r == lower(value, bound),
{
    match value {
        None => false,
        Some(v) => match bound {
            None => true,
            Some(b) => v < b,
        },
    }
}

/// Whether the value at `k` is below a bound, no value is below it, and all
/// before it are above it.
pub open spec fn is_least(values: Seq<Option<i64>>, bound: Option<i64>, k: int) -> bool {
    &&& 0 <= k < values.len()
    &&& lower(values[k], bound)
    &&& forall|i: int| 0 <= i < values.len() ==> !lower(#[trigger] values[i], values[k])
    &&& forall|i: int| 0 <= i < k ==> (#[trigger] values[i]) != values[k]
}

/// Whether no value is below a bound.
pub open spec fn none_lower(values: Seq<Option<i64>>, bound: Option<i64>) -> bool {
    forall|i: int| 0 <= i < values.len() ==> !lower(#[trigger] values[i], bound)
}

/// The first of the least values, where that is below a bound.
pub fn least_below(values: &Vec<Option<i64>>, bound: Option<i64>) -> (r: Option<usize>)
    ensures
        match r {
            Some(k) => is_least(values@, bound, k as int),
            None => none_lower(values@, bound),
        },
{
    let mut best: Option<usize> = None;
    let mut i: usize = 0;
    while i < values.len()
        invariant
            i <= values@.len(),
            match best {
                Some(k) => k < i && is_least(values@.take(i as int), bound, k as int),
                None => none_lower(values@.take(i as int), bound),
            },
        decreases values@.len() - i,
    {
        let limit = match best {
            Some(k) => values[k],
            None => bound,
        };
        let ghost before = values@.take(i as int);
        let ghost after = values@.take(i + 1);
        assert(forall|j: int| 0 <= j < i ==> #[trigger] after[j] == before[j]);
        assert(after[i as int] == values@[i as int]);
        if is_lower(values[i], limit) {
            best = Some(i);
        }
        i += 1;
    }
    assert(values@.take(i as int) =~= values@);
    best
}

/// A trial of a damped search: its value, and whether that is so close to the
/// present one that there is nothing more to gain.
#[derive(Debug, Clone, Copy)]
pub struct Trial {
    pub value: i64,
    pub close: bool,
}

/// How far a damped search has come: its rounds, and the value that it has
/// reached.
#[derive(Debug, Clone, Copy)]
pub struct DampedSearch {
    pub rounds: u32,
    pub value: Option<i64>,
}

/// What a search does next.
#[derive(Debug, Clone, Copy)]
pub enum Step {
    /// It goes to a trial.
    Take(usize),
    /// It stays, and tries again.
    Repeat,
    /// It has ended.
    Stop,
}

/// The value of a trial.
pub open spec fn trial_value(t: Option<Trial>) -> Option<i64> {
    match t {
        Some(trial) => Some(trial.value),
        None => None,
    }
}

/// The values of trials.
pub open spec fn trial_values(trials: Seq<Option<Trial>>) -> Seq<Option<i64>> {
    trials.map_values(|t: Option<Trial>| trial_value(t))
}

/// A round of a damped search. It goes to the first of the best trials, where
/// that is better than the present value and not too close to it. It ends
/// where nothing is to gain, and after all its rounds.
pub open spec fn damped(
    before: DampedSearch,
    trials: Seq<Option<Trial>>,
    after: DampedSearch,
    step: Step,
) -> bool {
    let values = trial_values(trials);
    if before.rounds >= DAMPED_ROUNDS {
        step is Stop && after == before
    } else {
        match step {
            Step::Take(k) => {
                &&& is_least(values, before.value, k as int)
                &&& !trials[k as int]->0.close
                &&& after.rounds == before.rounds + 1
                &&& after.value == values[k as int]
            },
            Step::Repeat => {
                &&& none_lower(values, before.value)
                &&& before.value is None
                &&& after.rounds == before.rounds + 1
                &&& after.value == before.value
            },
            Step::Stop => {
                &&& after == before
                &&& if none_lower(values, before.value) {
                    before.value is Some
                } else {
                    exists|k: int|
                        is_least(values, before.value, k) && (#[trigger] trials[k])->0.close
                }
            },
        }
    }
}

impl DampedSearch {
    /// A search that has not begun.
    pub fn new() -> (r: Self)
        ensures
            r.rounds == 0,
            r.value is None,
    {
        DampedSearch { rounds: 0, value: None }
    }

    /// Whether rounds are left.
    pub fn open(&self) -> (r: bool)
        ensures
            r == (self.rounds < DAMPED_ROUNDS),
    {
        self.rounds < DAMPED_ROUNDS
    }

    /// Goes on by a round, given its trials. A trial that has no value is
    /// missing.
    pub fn advance(&mut self, trials: &Vec<Option<Trial>>) -> (r: Step)
        ensures
            damped(*old(self), trials@, *final(self), r),
    {
        if self.rounds >= DAMPED_ROUNDS {
            return Step::Stop;
        }
        let mut values: Vec<Option<i64>> = Vec::new();
        let mut i: usize = 0;
        while i < trials.len()
            invariant
                i <= trials@.len(),
                values@.len() == i,
                forall|j: int| 0 <= j < i ==> #[trigger] values@[j] == trial_value(trials@[j]),
            decreases trials@.len() - i,
        {
            values.push(
                match trials[i] {
                    Some(trial) => Some(trial.value),
                    None => None,
                },
            );
            i += 1;
        }
        assert(values@ =~= trial_values(trials@));
        match least_below(&values, self.value) {
            None => {
                if self.value.is_some() {
                    Step::Stop
                } else {
                    self.rounds = self.rounds + 1;
                    Step::Repeat
                }
            },
            Some(k) => {
                assert(lower(values@[k as int], self.value));
                match trials[k] {
                    Some(trial) => {
                        if trial.close {
                            assert(is_least(values@, self.value, k as int));
                            Step::Stop
                        } else {
                            self.rounds = self.rounds + 1;
                            self.value = Some(trial.value);
                            Step::Take(k)
                        }
                    },
                    None => Step::Stop,
                }
            },
        }
    }
}

/// Whether each state of a damped search comes from the one before it by a
/// round that does not end the search.
pub open spec fn damped_run(
    states: Seq<DampedSearch>,
    trials: Seq<Seq<Option<Trial>>>,
    steps: Seq<Step>,
) -> bool {
    forall|i: int|
        0 <= i < states.len() - 1 ==> damped(
            states[i],
            #[trigger] trials[i],
            states[i + 1],
            steps[i],
        ) && !(steps[i] is Stop)
}

/// A damped search ends: it has at most its rounds, whatever the trials are.
/// Its value never rises.
pub proof fn damped_search_ends_lower(
    states: Seq<DampedSearch>,
    trials: Seq<Seq<Option<Trial>>>,
    steps: Seq<Step>,
    i: int,
    j: int,
)
    requires
        damped_run(states, trials, steps),
        0 <= i <= j < states.len(),
    ensures
        j > 0 ==> states[0].rounds + j <= DAMPED_ROUNDS,
        states[j].rounds == states[0].rounds + j,
        !lower(states[i].value, states[j].value),
    decreases j,
{
    if j > 0 {
        let (before, after) = (states[j - 1], states[j]);
        assert(damped(before, trials[j - 1], after, steps[j - 1]));
        if i < j {
            damped_search_ends_lower(states, trials, steps, i, j - 1);
        } else {
            damped_search_ends_lower(states, trials, steps, j - 1, j - 1);
        }
    }
}

/// How far a line search has come: its rounds, and the value of the last trial
/// that it went to.
#[derive(Debug, Clone, Copy)]
pub struct LineSearch {
    pub rounds: u32,
    pub last: Option<i64>,
}

/// Whether a trial is good enough: below the present value, or below the last
/// one that was taken.
pub open spec fn good_enough(trial: Option<i64>, present: Option<i64>, last: Option<i64>) -> bool {
    lower(trial, present) || lower(trial, last)
}

impl LineSearch {
    /// A search that has not begun.
    pub fn new() -> (r: Self)
        ensures
            r.rounds == 0,
            r.last is None,
    {
        LineSearch { rounds: 0, last: None }
    }

    /// Whether rounds are left.
    pub fn open(&self) -> (r: bool)
        ensures
            r == (self.rounds < LINE_ROUNDS),
    {
        self.rounds < LINE_ROUNDS
    }

    /// Goes to the first trial that is good enough; where there is none, or no
    /// round is left, the search has ended.
    pub fn advance(&mut self, present: Option<i64>, trials: &Vec<Option<i64>>) -> (r: Option<usize>)
        ensures
            match r {
                Some(k) => {
                    &&& old(self).rounds < LINE_ROUNDS
                    &&& k < trials@.len()
                    &&& good_enough(trials@[k as int], present, old(self).last)
                    &&& forall|i: int|
                        0 <= i < k ==> !good_enough(#[trigger] trials@[i], present, old(self).last)
                    &&& final(self).rounds == old(self).rounds + 1
                    &&& final(self).last == trials@[k as int]
                },
                None => {
                    &&& *final(self) == *old(self)
                    &&& old(self).rounds >= LINE_ROUNDS || forall|i: int|
                        0 <= i < trials@.len() ==> !good_enough(
                            #[trigger] trials@[i],
                            present,
                            old(self).last,
                        )
                },
            },
    {
        if self.rounds >= LINE_ROUNDS {
            return None;
        }
        let mut i: usize = 0;
        while i < trials.len()
            invariant
                *self == *old(self),
                self.rounds < LINE_ROUNDS,
                i <= trials@.len(),
                forall|j: int|
                    0 <= j < i ==> !good_enough(#[trigger] trials@[j], present, old(self).last),
            decreases trials@.len() - i,
        {
            if is_lower(trials[i], present) || is_lower(trials[i], self.last) {
                self.rounds = self.rounds + 1;
                self.last = trials[i];
                return Some(i);
            }
            i += 1;
        }
        None
    }
}

/// How far a joint search has come: its rounds, and whether it is still on.
#[derive(Debug, Clone, Copy, PartialEq, Eq, Structural)]
pub struct JointSearch {
    pub rounds: u32,
    pub ended: bool,
}

/// A round of a joint search: it ends without a step where the misfit has come
/// close to the last one, and after all its rounds.
pub open spec fn joint_round(before: JointSearch, close: bool) -> JointSearch {
    if before.ended || before.rounds >= LINE_ROUNDS {
        JointSearch { rounds: before.rounds, ended: true }
    } else {
        JointSearch { rounds: (before.rounds + 1) as u32, ended: close }
    }
}

impl JointSearch {
    /// A search that has not begun.
    pub fn new() -> (r: Self)
        ensures
            r == (JointSearch { rounds: 0, ended: false }),
    {
        JointSearch { rounds: 0, ended: false }
    }

    /// Whether there is another round.
    pub fn open(&self) -> (r: bool)
        ensures
            r == (!self.ended && self.rounds < LINE_ROUNDS),
    {
        !self.ended && self.rounds < LINE_ROUNDS
    }

    /// Counts a round, given whether its misfit is close to the last one, and
    /// tells whether the search takes the step of the round.
    pub fn advance(&mut self, close: bool) -> (r: bool)
        ensures
            *final(self) == joint_round(*old(self), close),
            r == (!old(self).ended && old(self).rounds < LINE_ROUNDS && !close),
    {
        if self.ended || self.rounds >= LINE_ROUNDS {
            self.ended = true;
            return false;
        }
        self.rounds = self.rounds + 1;
        self.ended = close;
        !close
    }
}

/// The state of a joint search after some rounds.
pub open spec fn joint_after(start: JointSearch, close: Seq<bool>) -> JointSearch
    decreases close.len(),
{
    if close.len() == 0 {
        start
    } else {
        joint_round(joint_after(start, close.drop_last()), close.last())
    }
}

/// A joint search has at most ten rounds, and none after one that came close.
pub proof fn joint_search_ends(close: Seq<bool>)
    ensures
        joint_after(JointSearch { rounds: 0, ended: false }, close).rounds <= LINE_ROUNDS,
        joint_after(JointSearch { rounds: 0, ended: false }, close).rounds <= close.len(),
        close.len() > LINE_ROUNDS || close.contains(true) ==> joint_after(
            JointSearch { rounds: 0, ended: false },
            close,
        ).ended,
    decreases close.len(),
{
    if close.len() > 0 {
        let t = close.drop_last();
        joint_search_ends(t);
        let before = joint_after(JointSearch { rounds: 0, ended: false }, t);
        if close.len() > LINE_ROUNDS && t.len() <= LINE_ROUNDS && !before.ended {
            joint_rounds_count(t);
        }
        if close.contains(true) {
            let k = choose|k: int| 0 <= k < close.len() && close[k];
            if k < t.len() {
                assert(t[k]);
                assert(t.contains(true));
            }
        }
    }
}

/// A joint search that is still on has counted all its rounds.
proof fn joint_rounds_count(close: Seq<bool>)
    ensures
        !joint_after(JointSearch { rounds: 0, ended: false }, close).ended ==> joint_after(
            JointSearch { rounds: 0, ended: false },
            close,
        ).rounds == close.len() <= LINE_ROUNDS,
    decreases close.len(),
{
    if close.len() > 0 {
        joint_rounds_count(close.drop_last());
    }
}

/// The place of the middle of some values; of an even number, the higher of
/// the two.
pub fn middle(keys: &Vec<i64>) -> (r: usize)
    requires
        keys@.len() > 0,
    ensures
        r < keys@.len(),
        keys@[r as int] == sorted(keys@)[keys@.len() as int / 2],
        forall|i: int| 0 <= i < r ==> #[trigger] keys@[i] != keys@[r as int],
{
    let n: usize = keys.len();
    let mut copy: Vec<i64> = Vec::new();
    let mut i: usize = 0;
    while i < n
        invariant
            n == keys@.len(),
            i <= n,
            copy@.len() == i,
            forall|j: int| 0 <= j < i ==> #[trigger] copy@[j] == keys@[j],
        decreases n - i,
    {
        copy.push(keys[i]);
        i += 1;
    }
    assert(copy@ =~= keys@);
    proof {
        sorted_items(keys@);
        sorted_members(keys@);
    }
    let s = sort(copy);
    let value: i64 = s[n / 2];
    assert(s@.contains(s@[n as int / 2]));
    let ghost at = choose|k: int| 0 <= k < keys@.len() && keys@[k] == value;
    let mut r: usize = 0;
    while keys[r] != value
        invariant
            r <= at < n,
            n == keys@.len(),
            keys@[at] == value,
            forall|j: int| 0 <= j < r ==> #[trigger] keys@[j] != value,
        decreases n - r,
    {
        r += 1;
    }
    r
}

/// The places on an axis of a grid: from the least one up by steps, as far as
/// a billionth beyond the greatest.
pub fn grid_axis(least: i64, greatest: i64) -> (r: Vec<i64>)
    requires
        greatest < i64::MAX - GRID_STEP,
    ensures
        forall|k: int| 0 <= k < r@.len() ==> #[trigger] r@[k] == least + k * GRID_STEP,
        r@.len() > 0 ==> r@.last() <= greatest + 1,
        least + r@.len() * GRID_STEP > greatest + 1,
{
    let mut r: Vec<i64> = Vec::new();
    let mut x: i64 = least;
    while x <= greatest + 1
        invariant
            greatest < i64::MAX - GRID_STEP,
            x == least + r@.len() * GRID_STEP,
            forall|k: int| 0 <= k < r@.len() ==> #[trigger] r@[k] == least + k * GRID_STEP,
            r@.len() > 0 ==> r@.last() <= greatest + 1,
        decreases greatest + 1 - x + GRID_STEP,
    {
        r.push(x);
        x = x + GRID_STEP;
        assert((r@.len() - 1) * GRID_STEP + GRID_STEP == r@.len() * GRID_STEP) by (nonlinear_arith);
    }
    r
}

/// What is added to make a matrix definite after some tries, in units of the
/// first: four times as much with each try. There is a last one.
pub fn jitter(tries: u32) -> (r: Option<u64>)
    ensures
        r == if pow(4, tries as nat) <= JITTER_LIMIT {
            Some(pow(4, tries as nat) as u64)
        } else {
            None
        },
{
    let mut value: u64 = 1;
    let mut i: u32 = 0;
    proof {
        lemma_pow0(4);
    }
    while i < tries
        invariant
            i <= tries,
            value == pow(4, i as nat),
            value <= JITTER_LIMIT,
        decreases tries - i,
    {
        proof {
            lemma_pow_adds(4, i as nat, 1);
            lemma_pow1(4);
        }
        value = value * 4;
        i += 1;
        if value > JITTER_LIMIT {
            proof {
                lemma_pow_increases(4, i as nat, tries as nat);
            }
            return None;
        }
    }
    Some(value)
}

} // verus!
