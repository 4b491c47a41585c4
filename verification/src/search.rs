//! When a search stops, and what timings come to.

use vstd::prelude::*;

verus! {

/// How a search stands.
#[derive(Clone, Copy, Debug, PartialEq, Eq, Structural)]
pub struct Search {
    /// Whether the search goes on.
    pub run: bool,
    /// Whether it has found a solution.
    pub found: bool,
    /// Whether the watchdog has been called off.
    pub cancelled: bool,
}

/// What can happen to a search.
pub enum SearchEvent {
    /// It finds a solution.
    Solution,
    /// The watchdog looks at how long the search has taken, in nanoseconds, and at its steps.
    Tick { elapsed: u128, steps: u32 },
    /// The search is over.
    Finish,
}

/// How much a search may take.
#[derive(Clone, Copy, Debug, PartialEq, Eq, Structural)]
pub struct Budget {
    /// In nanoseconds.
    pub timeout: u128,
    pub limit: u32,
}

impl Search {
    /// A search that has just begun.
    pub open spec fn initial() -> Search {
        Search { run: true, found: false, cancelled: false }
    }

    /// How the search stands after an event.
    pub open spec fn after(self, event: SearchEvent, budget: Budget) -> Search {
        match event {
            SearchEvent::Solution => Search { run: false, found: true, ..self },
            SearchEvent::Tick { elapsed, steps } => if !self.cancelled && (elapsed
                >= budget.timeout || steps >= budget.limit) {
                Search { run: false, ..self }
            } else {
                self
            },
            SearchEvent::Finish => Search { run: false, cancelled: true, ..self },
        }
    }

    /// How the search stands after a sequence of events.
    pub open spec fn after_all(self, events: Seq<SearchEvent>, budget: Budget) -> Search
        decreases events.len(),
    {
        if events.len() == 0 {
            self
        } else {
            self.after_all(events.drop_last(), budget).after(events.last(), budget)
        }
    }

    /// Begins a search.
    pub fn new() -> (search: Search)
        ensures
            search == Search::initial(),
            search.run && !search.found && !search.cancelled,
    {
        Search { run: true, found: false, cancelled: false }
    }

    /// Notes a solution. One is enough: the search stops.
    pub fn solution(&mut self)
        ensures
            forall|budget: Budget|
                *final(self) == #[trigger] old(self).after(SearchEvent::Solution, budget),
            !final(self).run,
            final(self).found,
            final(self).cancelled == old(self).cancelled,
    {
        self.found = true;
        self.run = false;
    }

    /// Stops the search if it has taken its time or its steps. Returns whether the watchdog is
    /// to look again.
    pub fn tick(&mut self, elapsed: u128, steps: u32, budget: &Budget) -> (again: bool)
        ensures
            *final(self) == old(self).after(SearchEvent::Tick { elapsed, steps }, *budget),
            again <==> !old(self).cancelled && elapsed < budget.timeout && steps < budget.limit,
            final(self).found == old(self).found,
            final(self).cancelled == old(self).cancelled,
            final(self).run == (old(self).run && (old(self).cancelled || (elapsed < budget.timeout
                && steps < budget.limit))),
            !again && !old(self).cancelled ==> !final(self).run,
    {
        if self.cancelled {
            return false;
        }
        if elapsed >= budget.timeout || steps >= budget.limit {
            self.run = false;
            return false;
        }
        true
    }

    /// Stops the search and calls off the watchdog.
    pub fn finish(&mut self)
        ensures
            forall|budget: Budget|
                *final(self) == #[trigger] old(self).after(SearchEvent::Finish, budget),
            !final(self).run,
            final(self).found == old(self).found,
            final(self).cancelled,
    {
        self.run = false;
        self.cancelled = true;
    }
}

/// A search that has stopped stays stopped.
pub proof fn law_stopped_stays_stopped(
    search: Search,
    events: Seq<SearchEvent>,
    budget: Budget,
)
    requires
        !search.run,
    ensures
        !search.after_all(events, budget).run,
    decreases events.len(),
{
    if events.len() > 0 {
        law_stopped_stays_stopped(search, events.drop_last(), budget);
    }
}

/// A search stops at its budget: once the watchdog has seen it over its time or its steps, before
/// the search was over, it does not run on, whatever else happens.
pub proof fn law_search_stops_at_its_budget(
    search: Search,
    before: Seq<SearchEvent>,
    elapsed: u128,
    steps: u32,
    after: Seq<SearchEvent>,
    budget: Budget,
)
    requires
        !search.cancelled,
        forall|i: int| 0 <= i < before.len() ==> !((#[trigger] before[i]) is Finish),
        elapsed >= budget.timeout || steps >= budget.limit,
    ensures
        !search.after_all(before, budget).after(
            SearchEvent::Tick { elapsed, steps },
            budget,
        ).after_all(after, budget).run,
{
    lemma_not_cancelled(search, before, budget);
    law_stopped_stays_stopped(
        search.after_all(before, budget).after(SearchEvent::Tick { elapsed, steps }, budget),
        after,
        budget,
    );
}

proof fn lemma_not_cancelled(search: Search, events: Seq<SearchEvent>, budget: Budget)
    requires
        !search.cancelled,
        forall|i: int| 0 <= i < events.len() ==> !((#[trigger] events[i]) is Finish),
    ensures
        !search.after_all(events, budget).cancelled,
    decreases events.len(),
{
    if events.len() > 0 {
        let init = events.drop_last();
        assert forall|i: int| 0 <= i < init.len() implies !((#[trigger] init[i]) is Finish) by {
            assert(init[i] == events[i]);
        }
        lemma_not_cancelled(search, init, budget);
        assert(events.last() == events[events.len() - 1]);
    }
}

/// A search that is over, or that has found a solution, has stopped, whatever happened before.
pub proof fn law_search_stops_when_over(search: Search, events: Seq<SearchEvent>, budget: Budget)
    requires
        exists|i: int|
            0 <= i < events.len() && ((#[trigger] events[i]) is Finish || events[i] is Solution),
    ensures
        !search.after_all(events, budget).run,
    decreases events.len(),
{
    let i = choose|i: int|
        0 <= i < events.len() && ((#[trigger] events[i]) is Finish || events[i] is Solution);
    if i < events.len() - 1 {
        let init = events.drop_last();
        assert(init[i] == events[i]);
        law_search_stops_when_over(search, init, budget);
    } else {
        assert(events.last() == events[i]);
    }
}

/// A search reports a solution exactly if it came upon one.
pub proof fn law_found_means_solution(events: Seq<SearchEvent>, budget: Budget)
    ensures
        Search::initial().after_all(events, budget).found <==> exists|i: int|
            0 <= i < events.len() && (#[trigger] events[i]) is Solution,
    decreases events.len(),
{
    if events.len() > 0 {
        let init = events.drop_last();
        law_found_means_solution(init, budget);
        if exists|i: int| 0 <= i < init.len() && (#[trigger] init[i]) is Solution {
            let i = choose|i: int| 0 <= i < init.len() && (#[trigger] init[i]) is Solution;
            assert(events[i] is Solution);
        }
        if exists|i: int| 0 <= i < events.len() && (#[trigger] events[i]) is Solution {
            let i = choose|i: int| 0 <= i < events.len() && (#[trigger] events[i]) is Solution;
            if i < init.len() {
                assert(init[i] is Solution);
            }
        }
        if events.last() is Solution {
            assert(events[events.len() - 1] is Solution);
        }
    }
}

/// A search within its budget that has found nothing and is not over goes on.
pub proof fn law_search_goes_on(events: Seq<SearchEvent>, budget: Budget)
    requires
        forall|i: int|
            0 <= i < events.len() ==> (#[trigger] events[i] matches SearchEvent::Tick {
                elapsed,
                steps,
            } && elapsed < budget.timeout && steps < budget.limit),
    ensures
        Search::initial().after_all(events, budget) == Search::initial(),
    decreases events.len(),
{
    if events.len() > 0 {
        let init = events.drop_last();
        assert forall|i: int| 0 <= i < init.len() implies (
        #[trigger] init[i] matches SearchEvent::Tick { elapsed, steps } && elapsed < budget.timeout
            && steps < budget.limit) by {
            assert(init[i] == events[i]);
        }
        law_search_goes_on(init, budget);
        assert(events.last() == events[events.len() - 1]);
    }
}

/// How many numbers of a list are less than `x`.
pub open spec fn count_below(xs: Seq<u64>, x: u64) -> nat
    decreases xs.len(),
{
    if xs.len() == 0 {
        0
    } else {
        count_below(xs.drop_last(), x) + if xs.last() < x {
            1nat
        } else {
            0nat
        }
    }
}

/// How many numbers of a list are at most `x`.
pub open spec fn count_up_to(xs: Seq<u64>, x: u64) -> nat
    decreases xs.len(),
{
    if xs.len() == 0 {
        0
    } else {
        count_up_to(xs.drop_last(), x) + if xs.last() <= x {
            1nat
        } else {
            0nat
        }
    }
}

/// Whether a number is in a list, and greater than a bound if there is one.
spec fn is_above(xs: Seq<u64>, bound: Option<u64>, x: u64) -> bool {
    xs.contains(x) && (bound matches Some(b) ==> x > b)
}

/// The least number of a list that is greater than a bound if there is one.
fn least_above(xs: &[u64], bound: Option<u64>) -> (least: Option<u64>)
    ensures
        least is None ==> forall|x: u64| !is_above(xs@, bound, x),
        least matches Some(l) ==> is_above(xs@, bound, l) && forall|x: u64|
            is_above(xs@, bound, x) ==> l <= x,
{
    let mut least: Option<u64> = None;
    for i in 0..xs.len()
        invariant
            least is None ==> forall|j: int|
                0 <= j < i ==> !is_above(xs@, bound, #[trigger] xs@[j]),
            least matches Some(l) ==> is_above(xs@, bound, l) && forall|j: int|
                0 <= j < i && is_above(xs@, bound, #[trigger] xs@[j]) ==> l <= xs@[j],
    {
        let x: u64 = xs[i];
        assert(xs@.contains(x));
        let above: bool = match bound {
            Some(b) => x > b,
            None => true,
        };
        if above {
            least = match least {
                Some(l) => if l <= x {
                    Some(l)
                } else {
                    Some(x)
                },
                None => Some(x),
            };
        }
    }
    proof {
        assert forall|x: u64| is_above(xs@, bound, x) implies least is Some && least->0 <= x by {
            let j = choose|j: int| 0 <= j < xs@.len() && xs@[j] == x;
            assert(is_above(xs@, bound, xs@[j]));
        }
    }
    least
}

/// How many numbers of a list are at most `x`.
fn rank(xs: &[u64], x: u64) -> (count: usize)
    ensures
        count == count_up_to(xs@, x),
        count <= xs@.len(),
{
    let mut count: usize = 0;
    for i in 0..xs.len()
        invariant
            count == count_up_to(xs@.take(i as int), x),
            count <= i,
    {
        assert(xs@.take(i + 1).drop_last() =~= xs@.take(i as int));
        if xs[i] <= x {
            count = count + 1;
        }
    }
    assert(xs@.take(xs@.len() as int) =~= xs@);
    count
}

proof fn lemma_counts_meet(xs: Seq<u64>, below: Option<u64>, x: u64)
    requires
        below matches Some(b) ==> b < x,
        forall|i: int|
            0 <= i < xs.len() ==> (#[trigger] xs[i]) >= x || (below is Some && xs[i] <= below->0),
    ensures
        count_below(xs, x) == match below {
            Some(b) => count_up_to(xs, b),
            None => 0,
        },
    decreases xs.len(),
{
    if xs.len() > 0 {
        let init = xs.drop_last();
        assert forall|i: int| 0 <= i < init.len() implies (#[trigger] init[i]) >= x || (
        below is Some && init[i] <= below->0) by {
            assert(init[i] == xs[i]);
        }
        lemma_counts_meet(init, below, x);
        assert(xs.last() == xs[xs.len() - 1]);
    }
}

proof fn lemma_rank_grows(xs: Seq<u64>, a: u64, b: u64)
    requires
        a < b,
    ensures
        count_up_to(xs, a) <= count_up_to(xs, b) <= xs.len(),
        xs.contains(b) ==> count_up_to(xs, a) < count_up_to(xs, b),
    decreases xs.len(),
{
    if xs.len() > 0 {
        let init = xs.drop_last();
        lemma_rank_grows(init, a, b);
        if xs.contains(b) && xs.last() != b {
            let i = choose|i: int| 0 <= i < xs.len() && xs[i] == b;
            assert(init[i] == b);
        }
    }
}

proof fn lemma_rank_of_all(xs: Seq<u64>, x: u64)
    requires
        forall|i: int| 0 <= i < xs.len() ==> (#[trigger] xs[i]) <= x,
    ensures
        count_up_to(xs, x) == xs.len(),
    decreases xs.len(),
{
    if xs.len() > 0 {
        assert forall|i: int| 0 <= i < xs.drop_last().len() implies (#[trigger] xs.drop_last()[i])
            <= x by {
            assert(xs.drop_last()[i] == xs[i]);
        }
        lemma_rank_of_all(xs.drop_last(), x);
        assert(xs.last() == xs[xs.len() - 1]);
    }
}

proof fn lemma_counts_are_filters(xs: Seq<u64>, m: u64)
    ensures
        count_below(xs, m) == xs.filter(|x: u64| x < m).len(),
        count_up_to(xs, m) == xs.filter(|x: u64| x <= m).len(),
    decreases xs.len(),
{
    reveal(Seq::filter);
    if xs.len() > 0 {
        lemma_counts_are_filters(xs.drop_last(), m);
    }
}

/// Of a list in order, the median is the number at half the length.
pub proof fn law_median_of_a_sorted_list(xs: Seq<u64>, m: u64)
    requires
        forall|i: int, j: int| 0 <= i <= j < xs.len() ==> xs[i] <= xs[j],
        xs.len() > 0,
        xs.contains(m),
        count_below(xs, m) <= xs.len() / 2 < count_up_to(xs, m),
    ensures
        m == xs[(xs.len() / 2) as int],
{
    let half = (xs.len() / 2) as int;
    lemma_sorted_counts(xs, m, half);
}

proof fn lemma_sorted_counts(xs: Seq<u64>, m: u64, k: int)
    requires
        forall|i: int, j: int| 0 <= i <= j < xs.len() ==> xs[i] <= xs[j],
        0 <= k < xs.len(),
    ensures
        xs[k] < m ==> count_below(xs, m) > k,
        xs[k] > m ==> count_up_to(xs, m) <= k,
    decreases xs.len(),
{
    let init = xs.drop_last();
    assert forall|i: int, j: int| 0 <= i <= j < init.len() implies init[i] <= init[j] by {
        assert(xs[i] <= xs[j]);
    }
    if k < init.len() {
        lemma_sorted_counts(init, m, k);
        assert(xs[k] <= xs.last());
    } else {
        lemma_count_bounds(init, m);
        if xs[k] < m {
            assert forall|i: int| 0 <= i < xs.len() implies (#[trigger] xs[i]) < m by {
                assert(xs[i] <= xs[k]);
            }
            lemma_all_below(xs, m);
        }
    }
}

proof fn lemma_count_bounds(xs: Seq<u64>, m: u64)
    ensures
        count_below(xs, m) <= xs.len(),
        count_up_to(xs, m) <= xs.len(),
    decreases xs.len(),
{
    if xs.len() > 0 {
        lemma_count_bounds(xs.drop_last(), m);
    }
}

proof fn lemma_all_below(xs: Seq<u64>, m: u64)
    requires
        forall|i: int| 0 <= i < xs.len() ==> (#[trigger] xs[i]) < m,
    ensures
        count_below(xs, m) == xs.len(),
    decreases xs.len(),
{
    if xs.len() > 0 {
        assert forall|i: int| 0 <= i < xs.drop_last().len() implies (#[trigger] xs.drop_last()[i])
            < m by {
            assert(xs.drop_last()[i] == xs[i]);
        }
        lemma_all_below(xs.drop_last(), m);
        assert(xs.last() == xs[xs.len() - 1]);
    }
}

/// The median of a list of numbers: the one that stands at half the length when they are in
/// order.
///
/// The numbers may be bit patterns of 64-bit floats that are not negative, which are ordered as
/// the floats are.
pub fn median(xs: &[u64]) -> (m: u64)
    requires
        xs@.len() > 0,
    ensures
        xs@.contains(m),
        count_below(xs@, m) <= xs@.len() / 2 < count_up_to(xs@, m),
        xs@.filter(|x: u64| x < m).len() <= xs@.len() / 2 < xs@.filter(|x: u64| x <= m).len(),
{
    let half: usize = xs.len() / 2;
    assert(is_above(xs@, None, xs@[0]));
    let mut m: u64 = match least_above(xs, None) {
        Some(least) => least,
        None => xs[0],
    };
    proof {
        assert forall|i: int| 0 <= i < xs@.len() implies (#[trigger] xs@[i]) >= m by {
            assert(is_above(xs@, None, xs@[i]));
        }
        lemma_counts_meet(xs@, None, m);
    }
    let mut count: usize = rank(xs, m);
    while count <= half
        invariant
            xs@.len() > 0,
            half == xs@.len() / 2,
            xs@.contains(m),
            count == count_up_to(xs@, m),
            count <= xs@.len(),
            count_below(xs@, m) <= half,
        decreases xs@.len() - count,
    {
        match least_above(xs, Some(m)) {
            Some(next) => {
                proof {
                    assert forall|i: int| 0 <= i < xs@.len() implies (#[trigger] xs@[i]) >= next
                        || xs@[i] <= m by {
                        if xs@[i] > m {
                            assert(is_above(xs@, Some(m), xs@[i]));
                        }
                    }
                    lemma_counts_meet(xs@, Some(m), next);
                    lemma_rank_grows(xs@, m, next);
                }
                m = next;
                count = rank(xs, m);
            },
            None => {
                proof {
                    assert forall|i: int| 0 <= i < xs@.len() implies (#[trigger] xs@[i]) <= m by {
                        assert(!is_above(xs@, Some(m), xs@[i]));
                    }
                    lemma_rank_of_all(xs@, m);
                    lemma_counts_are_filters(xs@, m);
                }
                return m;
            },
        }
    }
    proof {
        lemma_counts_are_filters(xs@, m);
    }
    m
}

/// The least of a list of numbers, if there are any.
pub fn least(xs: &[u64]) -> (l: Option<u64>)
    ensures
        l is None <==> xs@.len() == 0,
        l matches Some(l) ==> xs@.contains(l) && forall|i: int|
            0 <= i < xs@.len() ==> l <= #[trigger] xs@[i],
{
    let l: Option<u64> = least_above(xs, None);
    proof {
        assert forall|i: int| 0 <= i < xs@.len() implies is_above(
            xs@,
            None,
            #[trigger] xs@[i],
        ) by {}
        if xs@.len() > 0 {
            assert(is_above(xs@, None, xs@[0]));
        }
    }
    l
}

} // verus!
