//! Local search: from a solution to a better one in its neighbourhood, for
//! as long as there is one.

use vstd::prelude::*;
use std::sync::Arc;
use crate::objective::{levels_lt, lemma_objective_irreflexive, lemma_objective_transitive, lemma_value_order, objective_lt, value_lt, BaseValue, EvaluatedSolution, Indicator, Objective, ObjectiveValue};

verus! {

/// A solution that has neighbours: solutions that differ from it by one
/// move.
pub trait LocalSearchable: Sized {
    /// Whether the solution is one that a search may start from.
    spec fn valid(&self) -> bool;

    /// Whether a list holds the neighbours of the solution, in the order in
    /// which a search looks at them.
    spec fn neighbours_are(&self, list: &Vec<Self>) -> bool;

    /// The neighbours, in the order in which a search looks at them.
    fn neighborhood(&self) -> (r: Vec<Self>)
        requires
            self.valid(),
        ensures
            forall|i: int| 0 <= i < r@.len() ==> (#[trigger] r@[i]).valid(),
            self.neighbours_are(&r),
    ;
}

/// A way from a solution to a better one.
pub trait LocalImprover<S: LocalSearchable> {
    /// Whether the improver can work on every valid solution.
    spec fn ready(&self) -> bool;

    /// Whether `found` is what the improver finds for a solution: the
    /// better solution that it takes, or none.
    spec fn finds(&self, solution: &EvaluatedSolution<S>, found: &Option<EvaluatedSolution<S>>) -> bool;

    /// A better solution, if the improver finds one.
    fn improve(&self, solution: &EvaluatedSolution<S>) -> (r: Option<EvaluatedSolution<S>>)
        requires
            self.ready(),
            solution.spec_solution().valid(),
        ensures
            r matches Some(n) ==> {
                &&& n.spec_solution().valid()
                &&& objective_lt(n.spec_value(), solution.spec_value())
            },
            self.finds(solution, &r),
    ;
}

/// What is better than `b` is better than whatever is not better than `b`.
pub proof fn lemma_objective_below(a: Seq<BaseValue>, b: Seq<BaseValue>, c: Seq<BaseValue>, i: int)
    requires
        0 <= i,
        levels_lt(a, b, i),
        !levels_lt(c, b, i),
    ensures
        levels_lt(a, c, i),
    decreases a.len() - i,
{
    if i < a.len() && i < b.len() && i < c.len() {
        lemma_value_order(a[i], b[i], c[i]);
        lemma_value_order(c[i], b[i], a[i]);
        lemma_value_order(a[i], c[i], b[i]);
        if !value_lt(a[i], b[i]) && !value_lt(b[i], c[i]) {
            lemma_objective_below(a, b, c, i + 1);
        }
    }
}

/// The position of the best of some solutions: of the first of them than
/// which none is better. None if there are no solutions.
pub fn position_of_best<S>(candidates: &Vec<EvaluatedSolution<S>>) -> (r: Option<usize>)
    ensures
        r is None <==> candidates@.len() == 0,
        r matches Some(b) ==> {
            &&& b < candidates@.len()
            &&& forall|j: int|
                0 <= j < candidates@.len() ==> !objective_lt(
                    (#[trigger] candidates@[j]).spec_value(),
                    candidates@[b as int].spec_value(),
                )
            &&& forall|j: int|
                0 <= j < b ==> objective_lt(
                    candidates@[b as int].spec_value(),
                    (#[trigger] candidates@[j]).spec_value(),
                )
        },
{
    if candidates.len() == 0 {
        return None;
    }
    let mut best: usize = 0;
    let mut i: usize = 1;
    proof {
        lemma_objective_irreflexive(candidates@[0].spec_value(), 0);
    }
    while i < candidates.len()
        invariant
            best < i <= candidates@.len(),
            forall|j: int|
                0 <= j < i ==> !objective_lt(
                    (#[trigger] candidates@[j]).spec_value(),
                    candidates@[best as int].spec_value(),
                ),
            forall|j: int|
                0 <= j < best ==> objective_lt(
                    candidates@[best as int].spec_value(),
                    (#[trigger] candidates@[j]).spec_value(),
                ),
        decreases candidates.len() - i,
    {
        if candidates[i].objective_value().lt(candidates[best].objective_value()) {
            proof {
                let new = candidates@[i as int].spec_value();
                let old = candidates@[best as int].spec_value();
                lemma_objective_irreflexive(new, 0);
                assert forall|j: int| 0 <= j < i implies objective_lt(
                    new,
                    (#[trigger] candidates@[j]).spec_value(),
                ) by {
                    lemma_objective_below(new, old, candidates@[j].spec_value(), 0);
                }
                assert forall|j: int| 0 <= j < i + 1 implies !objective_lt(
                    (#[trigger] candidates@[j]).spec_value(),
                    new,
                ) by {
                    if j < i {
                        crate::objective::lemma_objective_asymmetric(
                            new,
                            candidates@[j].spec_value(),
                            0,
                        );
                    }
                }
            }
            best = i;
        }
        i += 1;
    }
    Some(best)
}

/// The values of a list of solutions.
pub open spec fn values_of<S>(pool: Seq<EvaluatedSolution<S>>) -> Seq<Seq<BaseValue>> {
    Seq::new(pool.len(), |i: int| pool[i].spec_value())
}

/// Whether every value of a list is better than the next.
pub open spec fn rising(values: Seq<Seq<BaseValue>>) -> bool {
    forall|i: int| 0 <= i < values.len() - 1 ==> objective_lt(#[trigger] values[i], values[i + 1])
}

/// The position, from `i` on, of the first value than which `v` is not
/// worse, or the length of the list.
pub open spec fn place_for(values: Seq<Seq<BaseValue>>, v: Seq<BaseValue>, i: int) -> int
    decreases values.len() - i,
{
    if i < 0 || i >= values.len() {
        values.len() as int
    } else if !objective_lt(values[i], v) {
        i
    } else {
        place_for(values, v, i + 1)
    }
}

/// A list of the best values seen, no more than `width` of them, after one
/// more value was seen: the value goes to its place unless a value as good
/// is in the list already, and what is too much at the end goes.
pub open spec fn with_candidate(values: Seq<Seq<BaseValue>>, v: Seq<BaseValue>, width: int) -> Seq<
    Seq<BaseValue>,
> {
    let p = place_for(values, v, 0);
    let grown = if p < values.len() && !objective_lt(v, values[p]) {
        values
    } else {
        values.insert(p, v)
    };
    if grown.len() > width {
        grown.subrange(0, width)
    } else {
        grown
    }
}

/// The position, from `i` on, of the first value that beats `to_beat`, or
/// the length of the list.
pub open spec fn first_better(values: Seq<Seq<BaseValue>>, to_beat: Seq<BaseValue>, i: int) -> int
    decreases values.len() - i,
{
    if i < 0 || i >= values.len() {
        values.len() as int
    } else if objective_lt(values[i], to_beat) {
        i
    } else {
        first_better(values, to_beat, i + 1)
    }
}

/// A list of the best values seen, no more than `width` of them, after the
/// first `n` values of `seen` were seen one after the other.
pub open spec fn pooled(pool: Seq<Seq<BaseValue>>, seen: Seq<Seq<BaseValue>>, n: int, width: int) -> Seq<
    Seq<BaseValue>,
>
    decreases n,
{
    if n <= 0 {
        pool
    } else {
        with_candidate(pooled(pool, seen, n - 1, width), seen[n - 1], width)
    }
}

pub proof fn lemma_place_for(values: Seq<Seq<BaseValue>>, v: Seq<BaseValue>, i: int)
    requires
        0 <= i <= values.len(),
    ensures
        i <= place_for(values, v, i) <= values.len(),
        place_for(values, v, i) < values.len() ==> !objective_lt(values[place_for(values, v, i)], v),
        forall|j: int| i <= j < place_for(values, v, i) ==> objective_lt(#[trigger] values[j], v),
    decreases values.len() - i,
{
    if i < values.len() && objective_lt(values[i], v) {
        lemma_place_for(values, v, i + 1);
    }
}

/// Puts a solution into a list of the best solutions seen, which holds no
/// more than `width` of them, every one better than the next.
pub fn insert_into_pool<S: LocalSearchable>(
    pool: &mut Vec<EvaluatedSolution<S>>,
    candidate: EvaluatedSolution<S>,
    width: usize,
)
    requires
        rising(values_of(old(pool)@)),
        old(pool)@.len() <= width,
        candidate.spec_solution().valid(),
        forall|i: int| 0 <= i < old(pool)@.len() ==> (#[trigger] old(pool)@[i]).spec_solution().valid(),
    ensures
        values_of(final(pool)@) == with_candidate(
            values_of(old(pool)@),
            candidate.spec_value(),
            width as int,
        ),
        rising(values_of(final(pool)@)),
        final(pool)@.len() <= width,
        forall|i: int|
            0 <= i < final(pool)@.len() ==> (#[trigger] final(pool)@[i]).spec_solution().valid(),
        forall|i: int|
            0 <= i < final(pool)@.len() ==> (#[trigger] final(pool)@[i] == candidate || old(
                pool,
            )@.contains(final(pool)@[i])),
{
    let ghost before = pool@;
    let ghost values = values_of(before);
    let ghost v = candidate.spec_value();
    let mut p: usize = 0;
    while p < pool.len() && pool[p].objective_value().lt(candidate.objective_value())
        invariant
            p <= pool@.len(),
            pool@ == before,
            values == values_of(before),
            v == candidate.spec_value(),
            place_for(values, v, 0) == place_for(values, v, p as int),
        decreases pool.len() - p,
    {
        assert(values[p as int] == before[p as int].spec_value());
        p += 1;
    }
    proof {
        lemma_place_for(values, v, 0);
        if p < pool@.len() {
            assert(values[p as int] == before[p as int].spec_value());
        }
        assert(p as int == place_for(values, v, 0));
    }
    let known = p < pool.len() && !candidate.objective_value().lt(pool[p].objective_value());
    if !known {
        pool.insert(p, candidate);
        proof {
            let grown = values.insert(p as int, v);
            assert(values_of(pool@) =~= grown);
            assert forall|i: int| 0 <= i < grown.len() - 1 implies objective_lt(
                #[trigger] grown[i],
                grown[i + 1],
            ) by {
                if i < p - 1 {
                    assert(grown[i] == values[i]);
                    assert(grown[i + 1] == values[i + 1]);
                } else if i == p - 1 {
                    assert(grown[i] == values[i]);
                } else if i == p {
                    assert(grown[i + 1] == values[p as int]);
                    // neither is the old value at this place better than the
                    // candidate, nor are the two equally good
                } else {
                    assert(grown[i] == values[i - 1]);
                    assert(grown[i + 1] == values[i]);
                    assert(objective_lt(values[i - 1], values[i - 1 + 1]));
                }
            }
        }
        if pool.len() > width {
            let ghost grown = pool@;
            pool.pop();
            proof {
                assert(values_of(pool@) =~= values_of(grown).subrange(0, width as int));
                assert forall|i: int| 0 <= i < pool@.len() - 1 implies objective_lt(
                    #[trigger] values_of(pool@)[i],
                    values_of(pool@)[i + 1],
                ) by {
                    assert(values_of(pool@)[i] == values_of(grown)[i]);
                    assert(values_of(pool@)[i + 1] == values_of(grown)[i + 1]);
                }
            }
        }
        proof {
            assert forall|i: int| 0 <= i < pool@.len() implies (#[trigger] pool@[i] == candidate
                || before.contains(pool@[i])) by {
                if i < p {
                    assert(pool@[i] == before[i]);
                } else if i > p {
                    assert(pool@[i] == before[i - 1]);
                }
            }
        }
    } else {
        proof {
            assert(values_of(pool@) =~= values);
            assert forall|i: int| 0 <= i < pool@.len() implies (#[trigger] pool@[i] == candidate
                || before.contains(pool@[i])) by {
                assert(pool@[i] == before[i]);
            }
        }
    }
}

/// Whether a list holds some solutions in their order, each with its
/// value.
pub open spec fn evaluated_as<S, I: Indicator<S>>(
    objective: &Objective<I>,
    list: Seq<S>,
    evaluated: Seq<EvaluatedSolution<S>>,
) -> bool {
    &&& evaluated.len() == list.len()
    &&& forall|i: int|
        0 <= i < evaluated.len() ==> {
            &&& (#[trigger] evaluated[i]).spec_solution() == list[i]
            &&& evaluated[i].spec_value() == objective.value_of(&list[i])
        }
}

/// Whether `r` is the best of some solutions, taken if it beats a value:
/// exactly if one of them does.
pub open spec fn best_taken<S>(
    evaluated: Seq<EvaluatedSolution<S>>,
    to_beat: Seq<BaseValue>,
    r: Option<EvaluatedSolution<S>>,
) -> bool {
    &&& r is Some <==> exists|i: int|
        0 <= i < evaluated.len() && objective_lt((#[trigger] evaluated[i]).spec_value(), to_beat)
    &&& r matches Some(n) ==> objective_lt(n.spec_value(), to_beat) && exists|b: int|
        best_at(values_of(evaluated), b) && n == #[trigger] evaluated[b]
}

/// Whether `r` is the first of some solutions that beats a value, and
/// `after` the pool once the solutions before it went into the pool
/// `before`, if they are to be kept: into their places among the best, as
/// far as the pool is bounded, and at its end if it is not.
pub open spec fn first_taken<S>(
    evaluated: Seq<EvaluatedSolution<S>>,
    to_beat: Seq<BaseValue>,
    keep: bool,
    width: Option<usize>,
    before: Seq<EvaluatedSolution<S>>,
    after: Seq<EvaluatedSolution<S>>,
    r: Option<EvaluatedSolution<S>>,
) -> bool {
    let first = first_better(values_of(evaluated), to_beat, 0);
    &&& r is Some <==> first < evaluated.len()
    &&& r matches Some(n) ==> n == evaluated[first]
    &&& !keep ==> after == before
    &&& keep ==> match width {
        Some(w) => values_of(after) == pooled(values_of(before), values_of(evaluated), first, w as int),
        None => after == before + evaluated.subrange(0, first),
    }
    &&& forall|i: int|
        0 <= i < after.len() ==> before.contains(#[trigger] after[i]) || seen_before(
            evaluated,
            first,
            after[i],
        )
}

/// Whether a solution is one of the first `n` of a list.
pub open spec fn seen_before<S>(list: Seq<EvaluatedSolution<S>>, n: int, x: EvaluatedSolution<S>) -> bool {
    exists|j: int| 0 <= j < n && j < list.len() && #[trigger] list[j] == x
}

/// Whether `found` and the pool `after` come of looking through the
/// neighbourhood `list` of `source` for the first neighbour that beats a
/// value.
pub open spec fn scan_step<S: LocalSearchable, I: Indicator<S>>(
    objective: &Objective<I>,
    width: Option<usize>,
    source: S,
    to_beat: Seq<BaseValue>,
    keep: bool,
    before: Seq<EvaluatedSolution<S>>,
    list: Vec<S>,
    evaluated: Seq<EvaluatedSolution<S>>,
    after: Seq<EvaluatedSolution<S>>,
    found: Option<EvaluatedSolution<S>>,
) -> bool {
    &&& source.neighbours_are(&list)
    &&& evaluated_as(objective, list@, evaluated)
    &&& first_taken(evaluated, to_beat, keep, width, before, after, found)
}

/// Whether neighbours are kept for looking into: as long as there is depth
/// left.
pub open spec fn keeps(depth: int) -> bool {
    depth > 0
}

/// Whether `r` comes of looking through the neighbourhoods of the
/// solutions from position `i` on, one after the other, for the first
/// neighbour that beats a value; and, where there is none, through the
/// neighbourhoods of the neighbours that were kept in the pool, as deep as
/// `depth` says. Neighbours are kept as long as there is depth left.
pub open spec fn scans<S: LocalSearchable, I: Indicator<S>>(
    objective: &Objective<I>,
    width: Option<usize>,
    solutions: Seq<EvaluatedSolution<S>>,
    to_beat: Seq<BaseValue>,
    i: int,
    pool: Seq<EvaluatedSolution<S>>,
    depth: int,
    r: Option<EvaluatedSolution<S>>,
) -> bool
    decreases depth, solutions.len() - i,
{
    if i < 0 || i >= solutions.len() {
        if depth > 0 {
            scans(objective, width, pool, to_beat, 0, Seq::empty(), depth - 1, r)
        } else {
            r is None
        }
    } else {
        exists|
            list: Vec<S>,
            evaluated: Seq<EvaluatedSolution<S>>,
            next: Seq<EvaluatedSolution<S>>,
            found: Option<EvaluatedSolution<S>>,
        |
            #[trigger] scan_step(
                objective,
                width,
                solutions[i].spec_solution(),
                to_beat,
                keeps(depth),
                pool,
                list,
                evaluated,
                next,
                found,
            ) && match found {
                Some(n) => r == Some(n),
                None => scans(objective, width, solutions, to_beat, i + 1, next, depth, r),
            }
    }
}

/// Looks through the whole neighbourhood and takes the best neighbour, if
/// it is better than the solution itself.
pub struct Minimizer<I> {
    objective: Arc<Objective<I>>,
}

/// Evaluates solutions in their order.
pub fn evaluate_all<S: LocalSearchable, I: Indicator<S>>(
    objective: &Objective<I>,
    solutions: Vec<S>,
) -> (r: Vec<EvaluatedSolution<S>>)
    requires
        forall|i: int| 0 <= i < solutions@.len() ==> (#[trigger] solutions@[i]).valid(),
        forall|s: S| #[trigger] s.valid() ==> objective.applies(&s),
    ensures
        r@.len() == solutions@.len(),
        forall|i: int|
            0 <= i < r@.len() ==> {
                &&& (#[trigger] r@[i]).spec_solution() == solutions@[i]
                &&& r@[i].spec_value() == objective.value_of(&solutions@[i])
            },
{
    let ghost given = solutions@;
    let mut rest = solutions;
    let mut stack: Vec<S> = Vec::new();
    while rest.len() > 0
        invariant
            stack@.len() + rest@.len() == given.len(),
            forall|i: int| 0 <= i < rest@.len() ==> rest@[i] == given[i],
            forall|i: int| 0 <= i < stack@.len() ==> stack@[i] == given[given.len() - 1 - i],
        decreases rest.len(),
    {
        let s = rest.pop().unwrap();
        stack.push(s);
    }
    let mut r: Vec<EvaluatedSolution<S>> = Vec::new();
    while stack.len() > 0
        invariant
            r@.len() + stack@.len() == given.len(),
            forall|i: int| 0 <= i < stack@.len() ==> stack@[i] == given[given.len() - 1 - i],
            forall|i: int| 0 <= i < given.len() ==> (#[trigger] given[i]).valid(),
            forall|s: S| #[trigger] s.valid() ==> objective.applies(&s),
            forall|i: int|
                0 <= i < r@.len() ==> {
                    &&& (#[trigger] r@[i]).spec_solution() == given[i]
                    &&& r@[i].spec_value() == objective.value_of(&given[i])
                },
        decreases stack.len(),
    {
        let s = stack.pop().unwrap();
        assert(s == given[r@.len() as int]);
        assert(given[r@.len() as int].valid());
        r.push(objective.evaluate(s));
    }
    r
}

impl<I> Minimizer<I> {
    pub closed spec fn spec_objective(&self) -> Objective<I> {
        *self.objective
    }

    pub fn new(objective: Arc<Objective<I>>) -> (m: Minimizer<I>)
        ensures
            m.spec_objective() == *objective,
    {
        Minimizer { objective }
    }
}

/// Whether the value at position `b` is the best of a list: none is
/// better, and it is better than every value before it.
pub open spec fn best_at(values: Seq<Seq<BaseValue>>, b: int) -> bool {
    &&& 0 <= b < values.len()
    &&& forall|j: int| 0 <= j < values.len() ==> !objective_lt(#[trigger] values[j], values[b])
    &&& forall|j: int| 0 <= j < b ==> objective_lt(values[b], #[trigger] values[j])
}

/// The best of some solutions, if it beats a value: exactly if one of them
/// does.
pub fn best_if_better<S>(evaluated: Vec<EvaluatedSolution<S>>, to_beat: &ObjectiveValue) -> (r: Option<
    EvaluatedSolution<S>,
>)
    ensures
        r is Some <==> exists|i: int|
            0 <= i < evaluated@.len() && objective_lt(
                (#[trigger] evaluated@[i]).spec_value(),
                to_beat@,
            ),
        r matches Some(n) ==> objective_lt(n.spec_value(), to_beat@) && exists|b: int|
            best_at(values_of(evaluated@), b) && n == #[trigger] evaluated@[b],
        best_taken(evaluated@, to_beat@, r),
{
    let ghost given = evaluated@;
    let mut candidates = evaluated;
    match position_of_best(&candidates) {
        Some(b) => {
            proof {
                assert forall|j: int| 0 <= j < given.len() implies !objective_lt(
                    #[trigger] values_of(given)[j],
                    values_of(given)[b as int],
                ) by {
                    assert(values_of(given)[j] == given[j].spec_value());
                }
                assert forall|j: int| 0 <= j < b implies objective_lt(
                    values_of(given)[b as int],
                    #[trigger] values_of(given)[j],
                ) by {
                    assert(values_of(given)[j] == given[j].spec_value());
                }
                assert(best_at(values_of(given), b as int));
            }
            if candidates[b].objective_value().lt(to_beat) {
                Some(candidates.swap_remove(b))
            } else {
                proof {
                    assert forall|i: int| 0 <= i < given.len() implies !objective_lt(
                        (#[trigger] given[i]).spec_value(),
                        to_beat@,
                    ) by {
                        if objective_lt(given[i].spec_value(), to_beat@) {
                            lemma_objective_below(
                                given[i].spec_value(),
                                to_beat@,
                                given[b as int].spec_value(),
                                0,
                            );
                        }
                    }
                }
                None
            }
        },
        None => None,
    }
}

impl<S: LocalSearchable, I: Indicator<S>> LocalImprover<S> for Minimizer<I> {
    open spec fn ready(&self) -> bool {
        forall|s: S| #[trigger] s.valid() ==> self.spec_objective().applies(&s)
    }

    open spec fn finds(&self, solution: &EvaluatedSolution<S>, found: &Option<EvaluatedSolution<S>>) -> bool {
        exists|list: Vec<S>, evaluated: Seq<EvaluatedSolution<S>>|
            solution.spec_solution().neighbours_are(&list) && #[trigger] evaluated_as(
                &self.spec_objective(),
                list@,
                evaluated,
            ) && best_taken(evaluated, solution.spec_value(), *found)
    }

    fn improve(&self, solution: &EvaluatedSolution<S>) -> (r: Option<EvaluatedSolution<S>>)
        ensures
            r matches Some(n) ==> n.spec_value() == self.spec_objective().value_of(
                &n.spec_solution(),
            ),
            exists|list: Vec<S>, evaluated: Seq<EvaluatedSolution<S>>|
                solution.spec_solution().neighbours_are(&list) && #[trigger] evaluated_as(
                    &self.spec_objective(),
                    list@,
                    evaluated,
                ) && best_taken(evaluated, solution.spec_value(), r),
    {
        let neighbors = solution.solution().neighborhood();
        let ghost list = neighbors;
        let evaluated = evaluate_all(&self.objective, neighbors);
        let ghost all = evaluated@;
        let r = best_if_better(evaluated, solution.objective_value());
        proof {
            assert(evaluated_as(&self.spec_objective(), list@, all));
            assert(solution.spec_solution().neighbours_are(&list));
        }
        r
    }
}

/// Takes the first neighbour that is better. Where none is, looks into the
/// neighbourhoods of the best neighbours, to a given depth.
pub struct TakeFirstRecursion<I> {
    recursion_depth: u8,
    /// How many of the best neighbours are looked into; all if none.
    recursion_width: Option<usize>,
    objective: Arc<Objective<I>>,
}

/// Whether a list is one of the lists of solutions that a search keeps for
/// looking into: valid solutions with their values, and where the list is
/// bounded, no more than `width`, every one better than the next.
pub open spec fn pool_ok<S: LocalSearchable, I: Indicator<S>>(
    pool: Seq<EvaluatedSolution<S>>,
    objective: &Objective<I>,
    width: Option<usize>,
) -> bool {
    &&& forall|i: int| 0 <= i < pool.len() ==> (#[trigger] pool[i]).spec_solution().valid()
    &&& forall|i: int|
        0 <= i < pool.len() ==> (#[trigger] pool[i]).spec_value() == objective.value_of(
            &pool[i].spec_solution(),
        )
    &&& width matches Some(w) ==> pool.len() <= w && rising(values_of(pool))
}

impl<I> TakeFirstRecursion<I> {
    pub closed spec fn spec_objective(&self) -> Objective<I> {
        *self.objective
    }

    pub closed spec fn spec_depth(&self) -> u8 {
        self.recursion_depth
    }

    pub closed spec fn spec_width(&self) -> Option<usize> {
        self.recursion_width
    }

    pub fn new(recursion_depth: u8, recursion_width: Option<usize>, objective: Arc<Objective<I>>) -> (t:
        TakeFirstRecursion<I>)
        ensures
            t.spec_objective() == *objective,
            t.spec_depth() == recursion_depth,
            t.spec_width() == recursion_width,
    {
        TakeFirstRecursion { recursion_depth, recursion_width, objective }
    }

    /// Takes the first of some neighbours that beats a value. The
    /// neighbours before it go into the pool if they are to be kept: into
    /// their places among the best, as far as the pool is bounded, and at
    /// its end if it is not.
    pub fn take_first<S: LocalSearchable>(
        &self,
        evaluated: Vec<EvaluatedSolution<S>>,
        to_beat: &ObjectiveValue,
        pool: &mut Vec<EvaluatedSolution<S>>,
        keep: bool,
    ) -> (r: Option<EvaluatedSolution<S>>) where I: Indicator<S>
        requires
            forall|i: int|
                0 <= i < evaluated@.len() ==> (#[trigger] evaluated@[i]).spec_solution().valid()
                    && evaluated@[i].spec_value() == self.spec_objective().value_of(
                    &evaluated@[i].spec_solution(),
                ),
            pool_ok(old(pool)@, &self.spec_objective(), self.spec_width()),
        ensures
            pool_ok(final(pool)@, &self.spec_objective(), self.spec_width()),
            r is Some <==> first_better(values_of(evaluated@), to_beat@, 0) < evaluated@.len(),
            r matches Some(n) ==> n == evaluated@[first_better(values_of(evaluated@), to_beat@, 0)]
                && objective_lt(n.spec_value(), to_beat@) && n.spec_solution().valid()
                && n.spec_value() == self.spec_objective().value_of(&n.spec_solution()),
            !keep ==> final(pool)@ == old(pool)@,
            keep ==> match self.spec_width() {
                Some(w) => values_of(final(pool)@) == pooled(
                    values_of(old(pool)@),
                    values_of(evaluated@),
                    first_better(values_of(evaluated@), to_beat@, 0),
                    w as int,
                ),
                None => final(pool)@ == old(pool)@ + evaluated@.subrange(
                    0,
                    first_better(values_of(evaluated@), to_beat@, 0),
                ),
            },
            first_taken(evaluated@, to_beat@, keep, self.spec_width(), old(pool)@, final(pool)@, r),
    {
        let ghost given = evaluated@;
        let ghost values = values_of(given);
        let ghost start = pool@;
        let n = evaluated.len();
        let mut rest = evaluated;
        // the neighbours are taken from the end: turn the list round first
        let mut stack: Vec<EvaluatedSolution<S>> = Vec::new();
        while rest.len() > 0
            invariant
                stack@.len() + rest@.len() == given.len(),
                forall|i: int| 0 <= i < rest@.len() ==> rest@[i] == given[i],
                forall|i: int| 0 <= i < stack@.len() ==> stack@[i] == given[given.len() - 1 - i],
            decreases rest.len(),
        {
            let e = rest.pop().unwrap();
            stack.push(e);
        }
        let mut k: usize = 0;
        proof {
            assert(start + given.subrange(0, 0) =~= start);
        }
        while stack.len() > 0
            invariant
                given == evaluated@,
                values == values_of(given),
                start == old(pool)@,
                k + stack@.len() == given.len() == n,
                forall|i: int| 0 <= i < stack@.len() ==> stack@[i] == given[given.len() - 1 - i],
                forall|i: int|
                    0 <= i < given.len() ==> (#[trigger] given[i]).spec_solution().valid()
                        && given[i].spec_value() == self.spec_objective().value_of(
                        &given[i].spec_solution(),
                    ),
                pool_ok(pool@, &self.spec_objective(), self.spec_width()),
                first_better(values, to_beat@, 0) == first_better(values, to_beat@, k as int),
                forall|i: int|
                    0 <= i < pool@.len() ==> start.contains(#[trigger] pool@[i]) || seen_before(
                        given,
                        k as int,
                        pool@[i],
                    ),
                !keep ==> pool@ == start,
                keep ==> match self.spec_width() {
                    Some(w) => values_of(pool@) == pooled(values_of(start), values, k as int, w as int),
                    None => pool@ == start + given.subrange(0, k as int),
                },
            decreases stack.len(),
        {
            let neighbor = stack.pop().unwrap();
            assert(neighbor == given[k as int]);
            assert(values[k as int] == given[k as int].spec_value());
            if neighbor.objective_value().lt(to_beat) {
                proof {
                    assert(objective_lt(values[k as int], to_beat@));
                    assert(first_better(values, to_beat@, k as int) == k as int);
                }
                return Some(neighbor);
            }
            proof {
                assert(!objective_lt(values[k as int], to_beat@));
                assert(first_better(values, to_beat@, k as int) == first_better(
                    values,
                    to_beat@,
                    k + 1,
                ));
            }
            let ghost kept_so_far = pool@;
            if keep {
                match self.recursion_width {
                    Some(w) => {
                        let ghost before = pool@;
                        insert_into_pool(pool, neighbor, w);
                        proof {
                            assert forall|i: int| 0 <= i < pool@.len() implies (#[trigger] pool@[i]).spec_value()
                                == self.spec_objective().value_of(&pool@[i].spec_solution()) by {
                                if pool@[i] != neighbor {
                                    let j = choose|j: int| 0 <= j < before.len() && before[j] == pool@[i];
                                    assert(before[j].spec_value() == self.spec_objective().value_of(
                                        &before[j].spec_solution(),
                                    ));
                                }
                            }
                        }
                    },
                    None => {
                        pool.push(neighbor);
                        proof {
                            assert(pool@ =~= start + given.subrange(0, k + 1));
                        }
                    },
                }
            }
            proof {
                assert forall|i: int| 0 <= i < pool@.len() implies start.contains(
                    #[trigger] pool@[i],
                ) || seen_before(given, k + 1, pool@[i]) by {
                    let x = pool@[i];
                    if x == given[k as int] {
                        assert(seen_before(given, k + 1, x));
                    } else {
                        assert(kept_so_far.contains(x)) by {
                            if pool@ != kept_so_far && self.spec_width() is None {
                                assert(i < kept_so_far.len());
                                assert(kept_so_far[i] == x);
                            }
                        }
                        let j = choose|j: int| 0 <= j < kept_so_far.len() && kept_so_far[j] == x;
                        if !start.contains(x) {
                            assert(seen_before(given, k as int, kept_so_far[j]));
                            let q = choose|q: int| 0 <= q < k && q < given.len() && given[q] == x;
                            assert(given[q] == x);
                        }
                    }
                }
            }
            k += 1;
        }
        proof {
            assert(first_better(values, to_beat@, k as int) == given.len());
        }
        None
    }

    /// Looks through the neighbourhood of one solution for a neighbour that
    /// beats a value, and takes the first. The neighbours seen before it go
    /// into the pool if they are to be kept.
    pub fn scan<S: LocalSearchable>(
        &self,
        source: &S,
        to_beat: &ObjectiveValue,
        pool: &mut Vec<EvaluatedSolution<S>>,
        keep: bool,
    ) -> (r: Option<EvaluatedSolution<S>>) where I: Indicator<S>
        requires
            source.valid(),
            forall|s: S| #[trigger] s.valid() ==> self.spec_objective().applies(&s),
            pool_ok(old(pool)@, &self.spec_objective(), self.spec_width()),
        ensures
            pool_ok(final(pool)@, &self.spec_objective(), self.spec_width()),
            r matches Some(n) ==> {
                &&& n.spec_solution().valid()
                &&& n.spec_value() == self.spec_objective().value_of(&n.spec_solution())
                &&& objective_lt(n.spec_value(), to_beat@)
            },
            exists|list: Vec<S>, evaluated: Seq<EvaluatedSolution<S>>| #[trigger]
                scan_step(
                    &self.spec_objective(),
                    self.spec_width(),
                    *source,
                    to_beat@,
                    keep,
                    old(pool)@,
                    list,
                    evaluated,
                    final(pool)@,
                    r,
                ),
    {
        let ghost before = pool@;
        let neighbors = source.neighborhood();
        let ghost list = neighbors;
        let evaluated = evaluate_all(&self.objective, neighbors);
        let ghost all = evaluated@;
        let r = self.take_first(evaluated, to_beat, pool, keep);
        proof {
            assert(evaluated_as(&self.spec_objective(), list@, all));
            assert(scan_step(
                &self.spec_objective(),
                self.spec_width(),
                *source,
                to_beat@,
                keep,
                before,
                list,
                all,
                pool@,
                r,
            ));
        }
        r
    }

    /// Looks through the neighbourhoods of solutions, one after the other,
    /// for a neighbour that beats a value, and where there is none, through
    /// the neighbourhoods of the best neighbours, as deep as is left.
    pub fn improve_recursion<S: LocalSearchable>(
        &self,
        solutions: Vec<EvaluatedSolution<S>>,
        to_beat: &ObjectiveValue,
        remaining_recursion: u8,
    ) -> (r: Option<EvaluatedSolution<S>>) where I: Indicator<S>
        requires
            forall|s: S| #[trigger] s.valid() ==> self.spec_objective().applies(&s),
            forall|i: int|
                0 <= i < solutions@.len() ==> (#[trigger] solutions@[i]).spec_solution().valid(),
        ensures
            r matches Some(n) ==> {
                &&& n.spec_solution().valid()
                &&& n.spec_value() == self.spec_objective().value_of(&n.spec_solution())
                &&& objective_lt(n.spec_value(), to_beat@)
            },
            scans(
                &self.spec_objective(),
                self.spec_width(),
                solutions@,
                to_beat@,
                0,
                Seq::empty(),
                remaining_recursion as int,
                r,
            ),
        decreases remaining_recursion,
    {
        let ghost objective = self.spec_objective();
        let ghost width = self.spec_width();
        let ghost depth = remaining_recursion as int;
        let mut pool: Vec<EvaluatedSolution<S>> = Vec::new();
        let mut i: usize = 0;
        proof {
            assert(values_of(pool@).len() == 0);
            assert(pool@ =~= Seq::empty());
        }
        while i < solutions.len()
            invariant
                i <= solutions.len(),
                objective == self.spec_objective(),
                width == self.spec_width(),
                depth == remaining_recursion as int,
                forall|s: S| #[trigger] s.valid() ==> self.spec_objective().applies(&s),
                forall|j: int|
                    0 <= j < solutions@.len() ==> (#[trigger] solutions@[j]).spec_solution().valid(),
                pool_ok(pool@, &self.spec_objective(), self.spec_width()),
                forall|x: Option<EvaluatedSolution<S>>| #[trigger]
                    scans(&objective, width, solutions@, to_beat@, i as int, pool@, depth, x)
                        ==> scans(&objective, width, solutions@, to_beat@, 0, Seq::empty(), depth, x),
            decreases solutions.len() - i,
        {
            assert(solutions@[i as int].spec_solution().valid());
            let ghost before = pool@;
            let keep = remaining_recursion > 0;
            let found = self.scan(solutions[i].solution(), to_beat, &mut pool, keep);
            proof {
                let (list, evaluated) = choose|list: Vec<S>, evaluated: Seq<EvaluatedSolution<S>>| #[trigger]
                    scan_step(
                        &objective,
                        width,
                        solutions@[i as int].spec_solution(),
                        to_beat@,
                        keep,
                        before,
                        list,
                        evaluated,
                        pool@,
                        found,
                    );
                assert(keeps(depth) == keep);
                assert(scan_step(
                    &objective,
                    width,
                    solutions@[i as int].spec_solution(),
                    to_beat@,
                    keeps(depth),
                    before,
                    list,
                    evaluated,
                    pool@,
                    found,
                ));
                assert forall|x: Option<EvaluatedSolution<S>>|
                    (match found {
                        Some(n) => x == Some(n),
                        None => scans(&objective, width, solutions@, to_beat@, i + 1, pool@, depth, x),
                    }) implies scans(&objective, width, solutions@, to_beat@, 0, Seq::empty(), depth, x) by {
                    assert(scans(&objective, width, solutions@, to_beat@, i as int, before, depth, x));
                }
            }
            match found {
                Some(n) => {
                    return Some(n);
                },
                None => {},
            }
            i += 1;
        }
        if remaining_recursion > 0 {
            let ghost kept = pool@;
            let r = self.improve_recursion(pool, to_beat, remaining_recursion - 1);
            proof {
                assert(scans(&objective, width, solutions@, to_beat@, i as int, kept, depth, r));
            }
            r
        } else {
            proof {
                assert(scans(
                    &objective,
                    width,
                    solutions@,
                    to_beat@,
                    i as int,
                    pool@,
                    depth,
                    None::<EvaluatedSolution<S>>,
                ));
            }
            None
        }
    }
}

impl<S: LocalSearchable, I: Indicator<S>> LocalImprover<S> for TakeFirstRecursion<I> {
    open spec fn ready(&self) -> bool {
        forall|s: S| #[trigger] s.valid() ==> self.spec_objective().applies(&s)
    }

    open spec fn finds(&self, solution: &EvaluatedSolution<S>, found: &Option<EvaluatedSolution<S>>) -> bool {
        scans(
            &self.spec_objective(),
            self.spec_width(),
            seq![*solution],
            solution.spec_value(),
            0,
            Seq::empty(),
            self.spec_depth() as int,
            *found,
        )
    }

    fn improve(&self, solution: &EvaluatedSolution<S>) -> (r: Option<EvaluatedSolution<S>>)
        ensures
            r matches Some(n) ==> n.spec_value() == self.spec_objective().value_of(
                &n.spec_solution(),
            ),
            scans(
                &self.spec_objective(),
                self.spec_width(),
                seq![*solution],
                solution.spec_value(),
                0,
                Seq::empty(),
                self.spec_depth() as int,
                r,
            ),
    {
        let ghost objective = self.spec_objective();
        let ghost width = self.spec_width();
        let ghost depth = self.spec_depth() as int;
        let ghost one = seq![*solution];
        let mut pool: Vec<EvaluatedSolution<S>> = Vec::new();
        proof {
            assert(values_of(pool@).len() == 0);
            assert(pool@ =~= Seq::empty());
        }
        let keep = self.recursion_depth > 0;
        let found = self.scan(solution.solution(), solution.objective_value(), &mut pool, keep);
        proof {
            let (list, evaluated) = choose|list: Vec<S>, evaluated: Seq<EvaluatedSolution<S>>| #[trigger]
                scan_step(
                    &objective,
                    width,
                    solution.spec_solution(),
                    solution.spec_value(),
                    keep,
                    Seq::empty(),
                    list,
                    evaluated,
                    pool@,
                    found,
                );
            assert(keeps(depth) == keep);
            assert(one[0].spec_solution() == solution.spec_solution());
            assert(scan_step(
                &objective,
                width,
                one[0].spec_solution(),
                solution.spec_value(),
                keeps(depth),
                Seq::empty(),
                list,
                evaluated,
                pool@,
                found,
            ));
        }
        match found {
            Some(n) => Some(n),
            None => {
                let ghost kept = pool@;
                if self.recursion_depth > 0 {
                    let r = self.improve_recursion(
                        pool,
                        solution.objective_value(),
                        self.recursion_depth - 1,
                    );
                    proof {
                        assert(scans(&objective, width, one, solution.spec_value(), 1, kept, depth, r));
                    }
                    r
                } else {
                    proof {
                        assert(scans(
                            &objective,
                            width,
                            one,
                            solution.spec_value(),
                            1,
                            kept,
                            depth,
                            None::<EvaluatedSolution<S>>,
                        ));
                    }
                    None
                }
            },
        }
    }
}

/// The solution that a search goes on with after the improver gave its
/// answer, and whether the search is done: it goes on with the better
/// solution if one was found, and is done with the one it has if none was.
pub fn step_of<S>(current: EvaluatedSolution<S>, found: Option<EvaluatedSolution<S>>) -> (r: (
    EvaluatedSolution<S>,
    bool,
))
    ensures
        r == match found {
            Some(n) => (n, false),
            None => (current, true),
        },
{
    match found {
        Some(n) => (n, false),
        None => (current, true),
    }
}

/// Whether `chain` holds the solutions of a search one after the other:
/// the first is the solution that the search starts from, every other is
/// what the improver finds for the one before it, and better than it; the
/// last is the solution `last` that the search ends with. A search that is
/// `done` ends because the improver finds nothing for the last solution;
/// one that is not has made all its steps.
pub open spec fn search_chain<S: LocalSearchable, L: LocalImprover<S>>(
    improver: &L,
    chain: Seq<EvaluatedSolution<S>>,
    start: EvaluatedSolution<S>,
    max_steps: usize,
    last: EvaluatedSolution<S>,
    done: bool,
) -> bool {
    &&& chain.len() >= 1
    &&& chain[0] == start
    &&& chain.last() == last
    &&& chain.len() - 1 <= max_steps
    &&& forall|i: int|
        0 <= i < chain.len() - 1 ==> improver.finds(&chain[i], &Some(#[trigger] chain[i + 1]))
            && objective_lt(chain[i + 1].spec_value(), chain[i].spec_value())
    &&& done ==> improver.finds(&last, &None)
    &&& !done ==> chain.len() - 1 == max_steps
}

/// Improves a solution step by step until the improver finds nothing better
/// or the steps are used up: the improver is asked for the solution given,
/// then for what it found, and so on. Gives the last solution, which is no
/// worse than the first, and whether the improver found nothing better than
/// it.
pub fn search<S: LocalSearchable, L: LocalImprover<S>>(
    improver: &L,
    start: EvaluatedSolution<S>,
    max_steps: usize,
) -> (r: (EvaluatedSolution<S>, bool))
    requires
        improver.ready(),
        start.spec_solution().valid(),
    ensures
        r.0.spec_solution().valid(),
        !objective_lt(start.spec_value(), r.0.spec_value()),
        r.0 == start || objective_lt(r.0.spec_value(), start.spec_value()),
        max_steps == 0 ==> r == (start, false),
        exists|chain: Seq<EvaluatedSolution<S>>| #[trigger]
            search_chain(improver, chain, start, max_steps, r.0, r.1),
{
    let ghost first = start.spec_value();
    let ghost mut chain: Seq<EvaluatedSolution<S>> = seq![start];
    let mut current = start;
    let mut steps: usize = 0;
    let mut done = false;
    proof {
        lemma_objective_irreflexive(first, 0);
    }
    while steps < max_steps && !done
        invariant
            improver.ready(),
            current.spec_solution().valid(),
            first == start.spec_value(),
            current == start || objective_lt(current.spec_value(), first),
            !objective_lt(first, current.spec_value()),
            steps <= max_steps,
            max_steps == 0 ==> current == start && !done,
            chain.len() == steps + 1,
            chain[0] == start,
            chain.last() == current,
            forall|i: int|
                0 <= i < chain.len() - 1 ==> improver.finds(&chain[i], &Some(#[trigger] chain[i + 1]))
                    && objective_lt(chain[i + 1].spec_value(), chain[i].spec_value()),
            done ==> improver.finds(&current, &None),
        decreases max_steps - steps + (if done { 0int } else { 1int }),
    {
        let found = improver.improve(&current);
        let ghost before = current;
        let ghost old_chain = chain;
        proof {
            if found is Some {
                let next = found->Some_0;
                if current != start {
                    lemma_objective_transitive(next.spec_value(), current.spec_value(), first, 0);
                }
                crate::objective::lemma_objective_asymmetric(next.spec_value(), first, 0);
            }
        }
        let (next, finished) = step_of(current, found);
        current = next;
        if finished {
            done = true;
        } else {
            proof {
                chain = old_chain.push(current);
                assert forall|i: int| 0 <= i < chain.len() - 1 implies improver.finds(
                    &chain[i],
                    &Some(#[trigger] chain[i + 1]),
                ) && objective_lt(chain[i + 1].spec_value(), chain[i].spec_value()) by {
                    if i < old_chain.len() - 1 {
                        assert(chain[i] == old_chain[i]);
                        assert(chain[i + 1] == old_chain[i + 1]);
                    } else {
                        assert(chain[i] == before);
                        assert(found == Some(chain[i + 1]));
                    }
                }
            }
            steps += 1;
        }
    }
    let r = (current, done);
    proof {
        assert(search_chain(improver, chain, start, max_steps, r.0, r.1));
    }
    r
}

/// What a search makes of a neighbour that it has evaluated while it looks
/// through neighbourhoods in several places at once.
#[derive(Debug, Clone, Copy, PartialEq, Eq, Structural)]
pub enum Seen {
    /// The neighbour beats the value: it is taken.
    Better,
    /// Another place was first: the look-through is given up.
    GiveUp,
    /// The neighbour is kept for looking into.
    Keep,
    /// The neighbour is of no use.
    Drop,
}

/// What to make of a neighbour with a value: it is taken if it beats the
/// value to beat; else the look-through is given up if it was cancelled;
/// else the neighbour is kept if there is depth left, and dropped if not.
pub fn judge(value: &ObjectiveValue, to_beat: &ObjectiveValue, cancelled: bool, remaining: u8) -> (r: Seen)
    ensures
        r == if objective_lt(value@, to_beat@) {
            Seen::Better
        } else if cancelled {
            Seen::GiveUp
        } else if remaining > 0 {
            Seen::Keep
        } else {
            Seen::Drop
        },
{
    if value.lt(to_beat) {
        Seen::Better
    } else if cancelled {
        Seen::GiveUp
    } else if remaining > 0 {
        Seen::Keep
    } else {
        Seen::Drop
    }
}

/// How a search goes on after a round in which it looked through
/// neighbourhoods in several places at once.
pub enum Next<S> {
    /// With the better solution that was found.
    Found(EvaluatedSolution<S>),
    /// One level deeper, with the neighbours that were kept.
    Deeper(Vec<EvaluatedSolution<S>>),
    /// Not at all: nothing was found and no depth is left.
    Nothing,
}

/// A list the other way round.
pub fn turned<T>(list: Vec<T>) -> (r: Vec<T>)
    ensures
        r@.len() == list@.len(),
        forall|i: int| 0 <= i < r@.len() ==> r@[i] == list@[list@.len() - 1 - i],
{
    let ghost given = list@;
    let mut rest = list;
    let mut r: Vec<T> = Vec::new();
    while rest.len() > 0
        invariant
            r@.len() + rest@.len() == given.len(),
            forall|i: int| 0 <= i < rest@.len() ==> rest@[i] == given[i],
            forall|i: int| 0 <= i < r@.len() ==> r@[i] == given[given.len() - 1 - i],
        decreases rest.len(),
    {
        let x = rest.pop().unwrap();
        r.push(x);
    }
    r
}

/// The values of the best of the solutions that some places kept, every
/// one better than the next: after the solutions of the first `k` places
/// and the first `j` solutions of the next place went into the list one
/// after the other.
pub open spec fn merged<S>(pools: Seq<Vec<EvaluatedSolution<S>>>, k: int, j: int) -> Seq<Seq<BaseValue>>
    decreases k, j,
{
    if j > 0 {
        with_candidate(merged(pools, k, j - 1), pools[k]@[j - 1].spec_value(), usize::MAX as int)
    } else if k > 0 {
        merged(pools, k - 1, pools[k - 1]@.len() as int)
    } else {
        Seq::empty()
    }
}

/// How a search goes on after a round: with the first of the best of the
/// better solutions that were found, if any was; else, if there is depth
/// left, one level deeper with the best of what the places kept; else not
/// at all.
pub fn after_round<S: LocalSearchable>(
    successes: Vec<EvaluatedSolution<S>>,
    pools: Vec<Vec<EvaluatedSolution<S>>>,
    remaining: u8,
) -> (r: Next<S>)
    requires
        forall|k: int, j: int|
            0 <= k < pools@.len() && 0 <= j < pools@[k]@.len() ==> (#[trigger] pools@[k]@[j]).spec_solution().valid(),
    ensures
        successes@.len() > 0 ==> (r matches Next::Found(n) && exists|b: int|
            best_at(values_of(successes@), b) && n == #[trigger] successes@[b]),
        successes@.len() == 0 && remaining == 0 ==> r is Nothing,
        successes@.len() == 0 && remaining > 0 ==> (r matches Next::Deeper(p) && rising(
            values_of(p@),
        ) && values_of(p@) == merged(pools@, pools@.len() as int, 0) && forall|i: int|
            0 <= i < p@.len() ==> (#[trigger] p@[i]).spec_solution().valid()),
{
    let ghost found = successes@;
    let mut candidates = successes;
    match position_of_best(&candidates) {
        Some(b) => {
            proof {
                assert forall|j: int| 0 <= j < found.len() implies !objective_lt(
                    #[trigger] values_of(found)[j],
                    values_of(found)[b as int],
                ) by {
                    assert(values_of(found)[j] == found[j].spec_value());
                }
                assert forall|j: int| 0 <= j < b implies objective_lt(
                    values_of(found)[b as int],
                    #[trigger] values_of(found)[j],
                ) by {
                    assert(values_of(found)[j] == found[j].spec_value());
                }
                assert(best_at(values_of(found), b as int));
            }
            return Next::Found(candidates.swap_remove(b));
        },
        None => {},
    }
    if remaining == 0 {
        return Next::Nothing;
    }
    let ghost given = pools@;
    let n = pools.len();
    let mut outer = turned(pools);
    let mut kept: Vec<EvaluatedSolution<S>> = Vec::new();
    let mut k: usize = 0;
    proof {
        assert(values_of(kept@) =~= merged(given, 0, 0));
    }
    while outer.len() > 0
        invariant
            k + outer@.len() == n == given.len(),
            forall|i: int| 0 <= i < outer@.len() ==> outer@[i] == given[given.len() - 1 - i],
            forall|a: int, j: int|
                0 <= a < given.len() && 0 <= j < given[a]@.len() ==> (#[trigger] given[a]@[j]).spec_solution().valid(),
            values_of(kept@) == merged(given, k as int, 0),
            rising(values_of(kept@)),
            forall|i: int| 0 <= i < kept@.len() ==> (#[trigger] kept@[i]).spec_solution().valid(),
        decreases outer.len(),
    {
        let pool = outer.pop().unwrap();
        assert(pool == given[k as int]);
        let ghost place = pool@;
        let m = pool.len();
        let mut inner = turned(pool);
        let mut j: usize = 0;
        while inner.len() > 0
            invariant
                k < given.len(),
                place == given[k as int]@,
                j + inner@.len() == m == place.len(),
                forall|i: int| 0 <= i < inner@.len() ==> inner@[i] == place[place.len() - 1 - i],
                forall|i: int| 0 <= i < place.len() ==> (#[trigger] place[i]).spec_solution().valid(),
                values_of(kept@) == merged(given, k as int, j as int),
                rising(values_of(kept@)),
                forall|i: int| 0 <= i < kept@.len() ==> (#[trigger] kept@[i]).spec_solution().valid(),
            decreases inner.len(),
        {
            let e = inner.pop().unwrap();
            assert(e == place[j as int]);
            assert(place[j as int].spec_solution().valid());
            let have = kept.len();
            assert(have <= usize::MAX);
            insert_into_pool(&mut kept, e, usize::MAX);
            proof {
                assert(values_of(kept@) == merged(given, k as int, j + 1));
            }
            j += 1;
        }
        proof {
            assert(merged(given, k + 1, 0) == merged(given, k as int, given[k as int]@.len() as int));
        }
        k += 1;
    }
    Next::Deeper(kept)
}

/// Whether every solution of a list is better than the next.
pub fn pool_in_order<S>(pool: &Vec<EvaluatedSolution<S>>) -> (b: bool)
    ensures
        b == rising(values_of(pool@)),
{
    let mut i: usize = 1;
    while i < pool.len()
        invariant
            1 <= i,
            forall|j: int|
                0 <= j < i - 1 && j < pool@.len() - 1 ==> objective_lt(
                    #[trigger] values_of(pool@)[j],
                    values_of(pool@)[j + 1],
                ),
        decreases pool.len() - i,
    {
        assert(values_of(pool@)[i - 1] == pool@[i - 1].spec_value());
        assert(values_of(pool@)[i as int] == pool@[i as int].spec_value());
        if !pool[i - 1].objective_value().lt(pool[i].objective_value()) {
            return false;
        }
        i += 1;
    }
    true
}

} // verus!
