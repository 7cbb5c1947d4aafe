//! The objective of a search: levels of weighted indicators, compared level
//! by level.

use vstd::prelude::*;
use crate::time::{duration_le, duration_sum, Duration};

verus! {

/// One value of an indicator or of a level.
#[derive(Debug, Clone, Copy, PartialEq, Eq, Structural)]
pub enum BaseValue {
    Integer(i64),
    Duration(Duration),
    /// The value above all others.
    Maximum,
    /// The value that adds nothing.
    Zero,
}

/// An integer cut off at the smallest and the largest that the type holds.
pub open spec fn clamp(x: int) -> i64 {
    if x > i64::MAX {
        i64::MAX
    } else if x < i64::MIN {
        i64::MIN
    } else {
        x as i64
    }
}

/// On which of three steps a value stands: the finite values, the infinite
/// duration above them, the maximum above that.
pub open spec fn value_class(v: BaseValue) -> int {
    match v {
        BaseValue::Maximum => 2,
        BaseValue::Duration(Duration::Infinity) => 1,
        _ => 0,
    }
}

/// The size of a finite value: an integer as it is, a duration in seconds,
/// zero for the value that adds nothing.
pub open spec fn value_size(v: BaseValue) -> int {
    match v {
        BaseValue::Integer(i) => i as int,
        BaseValue::Duration(Duration::Length(s)) => s as int,
        _ => 0,
    }
}

/// The order of values: by step, and on the step of the finite values by
/// size.
pub open spec fn value_le(a: BaseValue, b: BaseValue) -> bool {
    value_class(a) < value_class(b) || (value_class(a) == value_class(b) && value_size(a)
        <= value_size(b))
}

pub open spec fn value_lt(a: BaseValue, b: BaseValue) -> bool {
    !value_le(b, a)
}

/// The sum of two values. The maximum swallows everything, the zero adds
/// nothing, integers and durations add up among themselves, cut off where
/// they no longer fit; an integer and a duration have no sum but the maximum.
pub open spec fn value_sum(a: BaseValue, b: BaseValue) -> BaseValue {
    match (a, b) {
        (BaseValue::Maximum, _) => BaseValue::Maximum,
        (_, BaseValue::Maximum) => BaseValue::Maximum,
        (BaseValue::Zero, v) => v,
        (v, BaseValue::Zero) => v,
        (BaseValue::Integer(x), BaseValue::Integer(y)) => BaseValue::Integer(clamp(x + y)),
        (BaseValue::Duration(x), BaseValue::Duration(y)) => BaseValue::Duration(duration_sum(x, y)),
        _ => BaseValue::Maximum,
    }
}

impl BaseValue {
    pub fn plus(&self, other: BaseValue) -> (r: BaseValue)
        ensures
            r == value_sum(*self, other),
    {
        match (*self, other) {
            (BaseValue::Maximum, _) => BaseValue::Maximum,
            (_, BaseValue::Maximum) => BaseValue::Maximum,
            (BaseValue::Zero, v) => v,
            (v, BaseValue::Zero) => v,
            (BaseValue::Integer(x), BaseValue::Integer(y)) => BaseValue::Integer(
                match x.checked_add(y) {
                    Some(s) => s,
                    None => if x > 0 {
                        i64::MAX
                    } else {
                        i64::MIN
                    },
                },
            ),
            (BaseValue::Duration(x), BaseValue::Duration(y)) => BaseValue::Duration(x.plus(y)),
            _ => BaseValue::Maximum,
        }
    }

    pub fn le(&self, other: BaseValue) -> (b: bool)
        ensures
            b == value_le(*self, other),
    {
        let (ca, sa) = self.rank();
        let (cb, sb) = other.rank();
        ca < cb || (ca == cb && sa <= sb)
    }

    pub fn lt(&self, other: BaseValue) -> (b: bool)
        ensures
            b == value_lt(*self, other),
    {
        !other.le(*self)
    }

    /// The step and the size of a value.
    pub fn rank(&self) -> (r: (u8, i128))
        ensures
            r.0 == value_class(*self),
            r.1 == value_size(*self),
    {
        match *self {
            BaseValue::Maximum => (2, 0),
            BaseValue::Duration(Duration::Infinity) => (1, 0),
            BaseValue::Duration(Duration::Length(s)) => (0, s as i128),
            BaseValue::Integer(i) => (0, i as i128),
            BaseValue::Zero => (0, 0),
        }
    }
}

/// The order of values is total and transitive.
pub proof fn lemma_value_order(a: BaseValue, b: BaseValue, c: BaseValue)
    ensures
        value_le(a, a),
        value_le(a, b) || value_le(b, a),
        value_le(a, b) && value_le(b, c) ==> value_le(a, c),
        value_lt(a, b) && value_le(b, c) ==> value_lt(a, c),
        value_le(a, b) && value_lt(b, c) ==> value_lt(a, c),
        value_lt(a, BaseValue::Maximum) || value_class(a) == 2,
        value_sum(a, BaseValue::Zero) == a,
        value_sum(BaseValue::Zero, a) == a,
        value_sum(a, BaseValue::Maximum) == BaseValue::Maximum,
{
}

/// The weight of an indicator in a level.
#[derive(Debug, Clone, Copy, PartialEq, Eq, Structural)]
pub enum Coefficient {
    Integer(i32),
}

/// A value times a weight, cut off where it no longer fits. A duration
/// times a weight below zero is the empty duration.
pub open spec fn value_times(c: Coefficient, v: BaseValue) -> BaseValue {
    match c {
        Coefficient::Integer(c) => match v {
            BaseValue::Integer(b) => BaseValue::Integer(clamp(c * b)),
            BaseValue::Duration(Duration::Length(s)) => if c <= 0 {
                BaseValue::Duration(Duration::Length(0))
            } else if c * s <= u64::MAX {
                BaseValue::Duration(Duration::Length((c * s) as u64))
            } else {
                BaseValue::Duration(Duration::Infinity)
            },
            BaseValue::Duration(Duration::Infinity) => BaseValue::Duration(Duration::Infinity),
            BaseValue::Maximum => BaseValue::Maximum,
            BaseValue::Zero => BaseValue::Zero,
        },
    }
}

impl Coefficient {
    pub fn is_one(&self) -> (b: bool)
        ensures
            b == (*self == Coefficient::Integer(1)),
    {
        match self {
            Coefficient::Integer(i) => *i == 1,
        }
    }

    pub fn times(&self, v: BaseValue) -> (r: BaseValue)
        ensures
            r == value_times(*self, v),
    {
        match *self {
            Coefficient::Integer(c) => match v {
                BaseValue::Integer(b) => {
                    assert(-0x4000_0000_0000_0000_0000_0000 <= c * b
                        <= 0x4000_0000_0000_0000_0000_0000) by (nonlinear_arith)
                        requires
                            -0x8000_0000 <= c <= 0x8000_0000,
                            -0x8000_0000_0000_0000 <= b <= 0x8000_0000_0000_0000,
                    ;
                    let p: i128 = c as i128 * b as i128;
                    BaseValue::Integer(
                        if p > i64::MAX as i128 {
                            i64::MAX
                        } else if p < i64::MIN as i128 {
                            i64::MIN
                        } else {
                            p as i64
                        },
                    )
                },
                BaseValue::Duration(Duration::Length(s)) => {
                    if c <= 0 {
                        BaseValue::Duration(Duration::Length(0))
                    } else {
                        assert(0 <= c * s <= 0x8000_0000 * 0x1_0000_0000_0000_0000) by (nonlinear_arith)
                            requires
                                0 < c <= 0x8000_0000,
                                0 <= s <= 0x1_0000_0000_0000_0000,
                        ;
                        let p: u128 = c as u128 * s as u128;
                        if p <= u64::MAX as u128 {
                            BaseValue::Duration(Duration::Length(p as u64))
                        } else {
                            BaseValue::Duration(Duration::Infinity)
                        }
                    }
                },
                BaseValue::Duration(Duration::Infinity) => BaseValue::Duration(Duration::Infinity),
                BaseValue::Maximum => BaseValue::Maximum,
                BaseValue::Zero => BaseValue::Zero,
            },
        }
    }
}

/// One aspect of a solution that can be counted or measured: the number of
/// vehicles, the distance run empty, and so on.
pub trait Indicator<S> {
    /// Whether the indicator can be evaluated on a solution.
    spec fn applies(&self, solution: &S) -> bool;

    /// What the indicator says of a solution.
    spec fn value(&self, solution: &S) -> BaseValue;

    fn evaluate(&self, solution: &S) -> (r: BaseValue)
        requires
            self.applies(solution),
        ensures
            r == self.value(solution),
    ;

    fn name(&self) -> String;
}

/// A level of the objective: a sum of weighted indicators.
pub struct Level<I> {
    summands: Vec<(Coefficient, I)>,
}

/// The weighted sum of the first `n` indicators on a solution.
pub open spec fn level_value<S, I: Indicator<S>>(summands: Seq<(Coefficient, I)>, solution: &S, n: int) -> BaseValue
    decreases n,
{
    if n <= 0 {
        BaseValue::Zero
    } else {
        value_sum(
            level_value(summands, solution, n - 1),
            value_times(summands[n - 1].0, summands[n - 1].1.value(solution)),
        )
    }
}

impl<I> Level<I> {
    pub closed spec fn spec_summands(&self) -> Seq<(Coefficient, I)> {
        self.summands@
    }

    /// Whether all indicators of the level can be evaluated on a solution.
    pub open spec fn applies<S>(&self, solution: &S) -> bool where I: Indicator<S> {
        forall|i: int|
            0 <= i < self.spec_summands().len() ==> (#[trigger] self.spec_summands()[i]).1.applies(
                solution,
            )
    }

    pub fn new(summands: Vec<(Coefficient, I)>) -> (l: Level<I>)
        ensures
            l.spec_summands() == summands@,
    {
        Level { summands }
    }

    pub fn summands(&self) -> (r: &Vec<(Coefficient, I)>)
        ensures
            r@ == self.spec_summands(),
    {
        &self.summands
    }

    pub fn evaluate<S>(&self, solution: &S) -> (r: BaseValue) where I: Indicator<S>
        requires
            self.applies(solution),
        ensures
            r == level_value(self.spec_summands(), solution, self.spec_summands().len() as int),
    {
        let mut total = BaseValue::Zero;
        let mut i: usize = 0;
        while i < self.summands.len()
            invariant
                i <= self.summands.len(),
                self.applies(solution),
                total == level_value(self.spec_summands(), solution, i as int),
            decreases self.summands.len() - i,
        {
            assert(self.spec_summands()[i as int].1.applies(solution));
            let v = self.summands[i].1.evaluate(solution);
            total = total.plus(self.summands[i].0.times(v));
            i += 1;
        }
        total
    }
}

/// The value of a solution: one value for each level of the objective.
pub struct ObjectiveValue {
    values: Vec<BaseValue>,
}

impl View for ObjectiveValue {
    type V = Seq<BaseValue>;

    closed spec fn view(&self) -> Seq<BaseValue> {
        self.values@
    }
}

/// Whether `a` comes before `b`, from level `i` on: at the first level at
/// which they differ `a` has the smaller value; or they differ at none and
/// `a` has fewer levels.
pub open spec fn levels_lt(a: Seq<BaseValue>, b: Seq<BaseValue>, i: int) -> bool
    decreases a.len() - i,
{
    if i < 0 || i >= a.len() {
        i < b.len()
    } else if i >= b.len() {
        false
    } else if value_lt(a[i], b[i]) {
        true
    } else if value_lt(b[i], a[i]) {
        false
    } else {
        levels_lt(a, b, i + 1)
    }
}

/// Whether the value `a` is better than the value `b`: smaller in the first
/// level in which they differ.
pub open spec fn objective_lt(a: Seq<BaseValue>, b: Seq<BaseValue>) -> bool {
    levels_lt(a, b, 0)
}

/// Whether neither of two values is better than the other.
pub open spec fn objective_same(a: Seq<BaseValue>, b: Seq<BaseValue>) -> bool {
    !objective_lt(a, b) && !objective_lt(b, a)
}

/// No value is better than itself.
pub proof fn lemma_objective_irreflexive(a: Seq<BaseValue>, i: int)
    requires
        0 <= i,
    ensures
        !levels_lt(a, a, i),
    decreases a.len() - i,
{
    if i < a.len() {
        lemma_objective_irreflexive(a, i + 1);
    }
}

/// Of two values at most one is better than the other.
pub proof fn lemma_objective_asymmetric(a: Seq<BaseValue>, b: Seq<BaseValue>, i: int)
    requires
        0 <= i,
    ensures
        !(levels_lt(a, b, i) && levels_lt(b, a, i)),
    decreases a.len() - i,
{
    if i < a.len() && i < b.len() {
        lemma_objective_asymmetric(a, b, i + 1);
    }
}

/// What is better than something better is better.
pub proof fn lemma_objective_transitive(a: Seq<BaseValue>, b: Seq<BaseValue>, c: Seq<BaseValue>, i: int)
    requires
        0 <= i,
        levels_lt(a, b, i),
        levels_lt(b, c, i),
    ensures
        levels_lt(a, c, i),
    decreases a.len() - i,
{
    if i < a.len() && i < b.len() && i < c.len() {
        lemma_value_order(a[i], b[i], c[i]);
        lemma_value_order(c[i], b[i], a[i]);
        if !value_lt(a[i], b[i]) && !value_lt(b[i], c[i]) {
            lemma_objective_transitive(a, b, c, i + 1);
        }
    }
}

impl Clone for ObjectiveValue {
    fn clone(&self) -> (r: ObjectiveValue)
        ensures
            r@ == self@,
    {
        let mut values: Vec<BaseValue> = Vec::new();
        let mut i: usize = 0;
        while i < self.values.len()
            invariant
                i <= self.values.len(),
                values@ == self.values@.subrange(0, i as int),
            decreases self.values.len() - i,
        {
            values.push(self.values[i]);
            proof {
                assert(values@ =~= self.values@.subrange(0, i + 1));
            }
            i += 1;
        }
        proof {
            assert(self.values@.subrange(0, self.values@.len() as int) =~= self.values@);
        }
        ObjectiveValue { values }
    }
}

impl ObjectiveValue {
    pub fn new(values: Vec<BaseValue>) -> (r: ObjectiveValue)
        ensures
            r@ == values@,
    {
        ObjectiveValue { values }
    }

    /// The values, level by level.
    pub fn iter(&self) -> (r: &Vec<BaseValue>)
        ensures
            r@ == self@,
    {
        &self.values
    }

    /// Whether this value is better than the other.
    pub fn lt(&self, other: &ObjectiveValue) -> (b: bool)
        ensures
            b == objective_lt(self@, other@),
    {
        let mut i: usize = 0;
        while i < self.values.len()
            invariant
                i <= self.values.len(),
                objective_lt(self@, other@) == levels_lt(self@, other@, i as int),
            decreases self.values.len() - i,
        {
            if i >= other.values.len() {
                return false;
            }
            if self.values[i].lt(other.values[i]) {
                return true;
            }
            if other.values[i].lt(self.values[i]) {
                return false;
            }
            i += 1;
        }
        i < other.values.len()
    }

    /// Whether neither value is better than the other.
    pub fn same_as(&self, other: &ObjectiveValue) -> (b: bool)
        ensures
            b == objective_same(self@, other@),
    {
        !self.lt(other) && !other.lt(self)
    }
}

/// An objective: levels in the order of their weight. The first level
/// decides; a later level decides only among solutions that all earlier
/// levels hold for equally good.
pub struct Objective<I> {
    hierarchy_levels: Vec<Level<I>>,
}

/// The values of the first `n` levels on a solution.
pub open spec fn objective_value<S, I: Indicator<S>>(levels: Seq<Level<I>>, solution: &S, n: int) -> Seq<
    BaseValue,
>
    decreases n,
{
    if n <= 0 {
        Seq::empty()
    } else {
        objective_value(levels, solution, n - 1).push(
            level_value(
                levels[n - 1].spec_summands(),
                solution,
                levels[n - 1].spec_summands().len() as int,
            ),
        )
    }
}

/// A solution together with its value.
pub struct EvaluatedSolution<S> {
    solution: S,
    objective_value: ObjectiveValue,
}

impl<S> EvaluatedSolution<S> {
    pub closed spec fn spec_solution(&self) -> S {
        self.solution
    }

    pub closed spec fn spec_value(&self) -> Seq<BaseValue> {
        self.objective_value@
    }

    pub fn new(solution: S, objective_value: ObjectiveValue) -> (r: EvaluatedSolution<S>)
        ensures
            r.spec_solution() == solution,
            r.spec_value() == objective_value@,
    {
        EvaluatedSolution { solution, objective_value }
    }

    pub fn solution(&self) -> (r: &S)
        ensures
            *r == self.spec_solution(),
    {
        &self.solution
    }

    pub fn objective_value(&self) -> (r: &ObjectiveValue)
        ensures
            r@ == self.spec_value(),
    {
        &self.objective_value
    }

    /// The solution alone.
    pub fn into_solution(self) -> (r: S)
        ensures
            r == self.spec_solution(),
    {
        self.solution
    }
}

impl<I> Objective<I> {
    pub closed spec fn spec_levels(&self) -> Seq<Level<I>> {
        self.hierarchy_levels@
    }

    /// Whether all indicators of the objective can be evaluated on a
    /// solution.
    pub open spec fn applies<S>(&self, solution: &S) -> bool where I: Indicator<S> {
        forall|i: int|
            0 <= i < self.spec_levels().len() ==> (#[trigger] self.spec_levels()[i]).applies(solution)
    }

    /// The value that the objective gives a solution.
    pub open spec fn value_of<S>(&self, solution: &S) -> Seq<BaseValue> where I: Indicator<S> {
        objective_value(self.spec_levels(), solution, self.spec_levels().len() as int)
    }

    pub fn new(hierarchy_levels: Vec<Level<I>>) -> (o: Objective<I>)
        ensures
            o.spec_levels() == hierarchy_levels@,
    {
        Objective { hierarchy_levels }
    }

    pub fn levels(&self) -> (r: &Vec<Level<I>>)
        ensures
            r@ == self.spec_levels(),
    {
        &self.hierarchy_levels
    }

    pub fn evaluate<S>(&self, solution: S) -> (r: EvaluatedSolution<S>) where I: Indicator<S>
        requires
            self.applies(&solution),
        ensures
            r.spec_solution() == solution,
            r.spec_value() == self.value_of(&solution),
    {
        let mut values: Vec<BaseValue> = Vec::new();
        let mut i: usize = 0;
        while i < self.hierarchy_levels.len()
            invariant
                i <= self.hierarchy_levels.len(),
                self.applies(&solution),
                values@ == objective_value(self.spec_levels(), &solution, i as int),
            decreases self.hierarchy_levels.len() - i,
        {
            assert(self.spec_levels()[i as int].applies(&solution));
            values.push(self.hierarchy_levels[i].evaluate(&solution));
            i += 1;
        }
        EvaluatedSolution { solution, objective_value: ObjectiveValue { values } }
    }
}

} // verus!
