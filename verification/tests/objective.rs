use rolling_stock::local_search::{
    after_round, best_if_better, insert_into_pool, judge, pool_in_order, position_of_best, search, step_of,
    turned, LocalImprover, LocalSearchable, Minimizer, Next, Seen, TakeFirstRecursion,
};
use rolling_stock::objective::{BaseValue, Coefficient, EvaluatedSolution, Indicator, Level, Objective, ObjectiveValue};
use rolling_stock::time::Duration;
use std::sync::Arc;

#[test]
fn values_add_up() {
    let i = |x: i64| BaseValue::Integer(x);
    let d = |x: u64| BaseValue::Duration(Duration::from_seconds(x));
    assert_eq!(i(3).plus(i(4)), i(7));
    assert_eq!(i(i64::MAX).plus(i(1)), i(i64::MAX));
    assert_eq!(i(i64::MIN).plus(i(-1)), i(i64::MIN));
    assert_eq!(d(3).plus(d(4)), d(7));
    assert_eq!(d(u64::MAX).plus(d(1)), BaseValue::Duration(Duration::Infinity));
    assert_eq!(BaseValue::Zero.plus(i(5)), i(5));
    assert_eq!(d(5).plus(BaseValue::Zero), d(5));
    assert_eq!(BaseValue::Zero.plus(BaseValue::Zero), BaseValue::Zero);
    assert_eq!(BaseValue::Maximum.plus(i(5)), BaseValue::Maximum);
    assert_eq!(BaseValue::Zero.plus(BaseValue::Maximum), BaseValue::Maximum);
    assert_eq!(i(5).plus(d(5)), BaseValue::Maximum);
}

#[test]
fn values_are_ordered() {
    let i = |x: i64| BaseValue::Integer(x);
    let d = |x: u64| BaseValue::Duration(Duration::from_seconds(x));
    assert!(BaseValue::Zero.lt(i(1)));
    assert!(i(-1).lt(BaseValue::Zero));
    assert!(BaseValue::Zero.le(i(0)));
    assert!(i(0).le(BaseValue::Zero));
    assert!(i(1).lt(BaseValue::Maximum));
    assert!(BaseValue::Zero.lt(BaseValue::Maximum));
    assert!(!BaseValue::Maximum.lt(BaseValue::Maximum));
    assert!(d(1).lt(d(2)));
    assert!(d(u64::MAX).lt(BaseValue::Duration(Duration::Infinity)));
    assert!(BaseValue::Duration(Duration::Infinity).lt(BaseValue::Maximum));
    assert!(BaseValue::Zero.lt(d(1)));
    assert!(i(3).lt(i(4)));
    assert!(!i(4).le(i(3)));
    assert!(i(3).lt(d(4)));
    assert_eq!(BaseValue::Maximum.rank(), (2, 0));
    assert_eq!(i(-7).rank(), (0, -7));
}

#[test]
fn weights_multiply_values() {
    let two = Coefficient::Integer(2);
    assert!(Coefficient::Integer(1).is_one());
    assert!(!two.is_one());
    assert_eq!(two.times(BaseValue::Integer(21)), BaseValue::Integer(42));
    assert_eq!(two.times(BaseValue::Integer(i64::MAX)), BaseValue::Integer(i64::MAX));
    assert_eq!(Coefficient::Integer(-2).times(BaseValue::Integer(i64::MAX)), BaseValue::Integer(i64::MIN));
    assert_eq!(two.times(BaseValue::Duration(Duration::from_seconds(30))), BaseValue::Duration(Duration::from_seconds(60)));
    assert_eq!(
        two.times(BaseValue::Duration(Duration::from_seconds(u64::MAX))),
        BaseValue::Duration(Duration::Infinity)
    );
    assert_eq!(
        Coefficient::Integer(-1).times(BaseValue::Duration(Duration::from_seconds(30))),
        BaseValue::Duration(Duration::from_seconds(0))
    );
    assert_eq!(two.times(BaseValue::Duration(Duration::Infinity)), BaseValue::Duration(Duration::Infinity));
    assert_eq!(two.times(BaseValue::Maximum), BaseValue::Maximum);
    assert_eq!(two.times(BaseValue::Zero), BaseValue::Zero);
}

fn value(levels: &[i64]) -> ObjectiveValue {
    ObjectiveValue::new(levels.iter().map(|&x| BaseValue::Integer(x)).collect())
}

#[test]
fn the_first_level_that_differs_decides() {
    assert!(value(&[1, 9, 9]).lt(&value(&[2, 0, 0])));
    assert!(value(&[1, 2, 3]).lt(&value(&[1, 2, 4])));
    assert!(!value(&[1, 2, 3]).lt(&value(&[1, 2, 3])));
    assert!(value(&[1, 2, 3]).same_as(&value(&[1, 2, 3])));
    assert!(!value(&[1, 3, 0]).lt(&value(&[1, 2, 9])));
    assert!(value(&[1, 2]).lt(&value(&[1, 2, 0])));
    assert!(!value(&[1, 2, 0]).lt(&value(&[1, 2])));
    let zero = ObjectiveValue::new(vec![BaseValue::Zero]);
    assert!(zero.same_as(&value(&[0])));
    assert_eq!(value(&[4, 5]).clone().iter(), &vec![BaseValue::Integer(4), BaseValue::Integer(5)]);
}

/// A number whose neighbours are the numbers next to it and its half.
#[derive(Debug, Clone, PartialEq)]
struct Number(i64);

impl LocalSearchable for Number {
    fn valid(&self) -> bool {
        true
    }

    fn neighbours_are(&self, list: &Vec<Number>) -> bool {
        list == &vec![Number(self.0 + 1), Number(self.0 - 1), Number(self.0 / 2)]
    }

    fn neighborhood(&self) -> Vec<Number> {
        vec![Number(self.0 + 1), Number(self.0 - 1), Number(self.0 / 2)]
    }
}

/// How far a number is from a target.
struct Distance(i64);

impl Indicator<Number> for Distance {
    fn applies(&self, _solution: &Number) -> bool {
        true
    }

    fn value(&self, solution: &Number) -> BaseValue {
        self.evaluate(solution)
    }

    fn evaluate(&self, solution: &Number) -> BaseValue {
        BaseValue::Integer((solution.0 - self.0).abs())
    }

    fn name(&self) -> String {
        String::from("distance")
    }
}

/// Whether a number is odd.
struct Odd;

impl Indicator<Number> for Odd {
    fn applies(&self, _solution: &Number) -> bool {
        true
    }

    fn value(&self, solution: &Number) -> BaseValue {
        self.evaluate(solution)
    }

    fn evaluate(&self, solution: &Number) -> BaseValue {
        if solution.0 % 2 == 0 {
            BaseValue::Zero
        } else {
            BaseValue::Integer(1)
        }
    }

    fn name(&self) -> String {
        String::from("odd")
    }
}

fn near(target: i64) -> Arc<Objective<Distance>> {
    Arc::new(Objective::new(vec![Level::new(vec![(Coefficient::Integer(3), Distance(target))])]))
}

#[test]
fn a_level_is_a_weighted_sum() {
    let level = Level::new(vec![(Coefficient::Integer(3), Distance(10)), (Coefficient::Integer(2), Distance(0))]);
    assert_eq!(level.evaluate(&Number(4)), BaseValue::Integer(26));
    assert_eq!(level.summands().len(), 2);
    let none: Level<Distance> = Level::new(vec![]);
    assert_eq!(none.evaluate(&Number(4)), BaseValue::Zero);
    let objective = Objective::new(vec![
        Level::new(vec![(Coefficient::Integer(1), Distance(10))]),
        Level::new(vec![(Coefficient::Integer(1), Distance(0))]),
    ]);
    let e = objective.evaluate(Number(7));
    assert_eq!(e.solution(), &Number(7));
    assert_eq!(e.objective_value().iter(), &vec![BaseValue::Integer(3), BaseValue::Integer(7)]);
    assert_eq!(objective.levels().len(), 2);
    assert_eq!(e.into_solution(), Number(7));
    let parity = Level::new(vec![(Coefficient::Integer(5), Odd)]);
    assert_eq!(parity.evaluate(&Number(4)), BaseValue::Zero);
    assert_eq!(parity.evaluate(&Number(5)), BaseValue::Integer(5));
}

#[test]
fn the_minimizer_takes_the_best_neighbour() {
    let objective = near(0);
    let improver = Minimizer::new(objective.clone());
    let next = improver.improve(&objective.evaluate(Number(40))).unwrap();
    assert_eq!(next.solution(), &Number(20));
    assert_eq!(next.objective_value().iter(), &vec![BaseValue::Integer(60)]);
    assert!(improver.improve(&objective.evaluate(Number(0))).is_none());
    let (last, finished) = search(&improver, objective.evaluate(Number(40)), 100);
    assert!(finished);
    assert_eq!(last.solution(), &Number(0));
}

#[test]
fn take_first_takes_the_first_neighbour_that_is_better() {
    let objective = near(0);
    let improver = TakeFirstRecursion::new(0, None, objective.clone());
    // 39 is the first neighbour of 40 that is nearer to 0 than 40
    let next = improver.improve(&objective.evaluate(Number(40))).unwrap();
    assert_eq!(next.solution(), &Number(39));
    assert!(improver.improve(&objective.evaluate(Number(0))).is_none());
}

#[test]
fn take_first_looks_deeper_where_no_neighbour_is_better() {
    // from 10 the nearest to 7 in two steps: no neighbour of 10 is nearer to
    // 7 than 10 itself but 9, so the search needs no depth
    let objective = near(7);
    assert_eq!(
        TakeFirstRecursion::new(0, Some(3), objective.clone())
            .improve(&objective.evaluate(Number(10)))
            .unwrap()
            .solution(),
        &Number(9)
    );
    // a target whose way leads over a worse number
    struct Far;
    impl Indicator<Number> for Far {
        fn applies(&self, _solution: &Number) -> bool {
            true
        }

        fn value(&self, solution: &Number) -> BaseValue {
            self.evaluate(solution)
        }

        fn evaluate(&self, solution: &Number) -> BaseValue {
            // 8 is the best and 4 the second best; 6 and 7 are better than the rest
            BaseValue::Integer(match solution.0 {
                8 => 0,
                4 => 1,
                6 => 5,
                7 => 6,
                _ => 9,
            })
        }

        fn name(&self) -> String {
            String::from("far")
        }
    }
    let objective = Arc::new(Objective::new(vec![Level::new(vec![(Coefficient::Integer(1), Far)])]));
    let start = objective.evaluate(Number(6));
    // the neighbours of 6 are 7, 5 and 3: none is better
    assert!(TakeFirstRecursion::new(0, Some(3), objective.clone()).improve(&start).is_none());
    // one step deeper, 8 is a neighbour of 7
    let next = TakeFirstRecursion::new(1, Some(3), objective.clone()).improve(&start).unwrap();
    assert_eq!(next.solution(), &Number(8));
    // with room for the best neighbour only, 7 is looked into and 8 is found
    let next = TakeFirstRecursion::new(1, Some(1), objective.clone()).improve(&start).unwrap();
    assert_eq!(next.solution(), &Number(8));
    // without a bound on the width all neighbours are looked into
    let next = TakeFirstRecursion::new(1, None, objective.clone()).improve(&start).unwrap();
    assert_eq!(next.solution(), &Number(8));
}

fn evaluated(n: i64, v: i64) -> EvaluatedSolution<Number> {
    EvaluatedSolution::new(Number(n), value(&[v]))
}

#[test]
fn the_pool_keeps_the_best_in_order() {
    let mut pool: Vec<EvaluatedSolution<Number>> = Vec::new();
    for (n, v) in [(1, 50), (2, 30), (3, 40), (4, 30), (5, 10), (6, 60)] {
        insert_into_pool(&mut pool, evaluated(n, v), 3);
    }
    let numbers: Vec<i64> = pool.iter().map(|e| e.solution().0).collect();
    // 4 is as good as 2, which came first; 1 and 6 are too bad
    assert_eq!(numbers, vec![5, 2, 3]);
    let mut none: Vec<EvaluatedSolution<Number>> = Vec::new();
    insert_into_pool(&mut none, evaluated(1, 50), 0);
    assert!(none.is_empty());
    assert_eq!(position_of_best(&pool), Some(0));
    assert_eq!(position_of_best(&none), None);
    let list = vec![evaluated(1, 50), evaluated(2, 30), evaluated(3, 40), evaluated(4, 30)];
    assert_eq!(position_of_best(&list), Some(1));
}

fn five() -> Vec<EvaluatedSolution<Number>> {
    vec![evaluated(1, 50), evaluated(2, 30), evaluated(3, 40), evaluated(4, 20), evaluated(5, 20)]
}

fn numbers(pool: &Vec<EvaluatedSolution<Number>>) -> Vec<i64> {
    pool.iter().map(|e| e.solution().0).collect()
}

#[test]
fn the_best_is_taken_if_it_beats_the_value() {
    // 4 is the first of the two best
    assert_eq!(best_if_better(five(), &value(&[21])).unwrap().solution(), &Number(4));
    assert!(best_if_better(five(), &value(&[20])).is_none());
    let none: Vec<EvaluatedSolution<Number>> = Vec::new();
    assert!(best_if_better(none, &value(&[20])).is_none());
}

#[test]
fn the_first_that_beats_the_value_is_taken() {
    let improver = TakeFirstRecursion::new(1, Some(2), near(0));
    // 2 is the first below 35; 1, which came before it, goes into the pool
    let mut pool = Vec::new();
    let taken = improver.take_first(five(), &value(&[35]), &mut pool, true).unwrap();
    assert_eq!(taken.solution(), &Number(2));
    assert_eq!(numbers(&pool), vec![1]);
    // 4 is the first below 25; of the three before it the best two are kept
    let mut pool = Vec::new();
    let taken = improver.take_first(five(), &value(&[25]), &mut pool, true).unwrap();
    assert_eq!(taken.solution(), &Number(4));
    assert_eq!(numbers(&pool), vec![2, 3]);
    // nothing is below 20: the best two of all are kept, 5 is as good as 4 and stays out
    let mut pool = Vec::new();
    assert!(improver.take_first(five(), &value(&[20]), &mut pool, true).is_none());
    assert_eq!(numbers(&pool), vec![4, 2]);
    // nothing is kept unless it is asked for
    let mut pool = Vec::new();
    assert!(improver.take_first(five(), &value(&[20]), &mut pool, false).is_none());
    assert!(pool.is_empty());
    // a pool without a bound keeps what was seen in its order
    let wide = TakeFirstRecursion::new(1, None, near(0));
    let mut pool = vec![evaluated(9, 1)];
    let taken = wide.take_first(five(), &value(&[25]), &mut pool, true).unwrap();
    assert_eq!(taken.solution(), &Number(4));
    assert_eq!(numbers(&pool), vec![9, 1, 2, 3]);
}

#[test]
fn a_search_makes_no_more_steps_than_it_may() {
    let objective = near(0);
    let improver = Minimizer::new(objective.clone());
    // without a step the search ends where it starts, and is not done
    let (last, done) = search(&improver, objective.evaluate(Number(40)), 0);
    assert_eq!((last.solution(), done), (&Number(40), false));
    // the best neighbour of 40 is 20, that of 20 is 10
    let (last, done) = search(&improver, objective.evaluate(Number(40)), 1);
    assert_eq!((last.solution(), done), (&Number(20), false));
    let (last, done) = search(&improver, objective.evaluate(Number(40)), 2);
    assert_eq!((last.solution(), done), (&Number(10), false));
    // 40, 20, 10, 5, 2, 1, 0: after six steps nothing is better
    let (last, done) = search(&improver, objective.evaluate(Number(40)), 6);
    assert_eq!((last.solution(), done), (&Number(0), false));
    let (last, done) = search(&improver, objective.evaluate(Number(40)), 7);
    assert_eq!((last.solution(), done), (&Number(0), true));
    let (next, done) = step_of(evaluated(1, 50), Some(evaluated(2, 30)));
    assert_eq!((next.solution(), done), (&Number(2), false));
    let (next, done) = step_of(evaluated(1, 50), None);
    assert_eq!((next.solution(), done), (&Number(1), true));
}

#[test]
fn a_round_in_several_places_is_judged_and_summed_up() {
    let better = value(&[10]);
    let worse = value(&[30]);
    let to_beat = value(&[20]);
    assert_eq!(judge(&better, &to_beat, true, 0), Seen::Better);
    assert_eq!(judge(&worse, &to_beat, true, 3), Seen::GiveUp);
    assert_eq!(judge(&worse, &to_beat, false, 3), Seen::Keep);
    assert_eq!(judge(&worse, &to_beat, false, 0), Seen::Drop);
    assert_eq!(judge(&to_beat, &to_beat, false, 0), Seen::Drop);
    // the first of the best of what was found is taken
    match after_round(vec![evaluated(1, 50), evaluated(2, 30), evaluated(3, 30)], vec![five()], 2) {
        Next::Found(n) => assert_eq!(n.solution(), &Number(2)),
        _ => panic!("a solution was found"),
    }
    // nothing found and no depth left
    assert!(matches!(after_round(Vec::<EvaluatedSolution<Number>>::new(), vec![five()], 0), Next::Nothing));
    // nothing found: what was kept goes on in order, one of every value
    match after_round(Vec::new(), vec![five(), vec![evaluated(7, 45), evaluated(8, 20)], Vec::new()], 1) {
        Next::Deeper(pool) => {
            assert_eq!(numbers(&pool), vec![4, 2, 3, 7, 1]);
            assert!(pool_in_order(&pool));
        }
        _ => panic!("the search goes deeper"),
    }
    assert!(!pool_in_order(&five()));
    assert!(pool_in_order(&Vec::<EvaluatedSolution<Number>>::new()));
    assert_eq!(turned(vec![1, 2, 3]), vec![3, 2, 1]);
}
