use argmin::float::{compare, is_at_most, is_finite, is_infinite, larger_of, smaller_of};
use argmin::nsgaii::{Individual, NsgaII};
use argmin::ordering::{sort_by, Precedence};
use argmin::particleswarm::Position;
use argmin::random::unit_draw;
use argmin::text::decimal;
use argmin::{ArgminFloat, Error, Order, RandomSource, RangeSource, Real, Whole};
use rand::rngs::StdRng;
use rand::SeedableRng;

fn whole(n: i64) -> Whole {
    Whole::Finite(n)
}

#[test]
fn whole_numbers_compare() {
    assert!(whole(1).less(whole(2)));
    assert!(!Whole::Undefined.less(whole(2)));
    assert!(!Whole::Undefined.same(Whole::Undefined));
    assert_eq!(compare(whole(3), whole(2)), Order::Greater);
    assert_eq!(compare(whole(3), Whole::Undefined), Order::Equal);
    assert_eq!(compare(Whole::NegInfinite, whole(2)), Order::Less);
    assert!(is_at_most(whole(2), whole(2)));
    assert!(is_infinite(Whole::Infinite));
    assert!(is_finite(whole(0)));
    assert!(!is_finite(Whole::Undefined));
    assert_eq!(larger_of(Whole::Undefined, whole(2)), whole(2));
    assert_eq!(larger_of(whole(2), Whole::Undefined), whole(2));
    assert_eq!(smaller_of(whole(4), whole(2)), whole(2));
}

#[test]
fn whole_numbers_calculate() {
    assert_eq!(whole(2).plus(whole(3)), whole(5));
    assert_eq!(whole(i64::MAX).plus(whole(1)), Whole::Infinite);
    assert_eq!(whole(2).minus(whole(3)), whole(-1));
    assert_eq!(Whole::Infinite.minus(Whole::Infinite), Whole::Undefined);
    assert_eq!(whole(-4).times(whole(3)), whole(-12));
    assert_eq!(whole(-7).over(whole(2)), whole(-3));
    assert_eq!(whole(1).over(whole(0)), Whole::Infinite);
    assert_eq!(whole(-9).magnitude(), whole(9));
    assert_eq!(whole(17).root(), whole(4));
    assert_eq!(whole(-1).root(), Whole::Undefined);
    assert_eq!(whole(3).power(whole(4)), whole(81));
    assert_eq!(Whole::decimal(25, 1), whole(2));
    assert_eq!(Whole::from_u64(7), whole(7));
    assert_eq!(Whole::unit(5), whole(0));
    assert_eq!(whole(-120).text(), "-120");
    assert_eq!(Whole::NegInfinite.text(), "-inf");
    assert_eq!(Whole::cast(whole(3)), Some(whole(3)));
    assert_eq!(Whole::narrow(whole(3)).widen(), whole(3));
}

#[test]
fn errors_are_put_in_words() {
    assert_eq!(
        Error::invalid_parameter("a").message(),
        "Invalid parameter: \"a\""
    );
    assert_eq!(Error::potential_bug("b").message(), "Potential bug: \"b\"");
    assert_eq!(Error::msg("c").message(), "c");
    assert_eq!(decimal(0), "0");
    assert_eq!(decimal(18446744073709551615), "18446744073709551615");
}

/// Orders pairs by their first component.
struct ByFirst;

impl Precedence<(i32, char)> for ByFirst {
    fn precedes(&self, a: &(i32, char), b: &(i32, char)) -> bool {
        a.0 < b.0
    }
}

#[test]
fn sorting_is_stable() {
    let sorted = sort_by(&ByFirst, vec![(2, 'a'), (1, 'b'), (2, 'c'), (1, 'd'), (0, 'e')]);
    assert_eq!(
        sorted,
        vec![(0, 'e'), (1, 'b'), (1, 'd'), (2, 'a'), (2, 'c')]
    );
}

/// A generator that always gives the same word.
struct Constant(u64);

impl RandomSource for Constant {
    fn word(&mut self) -> u64 {
        self.0
    }

    fn index_below(&mut self, bound: usize) -> usize {
        (self.0 % bound as u64) as usize
    }
}

#[test]
fn standard_generator_stays_in_its_ranges() {
    let mut rng = StdRng::seed_from_u64(9);
    let mut other = StdRng::seed_from_u64(9);
    let words: Vec<u64> = (0..8).map(|_| rng.word()).collect();
    assert!(words.windows(2).any(|w| w[0] != w[1]));
    assert_eq!(other.word(), words[0]);
    let indices: Vec<usize> = (0..100).map(|_| rng.index_below(7)).collect();
    assert!(indices.iter().all(|i| *i < 7));
    assert!(indices.iter().any(|i| *i != indices[0]));
    for _ in 0..100 {
        match rng.between(whole(-3), whole(4)) {
            Whole::Finite(n) => assert!(-3 <= n && n < 4),
            _ => panic!("not a number"),
        }
    }
    assert_eq!(unit_draw::<Whole, Constant>(&mut Constant(u64::MAX)), whole(0));
    let a = vec![whole(0), whole(5)];
    let b = vec![whole(10), whole(5)];
    let drawn = Vec::<Whole>::rand_from_range(&a, &b, &mut rng);
    assert_eq!(drawn[1], whole(5));
}

#[test]
fn whole_objectives_are_ranked() {
    let solver = NsgaII::<Whole>::new(vec![(whole(0), whole(9))], 4).ok().unwrap();
    let mut population = vec![
        Individual::new(vec![whole(0)], vec![whole(3), whole(3)]),
        Individual::new(vec![whole(1)], vec![whole(1), whole(2)]),
        Individual::new(vec![whole(2)], vec![whole(2), whole(1)]),
    ];
    solver.fast_non_dominated_sort(&mut population);
    let ranks: Vec<usize> = population.iter().map(|i| i.rank).collect();
    assert_eq!(ranks, vec![1, 0, 0]);
    // two standard generators are seeded apart
    let mut first = NsgaII::<Whole>::new(vec![(whole(0), whole(9))], 4).ok().unwrap();
    let mut second = NsgaII::<Whole>::new(vec![(whole(0), whole(9))], 4).ok().unwrap();
    let a: Vec<u64> = (0..4).map(|_| first.rng.word()).collect();
    let b: Vec<u64> = (0..4).map(|_| second.rng.word()).collect();
    assert!(a != b);
}
