use std::cell::RefCell;

use typecore::arrays::{each_plus, equal_arrays, every, hi, join, negate_each, plus_each, some};
use typecore::numeric::{fact, square, square_short};
use typecore::surreal::{Sur, S0, S1};

#[test]
fn fact_of_five_is_120() {
    assert_eq!(fact(5), 120);
}

#[test]
fn fact_of_zero_is_one() {
    assert_eq!(fact(0), 1);
}

#[test]
fn fact_of_twenty_is_the_last_that_fits() {
    assert_eq!(fact(20), 2432902008176640000);
}

#[test]
fn square_of_four_is_16() {
    assert_eq!(square(4), 16);
    assert_eq!(square(-4), 16);
}

#[test]
fn square_short_of_four_is_16() {
    assert_eq!(square_short(4), 16);
}

#[test]
fn square_at_the_bound() {
    assert_eq!(square(3037000499), 9223372030926249001);
}

#[test]
fn hi_returns_its_argument() {
    assert_eq!(hi(vec![]), Vec::<i64>::new());
    assert_eq!(hi(vec![1, 2]), vec![1, 2]);
}

#[test]
fn join_concatenates() {
    assert_eq!(join(vec![1, 2, 3], vec![4, 5, 6]), vec![1, 2, 3, 4, 5, 6]);
    assert_eq!(join(vec![7, 1, 2], vec![3, 4, 5]), vec![7, 1, 2, 3, 4, 5]);
    assert_eq!(join(Vec::<i64>::new(), vec![3]), vec![3]);
    assert_eq!(join(vec![3], Vec::<i64>::new()), vec![3]);
}

#[test]
fn negate_each_negates() {
    assert_eq!(negate_each(&vec![3, -7, 5]), vec![-3, 7, -5]);
    assert_eq!(negate_each(&vec![]), Vec::<i64>::new());
}

#[test]
fn map_applies_in_order() {
    assert_eq!(typecore::arrays::map(&vec![3, 7, 5], |x: &i64| x + 2), vec![5, 9, 7]);
    let seen = RefCell::new(Vec::new());
    let out = typecore::arrays::map(&vec![1, 2, 3], |x: &i64| {
        seen.borrow_mut().push(*x);
        *x == 2
    });
    assert_eq!(out, vec![false, true, false]);
    assert_eq!(*seen.borrow(), vec![1, 2, 3]);
}

#[test]
fn some_stops_at_the_first_hit() {
    let seen = RefCell::new(Vec::new());
    let found = some(&vec![2, 4, 3], |x: &i64| {
        seen.borrow_mut().push(*x);
        x % 2 == 0
    });
    assert!(found);
    assert_eq!(*seen.borrow(), vec![2]);
}

#[test]
fn some_visits_all_when_nothing_matches() {
    let seen = RefCell::new(Vec::new());
    let found = some(&vec![1, 5, 3], |x: &i64| {
        seen.borrow_mut().push(*x);
        x % 2 == 0
    });
    assert!(!found);
    assert_eq!(*seen.borrow(), vec![1, 5, 3]);
}

#[test]
fn every_stops_at_the_first_miss() {
    let seen = RefCell::new(Vec::new());
    let all = every(&vec![2, 4, 3, 6], |x: &i64| {
        seen.borrow_mut().push(*x);
        x % 2 == 0
    });
    assert!(!all);
    assert_eq!(*seen.borrow(), vec![2, 4, 3]);
    assert!(every(&vec![2, 4, 6], |x: &i64| x % 2 == 0));
    assert!(every(&Vec::<i64>::new(), |x: &i64| x % 2 == 0));
    assert!(!some(&Vec::<i64>::new(), |x: &i64| x % 2 == 0));
}

#[test]
fn zero_has_no_options() {
    let zero = S0();
    assert!(zero.lhs.is_empty());
    assert!(zero.rhs.is_empty());
}

#[test]
fn one_has_zero_on_the_left() {
    let one = Sur(vec![S0()]);
    assert_eq!(one.lhs.len(), 1);
    assert!(one.lhs[0].lhs.is_empty());
    assert!(one.lhs[0].rhs.is_empty());
    assert!(one.rhs.is_empty());
}

fn sur_of(lhs: Vec<Sur>, rhs: Vec<Sur>) -> Sur {
    Sur { lhs, rhs }
}

fn two() -> Sur {
    Sur(vec![S1()])
}

fn minus_one() -> Sur {
    sur_of(vec![], vec![S0()])
}

fn half() -> Sur {
    sur_of(vec![S0()], vec![S1()])
}

fn one_and_a_half() -> Sur {
    sur_of(vec![S1()], vec![two()])
}

fn shape(x: &Sur) -> String {
    let side = |v: &Vec<Sur>| v.iter().map(shape).collect::<Vec<_>>().join(",");
    format!("{{{}|{}}}", side(&x.lhs), side(&x.rhs))
}

#[test]
fn one_is_zero_on_the_left() {
    assert_eq!(shape(&S1()), "{{|}|}");
    assert_eq!(shape(&S0()), "{|}");
}

#[test]
fn negation_swaps_and_negates_the_options() {
    assert_eq!(shape(&S0().neg()), "{|}");
    assert_eq!(shape(&S1().neg()), "{|{|}}");
    assert_eq!(shape(&minus_one().neg()), "{{|}|}");
    assert_eq!(shape(&half().neg()), "{{|{|}}|{|}}");
    assert_eq!(shape(&one_and_a_half().neg().neg()), shape(&one_and_a_half()));
}

#[test]
fn zero_and_one_are_ordered() {
    assert!(S0().le(&S1()));
    assert!(!S1().le(&S0()));
    assert!(S1().other_number(&S0()));
    assert!(!S1().lt(&S0()));
    assert!(S0().lt(&S1()));
    assert!(S1().gt(&S0()));
    assert!(S1().ge(&S0()));
    assert!(S0().ge(&S0()));
    assert!(S0().le(&S0()));
    assert!(minus_one().le(&S0()));
    assert!(!S0().le(&minus_one()));
}

#[test]
fn fractions_lie_between_their_options() {
    assert!(S0().lt(&half()));
    assert!(half().lt(&S1()));
    assert!(S1().lt(&one_and_a_half()));
    assert!(one_and_a_half().lt(&two()));
    assert!(!half().same_number(&S0()));
}

#[test]
fn different_forms_can_be_the_same_number() {
    // { -1 | 1 } is zero.
    let between = sur_of(vec![minus_one()], vec![S1()]);
    assert!(between.same_number(&S0()));
    assert!(!between.other_number(&S0()));
    assert_ne!(shape(&between), shape(&S0()));
}

#[test]
fn addition_adds() {
    assert!(S1().plus(&S1()).same_number(&two()));
    assert!(S0().same_number(&minus_one().plus(&S1())));
    assert!(S1().plus(&S0()).same_number(&S1()));
    assert_eq!(shape(&S1().plus(&S0())), "{{|}|}");
    assert_eq!(shape(&S0().plus(&S0())), "{|}");
    // Left options: those of the first operand plus the second, then those of
    // the second plus the first.
    assert_eq!(shape(&S1().plus(&S1())), "{{{|}|},{{|}|}|}");
    assert!(one_and_a_half().plus(&one_and_a_half()).same_number(&S1().plus(&two())));
}

#[test]
fn subtraction_adds_the_negation() {
    assert!(S0().minus(&S1()).same_number(&minus_one()));
    assert_eq!(shape(&S0().minus(&S1())), shape(&S0().plus(&S1().neg())));
    let three = S1().plus(&S1()).plus(&S1());
    let four = S1().plus(&S1().plus(&S1()).plus(&S1()));
    let five = S1().plus(&S1()).plus(&S1()).plus(&S1()).plus(&S1());
    assert!(three.lt(&four));
    assert!(five.minus(&S1()).same_number(&four));
}

#[test]
fn array_plus_value_adds_to_each_element() {
    assert_eq!(plus_each(&vec![1, 2, 3], &4, |x: &i64, y: &i64| x + y), vec![5, 6, 7]);
    assert_eq!(each_plus(&4, &vec![1, 2, 3], |x: &i64, y: &i64| x - y), vec![3, 2, 1]);
    assert_eq!(plus_each(&Vec::<i64>::new(), &4, |x: &i64, y: &i64| x + y), Vec::<i64>::new());
}

#[test]
fn arrays_are_equal_element_by_element() {
    let differ = |x: &i64, y: &i64| x != y;
    assert!(equal_arrays(&vec![7, 1, 2, 3, 4, 5], &join(vec![7, 1, 2], vec![3, 4, 5]), differ));
    assert!(equal_arrays(&negate_each(&vec![3, -7, 5]), &vec![-3, 7, -5], differ));
    assert!(!equal_arrays(&vec![1, 2], &vec![1, 2, 3], differ));
    assert!(!equal_arrays(&vec![1, 2, 3], &vec![1, 5, 3], differ));
    assert!(equal_arrays(&Vec::<i64>::new(), &Vec::<i64>::new(), differ));
    let seen = RefCell::new(Vec::new());
    let counted = |x: &i64, y: &i64| {
        seen.borrow_mut().push(*x);
        x != y
    };
    assert!(!equal_arrays(&vec![1, 2, 3], &vec![1, 5, 3], counted));
    assert_eq!(*seen.borrow(), vec![1, 2]);
}
