use ready_set_boole::set::{try_evaluate, EvaluationError, FiniteSet};

fn check_powerset(input: &[i32], expected: &[&[i32]]) {
    let set = FiniteSet::try_from(input.to_vec()).unwrap();
    let expected: Vec<FiniteSet<i32>> = expected
        .iter()
        .map(|s| FiniteSet::try_from(s.to_vec()).unwrap())
        .collect();
    let got: Vec<FiniteSet<i32>> = set.powerset().iter().map(|s| s.cloned()).collect();
    assert!(got == expected);
}

fn check_evaluate(expression: &str, input: &[&[i32]], expected: &[i32]) {
    let input: Vec<_> = input
        .iter()
        .map(|s| FiniteSet::try_from(s.to_vec()).unwrap())
        .collect();
    let expected = FiniteSet::try_from(expected.to_vec()).unwrap();
    let output = try_evaluate(expression, input).unwrap();
    assert_eq!(output, expected);
}

fn set_of(items: &[i32]) -> FiniteSet<i32> {
    FiniteSet::try_from(items.to_vec()).unwrap()
}

#[test]
fn set_powerset() {
    check_powerset(&[], &[&[]]);
    check_powerset(&[1], &[&[], &[1]]);
    check_powerset(&[1, 2], &[&[], &[1], &[2], &[1, 2]]);
    check_powerset(
        &[1, 2, 3],
        &[&[], &[1], &[2], &[1, 2], &[3], &[1, 3], &[2, 3], &[1, 2, 3]],
    )
}

#[test]
fn evaluate() {
    check_evaluate("AB&", &[&[0, 1, 2], &[0, 3, 4]], &[0]);
    check_evaluate("AB|", &[&[0, 1, 2], &[3, 4, 5]], &[0, 1, 2, 3, 4, 5]);
    check_evaluate("A!", &[&[0, 1, 2]], &[]);
}

#[test]
fn try_from_rejects_duplicates() {
    assert_eq!(FiniteSet::try_from(vec![1, 2, 1]).unwrap_err(), vec![1, 2, 1]);
    assert_eq!(set_of(&[3, 1]).into_vec(), vec![3, 1]);
}

#[test]
fn set_operations_keep_order() {
    let a = set_of(&[1, 2, 3, 4]);
    let b = set_of(&[4, 5, 2]);
    assert_eq!(a.union(&b).into_vec(), vec![1, 2, 3, 4, 5]);
    assert_eq!(a.intersection(&b).into_vec(), vec![2, 4]);
    assert_eq!(a.xunion(&b).into_vec(), vec![1, 3, 5]);
    assert_eq!(a.without(&b).into_vec(), vec![1, 3]);
    assert_eq!(a.clone().into_vec(), vec![1, 2, 3, 4]);
    assert_eq!(FiniteSet::<i32>::default().into_vec(), Vec::<i32>::new());
}

#[test]
fn set_equality_ignores_order() {
    assert!(set_of(&[1, 2, 3]) == set_of(&[3, 1, 2]));
    assert!(set_of(&[1, 2]) != set_of(&[1, 2, 3]));
    assert!(set_of(&[1, 4]) != set_of(&[1, 2]));
}

#[test]
fn evaluate_errors() {
    let one = || vec![set_of(&[1])];
    assert_eq!(try_evaluate("AB|", one()).unwrap_err(), EvaluationError::UnspecifiedVar);
    assert_eq!(try_evaluate("A|", one()).unwrap_err(), EvaluationError::MissingArgument);
    assert_eq!(try_evaluate("AA", one()).unwrap_err(), EvaluationError::IncompleteComputation);
    assert_eq!(try_evaluate("A1|", one()).unwrap_err(), EvaluationError::UnknownSymbol);
    assert_eq!(try_evaluate("", one()).unwrap_err(), EvaluationError::IncompleteComputation);
}

#[test]
fn evaluate_complements_within_all() {
    let env = || vec![set_of(&[1, 2]), set_of(&[2, 3])];
    assert_eq!(try_evaluate("A!", env()).unwrap().into_vec(), vec![3]);
    assert_eq!(try_evaluate("AB>", env()).unwrap().into_vec(), vec![2, 3]);
    assert_eq!(try_evaluate("AB=", env()).unwrap().into_vec(), vec![1, 3]);
    assert_eq!(try_evaluate("AB^", env()).unwrap().into_vec(), vec![1, 3]);
}
