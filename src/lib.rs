//! A propositional-logic engine over postfix formulas: parsing, evaluation,
//! enumeration of assignments, normal forms, truth tables, and an
//! evaluator of the same grammar over finite sets; with bit-level integer
//! arithmetic besides.

pub mod arithmetic;
pub mod environment;
pub mod evaluate;
pub mod expression;
pub mod normal;
pub mod postfix;
pub mod set;
pub mod table;

pub use arithmetic::{adder, gray_code, multiplier};

use vstd::prelude::*;
use vstd::laws_eq::obeys_concrete_eq;
use vstd::string::StringSliceAdditionalSpecFns;

use environment::Environment;
use evaluate::{evaluate_bytes, EvaluationError};
use expression::Expression;
use postfix::{parse_bytes, text_of};
use set::{contents, pick, set_evaluate, FiniteSet};

verus! {

/// The value of a postfix formula of constants, or `false` where it cannot
/// be evaluated.
pub fn eval_formula(formula: &str) -> (r: bool)
    ensures
        r == (evaluate_bytes(formula.spec_bytes()) == Ok::<bool, EvaluationError>(true)),
{
    match evaluate::try_evaluate(formula) {
        Ok(value) => value,
        Err(_) => false,
    }
}

/// The postfix text of the negation normal form of a formula, or the empty
/// text where the formula cannot be read.
pub fn negation_normal_form(formula: &str) -> (r: String)
    ensures
        parse_bytes(formula.spec_bytes()) is Ok ==> r@ == text_of(
            parse_bytes(formula.spec_bytes())->Ok_0.nnf().render(),
        ),
        parse_bytes(formula.spec_bytes()) is Err ==> r@ == Seq::<char>::empty(),
{
    match Expression::parse(formula) {
        Ok(expression) => expression.negation_normal().to_string(),
        Err(_) => String::new(),
    }
}

/// The postfix text of the conjunctive normal form of a formula, or the
/// empty text where the formula cannot be read.
pub fn conjonctive_normal_form(formula: &str) -> (r: String)
    ensures
        parse_bytes(formula.spec_bytes()) is Ok ==> ({
            let t = parse_bytes(formula.spec_bytes())->Ok_0;
            &&& r@ == text_of(t.cnf().render())
            &&& t.cnf().is_cnf()
            &&& forall|env: Environment| #[trigger] t.cnf().truth(env) == t.truth(env)
        }),
        parse_bytes(formula.spec_bytes()) is Err ==> r@ == Seq::<char>::empty(),
{
    match Expression::parse(formula) {
        Ok(expression) => expression.conjonctive_normal().to_string(),
        Err(_) => String::new(),
    }
}

/// Whether a formula can be read and some assignment of its variables makes
/// it true.
pub fn sat(formula: &str) -> (r: bool)
    ensures
        r == (parse_bytes(formula.spec_bytes()) is Ok && parse_bytes(
            formula.spec_bytes(),
        )->Ok_0.satisfiable()),
{
    match Expression::parse(formula) {
        Ok(expression) => expression.sat(),
        Err(_) => false,
    }
}

/// Every subset of `set`, in the order of `FiniteSet::powerset`; none where
/// two elements of `set` are equal.
pub fn powerset(set: Vec<i32>) -> (r: Vec<Vec<i32>>)
    requires
        set@.len() < usize::BITS,
    ensures
        set@.no_duplicates() ==> r@.len() == vstd::arithmetic::power2::pow2(set@.len()) && forall|
            i: int,
        |
            0 <= i < r@.len() ==> (#[trigger] r@[i])@ == pick(set@, i as nat),
        !set@.no_duplicates() ==> r@.len() == 0,
{
    proof {
        broadcast use vstd::laws_eq::group_laws_eq;

        assert(obeys_concrete_eq::<i32>());
    }
    match FiniteSet::try_from(set) {
        Ok(set) => {
            let subsets = set.powerset();
            let mut out: Vec<Vec<i32>> = Vec::new();
            let mut i: usize = 0;
            while i < subsets.len()
                invariant
                    0 <= i <= subsets@.len(),
                    out@.len() == i,
                    forall|k: int|
                        0 <= k < subsets@.len() ==> (#[trigger] subsets@[k])@.map_values(
                            |x: &i32| *x,
                        ) == pick(set@, k as nat),
                    forall|k: int| 0 <= k < i ==> (#[trigger] out@[k])@ == pick(set@, k as nat),
                decreases subsets@.len() - i,
            {
                let copy = subsets[i].cloned().into_vec();
                assert(copy@ =~= subsets@[i as int]@.map_values(|x: &i32| *x));
                out.push(copy);
                i = i + 1;
            }
            out
        },
        Err(_) => Vec::new(),
    }
}

/// The elements of the set that a postfix formula over `sets` denotes, or
/// none where one of `sets` holds an element twice or the formula cannot
/// be evaluated.
pub fn eval_set(formula: &str, sets: Vec<Vec<i32>>) -> (r: Vec<i32>)
    ensures
        ({
            let env = sets@.map_values(|v: Vec<i32>| v@);
            &&& (forall|i: int| 0 <= i < env.len() ==> (#[trigger] env[i]).no_duplicates())
                && set_evaluate(formula.spec_bytes(), env) is Ok ==> r@ == set_evaluate(
                formula.spec_bytes(),
                env,
            )->Ok_0
            &&& !((forall|i: int| 0 <= i < env.len() ==> (#[trigger] env[i]).no_duplicates())
                && set_evaluate(formula.spec_bytes(), env) is Ok) ==> r@.len() == 0
        }),
{
    proof {
        broadcast use vstd::laws_eq::group_laws_eq;

        assert(obeys_concrete_eq::<i32>());
    }
    let ghost env = sets@.map_values(|v: Vec<i32>| v@);
    let mut environment: Vec<FiniteSet<i32>> = Vec::new();
    let mut i: usize = 0;
    while i < sets.len()
        invariant
            obeys_concrete_eq::<i32>(),
            env == sets@.map_values(|v: Vec<i32>| v@),
            0 <= i <= sets@.len(),
            contents(environment@) == env.subrange(0, i as int),
            forall|k: int| 0 <= k < i ==> (#[trigger] env[k]).no_duplicates(),
        decreases sets@.len() - i,
    {
        let copy = sets[i].clone();
        assert(copy@ =~= sets@[i as int]@);
        assert(env[i as int] == copy@);
        match FiniteSet::try_from(copy) {
            Ok(set) => {
                let ghost before = environment@;
                environment.push(set);
                assert(contents(environment@) =~= contents(before).push(set@));
                assert(env.subrange(0, i + 1) =~= env.subrange(0, i as int).push(env[i as int]));
            },
            Err(_) => {
                assert(!env[i as int].no_duplicates());
                return Vec::new();
            },
        }
        i = i + 1;
    }
    assert(env.subrange(0, sets@.len() as int) =~= env);
    match set::try_evaluate(formula, environment) {
        Ok(set) => set.into_vec(),
        Err(_) => Vec::new(),
    }
}

} // verus!
