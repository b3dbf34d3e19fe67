use ready_set_boole::expression::Expression;
use ready_set_boole::{
    adder, conjonctive_normal_form, eval_formula, eval_set, negation_normal_form,
    powerset, sat,
};

fn check_table(formula: &str, expected_output: &str) {
    let expression: Expression = formula.parse().unwrap();
    let mut output = Vec::new();
    expression.write_truth_table(&mut output);
    let text = std::str::from_utf8(&output).unwrap();
    assert_eq!(text, expected_output, "Error in `{formula}`'s truth table");
}

fn check_powerset(input: &[i32], expected: &[&[i32]]) {
    for (value, &expected) in powerset(input.to_owned()).into_iter().zip(expected) {
        assert_eq!(value, expected);
    }
}

fn check_eval_set(formula: &str, sets: &[&[i32]], expected: &[i32]) {
    let sets = sets.into_iter().map(|&s| s.into()).collect();
    assert_eq!(eval_set(formula, sets), expected);
}

#[test]
fn lib_adder() {
    assert_eq!(adder(0, 0), 0);
    assert_eq!(adder(1, 0), 1);
    assert_eq!(adder(0, 1), 1);
    assert_eq!(adder(1, 1), 2);
    assert_eq!(adder(1, 2), 3);
    assert_eq!(adder(2, 2), 4);
}

#[test]
fn multiplier() {
    assert_eq!(ready_set_boole::multiplier(0, 0), 0);
    assert_eq!(ready_set_boole::multiplier(1, 0), 0);
    assert_eq!(ready_set_boole::multiplier(0, 1), 0);
    assert_eq!(ready_set_boole::multiplier(1, 1), 1);
    assert_eq!(ready_set_boole::multiplier(1, 2), 2);
    assert_eq!(ready_set_boole::multiplier(2, 2), 4);
}

#[test]
fn eval_formula_basic() {
    assert_eq!(eval_formula("0!"), true);
    assert_eq!(eval_formula("1!"), false);
    assert_eq!(eval_formula("00|"), false);
    assert_eq!(eval_formula("10|"), true);
    assert_eq!(eval_formula("01|"), true);
    assert_eq!(eval_formula("11|"), true);
    assert_eq!(eval_formula("10&"), false);
    assert_eq!(eval_formula("11&"), true);
    assert_eq!(eval_formula("11^"), false);
    assert_eq!(eval_formula("10^"), true);
    assert_eq!(eval_formula("00>"), true);
    assert_eq!(eval_formula("01>"), true);
    assert_eq!(eval_formula("10>"), false);
    assert_eq!(eval_formula("00="), true);
    assert_eq!(eval_formula("11="), true);
    assert_eq!(eval_formula("10="), false);
    assert_eq!(eval_formula("01="), false);
}

#[test]
fn eval_formula_compistion() {
    assert_eq!(eval_formula("11&0|"), true);
    assert_eq!(eval_formula("10&1|"), true);
    assert_eq!(eval_formula("11&1|"), true);
    assert_eq!(eval_formula("11&1|1^"), false);
    assert_eq!(eval_formula("01&1|1="), true);
    assert_eq!(eval_formula("01&1&1&"), false);
    assert_eq!(eval_formula("0111&&&"), false);
}

#[test]
fn eval_formula_errors_give_false() {
    assert_eq!(eval_formula(""), false);
    assert_eq!(eval_formula("1&"), false);
    assert_eq!(eval_formula("11"), false);
    assert_eq!(eval_formula("A"), false);
}

#[test]
fn print_truth_table() {
    // Rows come in the order of the enumeration: the first letter is the
    // lowest bit of the assignment.
    check_table(
        "A",
        "\
            | A | = |\n\
            |---|---|\n\
            | 0 | 0 |\n\
            | 1 | 1 |\n\
            ",
    );

    check_table(
        "A!",
        "\
            | A | = |\n\
            |---|---|\n\
            | 0 | 1 |\n\
            | 1 | 0 |\n\
            ",
    );

    check_table(
        "AB|",
        "\
            | A | B | = |\n\
            |---|---|---|\n\
            | 0 | 0 | 0 |\n\
            | 1 | 0 | 1 |\n\
            | 0 | 1 | 1 |\n\
            | 1 | 1 | 1 |\n\
            ",
    );

    check_table(
        "AB^",
        "\
            | A | B | = |\n\
            |---|---|---|\n\
            | 0 | 0 | 0 |\n\
            | 1 | 0 | 1 |\n\
            | 0 | 1 | 1 |\n\
            | 1 | 1 | 0 |\n\
            ",
    );

    check_table(
        "AB>",
        "\
            | A | B | = |\n\
            |---|---|---|\n\
            | 0 | 0 | 1 |\n\
            | 1 | 0 | 0 |\n\
            | 0 | 1 | 1 |\n\
            | 1 | 1 | 1 |\n\
            ",
    );

    check_table(
        "AB=",
        "\
            | A | B | = |\n\
            |---|---|---|\n\
            | 0 | 0 | 1 |\n\
            | 1 | 0 | 0 |\n\
            | 0 | 1 | 0 |\n\
            | 1 | 1 | 1 |\n\
            ",
    );

    check_table(
        "AA=",
        "\
            | A | = |\n\
            |---|---|\n\
            | 0 | 1 |\n\
            | 1 | 1 |\n\
            ",
    );

    check_table(
        "ABC==",
        "\
            | A | B | C | = |\n\
            |---|---|---|---|\n\
            | 0 | 0 | 0 | 0 |\n\
            | 1 | 0 | 0 | 1 |\n\
            | 0 | 1 | 0 | 1 |\n\
            | 1 | 1 | 0 | 0 |\n\
            | 0 | 0 | 1 | 1 |\n\
            | 1 | 0 | 1 | 0 |\n\
            | 0 | 1 | 1 | 0 |\n\
            | 1 | 1 | 1 | 1 |\n\
            ",
    );

    check_table(
        "AB>C>",
        "\
            | A | B | C | = |\n\
            |---|---|---|---|\n\
            | 0 | 0 | 0 | 0 |\n\
            | 1 | 0 | 0 | 1 |\n\
            | 0 | 1 | 0 | 0 |\n\
            | 1 | 1 | 0 | 0 |\n\
            | 0 | 0 | 1 | 1 |\n\
            | 1 | 0 | 1 | 1 |\n\
            | 0 | 1 | 1 | 1 |\n\
            | 1 | 1 | 1 | 1 |\n\
            ",
    );

    check_table(
        "AB>A>A>",
        "\
            | A | B | = |\n\
            |---|---|---|\n\
            | 0 | 0 | 1 |\n\
            | 1 | 0 | 1 |\n\
            | 0 | 1 | 1 |\n\
            | 1 | 1 | 1 |\n\
            ",
    );
}

#[test]
fn negation_normal_form_basic() {
    assert_eq!(negation_normal_form("A"), "A");
    assert_eq!(negation_normal_form("A!"), "A!");
    assert_eq!(negation_normal_form("AB&!"), "A!B!|");
    assert_eq!(negation_normal_form("AB|!"), "A!B!&");
    assert_eq!(negation_normal_form("AB>!"), "AB!&");
    assert_eq!(negation_normal_form("AB=!"), "AB!&A!B&|");
}

#[test]
fn negation_normal_form_composition() {
    assert_eq!(negation_normal_form("ABC||"), "ABC||");
    assert_eq!(negation_normal_form("ABC||!"), "A!B!C!&&");
    assert_eq!(negation_normal_form("ABC|&"), "ABC|&");
    assert_eq!(negation_normal_form("ABC&|"), "ABC&|");
    assert_eq!(negation_normal_form("ABC&|!"), "A!B!C!|&");
    assert_eq!(negation_normal_form("ABC^^"), "ABC&B!C!&|&A!BC!&B!C&|&|");
    assert_eq!(negation_normal_form("ABC>>"), "A!B!C||");
}

#[test]
fn negation_normal_form_of_unreadable_text_is_empty() {
    assert_eq!(negation_normal_form("A&"), "");
    assert_eq!(conjonctive_normal_form("#"), "");
}

#[test]
fn conjunctive_normal_form_basic() {
    assert_eq!(conjonctive_normal_form("A"), "A");
    assert_eq!(conjonctive_normal_form("A!"), "A!");
    assert_eq!(conjonctive_normal_form("AB&!"), "A!B!|");
    assert_eq!(conjonctive_normal_form("AB|!"), "A!B!&");
    assert_eq!(conjonctive_normal_form("AB>!"), "AB!&");
    // The negation of an equivalence is the exclusive or: (!A | !B) & (A | B).
    assert_eq!(conjonctive_normal_form("AB=!"), "A!B!|AB|&");
}

#[test]
fn conjunctive_normal_form_composition() {
    assert_eq!(conjonctive_normal_form("ABC||"), "ABC||");
    assert_eq!(conjonctive_normal_form("ABC||!"), "A!B!C!&&");
    assert_eq!(conjonctive_normal_form("ABC|&"), "ABC|&");
    assert_eq!(conjonctive_normal_form("ABC&|"), "AB|AC|&");
    assert_eq!(conjonctive_normal_form("ABC&|!"), "A!B!C!|&");
    assert_eq!(
        conjonctive_normal_form("ABC^^"),
        "ABC||AB!C!||A!B!C||A!BC!||&&&"
    );
    assert_eq!(conjonctive_normal_form("ABC>>"), "A!B!C||");
}

#[test]
fn sat_basic() {
    assert_eq!(sat("A"), true);
    assert_eq!(sat("A!"), true);
    assert_eq!(sat("AA|"), true);
    assert_eq!(sat("AA&"), true);
    assert_eq!(sat("AA!&"), false);
    assert_eq!(sat("AA^"), false);
    assert_eq!(sat("AB^"), true);
    assert_eq!(sat("AB="), true);
    assert_eq!(sat("AA>"), true);
    assert_eq!(sat("AA!>"), true);
}

#[test]
fn sat_composition() {
    assert_eq!(sat("ABC||"), true);
    assert_eq!(sat("AB&A!B!&&'"), false);
    assert_eq!(sat("ABCDE&&&&"), true);
    assert_eq!(sat("AAA^^"), true);
    assert_eq!(sat("ABCDE^^^^"), true);
}

#[test]
fn lib_powerset() {
    check_powerset(&[], &[&[]]);
    check_powerset(&[1], &[&[], &[1]]);
    check_powerset(&[1, 2], &[&[], &[1], &[2], &[1, 2]]);
    check_powerset(
        &[1, 2, 3],
        &[&[], &[1], &[2], &[1, 2], &[3], &[1, 3], &[2, 3], &[1, 2, 3]],
    );
}

#[test]
fn powerset_counts_and_duplicates() {
    assert_eq!(powerset(vec![4, 5, 6, 7]).len(), 16);
    assert_eq!(powerset(vec![1, 1]).len(), 0);
}

#[test]
fn eval_set_basic() {
    check_eval_set("A", &[&[]], &[]);
    check_eval_set("A!", &[&[]], &[]);
    check_eval_set("A", &[&[42]], &[42]);
    check_eval_set("A!", &[&[42]], &[]);
    check_eval_set("A!B&", &[&[1, 2, 3], &[2, 3, 4]], &[4]);
    check_eval_set("AB|", &[&[0, 1, 2], &[]], &[0, 1, 2]);
    check_eval_set("AB&", &[&[0, 1, 2], &[]], &[]);
    check_eval_set("AB&", &[&[0, 1, 2], &[0]], &[0]);
    check_eval_set("AB&", &[&[0, 1, 2], &[42]], &[]);
    check_eval_set("AB^", &[&[0, 1, 2], &[0]], &[1, 2]);
    check_eval_set("AB>", &[&[0], &[1, 2]], &[1, 2]);
    check_eval_set("AB>", &[&[0], &[0, 1, 2]], &[0, 1, 2]);
}

#[test]
fn eval_set_composition() {
    check_eval_set("ABC||", &[&[], &[], &[]], &[]);
    check_eval_set("ABC||", &[&[0], &[1], &[2]], &[0, 1, 2]);
    check_eval_set("ABC||", &[&[0], &[0], &[0]], &[0]);
    check_eval_set("ABC&&", &[&[0], &[0], &[]], &[]);
    check_eval_set("ABC&&", &[&[0], &[0], &[0]], &[0]);
    check_eval_set("ABC^^", &[&[0], &[0], &[0]], &[0]);
    check_eval_set("ABC>>", &[&[0], &[0], &[0]], &[0]);
}

#[test]
fn eval_set_failures_give_nothing() {
    check_eval_set("AB|", &[&[1, 1], &[2]], &[]);
    check_eval_set("AB|", &[&[1]], &[]);
    check_eval_set("A|", &[&[1]], &[]);
    check_eval_set("A1|", &[&[1]], &[]);
    check_eval_set("AB=", &[&[1, 2], &[2, 3]], &[1, 3]);
}

#[test]
fn constant_formulas_agree_with_trees() {
    for text in ["11&", "10^", "01>", "10=", "0!1|", "101|&!", "1", "0"] {
        let tree: Expression = text.parse().unwrap();
        let env = ready_set_boole::environment::Environment::default();
        assert_eq!(eval_formula(text), tree.eval(env), "{text}");
    }
    assert_eq!(ready_set_boole::multiplier(3, 4), 12);
}
