use ready_set_boole::environment::Environment;
use ready_set_boole::expression::{Expression, ExpressionParseError};

fn table_of(formula: &str) -> String {
    let expression: Expression = formula.parse().unwrap();
    let mut output = Vec::new();
    expression.write_truth_table(&mut output);
    String::from_utf8(output).unwrap()
}

fn nnf_of(input: &str) -> String {
    let input: Expression = input.parse().unwrap();
    input.negation_normal().to_string()
}

fn cnf_of(input: &str) -> String {
    let input: Expression = input.parse().unwrap();
    input.conjonctive_normal().to_string()
}

fn sat_of(formula: &str) -> bool {
    let expr: Expression = formula.parse().unwrap();
    expr.sat()
}

/// Every assignment of the formula's variables, as the enumeration gives them.
fn assignments(expression: &Expression) -> Vec<Environment> {
    let mut it = expression.envs();
    let mut out = Vec::new();
    while let Some(env) = it.next() {
        out.push(env);
    }
    out
}

#[test]
fn write_truth_table() {
    assert_eq!(
        table_of("AB|C&!"),
        "\
            | A | B | C | = |\n\
            |---|---|---|---|\n\
            | 0 | 0 | 0 | 1 |\n\
            | 1 | 0 | 0 | 1 |\n\
            | 0 | 1 | 0 | 1 |\n\
            | 1 | 1 | 0 | 1 |\n\
            | 0 | 0 | 1 | 1 |\n\
            | 1 | 0 | 1 | 0 |\n\
            | 0 | 1 | 1 | 0 |\n\
            | 1 | 1 | 1 | 0 |\n"
    );
}

#[test]
fn negation_normal() {
    assert_eq!(nnf_of("AB&!"), "A!B!|");
    assert_eq!(nnf_of("AB|!"), "A!B!&");
    assert_eq!(nnf_of("AB>"), "A!B|");
    assert_eq!(nnf_of("AB="), "AB&A!B!&|");
    assert_eq!(nnf_of("AB|C&!"), "A!B!&C!|");
}

#[test]
fn conjonction_normal() {
    assert_eq!(cnf_of("AB&!"), "A!B!|");
    assert_eq!(cnf_of("AB|!"), "A!B!&");
    assert_eq!(cnf_of("AB|C&"), "AB|C&");
    assert_eq!(cnf_of("AB|C|D|"), "ABCD|||");
    assert_eq!(cnf_of("AB&C&D&"), "ABCD&&&");
    assert_eq!(cnf_of("AB&!C!|"), "A!B!C!||");
    assert_eq!(cnf_of("AB|!C!&"), "A!B!C!&&");
}

#[test]
fn sat() {
    assert_eq!(sat_of("AB|"), true);
    assert_eq!(sat_of("AB&"), true);
    assert_eq!(sat_of("AA!&"), false);
    assert_eq!(sat_of("AA^"), false);
}

#[test]
fn parse_errors() {
    assert_eq!(Expression::parse("").unwrap_err(), ExpressionParseError::IncompleteComputation);
    assert_eq!(Expression::parse("A&").unwrap_err(), ExpressionParseError::MissingArgument);
    assert_eq!(Expression::parse("AB").unwrap_err(), ExpressionParseError::IncompleteComputation);
    assert_eq!(Expression::parse("#").unwrap_err(), ExpressionParseError::UnknownSymbol);
    assert_eq!(Expression::parse("!").unwrap_err(), ExpressionParseError::MissingArgument);
    assert_eq!(Expression::parse("a").unwrap_err(), ExpressionParseError::UnknownSymbol);
    assert_eq!(Expression::parse("AB&#").unwrap_err(), ExpressionParseError::UnknownSymbol);
}

#[test]
fn parse_render_round_trip() {
    for text in ["A", "0", "1", "A!", "AB|", "AB&C^", "AB>C=!", "ZY=X>W^V&U|T!&", "10&A|"] {
        let expression: Expression = text.parse().unwrap();
        assert_eq!(expression.to_string(), text);
        let again: Expression = expression.to_string().parse().unwrap();
        assert_eq!(again.to_string(), text);
    }
}

#[test]
fn built_formula_renders() {
    let e = Expression::implies(
        Expression::and(Expression::variable(b'A'), Expression::not(Expression::variable(b'B'))),
        Expression::xor(Expression::value(true), Expression::equivalent(Expression::variable(b'C'), Expression::value(false))),
    );
    assert_eq!(e.to_string(), "AB!&1C0=^>");
    let o = Expression::or(Expression::variable(b'Q'), Expression::value(false));
    assert_eq!(o.to_string(), "Q0|");
    assert_eq!(o.clone().to_string(), "Q0|");
}

#[test]
fn eval_of_constant_connectives() {
    let env = Environment::default();
    let value = |text: &str| text.parse::<Expression>().unwrap().eval(env);
    assert_eq!(value("11&"), true);
    assert_eq!(value("10^"), true);
    assert_eq!(value("01>"), true);
    assert_eq!(value("10="), false);
    assert_eq!(value("10>"), false);
    assert_eq!(value("00|"), false);
    assert_eq!(value("0!"), true);
}

#[test]
fn eval_with_variables() {
    let e: Expression = "AB>".parse().unwrap();
    let mut env = Environment::new(0, 0b01);
    env.enable(b'A');
    env.enable(b'B');
    assert_eq!(e.eval(env), false);
    let env = Environment::new(0b11, 0b11);
    assert_eq!(e.eval(env), true);
}

#[test]
fn envs_order_two_variables() {
    let e: Expression = "AB|".parse().unwrap();
    let envs = assignments(&e);
    assert_eq!(envs.len(), 4);
    let values: Vec<Vec<bool>> = envs.iter().map(|env| env.values()).collect();
    assert_eq!(
        values,
        vec![vec![false, false], vec![true, false], vec![false, true], vec![true, true]]
    );
    for env in &envs {
        assert_eq!(env.symbols(), vec![b'A', b'B']);
    }
}

#[test]
fn envs_empty_without_variables() {
    let e: Expression = "10|".parse().unwrap();
    assert_eq!(assignments(&e).len(), 0);
    assert_eq!(sat_of("1"), false);
}

#[test]
fn envs_skip_missing_letters() {
    let e: Expression = "AC&".parse().unwrap();
    let envs = assignments(&e);
    assert_eq!(envs.len(), 4);
    assert_eq!(envs[0].symbols(), vec![b'A', b'C']);
    assert_eq!(envs[2].get(b'C'), Some(true));
    assert_eq!(envs[2].get(b'A'), Some(false));
    assert_eq!(envs[2].get(b'B'), None);
}

#[test]
fn nnf_keeps_truth_table() {
    for text in ["AB&!", "AB=!", "ABC^^", "AB>C=", "A!!B^!", "AB>!", "10=A^"] {
        let e: Expression = text.parse().unwrap();
        let n = e.negation_normal();
        let envs = assignments(&e);
        for env in envs {
            assert_eq!(n.eval(env), e.eval(env), "{text}");
        }
    }
    assert_eq!(nnf_of("AB=!"), "AB!&A!B&|");
    assert_eq!(nnf_of("AB^"), "AB!&A!B&|");
    assert_eq!(nnf_of("1!"), "0");
}

#[test]
fn cnf_keeps_truth_table() {
    for text in ["AB=!", "ABC^^", "AB|!C|", "AB^C|", "AB|CD&|", "AB>C=", "AB&CD&|"] {
        let e: Expression = text.parse().unwrap();
        let c = e.conjonctive_normal();
        for env in assignments(&e) {
            assert_eq!(c.eval(env), e.eval(env), "{text}");
        }
    }
    assert_eq!(cnf_of("ABC&|"), "AB|AC|&");
    assert_eq!(cnf_of("AB=!"), "A!B!|AB|&");
    assert_eq!(cnf_of("AB|!C|"), "A!C|B!C|&");
}

#[test]
fn truth_table_without_variables() {
    assert_eq!(table_of("1"), "| = |\n|---|\n");
    assert_eq!(table_of("10&"), "| = |\n|---|\n");
}

#[test]
fn truth_table_appends() {
    let e: Expression = "A".parse().unwrap();
    let mut output = b"x".to_vec();
    e.write_truth_table(&mut output);
    assert_eq!(String::from_utf8(output).unwrap(), "x| A | = |\n|---|---|\n| 0 | 0 |\n| 1 | 1 |\n");
}

#[test]
fn operators_build_nodes() {
    let a = || Expression::variable(b'A');
    let b = || Expression::variable(b'B');
    assert_eq!((a() | b()).to_string(), "AB|");
    assert_eq!((a() & b()).to_string(), "AB&");
    assert_eq!((a() ^ b()).to_string(), "AB^");
    assert_eq!((!a()).to_string(), "A!");
    assert_eq!((!(a() & !b()) | Expression::value(true)).to_string(), "AB!&!1|");
}

#[test]
fn from_str_errors_and_operand_order() {
    assert_eq!("".parse::<Expression>().unwrap_err(), ExpressionParseError::IncompleteComputation);
    assert_eq!("A&".parse::<Expression>().unwrap_err(), ExpressionParseError::MissingArgument);
    assert_eq!("AB".parse::<Expression>().unwrap_err(), ExpressionParseError::IncompleteComputation);
    assert_eq!("#".parse::<Expression>().unwrap_err(), ExpressionParseError::UnknownSymbol);
    let e: Expression = "AB>".parse().unwrap();
    assert!(matches!(&e, Expression::Implies(a, b)
        if matches!(**a, Expression::Var(b'A')) && matches!(**b, Expression::Var(b'B'))));
    let n: Expression = "10&!".parse().unwrap();
    assert_eq!(n.to_string(), "10&!");
    assert!(matches!(&n, Expression::Not(x) if matches!(**x, Expression::And(_, _))));
}

#[test]
fn envs_count_is_two_to_the_variables() {
    for (text, count) in [("A", 2), ("AB|", 4), ("ABC&&", 8), ("AA&", 2), ("AZ|M^", 8), ("ABCDE^^^^", 32)] {
        let e: Expression = text.parse().unwrap();
        let envs = assignments(&e);
        assert_eq!(envs.len(), count, "{text}");
        for pair in envs.windows(2) {
            assert!(pair[0].values < pair[1].values);
        }
    }
}
