use ready_set_boole::evaluate;
use ready_set_boole::evaluate::EvaluationError;

#[test]
fn try_evaluate() {
    assert_eq!(evaluate::try_evaluate("10&"), Ok(false));
    assert_eq!(evaluate::try_evaluate("10|"), Ok(true));
    assert_eq!(evaluate::try_evaluate("10|1&"), Ok(true));
    assert_eq!(evaluate::try_evaluate("101|&"), Ok(true));
    assert_eq!(evaluate::try_evaluate("11>"), Ok(true));
    assert_eq!(evaluate::try_evaluate("10="), Ok(false));
    assert_eq!(evaluate::try_evaluate("1011||="), Ok(true));
}

#[test]
fn try_evaluate_errors() {
    assert_eq!(evaluate::try_evaluate(""), Err(EvaluationError::IncompleteComputation));
    assert_eq!(evaluate::try_evaluate("10"), Err(EvaluationError::IncompleteComputation));
    assert_eq!(evaluate::try_evaluate("1&"), Err(EvaluationError::MissingArgument));
    assert_eq!(evaluate::try_evaluate("!"), Err(EvaluationError::MissingArgument));
    assert_eq!(evaluate::try_evaluate("A"), Err(EvaluationError::UnknownSymbol));
    assert_eq!(evaluate::try_evaluate("1#"), Err(EvaluationError::UnknownSymbol));
}

#[test]
fn try_evaluate_connectives() {
    for (a, b) in [(false, false), (false, true), (true, false), (true, true)] {
        let text = |op: char| format!("{}{}{}", a as u8, b as u8, op);
        assert_eq!(evaluate::try_evaluate(&text('|')), Ok(a || b));
        assert_eq!(evaluate::try_evaluate(&text('&')), Ok(a && b));
        assert_eq!(evaluate::try_evaluate(&text('^')), Ok(a != b));
        assert_eq!(evaluate::try_evaluate(&text('>')), Ok(!a || b));
        assert_eq!(evaluate::try_evaluate(&text('=')), Ok(a == b));
    }
    assert_eq!(evaluate::try_evaluate("0!"), Ok(true));
    assert_eq!(evaluate::try_evaluate("1!"), Ok(false));
}
