use vstd::prelude::*;
use vstd::string::StringSliceAdditionalSpecFns;

use crate::environment::{is_symbol, Environment};
use crate::expression::{Expression, ExpressionParseError};
use crate::postfix::{binary_node, is_binary_operator, parse_bytes, parse_stack};

verus! {

/// Why a postfix formula of constants could not be evaluated.
#[derive(Debug, PartialEq, Eq, Structural)]
pub enum EvaluationError {
    /// An operator with too few operands before it.
    MissingArgument,
    /// At the end, zero or several values instead of one.
    IncompleteComputation,
    /// A byte outside the grammar of constants and operators.
    UnknownSymbol,
}

/// The value of the two-operand operator `c` on `a` and `b`.
pub open spec fn apply_binary(c: u8, a: bool, b: bool) -> bool {
    if c == 124u8 {
        a || b
    } else if c == 38u8 {
        a && b
    } else if c == 94u8 {
        a != b
    } else if c == 62u8 {
        !a || b
    } else {
        a == b
    }
}

/// The value stack after reading byte `c` with `stack` in hand.
pub open spec fn evaluate_step(stack: Seq<bool>, c: u8) -> Result<Seq<bool>, EvaluationError> {
    if c == 48u8 {
        Ok(stack.push(false))
    } else if c == 49u8 {
        Ok(stack.push(true))
    } else if c == 33u8 {
        if stack.len() < 1 {
            Err(EvaluationError::MissingArgument)
        } else {
            Ok(stack.drop_last().push(!stack.last()))
        }
    } else if is_binary_operator(c) {
        if stack.len() < 2 {
            Err(EvaluationError::MissingArgument)
        } else {
            let n = stack.len() as int;
            Ok(stack.subrange(0, n - 2).push(apply_binary(c, stack[n - 2], stack[n - 1])))
        }
    } else {
        Err(EvaluationError::UnknownSymbol)
    }
}

/// The value stack after reading all of `bytes`, or the first error met.
pub open spec fn evaluate_stack(bytes: Seq<u8>) -> Result<Seq<bool>, EvaluationError>
    decreases bytes.len(),
{
    if bytes.len() == 0 {
        Ok(Seq::empty())
    } else {
        match evaluate_stack(bytes.drop_last()) {
            Ok(stack) => evaluate_step(stack, bytes.last()),
            Err(e) => Err(e),
        }
    }
}

/// The value of the postfix formula of constants `bytes`.
pub open spec fn evaluate_bytes(bytes: Seq<u8>) -> Result<bool, EvaluationError> {
    match evaluate_stack(bytes) {
        Ok(stack) => if stack.len() == 1 {
            Ok(stack[0])
        } else {
            Err(EvaluationError::IncompleteComputation)
        },
        Err(e) => Err(e),
    }
}

/// The evaluation error that matches a parse error.
pub open spec fn evaluation_error(e: ExpressionParseError) -> EvaluationError {
    match e {
        ExpressionParseError::UnknownSymbol => EvaluationError::UnknownSymbol,
        ExpressionParseError::MissingArgument => EvaluationError::MissingArgument,
        ExpressionParseError::IncompleteComputation => EvaluationError::IncompleteComputation,
    }
}

/// The truth values of the formulas `st` under `env`.
pub open spec fn truths(st: Seq<Expression>, env: Environment) -> Seq<bool> {
    st.map_values(|t: Expression| t.truth(env))
}

/// Once evaluation fails, the rest of the text does not matter.
proof fn lemma_evaluate_error_stays(bytes: Seq<u8>, i: int, j: int)
    requires
        0 <= i <= j <= bytes.len(),
        evaluate_stack(bytes.subrange(0, i)) is Err,
    ensures
        evaluate_stack(bytes.subrange(0, j)) == evaluate_stack(bytes.subrange(0, i)),
    decreases j,
{
    if j > i {
        lemma_evaluate_error_stays(bytes, i, j - 1);
        assert(bytes.subrange(0, j).drop_last() =~= bytes.subrange(0, j - 1));
    }
}

/// On text without variables, the value stack holds the truth values of
/// the formula stack, and both fail alike.
proof fn lemma_evaluate_agrees_stack(bytes: Seq<u8>, env: Environment)
    requires
        forall|i: int| 0 <= i < bytes.len() ==> !is_symbol(#[trigger] bytes[i]),
    ensures
        parse_stack(bytes) is Ok <==> evaluate_stack(bytes) is Ok,
        parse_stack(bytes) is Ok ==> evaluate_stack(bytes)->Ok_0 == truths(
            parse_stack(bytes)->Ok_0,
            env,
        ),
        parse_stack(bytes) is Err ==> evaluate_stack(bytes)->Err_0 == evaluation_error(
            parse_stack(bytes)->Err_0,
        ),
    decreases bytes.len(),
{
    if bytes.len() > 0 {
        let init = bytes.drop_last();
        assert forall|i: int| 0 <= i < init.len() implies !is_symbol(#[trigger] init[i]) by {
            assert(init[i] == bytes[i]);
        }
        lemma_evaluate_agrees_stack(init, env);
        let c = bytes.last();
        assert(!is_symbol(c));
        if parse_stack(init) is Ok {
            let st = parse_stack(init)->Ok_0;
            let vs = evaluate_stack(init)->Ok_0;
            let n = st.len() as int;
            if c == 33u8 && n >= 1 {
                assert(truths(st.drop_last().push(Expression::Not(Box::new(st.last()))), env)
                    =~= vs.drop_last().push(!vs.last()));
            } else if is_binary_operator(c) && n >= 2 {
                let node = binary_node(c, st[n - 2], st[n - 1]);
                assert(node.truth(env) == apply_binary(c, vs[n - 2], vs[n - 1]));
                assert(truths(st.subrange(0, n - 2).push(node), env) =~= vs.subrange(0, n - 2).push(
                    apply_binary(c, vs[n - 2], vs[n - 1]),
                ));
            } else if c == 48u8 {
                assert(truths(st.push(Expression::Val(false)), env) =~= vs.push(false));
            } else if c == 49u8 {
                assert(truths(st.push(Expression::Val(true)), env) =~= vs.push(true));
            }
        }
    }
}

/// For a formula without variables, evaluating the text directly and
/// evaluating the tree read from it agree, under every environment, and
/// fail alike.
pub proof fn lemma_evaluate_agrees(bytes: Seq<u8>, env: Environment)
    requires
        forall|i: int| 0 <= i < bytes.len() ==> !is_symbol(#[trigger] bytes[i]),
    ensures
        evaluate_bytes(bytes) == (match parse_bytes(bytes) {
            Ok(t) => Ok(t.truth(env)),
            Err(e) => Err(evaluation_error(e)),
        }),
{
    lemma_evaluate_agrees_stack(bytes, env);
}

/// Evaluates a postfix formula made of the constants `0` and `1` and the
/// operators `!`, `|`, `&`, `^`, `>`, `=`.
pub fn try_evaluate(expression: &str) -> (r: Result<bool, EvaluationError>)
    ensures
        r == evaluate_bytes(expression.spec_bytes()),
{
    let bytes = expression.as_bytes();
    let mut stack: Vec<bool> = Vec::new();
    let mut i: usize = 0;
    while i < bytes.len()
        invariant
            bytes@ == expression.spec_bytes(),
            0 <= i <= bytes@.len(),
            evaluate_stack(bytes@.subrange(0, i as int)) == Ok::<Seq<bool>, EvaluationError>(
                stack@,
            ),
        decreases bytes@.len() - i,
    {
        let c = bytes[i];
        let ghost before = stack@;
        assert(bytes@.subrange(0, i + 1).drop_last() =~= bytes@.subrange(0, i as int));
        if c == 48u8 {
            stack.push(false);
        } else if c == 49u8 {
            stack.push(true);
        } else if c == 33u8 {
            match stack.pop() {
                Some(x) => stack.push(!x),
                None => {
                    proof {
                        lemma_evaluate_error_stays(bytes@, i + 1, bytes@.len() as int);
                        assert(bytes@.subrange(0, bytes@.len() as int) =~= bytes@);
                    }
                    return Err(EvaluationError::MissingArgument);
                },
            }
        } else if c == 124u8 || c == 38u8 || c == 94u8 || c == 62u8 || c == 61u8 {
            if stack.len() < 2 {
                proof {
                    lemma_evaluate_error_stays(bytes@, i + 1, bytes@.len() as int);
                    assert(bytes@.subrange(0, bytes@.len() as int) =~= bytes@);
                }
                return Err(EvaluationError::MissingArgument);
            }
            let b = stack.pop().unwrap();
            let a = stack.pop().unwrap();
            let v = if c == 124u8 {
                a || b
            } else if c == 38u8 {
                a && b
            } else if c == 94u8 {
                a ^ b
            } else if c == 62u8 {
                !a || b
            } else {
                a == b
            };
            stack.push(v);
            assert(stack@ =~= before.subrange(0, before.len() - 2).push(
                apply_binary(c, before[before.len() - 2], before[before.len() - 1]),
            ));
        } else {
            proof {
                lemma_evaluate_error_stays(bytes@, i + 1, bytes@.len() as int);
                assert(bytes@.subrange(0, bytes@.len() as int) =~= bytes@);
            }
            return Err(EvaluationError::UnknownSymbol);
        }
        i = i + 1;
    }
    assert(bytes@.subrange(0, bytes@.len() as int) =~= bytes@);
    if stack.len() != 1 {
        return Err(EvaluationError::IncompleteComputation);
    }
    Ok(stack.pop().unwrap())
}

} // verus!
