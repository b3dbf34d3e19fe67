use vstd::prelude::*;
use vstd::string::StringSliceAdditionalSpecFns;

use crate::environment::is_symbol;
use crate::expression::{Expression, ExpressionParseError};

verus! {

/// Whether `c` is one of the two-operand operators `|`, `&`, `^`, `>`, `=`.
pub open spec fn is_binary_operator(c: u8) -> bool {
    c == 124u8 || c == 38u8 || c == 94u8 || c == 62u8 || c == 61u8
}

/// The node that the two-operand operator `c` builds over `a` and `b`.
pub open spec fn binary_node(c: u8, a: Expression, b: Expression) -> Expression {
    if c == 124u8 {
        Expression::Or(Box::new(a), Box::new(b))
    } else if c == 38u8 {
        Expression::And(Box::new(a), Box::new(b))
    } else if c == 94u8 {
        Expression::Xor(Box::new(a), Box::new(b))
    } else if c == 62u8 {
        Expression::Implies(Box::new(a), Box::new(b))
    } else {
        Expression::Equivalent(Box::new(a), Box::new(b))
    }
}

/// The operand stack after reading byte `c` with `stack` in hand.
pub open spec fn parse_step(stack: Seq<Expression>, c: u8) -> Result<
    Seq<Expression>,
    ExpressionParseError,
> {
    if is_symbol(c) {
        Ok(stack.push(Expression::Var(c)))
    } else if c == 48u8 {
        Ok(stack.push(Expression::Val(false)))
    } else if c == 49u8 {
        Ok(stack.push(Expression::Val(true)))
    } else if c == 33u8 {
        if stack.len() < 1 {
            Err(ExpressionParseError::MissingArgument)
        } else {
            Ok(stack.drop_last().push(Expression::Not(Box::new(stack.last()))))
        }
    } else if is_binary_operator(c) {
        if stack.len() < 2 {
            Err(ExpressionParseError::MissingArgument)
        } else {
            let n = stack.len() as int;
            Ok(stack.subrange(0, n - 2).push(binary_node(c, stack[n - 2], stack[n - 1])))
        }
    } else {
        Err(ExpressionParseError::UnknownSymbol)
    }
}

/// The operand stack after reading all of `bytes`, or the first error met.
pub open spec fn parse_stack(bytes: Seq<u8>) -> Result<Seq<Expression>, ExpressionParseError>
    decreases bytes.len(),
{
    if bytes.len() == 0 {
        Ok(Seq::empty())
    } else {
        match parse_stack(bytes.drop_last()) {
            Ok(stack) => parse_step(stack, bytes.last()),
            Err(e) => Err(e),
        }
    }
}

/// The formula that the postfix text `bytes` denotes.
pub open spec fn parse_bytes(bytes: Seq<u8>) -> Result<Expression, ExpressionParseError> {
    match parse_stack(bytes) {
        Ok(stack) => if stack.len() == 1 {
            Ok(stack[0])
        } else {
            Err(ExpressionParseError::IncompleteComputation)
        },
        Err(e) => Err(e),
    }
}

/// The characters of the bytes `b`, one each.
pub open spec fn text_of(b: Seq<u8>) -> Seq<char> {
    b.map_values(|c: u8| c as char)
}

impl Expression {
    /// The postfix text of the formula: operands first, then the operator.
    pub open spec fn render(self) -> Seq<u8>
        decreases self,
    {
        match self {
            Expression::Var(s) => seq![s],
            Expression::Val(v) => if v {
                seq![49u8]
            } else {
                seq![48u8]
            },
            Expression::Not(x) => x.render().push(33u8),
            Expression::Or(a, b) => a.render() + b.render().push(124u8),
            Expression::And(a, b) => a.render() + b.render().push(38u8),
            Expression::Xor(a, b) => a.render() + b.render().push(94u8),
            Expression::Implies(a, b) => a.render() + b.render().push(62u8),
            Expression::Equivalent(a, b) => a.render() + b.render().push(61u8),
        }
    }
}

/// Once reading fails, the rest of the text does not matter.
proof fn lemma_parse_error_stays(bytes: Seq<u8>, i: int, j: int)
    requires
        0 <= i <= j <= bytes.len(),
        parse_stack(bytes.subrange(0, i)) is Err,
    ensures
        parse_stack(bytes.subrange(0, j)) == parse_stack(bytes.subrange(0, i)),
    decreases j,
{
    if j > i {
        lemma_parse_error_stays(bytes, i, j - 1);
        assert(bytes.subrange(0, j).drop_last() =~= bytes.subrange(0, j - 1));
    }
}

/// Reading the text of `t` after `pre` pushes `t` on the stack that `pre` left.
proof fn lemma_parse_render_after(pre: Seq<u8>, t: Expression)
    requires
        t.well_formed(),
        parse_stack(pre) is Ok,
    ensures
        parse_stack(pre + t.render()) == Ok::<Seq<Expression>, ExpressionParseError>(
            parse_stack(pre)->Ok_0.push(t),
        ),
    decreases t,
{
    let st = parse_stack(pre)->Ok_0;
    match t {
        Expression::Var(s) => {
            assert((pre + t.render()).drop_last() =~= pre);
        },
        Expression::Val(v) => {
            assert((pre + t.render()).drop_last() =~= pre);
        },
        Expression::Not(x) => {
            lemma_parse_render_after(pre, *x);
            assert((pre + t.render()).drop_last() =~= pre + x.render());
            assert(st.push(*x).drop_last() =~= st);
        },
        Expression::Or(a, b) | Expression::And(a, b) | Expression::Xor(a, b)
        | Expression::Implies(a, b) | Expression::Equivalent(a, b) => {
            lemma_parse_render_after(pre, *a);
            lemma_parse_render_after(pre + a.render(), *b);
            let c = t.render().last();
            assert(pre + t.render() =~= (pre + a.render() + b.render()).push(c));
            assert((pre + t.render()).drop_last() =~= pre + a.render() + b.render());
            let full = st.push(*a).push(*b);
            assert(full.subrange(0, full.len() - 2) =~= st);
            assert(binary_node(c, *a, *b) == t);
        },
    }
}

/// Reading back the postfix text of a formula whose variables are letters
/// gives that same formula.
pub proof fn lemma_parse_render(t: Expression)
    requires
        t.well_formed(),
    ensures
        parse_bytes(t.render()) == Ok::<Expression, ExpressionParseError>(t),
{
    lemma_parse_render_after(Seq::empty(), t);
    assert(Seq::<u8>::empty() + t.render() =~= t.render());
}

/// The text of a formula whose variables are letters is ASCII.
proof fn lemma_render_ascii(t: Expression)
    requires
        t.well_formed(),
    ensures
        forall|i: int| 0 <= i < t.render().len() ==> #[trigger] t.render()[i] < 128,
    decreases t,
{
    match t {
        Expression::Var(_) => {},
        Expression::Val(_) => {},
        Expression::Not(x) => {
            lemma_render_ascii(*x);
            assert forall|i: int| 0 <= i < t.render().len() implies #[trigger] t.render()[i] < 128 by {
                if i < x.render().len() {
                    assert(t.render()[i] == x.render()[i]);
                }
            }
        },
        Expression::Or(a, b) | Expression::And(a, b) | Expression::Xor(a, b)
        | Expression::Implies(a, b) | Expression::Equivalent(a, b) => {
            lemma_render_ascii(*a);
            lemma_render_ascii(*b);
            let ra = a.render();
            let rb = b.render();
            assert forall|i: int| 0 <= i < t.render().len() implies #[trigger] t.render()[i] < 128 by {
                if i < ra.len() {
                    assert(t.render()[i] == ra[i]);
                } else if i < ra.len() + rb.len() {
                    assert(t.render()[i] == rb[i - ra.len()]);
                } else {
                    assert(t.render()[i] == t.render().last());
                }
            }
        },
    }
}

/// Reading back the text that `to_string` gives for a formula whose
/// variables are letters gives that same formula.
pub proof fn lemma_parse_text(t: Expression, s: &str)
    requires
        t.well_formed(),
        s@ == text_of(t.render()),
    ensures
        parse_bytes(s.spec_bytes()) == Ok::<Expression, ExpressionParseError>(t),
{
    broadcast use vstd::string::is_ascii_spec_bytes;

    let r = t.render();
    lemma_render_ascii(t);
    assert forall|i: int| 0 <= i < s@.len() implies '\0' <= #[trigger] s@[i] <= '\u{7f}' by {
        assert(s@[i] == r[i] as char);
    }
    assert(vstd::string::is_ascii(s));
    assert(s.spec_bytes() =~= r) by {
        assert forall|i: int| 0 <= i < r.len() implies s.spec_bytes()[i] == r[i] by {
            assert(s@[i] == r[i] as char);
        }
    }
    lemma_parse_render(t);
}

/// Every formula that reading leaves on the stack has letters for variables.
proof fn lemma_parse_stack_well_formed(bytes: Seq<u8>)
    ensures
        parse_stack(bytes) is Ok ==> forall|i: int|
            0 <= i < parse_stack(bytes)->Ok_0.len() ==> (#[trigger] parse_stack(
                bytes,
            )->Ok_0[i]).well_formed(),
    decreases bytes.len(),
{
    if bytes.len() > 0 {
        lemma_parse_stack_well_formed(bytes.drop_last());
        if parse_stack(bytes.drop_last()) is Ok {
            let st = parse_stack(bytes.drop_last())->Ok_0;
            let n = st.len() as int;
            if parse_stack(bytes) is Ok {
                let c = bytes.last();
                let out = parse_stack(bytes)->Ok_0;
                assert forall|i: int| 0 <= i < out.len() implies (#[trigger] out[i]).well_formed() by {
                    if i < out.len() - 1 {
                        assert(out[i] == st[i]);
                    }
                }
            }
        }
    }
}

/// A formula read from text has letters for variables.
pub proof fn lemma_parse_well_formed(bytes: Seq<u8>)
    ensures
        parse_bytes(bytes) is Ok ==> parse_bytes(bytes)->Ok_0.well_formed(),
{
    lemma_parse_stack_well_formed(bytes);
}

/// The texts of the formulas `st`, one after the other.
pub open spec fn render_all(st: Seq<Expression>) -> Seq<u8>
    decreases st.len(),
{
    if st.len() == 0 {
        Seq::empty()
    } else {
        render_all(st.drop_last()) + st.last().render()
    }
}

/// The stack that reading leaves holds formulas whose texts, one after the
/// other, are the text read.
proof fn lemma_render_parse_stack(bytes: Seq<u8>)
    ensures
        parse_stack(bytes) is Ok ==> render_all(parse_stack(bytes)->Ok_0) == bytes,
    decreases bytes.len(),
{
    if bytes.len() > 0 && parse_stack(bytes) is Ok {
        let init = bytes.drop_last();
        lemma_render_parse_stack(init);
        let st = parse_stack(init)->Ok_0;
        let c = bytes.last();
        let out = parse_stack(bytes)->Ok_0;
        let n = st.len() as int;
        assert(bytes =~= init.push(c));
        if is_symbol(c) || c == 48u8 || c == 49u8 {
            assert(out.drop_last() =~= st);
        } else if c == 33u8 {
            let x = st.last();
            assert(out.drop_last() =~= st.drop_last());
            assert(render_all(st) == render_all(st.drop_last()) + x.render());
        } else {
            let rest = st.subrange(0, n - 2);
            let a = st[n - 2];
            let b = st[n - 1];
            assert(out.drop_last() =~= rest);
            assert(st.drop_last() =~= rest.push(a));
            assert(rest.push(a).drop_last() =~= rest);
            assert(render_all(rest.push(a)) == render_all(rest) + a.render());
            assert(render_all(st) == render_all(rest.push(a)) + b.render());
            assert(render_all(st) =~= render_all(rest) + a.render() + b.render());
            assert(binary_node(c, a, b).render() =~= a.render() + b.render().push(c));
        }
    }
}

/// A text that reads as a formula is exactly the postfix text of that
/// formula.
pub proof fn lemma_render_parse(bytes: Seq<u8>)
    ensures
        parse_bytes(bytes) is Ok ==> parse_bytes(bytes)->Ok_0.render() == bytes,
{
    lemma_render_parse_stack(bytes);
    if parse_bytes(bytes) is Ok {
        let st = parse_stack(bytes)->Ok_0;
        assert(st.drop_last() =~= Seq::<Expression>::empty());
        assert(render_all(Seq::<Expression>::empty()) == Seq::<u8>::empty());
        assert(Seq::<u8>::empty() + st.last().render() =~= st.last().render());
        assert(render_all(st) == st[0].render());
    }
}

/// Relies on `String::push`: appends the character `c` to `s`.
#[verifier::external_body]
fn push_char(s: &mut String, c: char)
    ensures
        final(s)@ == old(s)@.push(c),
{
    s.push(c);
}

impl Expression {
    /// Reads a formula from its postfix text.
    pub fn parse(s: &str) -> (r: Result<Expression, ExpressionParseError>)
        ensures
            r == parse_bytes(s.spec_bytes()),
            r is Ok ==> r->Ok_0.well_formed(),
    {
        proof {
            lemma_parse_well_formed(s.spec_bytes());
        }
        let bytes = s.as_bytes();
        let mut stack: Vec<Expression> = Vec::new();
        let mut i: usize = 0;
        while i < bytes.len()
            invariant
                bytes@ == s.spec_bytes(),
                0 <= i <= bytes@.len(),
                parse_stack(bytes@.subrange(0, i as int)) == Ok::<
                    Seq<Expression>,
                    ExpressionParseError,
                >(stack@),
            decreases bytes@.len() - i,
        {
            let c = bytes[i];
            let ghost before = stack@;
            assert(bytes@.subrange(0, i + 1).drop_last() =~= bytes@.subrange(0, i as int));
            if c >= 65u8 && c <= 90u8 {
                stack.push(Expression::Var(c));
            } else if c == 48u8 {
                stack.push(Expression::Val(false));
            } else if c == 49u8 {
                stack.push(Expression::Val(true));
            } else if c == 33u8 {
                match stack.pop() {
                    Some(x) => stack.push(Expression::Not(Box::new(x))),
                    None => {
                        proof {
                            lemma_parse_error_stays(bytes@, i + 1, bytes@.len() as int);
                            assert(bytes@.subrange(0, bytes@.len() as int) =~= bytes@);
                        }
                        return Err(ExpressionParseError::MissingArgument);
                    },
                }
            } else if c == 124u8 || c == 38u8 || c == 94u8 || c == 62u8 || c == 61u8 {
                if stack.len() < 2 {
                    proof {
                        lemma_parse_error_stays(bytes@, i + 1, bytes@.len() as int);
                        assert(bytes@.subrange(0, bytes@.len() as int) =~= bytes@);
                    }
                    return Err(ExpressionParseError::MissingArgument);
                }
                let b = stack.pop().unwrap();
                let a = stack.pop().unwrap();
                let node = if c == 124u8 {
                    Expression::Or(Box::new(a), Box::new(b))
                } else if c == 38u8 {
                    Expression::And(Box::new(a), Box::new(b))
                } else if c == 94u8 {
                    Expression::Xor(Box::new(a), Box::new(b))
                } else if c == 62u8 {
                    Expression::Implies(Box::new(a), Box::new(b))
                } else {
                    Expression::Equivalent(Box::new(a), Box::new(b))
                };
                stack.push(node);
                assert(stack@ =~= before.subrange(0, before.len() - 2).push(
                    binary_node(c, before[before.len() - 2], before[before.len() - 1]),
                ));
            } else {
                proof {
                    lemma_parse_error_stays(bytes@, i + 1, bytes@.len() as int);
                    assert(bytes@.subrange(0, bytes@.len() as int) =~= bytes@);
                }
                return Err(ExpressionParseError::UnknownSymbol);
            }
            i = i + 1;
        }
        assert(bytes@.subrange(0, bytes@.len() as int) =~= bytes@);
        if stack.len() != 1 {
            return Err(ExpressionParseError::IncompleteComputation);
        }
        Ok(stack.pop().unwrap())
    }

    /// Appends the postfix text of the formula to `out`.
    fn write_text(&self, out: &mut String)
        ensures
            final(out)@ == old(out)@ + text_of(self.render()),
        decreases self,
    {
        match self {
            Expression::Var(s) => push_char(out, *s as char),
            Expression::Val(v) => push_char(out, if *v { '1' } else { '0' }),
            Expression::Not(x) => {
                x.write_text(out);
                push_char(out, '!');
            },
            Expression::Or(a, b) => {
                a.write_text(out);
                b.write_text(out);
                push_char(out, '|');
            },
            Expression::And(a, b) => {
                a.write_text(out);
                b.write_text(out);
                push_char(out, '&');
            },
            Expression::Xor(a, b) => {
                a.write_text(out);
                b.write_text(out);
                push_char(out, '^');
            },
            Expression::Implies(a, b) => {
                a.write_text(out);
                b.write_text(out);
                push_char(out, '>');
            },
            Expression::Equivalent(a, b) => {
                a.write_text(out);
                b.write_text(out);
                push_char(out, '=');
            },
        }
        assert(final(out)@ =~= old(out)@ + text_of(self.render()));
    }

    /// The postfix text of the formula.
    pub fn to_string(&self) -> (r: String)
        ensures
            r@ == text_of(self.render()),
    {
        let mut out = String::new();
        self.write_text(&mut out);
        assert(out@ =~= text_of(self.render()));
        out
    }
}

impl std::str::FromStr for Expression {
    type Err = ExpressionParseError;

    /// Reads a formula from its postfix text, as `Expression::parse` does.
    fn from_str(s: &str) -> (r: Result<Expression, ExpressionParseError>)
        ensures
            r == parse_bytes(s.spec_bytes()),
            r is Ok ==> r->Ok_0.well_formed(),
    {
        Expression::parse(s)
    }
}

} // verus!
