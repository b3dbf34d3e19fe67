use vstd::prelude::*;

use crate::environment::{assignments_of, is_symbol, slot, Assignments, Environment, Symbol};

verus! {

/// A propositional formula. Each node owns its operands.
#[derive(Debug)]
pub enum Expression {
    Var(Symbol),
    Val(bool),
    Not(Box<Expression>),
    Or(Box<Expression>, Box<Expression>),
    And(Box<Expression>, Box<Expression>),
    Xor(Box<Expression>, Box<Expression>),
    Implies(Box<Expression>, Box<Expression>),
    Equivalent(Box<Expression>, Box<Expression>),
}

/// Why a postfix formula could not be read.
#[derive(Debug, PartialEq, Eq, Structural)]
pub enum ExpressionParseError {
    /// A byte outside the grammar.
    UnknownSymbol,
    /// An operator with too few operands before it.
    MissingArgument,
    /// At the end, zero or several formulas instead of one.
    IncompleteComputation,
}

/// The bit that stands for variable `s`, as a mask.
pub open spec fn symbol_mask(s: u8) -> u32 {
    if is_symbol(s) {
        1u32 << slot(s)
    } else {
        0
    }
}

impl Expression {
    /// Every variable of the formula is an uppercase letter.
    pub open spec fn well_formed(self) -> bool
        decreases self,
    {
        match self {
            Expression::Var(s) => is_symbol(s),
            Expression::Val(_) => true,
            Expression::Not(x) => x.well_formed(),
            Expression::Or(a, b) => a.well_formed() && b.well_formed(),
            Expression::And(a, b) => a.well_formed() && b.well_formed(),
            Expression::Xor(a, b) => a.well_formed() && b.well_formed(),
            Expression::Implies(a, b) => a.well_formed() && b.well_formed(),
            Expression::Equivalent(a, b) => a.well_formed() && b.well_formed(),
        }
    }

    /// The variables of the formula, one bit each.
    pub open spec fn variables(self) -> u32
        decreases self,
    {
        match self {
            Expression::Var(s) => symbol_mask(s),
            Expression::Val(_) => 0,
            Expression::Not(x) => x.variables(),
            Expression::Or(a, b) => a.variables() | b.variables(),
            Expression::And(a, b) => a.variables() | b.variables(),
            Expression::Xor(a, b) => a.variables() | b.variables(),
            Expression::Implies(a, b) => a.variables() | b.variables(),
            Expression::Equivalent(a, b) => a.variables() | b.variables(),
        }
    }

    /// Every variable of the formula has a value in `env`.
    pub open spec fn defined_in(self, env: Environment) -> bool
        decreases self,
    {
        match self {
            Expression::Var(s) => env.has(s),
            Expression::Val(_) => true,
            Expression::Not(x) => x.defined_in(env),
            Expression::Or(a, b) => a.defined_in(env) && b.defined_in(env),
            Expression::And(a, b) => a.defined_in(env) && b.defined_in(env),
            Expression::Xor(a, b) => a.defined_in(env) && b.defined_in(env),
            Expression::Implies(a, b) => a.defined_in(env) && b.defined_in(env),
            Expression::Equivalent(a, b) => a.defined_in(env) && b.defined_in(env),
        }
    }

    /// The truth value of the formula when its variables take their values
    /// from `env`.
    pub open spec fn truth(self, env: Environment) -> bool
        decreases self,
    {
        match self {
            Expression::Var(s) => env.value_of(s),
            Expression::Val(v) => v,
            Expression::Not(x) => !x.truth(env),
            Expression::Or(a, b) => a.truth(env) || b.truth(env),
            Expression::And(a, b) => a.truth(env) && b.truth(env),
            Expression::Xor(a, b) => a.truth(env) != b.truth(env),
            Expression::Implies(a, b) => !a.truth(env) || b.truth(env),
            Expression::Equivalent(a, b) => a.truth(env) == b.truth(env),
        }
    }

    /// The formula is true under some assignment of its variables, as the
    /// enumeration hands them out.
    pub open spec fn satisfiable(self) -> bool {
        exists|i: int|
            0 <= i < assignments_of(self.variables()).len() && #[trigger] self.truth(
                assignments_of(self.variables())[i],
            )
    }

    /// The variable `symbol`.
    pub fn variable(symbol: Symbol) -> (r: Expression)
        ensures
            r == Expression::Var(symbol),
    {
        Expression::Var(symbol)
    }

    /// The constant `value`.
    pub fn value(value: bool) -> (r: Expression)
        ensures
            r == Expression::Val(value),
    {
        Expression::Val(value)
    }

    /// The negation of `expr`.
    pub fn not(expr: Expression) -> (r: Expression)
        ensures
            r == Expression::Not(Box::new(expr)),
    {
        Expression::Not(Box::new(expr))
    }

    /// The disjunction of `a` and `b`.
    pub fn or(a: Expression, b: Expression) -> (r: Expression)
        ensures
            r == Expression::Or(Box::new(a), Box::new(b)),
    {
        Expression::Or(Box::new(a), Box::new(b))
    }

    /// The conjunction of `a` and `b`.
    pub fn and(a: Expression, b: Expression) -> (r: Expression)
        ensures
            r == Expression::And(Box::new(a), Box::new(b)),
    {
        Expression::And(Box::new(a), Box::new(b))
    }

    /// The exclusive disjunction of `a` and `b`.
    pub fn xor(a: Expression, b: Expression) -> (r: Expression)
        ensures
            r == Expression::Xor(Box::new(a), Box::new(b)),
    {
        Expression::Xor(Box::new(a), Box::new(b))
    }

    /// The implication from `a` to `b`.
    pub fn implies(a: Expression, b: Expression) -> (r: Expression)
        ensures
            r == Expression::Implies(Box::new(a), Box::new(b)),
    {
        Expression::Implies(Box::new(a), Box::new(b))
    }

    /// The equivalence of `a` and `b`.
    pub fn equivalent(a: Expression, b: Expression) -> (r: Expression)
        ensures
            r == Expression::Equivalent(Box::new(a), Box::new(b)),
    {
        Expression::Equivalent(Box::new(a), Box::new(b))
    }

    /// The truth value of the formula under `env`, which must give a value
    /// to each of its variables.
    pub fn eval(&self, env: Environment) -> (r: bool)
        requires
            self.defined_in(env),
        ensures
            r == self.truth(env),
        decreases self,
    {
        match self {
            Expression::Var(symbol) => {
                let v = env.get(*symbol);
                v.unwrap()
            },
            Expression::Val(value) => *value,
            Expression::Not(x) => !x.eval(env),
            Expression::Or(a, b) => a.eval(env) || b.eval(env),
            Expression::And(a, b) => a.eval(env) && b.eval(env),
            Expression::Xor(a, b) => a.eval(env) ^ b.eval(env),
            Expression::Implies(a, b) => !a.eval(env) || b.eval(env),
            Expression::Equivalent(a, b) => a.eval(env) == b.eval(env),
        }
    }

    /// Adds the variables of the formula to `env`.
    pub(crate) fn collect(&self, env: &mut Environment)
        requires
            self.well_formed(),
        ensures
            final(env).spec_mask() == old(env).spec_mask() | self.variables(),
            final(env).spec_values() == old(env).spec_values(),
        decreases self,
    {
        match self {
            Expression::Val(_) => {
                let ghost m = env.spec_mask();
                assert(m | 0 == m) by (bit_vector);
            },
            Expression::Var(symbol) => {
                env.enable(*symbol);
            },
            Expression::Not(x) => x.collect(env),
            Expression::Or(a, b) | Expression::And(a, b) | Expression::Xor(a, b)
            | Expression::Implies(a, b) | Expression::Equivalent(a, b) => {
                let ghost m = env.spec_mask();
                a.collect(env);
                b.collect(env);
                let ghost va = a.variables();
                let ghost vb = b.variables();
                assert((m | va) | vb == m | (va | vb)) by (bit_vector);
            },
        }
    }

    /// Every assignment of truth values to the variables of the formula, in
    /// increasing order of the values read as a number; none where the
    /// formula has no variable.
    pub fn envs(&self) -> (r: Assignments)
        requires
            self.well_formed(),
        ensures
            r.wf(),
            r.remaining() == assignments_of(self.variables()),
    {
        let mut env = Environment::new(0, 0);
        self.collect(&mut env);
        let ghost vars = self.variables();
        assert(0 | vars == vars) by (bit_vector);
        Assignments::new(env)
    }
}

impl Clone for Expression {
    fn clone(&self) -> (r: Expression)
        ensures
            r == *self,
        decreases self,
    {
        match self {
            Expression::Var(s) => Expression::Var(*s),
            Expression::Val(v) => Expression::Val(*v),
            Expression::Not(x) => Expression::Not(Box::new((**x).clone())),
            Expression::Or(a, b) => Expression::Or(Box::new((**a).clone()), Box::new((**b).clone())),
            Expression::And(a, b) => Expression::And(
                Box::new((**a).clone()),
                Box::new((**b).clone()),
            ),
            Expression::Xor(a, b) => Expression::Xor(
                Box::new((**a).clone()),
                Box::new((**b).clone()),
            ),
            Expression::Implies(a, b) => Expression::Implies(
                Box::new((**a).clone()),
                Box::new((**b).clone()),
            ),
            Expression::Equivalent(a, b) => Expression::Equivalent(
                Box::new((**a).clone()),
                Box::new((**b).clone()),
            ),
        }
    }
}

impl std::ops::Not for Expression {
    type Output = Expression;

    fn not(self) -> (r: Expression)
        ensures
            r == Expression::Not(Box::new(self)),
    {
        Expression::Not(Box::new(self))
    }
}

impl std::ops::BitOr for Expression {
    type Output = Expression;

    fn bitor(self, rhs: Expression) -> (r: Expression)
        ensures
            r == Expression::Or(Box::new(self), Box::new(rhs)),
    {
        Expression::Or(Box::new(self), Box::new(rhs))
    }
}

impl std::ops::BitAnd for Expression {
    type Output = Expression;

    fn bitand(self, rhs: Expression) -> (r: Expression)
        ensures
            r == Expression::And(Box::new(self), Box::new(rhs)),
    {
        Expression::And(Box::new(self), Box::new(rhs))
    }
}

impl std::ops::BitXor for Expression {
    type Output = Expression;

    fn bitxor(self, rhs: Expression) -> (r: Expression)
        ensures
            r == Expression::Xor(Box::new(self), Box::new(rhs)),
    {
        Expression::Xor(Box::new(self), Box::new(rhs))
    }
}

impl vstd::std_specs::ops::NotSpecImpl for Expression {
    open spec fn obeys_not_spec() -> bool {
        true
    }

    open spec fn not_req(self) -> bool {
        true
    }

    open spec fn not_spec(self) -> Expression {
        Expression::Not(Box::new(self))
    }
}

impl vstd::std_specs::ops::BitOrSpecImpl for Expression {
    open spec fn obeys_bitor_spec() -> bool {
        true
    }

    open spec fn bitor_req(self, rhs: Expression) -> bool {
        true
    }

    open spec fn bitor_spec(self, rhs: Expression) -> Expression {
        Expression::Or(Box::new(self), Box::new(rhs))
    }
}

impl vstd::std_specs::ops::BitAndSpecImpl for Expression {
    open spec fn obeys_bitand_spec() -> bool {
        true
    }

    open spec fn bitand_req(self, rhs: Expression) -> bool {
        true
    }

    open spec fn bitand_spec(self, rhs: Expression) -> Expression {
        Expression::And(Box::new(self), Box::new(rhs))
    }
}

impl vstd::std_specs::ops::BitXorSpecImpl for Expression {
    open spec fn obeys_bitxor_spec() -> bool {
        true
    }

    open spec fn bitxor_req(self, rhs: Expression) -> bool {
        true
    }

    open spec fn bitxor_spec(self, rhs: Expression) -> Expression {
        Expression::Xor(Box::new(self), Box::new(rhs))
    }
}

} // verus!
