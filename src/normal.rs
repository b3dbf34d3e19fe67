use vstd::prelude::*;

use crate::environment::Environment;
use crate::expression::Expression;

verus! {

impl Expression {
    /// The number of nodes of the formula.
    pub open spec fn size(self) -> nat
        decreases self,
    {
        match self {
            Expression::Var(_) => 1,
            Expression::Val(_) => 1,
            Expression::Not(x) => 1 + x.size(),
            Expression::Or(a, b) => 1 + a.size() + b.size(),
            Expression::And(a, b) => 1 + a.size() + b.size(),
            Expression::Xor(a, b) => 1 + a.size() + b.size(),
            Expression::Implies(a, b) => 1 + a.size() + b.size(),
            Expression::Equivalent(a, b) => 1 + a.size() + b.size(),
        }
    }

    /// A variable or a constant.
    pub open spec fn is_leaf(self) -> bool {
        self is Var || self is Val
    }

    /// A leaf, or the negation of a leaf.
    pub open spec fn is_literal(self) -> bool {
        match self {
            Expression::Not(x) => x.is_leaf(),
            _ => self.is_leaf(),
        }
    }

    /// Negation normal form: only conjunctions and disjunctions over literals.
    pub open spec fn is_nnf(self) -> bool
        decreases self,
    {
        match self {
            Expression::Or(a, b) => a.is_nnf() && b.is_nnf(),
            Expression::And(a, b) => a.is_nnf() && b.is_nnf(),
            _ => self.is_literal(),
        }
    }

    /// A disjunction of literals.
    pub open spec fn is_clause(self) -> bool
        decreases self,
    {
        match self {
            Expression::Or(a, b) => a.is_clause() && b.is_clause(),
            _ => self.is_literal(),
        }
    }

    /// Conjunctive normal form: a conjunction of clauses, so that no
    /// conjunction stands below a disjunction.
    pub open spec fn is_cnf(self) -> bool
        decreases self,
    {
        match self {
            Expression::And(a, b) => a.is_cnf() && b.is_cnf(),
            _ => self.is_clause(),
        }
    }

    /// The negation normal form of the formula.
    pub open spec fn nnf(self) -> Expression
        decreases self,
    {
        match self {
            Expression::Var(_) => self,
            Expression::Val(_) => self,
            Expression::Not(x) => x.nnf_negated(),
            Expression::Or(a, b) => or_node(a.nnf(), b.nnf()),
            Expression::And(a, b) => and_node(a.nnf(), b.nnf()),
            Expression::Xor(a, b) => or_node(
                and_node(a.nnf(), b.nnf_negated()),
                and_node(a.nnf_negated(), b.nnf()),
            ),
            Expression::Implies(a, b) => or_node(a.nnf_negated(), b.nnf()),
            Expression::Equivalent(a, b) => or_node(
                and_node(a.nnf(), b.nnf()),
                and_node(a.nnf_negated(), b.nnf_negated()),
            ),
        }
    }

    /// The negation normal form of the negation of the formula, built
    /// directly rather than by negating `nnf`.
    pub open spec fn nnf_negated(self) -> Expression
        decreases self,
    {
        match self {
            Expression::Var(_) => Expression::Not(Box::new(self)),
            Expression::Val(v) => Expression::Val(!v),
            Expression::Not(x) => x.nnf(),
            Expression::Or(a, b) => and_node(a.nnf_negated(), b.nnf_negated()),
            Expression::And(a, b) => or_node(a.nnf_negated(), b.nnf_negated()),
            Expression::Xor(a, b) => or_node(
                and_node(a.nnf(), b.nnf()),
                and_node(a.nnf_negated(), b.nnf_negated()),
            ),
            Expression::Implies(a, b) => and_node(a.nnf(), b.nnf_negated()),
            Expression::Equivalent(a, b) => or_node(
                and_node(a.nnf(), b.nnf_negated()),
                and_node(a.nnf_negated(), b.nnf()),
            ),
        }
    }
}

/// The disjunction node over `a` and `b`.
pub open spec fn or_node(a: Expression, b: Expression) -> Expression {
    Expression::Or(Box::new(a), Box::new(b))
}

/// The conjunction node over `a` and `b`.
pub open spec fn and_node(a: Expression, b: Expression) -> Expression {
    Expression::And(Box::new(a), Box::new(b))
}

/// The negation normal form is in negation normal form, keeps the truth
/// value of the formula under every environment, needs no variable that the
/// formula does not have, and keeps the variables letters; its dual is the
/// same for the negation of the formula.
pub proof fn lemma_nnf(t: Expression, env: Environment)
    ensures
        t.nnf().is_nnf(),
        t.nnf_negated().is_nnf(),
        t.nnf().truth(env) == t.truth(env),
        t.nnf_negated().truth(env) == !t.truth(env),
        t.defined_in(env) ==> t.nnf().defined_in(env) && t.nnf_negated().defined_in(env),
        t.well_formed() ==> t.nnf().well_formed() && t.nnf_negated().well_formed(),
    decreases t,
{
    match t {
        Expression::Var(_) => {},
        Expression::Val(_) => {},
        Expression::Not(x) => {
            lemma_nnf(*x, env);
        },
        Expression::Or(a, b) | Expression::And(a, b) | Expression::Xor(a, b)
        | Expression::Implies(a, b) | Expression::Equivalent(a, b) => {
            reveal_with_fuel(Expression::is_nnf, 2);
            reveal_with_fuel(Expression::truth, 2);
            reveal_with_fuel(Expression::defined_in, 2);
            reveal_with_fuel(Expression::well_formed, 2);
            lemma_nnf(*a, env);
            lemma_nnf(*b, env);
        },
    }
}

/// The negation normal form of `e`.
fn nnf_of(e: &Expression) -> (r: Expression)
    ensures
        r == e.nnf(),
    decreases e,
{
    match e {
        Expression::Var(s) => Expression::Var(*s),
        Expression::Val(v) => Expression::Val(*v),
        Expression::Not(x) => nnf_of_negation(x),
        Expression::Or(a, b) => Expression::Or(Box::new(nnf_of(a)), Box::new(nnf_of(b))),
        Expression::And(a, b) => Expression::And(Box::new(nnf_of(a)), Box::new(nnf_of(b))),
        Expression::Xor(a, b) => Expression::Or(
            Box::new(Expression::And(Box::new(nnf_of(a)), Box::new(nnf_of_negation(b)))),
            Box::new(Expression::And(Box::new(nnf_of_negation(a)), Box::new(nnf_of(b)))),
        ),
        Expression::Implies(a, b) => Expression::Or(
            Box::new(nnf_of_negation(a)),
            Box::new(nnf_of(b)),
        ),
        Expression::Equivalent(a, b) => Expression::Or(
            Box::new(Expression::And(Box::new(nnf_of(a)), Box::new(nnf_of(b)))),
            Box::new(Expression::And(Box::new(nnf_of_negation(a)), Box::new(nnf_of_negation(b)))),
        ),
    }
}

/// The negation normal form of the negation of `e`.
fn nnf_of_negation(e: &Expression) -> (r: Expression)
    ensures
        r == e.nnf_negated(),
    decreases e,
{
    match e {
        Expression::Var(s) => Expression::Not(Box::new(Expression::Var(*s))),
        Expression::Val(v) => Expression::Val(!*v),
        Expression::Not(x) => nnf_of(x),
        Expression::Or(a, b) => Expression::And(
            Box::new(nnf_of_negation(a)),
            Box::new(nnf_of_negation(b)),
        ),
        Expression::And(a, b) => Expression::Or(
            Box::new(nnf_of_negation(a)),
            Box::new(nnf_of_negation(b)),
        ),
        Expression::Xor(a, b) => Expression::Or(
            Box::new(Expression::And(Box::new(nnf_of(a)), Box::new(nnf_of(b)))),
            Box::new(Expression::And(Box::new(nnf_of_negation(a)), Box::new(nnf_of_negation(b)))),
        ),
        Expression::Implies(a, b) => Expression::And(
            Box::new(nnf_of(a)),
            Box::new(nnf_of_negation(b)),
        ),
        Expression::Equivalent(a, b) => Expression::Or(
            Box::new(Expression::And(Box::new(nnf_of(a)), Box::new(nnf_of_negation(b)))),
            Box::new(Expression::And(Box::new(nnf_of_negation(a)), Box::new(nnf_of(b)))),
        ),
    }
}

impl Expression {
    /// The negation normal form of the formula: negations pushed down to
    /// the leaves, with the same truth value under every environment.
    pub fn negation_normal(&self) -> (r: Expression)
        ensures
            r == self.nnf(),
            r.is_nnf(),
            forall|env: Environment| #[trigger] r.truth(env) == self.truth(env),
            forall|env: Environment| self.defined_in(env) ==> #[trigger] r.defined_in(env),
            self.well_formed() ==> r.well_formed(),
    {
        let r = nnf_of(self);
        proof {
            assert forall|env: Environment| #[trigger] r.truth(env) == self.truth(env) by {
                lemma_nnf(*self, env);
            }
            assert forall|env: Environment| self.defined_in(env) implies #[trigger] r.defined_in(
                env,
            ) by {
                lemma_nnf(*self, env);
            }
            lemma_nnf(*self, Environment { values: 0, mask: 0 });
        }
        r
    }
}

/// The literals of a clause, left to right.
pub open spec fn clause_literals(c: Expression) -> Seq<Expression>
    decreases c,
{
    match c {
        Expression::Or(a, b) => clause_literals(*a) + clause_literals(*b),
        _ => seq![c],
    }
}

/// The disjunction of `lits` and then `last`, in a chain that leans right.
pub open spec fn disjoin(lits: Seq<Expression>, last: Expression) -> Expression
    decreases lits.len(),
{
    if lits.len() == 0 {
        last
    } else {
        or_node(lits[0], disjoin(lits.drop_first(), last))
    }
}

/// The conjunction of the clauses of `a`, then `b`, in a chain that leans
/// right.
pub open spec fn conjoin(a: Expression, b: Expression) -> Expression
    decreases a,
{
    match a {
        Expression::And(x, y) => conjoin(*x, conjoin(*y, b)),
        _ => and_node(a, b),
    }
}

/// The disjunction of two conjunctive normal forms, with the conjunctions
/// of either side distributed over the other, those of `a` first; two
/// clauses join into one chain that leans right.
pub open spec fn distribute(a: Expression, b: Expression) -> Expression
    decreases a.size() + b.size(),
{
    match a {
        Expression::And(x, y) => conjoin(distribute(*x, b), distribute(*y, b)),
        _ => match b {
            Expression::And(x, y) => conjoin(distribute(a, *x), distribute(a, *y)),
            _ => disjoin(clause_literals(a), b),
        },
    }
}

impl Expression {
    /// The conjunctive normal form of the formula.
    pub open spec fn cnf(self) -> Expression
        decreases self,
    {
        match self {
            Expression::Var(_) => self,
            Expression::Val(_) => self,
            Expression::Not(x) => x.cnf_negated(),
            Expression::Or(a, b) => distribute(a.cnf(), b.cnf()),
            Expression::And(a, b) => conjoin(a.cnf(), b.cnf()),
            Expression::Xor(a, b) => conjoin(
                distribute(a.cnf(), b.cnf()),
                distribute(a.cnf_negated(), b.cnf_negated()),
            ),
            Expression::Implies(a, b) => distribute(a.cnf_negated(), b.cnf()),
            Expression::Equivalent(a, b) => conjoin(
                distribute(a.cnf(), b.cnf_negated()),
                distribute(a.cnf_negated(), b.cnf()),
            ),
        }
    }

    /// The conjunctive normal form of the negation of the formula, built
    /// directly rather than by negating `cnf`.
    pub open spec fn cnf_negated(self) -> Expression
        decreases self,
    {
        match self {
            Expression::Var(_) => Expression::Not(Box::new(self)),
            Expression::Val(v) => Expression::Val(!v),
            Expression::Not(x) => x.cnf(),
            Expression::Or(a, b) => conjoin(a.cnf_negated(), b.cnf_negated()),
            Expression::And(a, b) => distribute(a.cnf_negated(), b.cnf_negated()),
            Expression::Xor(a, b) => conjoin(
                distribute(a.cnf_negated(), b.cnf()),
                distribute(a.cnf(), b.cnf_negated()),
            ),
            Expression::Implies(a, b) => conjoin(a.cnf(), b.cnf_negated()),
            Expression::Equivalent(a, b) => conjoin(
                distribute(a.cnf_negated(), b.cnf_negated()),
                distribute(a.cnf(), b.cnf()),
            ),
        }
    }
}

/// Chaining `p` and then `q` in front of `last` is chaining `p` in front of
/// the chain of `q` and `last`.
proof fn lemma_disjoin_append(p: Seq<Expression>, q: Seq<Expression>, last: Expression)
    ensures
        disjoin(p + q, last) == disjoin(p, disjoin(q, last)),
    decreases p.len(),
{
    if p.len() > 0 {
        lemma_disjoin_append(p.drop_first(), q, last);
        assert((p + q).drop_first() =~= p.drop_first() + q);
    }
}

/// A clause is in conjunctive normal form, and no conjunction.
proof fn lemma_clause_is_cnf(e: Expression)
    ensures
        e.is_clause() ==> e.is_cnf() && !(e is And),
{
}

/// The conjunction of `a` and `b`, both in conjunctive normal form: the
/// clauses of `a`, then those of `b`, in a chain that leans right.
fn cnf_and(a: Expression, b: Expression) -> (r: Expression)
    requires
        a.is_cnf(),
        b.is_cnf(),
    ensures
        r.is_cnf(),
        forall|env: Environment| #[trigger] r.truth(env) == (a.truth(env) && b.truth(env)),
        forall|env: Environment| #[trigger]
            r.defined_in(env) == (a.defined_in(env) && b.defined_in(env)),
        r.well_formed() == (a.well_formed() && b.well_formed()),
        r == conjoin(a, b),
    decreases a.size(),
{
    match a {
        Expression::And(x, y) => {
            let rest = cnf_and(*y, b);
            cnf_and(*x, rest)
        },
        a => Expression::And(Box::new(a), Box::new(b)),
    }
}

/// The disjunction of `a` and `b`, both in conjunctive normal form, in
/// conjunctive normal form: conjunctions on either side are distributed,
/// and a clause on the left is spread into a chain that leans right.
fn cnf_or(a: Expression, b: Expression) -> (r: Expression)
    requires
        a.is_cnf(),
        b.is_cnf(),
    ensures
        r.is_cnf(),
        forall|env: Environment| #[trigger] r.truth(env) == (a.truth(env) || b.truth(env)),
        forall|env: Environment| #[trigger]
            r.defined_in(env) == (a.defined_in(env) && b.defined_in(env)),
        r.well_formed() == (a.well_formed() && b.well_formed()),
        a.is_clause() && b.is_clause() ==> r.is_clause() && r.size() <= a.size() + b.size() + 1,
        r == distribute(a, b),
    decreases a.size() + b.size(), a.size(),
{
    match a {
        Expression::And(x, y) => {
            let left = cnf_or(*x, b.clone());
            let right = cnf_or(*y, b);
            cnf_and(left, right)
        },
        a => match b {
            Expression::And(x, y) => {
                let left = cnf_or(a.clone(), *x);
                let right = cnf_or(a, *y);
                cnf_and(left, right)
            },
            b => match a {
                Expression::Or(x, y) => {
                    proof {
                        lemma_clause_is_cnf(*x);
                        lemma_clause_is_cnf(*y);
                        lemma_clause_is_cnf(b);
                    }
                    let rest = cnf_or(*y, b);
                    let r = cnf_or(*x, rest);
                    proof {
                        lemma_disjoin_append(clause_literals(*x), clause_literals(*y), b);
                        lemma_clause_is_cnf(rest);
                    }
                    r
                },
                a => {
                    let r = Expression::Or(Box::new(a), Box::new(b));
                    assert(seq![a].drop_first() =~= Seq::<Expression>::empty());
                    assert(disjoin(Seq::<Expression>::empty(), b) == b);
                    r
                },
            },
        },
    }
}

/// The conjunctive normal form of `e`.
fn cnf_of(e: &Expression) -> (r: Expression)
    ensures
        r.is_cnf(),
        forall|env: Environment| #[trigger] r.truth(env) == e.truth(env),
        forall|env: Environment| #[trigger] r.defined_in(env) == e.defined_in(env),
        r.well_formed() == e.well_formed(),
        r == e.cnf(),
    decreases e,
{
    match e {
        Expression::Var(s) => Expression::Var(*s),
        Expression::Val(v) => Expression::Val(*v),
        Expression::Not(x) => cnf_of_negation(x),
        Expression::Or(a, b) => cnf_or(cnf_of(a), cnf_of(b)),
        Expression::And(a, b) => cnf_and(cnf_of(a), cnf_of(b)),
        Expression::Xor(a, b) => cnf_and(
            cnf_or(cnf_of(a), cnf_of(b)),
            cnf_or(cnf_of_negation(a), cnf_of_negation(b)),
        ),
        Expression::Implies(a, b) => cnf_or(cnf_of_negation(a), cnf_of(b)),
        Expression::Equivalent(a, b) => cnf_and(
            cnf_or(cnf_of(a), cnf_of_negation(b)),
            cnf_or(cnf_of_negation(a), cnf_of(b)),
        ),
    }
}

/// The conjunctive normal form of the negation of `e`, built directly
/// rather than by negating `cnf_of(e)`.
fn cnf_of_negation(e: &Expression) -> (r: Expression)
    ensures
        r.is_cnf(),
        forall|env: Environment| #[trigger] r.truth(env) == !e.truth(env),
        forall|env: Environment| #[trigger] r.defined_in(env) == e.defined_in(env),
        r.well_formed() == e.well_formed(),
        r == e.cnf_negated(),
    decreases e,
{
    match e {
        Expression::Var(s) => Expression::Not(Box::new(Expression::Var(*s))),
        Expression::Val(v) => Expression::Val(!*v),
        Expression::Not(x) => cnf_of(x),
        Expression::Or(a, b) => cnf_and(cnf_of_negation(a), cnf_of_negation(b)),
        Expression::And(a, b) => cnf_or(cnf_of_negation(a), cnf_of_negation(b)),
        Expression::Xor(a, b) => cnf_and(
            cnf_or(cnf_of_negation(a), cnf_of(b)),
            cnf_or(cnf_of(a), cnf_of_negation(b)),
        ),
        Expression::Implies(a, b) => cnf_and(cnf_of(a), cnf_of_negation(b)),
        Expression::Equivalent(a, b) => cnf_and(
            cnf_or(cnf_of_negation(a), cnf_of_negation(b)),
            cnf_or(cnf_of(a), cnf_of(b)),
        ),
    }
}

impl Expression {
    /// The conjunctive normal form of the formula: a conjunction of
    /// clauses, with the same truth value under every environment and the
    /// same variables.
    pub fn conjonctive_normal(&self) -> (r: Expression)
        ensures
            r.is_cnf(),
            forall|env: Environment| #[trigger] r.truth(env) == self.truth(env),
            forall|env: Environment| #[trigger] r.defined_in(env) == self.defined_in(env),
            r.well_formed() == self.well_formed(),
            r == self.cnf(),
    {
        cnf_of(self)
    }
}

} // verus!
