use vstd::prelude::*;

use crate::environment::{
    assignments_of, bit, is_submask, slot, symbols_below, values_below, Assignments, Environment,
    SYMBOL_COUNT,
};
use crate::expression::{symbol_mask, Expression};

verus! {

/// The digit for a truth value: `1` or `0`.
pub open spec fn digit(b: bool) -> u8 {
    if b {
        49u8
    } else {
        48u8
    }
}

/// One cell of the table: ` c |`.
pub open spec fn cell(c: u8) -> Seq<u8> {
    seq![32u8, c, 32u8, 124u8]
}

/// A cell for each of the letters `syms`.
pub open spec fn symbol_cells(syms: Seq<u8>) -> Seq<u8>
    decreases syms.len(),
{
    if syms.len() == 0 {
        Seq::empty()
    } else {
        symbol_cells(syms.drop_last()) + cell(syms.last())
    }
}

/// A cell for each of the truth values `vals`.
pub open spec fn value_cells(vals: Seq<bool>) -> Seq<u8>
    decreases vals.len(),
{
    if vals.len() == 0 {
        Seq::empty()
    } else {
        value_cells(vals.drop_last()) + cell(digit(vals.last()))
    }
}

/// `n` separator cells, `---|` each.
pub open spec fn rule_cells(n: nat) -> Seq<u8>
    decreases n,
{
    if n == 0 {
        Seq::empty()
    } else {
        rule_cells((n - 1) as nat) + seq![45u8, 45u8, 45u8, 124u8]
    }
}

/// The two header lines: a column per variable and one for the result,
/// then the separator.
pub open spec fn table_header(syms: Seq<u8>) -> Seq<u8> {
    seq![124u8] + symbol_cells(syms) + cell(61u8) + seq![10u8, 124u8] + rule_cells(syms.len() + 1)
        + seq![10u8]
}

/// The line of the table for the assignment `env`.
pub open spec fn table_row(t: Expression, env: Environment) -> Seq<u8> {
    seq![124u8] + value_cells(
        values_below(env.spec_mask(), env.spec_values(), SYMBOL_COUNT as nat),
    ) + cell(digit(t.truth(env))) + seq![10u8]
}

/// The lines of the table for the assignments `envs`, in order.
pub open spec fn table_rows(t: Expression, envs: Seq<Environment>) -> Seq<u8>
    decreases envs.len(),
{
    if envs.len() == 0 {
        Seq::empty()
    } else {
        table_rows(t, envs.drop_last()) + table_row(t, envs.last())
    }
}

impl Expression {
    /// The truth table of the formula: the header, then a line per
    /// assignment of its variables, in the order of the enumeration.
    pub open spec fn truth_table(self) -> Seq<u8> {
        table_header(symbols_below(self.variables(), SYMBOL_COUNT as nat)) + table_rows(
            self,
            assignments_of(self.variables()),
        )
    }
}

/// A formula has a value wherever each of its variables has one.
pub proof fn lemma_defined_in(t: Expression, env: Environment)
    requires
        t.well_formed(),
        is_submask(t.variables(), env.spec_mask()),
    ensures
        t.defined_in(env),
    decreases t,
{
    let m = env.spec_mask();
    match t {
        Expression::Var(s) => {
            let i = slot(s);
            assert(symbol_mask(s) == 1u32 << i);
            assert(i < 26 && (1u32 << i) & !m == 0 ==> bit(m, i)) by (bit_vector);
        },
        Expression::Val(_) => {},
        Expression::Not(x) => {
            lemma_defined_in(*x, env);
        },
        Expression::Or(a, b) | Expression::And(a, b) | Expression::Xor(a, b)
        | Expression::Implies(a, b) | Expression::Equivalent(a, b) => {
            let va = a.variables();
            let vb = b.variables();
            assert((va | vb) & !m == 0 ==> va & !m == 0 && vb & !m == 0) by (bit_vector);
            lemma_defined_in(*a, env);
            lemma_defined_in(*b, env);
        },
    }
}

/// Appends the cell ` c |` to `out`.
fn push_cell(out: &mut Vec<u8>, c: u8)
    ensures
        final(out)@ == old(out)@ + cell(c),
{
    out.push(32u8);
    out.push(c);
    out.push(32u8);
    out.push(124u8);
    assert(final(out)@ =~= old(out)@ + cell(c));
}

impl Expression {
    /// Whether some assignment of the variables makes the formula true; a
    /// formula without variables has no assignment to try.
    pub fn sat(&self) -> (r: bool)
        requires
            self.well_formed(),
        ensures
            r == self.satisfiable(),
    {
        let mut it = self.envs();
        let ghost all = it.remaining();
        let ghost mut k: int = 0;
        loop
            invariant
                self.well_formed(),
                it.wf(),
                all == assignments_of(self.variables()),
                0 <= k <= all.len(),
                it.remaining() == all.subrange(k, all.len() as int),
                forall|i: int| 0 <= i < k ==> !#[trigger] self.truth(all[i]),
            decreases it.remaining().len(),
        {
            match it.next() {
                None => {
                    return false;
                },
                Some(env) => {
                    proof {
                        assert(env == all[k]);
                        let vars = self.variables();
                        assert(is_submask(vars, vars)) by (bit_vector);
                        lemma_defined_in(*self, env);
                        k = k + 1;
                        assert(it.remaining() =~= all.subrange(k, all.len() as int));
                    }
                    if self.eval(env) {
                        return true;
                    }
                },
            }
        }
    }

    /// Appends the truth table of the formula to `output`.
    pub fn write_truth_table(&self, output: &mut Vec<u8>)
        requires
            self.well_formed(),
        ensures
            final(output)@ == old(output)@ + self.truth_table(),
    {
        let mut vars = Environment::new(0, 0);
        self.collect(&mut vars);
        let ghost vm = self.variables();
        assert(0 | vm == vm) by (bit_vector);
        let symbols = vars.symbols();
        output.push(124u8);
        let mut i: usize = 0;
        while i < symbols.len()
            invariant
                0 <= i <= symbols@.len(),
                output@ == old(output)@ + seq![124u8] + symbol_cells(symbols@.subrange(0, i as int)),
            decreases symbols@.len() - i,
        {
            push_cell(output, symbols[i]);
            assert(symbols@.subrange(0, i + 1).drop_last() =~= symbols@.subrange(0, i as int));
            i = i + 1;
        }
        assert(symbols@.subrange(0, symbols@.len() as int) =~= symbols@);
        push_cell(output, 61u8);
        output.push(10u8);
        output.push(124u8);
        let ghost head = output@;
        let mut j: usize = 0;
        while j < symbols.len() + 1
            invariant
                symbols@.len() <= SYMBOL_COUNT,
                0 <= j <= symbols@.len() + 1,
                output@ == head + rule_cells(j as nat),
            decreases symbols@.len() + 1 - j,
        {
            output.push(45u8);
            output.push(45u8);
            output.push(45u8);
            output.push(124u8);
            j = j + 1;
            assert(output@ =~= head + rule_cells(j as nat));
        }
        output.push(10u8);
        assert(output@ =~= old(output)@ + table_header(symbols@));
        let ghost top = output@;
        assert(symbols@ == symbols_below(vm, SYMBOL_COUNT as nat));
        let mut it = Assignments::new(vars);
        let ghost all = it.remaining();
        let ghost mut k: int = 0;
        loop
            invariant
                self.well_formed(),
                it.wf(),
                all == assignments_of(self.variables()),
                0 <= k <= all.len(),
                it.remaining() == all.subrange(k, all.len() as int),
                output@ == top + table_rows(*self, all.subrange(0, k)),
                top == old(output)@ + table_header(symbols_below(self.variables(), SYMBOL_COUNT as nat)),
            ensures
                output@ == old(output)@ + self.truth_table(),
            decreases it.remaining().len(),
        {
            match it.next() {
                None => {
                    assert(all.subrange(0, k) =~= all);
                    assert(output@ =~= old(output)@ + self.truth_table());
                    break ;
                },
                Some(env) => {
                    let ghost before = output@;
                    proof {
                        assert(env == all[k]);
                        let vm = self.variables();
                        assert(is_submask(vm, vm)) by (bit_vector);
                        lemma_defined_in(*self, env);
                    }
                    output.push(124u8);
                    let values = env.values();
                    let mut i: usize = 0;
                    while i < values.len()
                        invariant
                            0 <= i <= values@.len(),
                            output@ == before + seq![124u8] + value_cells(
                                values@.subrange(0, i as int),
                            ),
                        decreases values@.len() - i,
                    {
                        push_cell(output, if values[i] { 49u8 } else { 48u8 });
                        assert(values@.subrange(0, i + 1).drop_last() =~= values@.subrange(
                            0,
                            i as int,
                        ));
                        i = i + 1;
                    }
                    assert(values@.subrange(0, values@.len() as int) =~= values@);
                    let result = self.eval(env);
                    push_cell(output, if result { 49u8 } else { 48u8 });
                    output.push(10u8);
                    proof {
                        assert(all.subrange(0, k + 1).drop_last() =~= all.subrange(0, k));
                        k = k + 1;
                        assert(it.remaining() =~= all.subrange(k, all.len() as int));
                        assert(output@ =~= top + table_rows(*self, all.subrange(0, k)));
                    }
                },
            }
        }
    }
}

} // verus!
