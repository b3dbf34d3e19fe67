use vstd::prelude::*;
use vstd::arithmetic::power2::{lemma2_to64, lemma_pow2_unfold, pow2};
use vstd::set_lib::{lemma_map_size, lemma_set_disjoint_lens};

verus! {

/// A variable name: one uppercase ASCII letter.
pub type Symbol = u8;

/// The first letter of the alphabet of variables, `A`.
pub const FIRST_SYMBOL: u8 = 65;

/// The last letter of the alphabet of variables, `Z`.
pub const LAST_SYMBOL: u8 = 90;

/// Number of letters in the alphabet of variables.
pub const SYMBOL_COUNT: u32 = 26;

/// Whether `s` names a variable.
pub open spec fn is_symbol(s: u8) -> bool {
    FIRST_SYMBOL <= s <= LAST_SYMBOL
}

/// The bit that stands for variable `s`.
pub open spec fn slot(s: u8) -> u32 {
    (s - FIRST_SYMBOL) as u32
}

/// Bit `i` of `x`.
pub open spec fn bit(x: u32, i: u32) -> bool {
    (x >> i) & 1 == 1
}

/// A bit is set when its masked shift is not zero.
pub proof fn lemma_bit_test(x: u32, i: u32)
    ensures
        bit(x, i) == ((x >> i) & 1 != 0),
{
    assert(((x >> i) & 1 == 1) == ((x >> i) & 1 != 0)) by (bit_vector);
}

/// Every bit set in `v` is also set in `mask`.
pub open spec fn is_submask(v: u32, mask: u32) -> bool {
    v & !mask == 0
}

/// The submask that follows `v` in increasing order: the bits outside `mask`
/// are forced to one so that the carry of the increment runs through them.
pub open spec fn next_submask(mask: u32, v: u32) -> u32 {
    (((v | !mask) + 1) as u32) & mask
}

/// `next_submask` gives the least submask of `mask` above `v`.
pub proof fn lemma_next_submask(mask: u32, v: u32, w: u32)
    by (bit_vector)
    requires
        is_submask(v, mask),
        v != mask,
    ensures
        (v | !mask) < 0xffff_ffffu32,
        v < next_submask(mask, v) <= mask,
        is_submask(next_submask(mask, v), mask),
        is_submask(w, mask) && w > v ==> w >= next_submask(mask, v),
{
}

/// The submasks of `mask` from `v` on, in increasing order, ending with `mask`.
/// The guards on `next_submask` only make the recursion visibly finite: for
/// a submask `v` below `mask` the next submask lies strictly between the two.
pub open spec fn submasks_from(mask: u32, v: u32) -> Seq<u32>
    decreases mask - v,
{
    if v >= mask || next_submask(mask, v) <= v || next_submask(mask, v) > mask {
        seq![v]
    } else {
        seq![v].add(submasks_from(mask, next_submask(mask, v)))
    }
}

/// Forcing the bits outside `mask` to one leaves no room for an increment
/// exactly when every bit of `mask` is already set.
pub proof fn lemma_submask_full(mask: u32, v: u32)
    requires
        is_submask(v, mask),
    ensures
        ((v | !mask) == 0xffff_ffffu32) == (v == mask),
        v <= mask,
{
    assert(v & !mask == 0 ==> (((v | !mask) == 0xffff_ffffu32) == (v == mask))) by (bit_vector);
    assert(v & !mask == 0 ==> v <= mask) by (bit_vector);
}

/// Zero is a submask of every mask.
pub proof fn lemma_zero_submask(mask: u32)
    ensures
        is_submask(0, mask),
{
    assert(0u32 & !mask == 0) by (bit_vector);
}

/// From a submask `v` on, the enumeration visits every submask of `mask` that
/// is at least `v`, and nothing else, in strictly increasing order, starting
/// at `v` and ending at `mask`.
pub proof fn lemma_submasks_from(mask: u32, v: u32)
    requires
        is_submask(v, mask),
    ensures
        submasks_from(mask, v).len() > 0,
        submasks_from(mask, v)[0] == v,
        submasks_from(mask, v).last() == mask,
        forall|i: int|
            0 <= i < submasks_from(mask, v).len() ==> is_submask(
                #[trigger] submasks_from(mask, v)[i],
                mask,
            ) && submasks_from(mask, v)[i] >= v,
        forall|i: int, j: int|
            0 <= i < j < submasks_from(mask, v).len() ==> #[trigger] submasks_from(mask, v)[i]
                < #[trigger] submasks_from(mask, v)[j],
        forall|w: u32| is_submask(w, mask) && w >= v ==> #[trigger] submasks_from(mask, v).contains(w),
    decreases mask - v,
{
    lemma_submask_full(mask, v);
    let s = submasks_from(mask, v);
    if v == mask {
        assert(s =~= seq![v]);
        assert forall|w: u32| is_submask(w, mask) && w >= v implies #[trigger] s.contains(w) by {
            lemma_submask_full(mask, w);
            assert(s[0] == w);
        }
    } else {
        let n = next_submask(mask, v);
        lemma_next_submask(mask, v, 0);
        lemma_submasks_from(mask, n);
        let rest = submasks_from(mask, n);
        assert(s =~= seq![v].add(rest));
        assert forall|i: int, j: int| 0 <= i < j < s.len() implies #[trigger] s[i] < #[trigger] s[j] by {
            if i > 0 {
                assert(s[i] == rest[i - 1] && s[j] == rest[j - 1]);
            } else {
                assert(s[j] == rest[j - 1]);
            }
        }
        assert forall|w: u32| is_submask(w, mask) && w >= v implies #[trigger] s.contains(w) by {
            if w == v {
                assert(s[0] == w);
            } else {
                lemma_next_submask(mask, v, w);
                assert(rest.contains(w));
                let k = choose|k: int| 0 <= k < rest.len() && rest[k] == w;
                assert(s[k + 1] == w);
            }
        }
        assert forall|i: int| 0 <= i < s.len() implies is_submask(#[trigger] s[i], mask) && s[i]
            >= v by {
            if i > 0 {
                assert(s[i] == rest[i - 1]);
            }
        }
    }
}

/// The assignments of the variables of `mask`: none when `mask` is empty,
/// otherwise one per submask of `mask`, in increasing order of the values.
pub open spec fn assignments_of(mask: u32) -> Seq<Environment> {
    if mask == 0 {
        Seq::empty()
    } else {
        submasks_from(mask, 0).map_values(|v: u32| Environment { values: v, mask })
    }
}

/// The letters whose bit is set in `mask`, among the first `n` of the
/// alphabet, in alphabetical order.
pub open spec fn symbols_below(mask: u32, n: nat) -> Seq<u8>
    decreases n,
{
    if n == 0 {
        Seq::empty()
    } else {
        let i = (n - 1) as nat;
        let rest = symbols_below(mask, i);
        if bit(mask, i as u32) {
            rest.push((FIRST_SYMBOL + i) as u8)
        } else {
            rest
        }
    }
}

/// The bits of `values` at the positions below `n` that are set in `mask`,
/// in increasing order of position.
pub open spec fn values_below(mask: u32, values: u32, n: nat) -> Seq<bool>
    decreases n,
{
    if n == 0 {
        Seq::empty()
    } else {
        let i = (n - 1) as nat;
        let rest = values_below(mask, values, i);
        if bit(mask, i as u32) {
            rest.push(bit(values, i as u32))
        } else {
            rest
        }
    }
}

/// The enumeration over the variables of `mask` hands out no assignment
/// when `mask` is empty; otherwise it hands out every assignment of those
/// variables exactly once, in strictly increasing order of the values, from
/// all false to all true.
pub proof fn lemma_assignments(mask: u32)
    ensures
        mask == 0 ==> assignments_of(mask).len() == 0,
        mask != 0 ==> ({
            let a = assignments_of(mask);
            &&& a.len() > 0
            &&& a[0].spec_values() == 0
            &&& a.last().spec_values() == mask
            &&& forall|i: int|
                0 <= i < a.len() ==> (#[trigger] a[i]).spec_mask() == mask && is_submask(
                    a[i].spec_values(),
                    mask,
                )
            &&& forall|i: int, j: int|
                0 <= i < j < a.len() ==> (#[trigger] a[i]).spec_values() < (
                #[trigger] a[j]).spec_values()
            &&& forall|w: u32|
                is_submask(w, mask) ==> exists|i: int|
                    0 <= i < a.len() && (#[trigger] a[i]).spec_values() == w
        }),
{
    if mask != 0 {
        lemma_zero_submask(mask);
        lemma_submasks_from(mask, 0);
        let s = submasks_from(mask, 0);
        let a = assignments_of(mask);
        assert forall|w: u32| is_submask(w, mask) implies exists|i: int|
            0 <= i < a.len() && (#[trigger] a[i]).spec_values() == w by {
            assert(s.contains(w));
            let k = choose|k: int| 0 <= k < s.len() && s[k] == w;
            assert(a[k].spec_values() == w);
        }
    }
}

/// The number of bits set in `mask`, counted by clearing the lowest one at a
/// time.
pub open spec fn ones(mask: u32) -> nat
    decreases mask,
{
    if mask == 0 {
        0
    } else {
        proof {
            assert(mask != 0 ==> mask & ((mask - 1) as u32) < mask) by (bit_vector);
        }
        1 + ones(mask & ((mask - 1) as u32))
    }
}

/// The submasks of `mask`.
pub open spec fn submasks(mask: u32) -> Set<u32> {
    Set::new(|w: u32| is_submask(w, mask))
}

/// A mask with `k` bits set has 2^k submasks: those of the mask without its
/// lowest bit, and each of them with that bit added.
proof fn lemma_submasks_len(mask: u32)
    ensures
        submasks(mask).finite(),
        submasks(mask).len() == pow2(ones(mask)),
    decreases mask,
{
    if mask == 0 {
        assert forall|w: u32| is_submask(w, 0) <==> w == 0 by {
            assert((w & !0u32 == 0) <==> w == 0) by (bit_vector);
        }
        assert(submasks(0) =~= set![0u32]);
        lemma2_to64();
    } else {
        let m = mask & ((mask - 1) as u32);
        let l = mask ^ m;
        assert(m < mask) by (bit_vector)
            requires
                mask != 0,
                m == mask & ((mask - 1) as u32),
        ;
        lemma_submasks_len(m);
        let low = submasks(m);
        let f = |w: u32| w | l;
        let high = low.map(f);
        assert forall|w: u32|
            #![trigger is_submask(w, mask)]
            is_submask(w, mask) <==> (is_submask(w, m) || (w & l == l && is_submask(w ^ l, m)))
            && (is_submask(w, m) ==> (w | l) ^ l == w && is_submask(w | l, mask) && w & l != l) by {
            assert((w & !mask == 0) <==> (w & !m == 0 || (w & l == l && (w ^ l) & !m == 0)))
                by (bit_vector)
                requires
                    mask != 0,
                    m == mask & ((mask - 1) as u32),
                    l == mask ^ m,
            ;
            assert(w & !m == 0 ==> (w | l) ^ l == w && (w | l) & !mask == 0 && w & l != l)
                by (bit_vector)
                requires
                    mask != 0,
                    m == mask & ((mask - 1) as u32),
                    l == mask ^ m,
            ;
        }
        assert forall|w1: u32, w2: u32|
            low.contains(w1) && low.contains(w2) && #[trigger] f(w1) == #[trigger] f(w2) implies w1
            == w2 by {
            assert(is_submask(w1, mask) && is_submask(w2, mask)) by {
                assert(is_submask(w1, m) ==> is_submask(w1, mask)) by (bit_vector)
                    requires
                        m == mask & ((mask - 1) as u32),
                ;
                assert(is_submask(w2, m) ==> is_submask(w2, mask)) by (bit_vector)
                    requires
                        m == mask & ((mask - 1) as u32),
                ;
            }
        }
        assert forall|w: u32| low.contains(w) implies is_submask(w, mask) by {
            assert(is_submask(w, m) ==> is_submask(w, mask)) by (bit_vector)
                requires
                    m == mask & ((mask - 1) as u32),
            ;
        }
        assert(submasks(mask) =~= low + high) by {
            assert forall|w: u32| submasks(mask).contains(w) implies (low + high).contains(w) by {
                if !is_submask(w, m) {
                    let v = w ^ l;
                    assert(low.contains(v));
                    assert(is_submask(v, mask));
                    assert(f(v) == w) by {
                        assert(w & l == l ==> (w ^ l) | l == w) by (bit_vector);
                    }
                }
            }
            assert forall|w: u32| (low + high).contains(w) implies submasks(mask).contains(w) by {
                if high.contains(w) {
                    let v = choose|v: u32| low.contains(v) && f(v) == w;
                    assert(is_submask(v, mask));
                }
            }
        }
        assert(low.disjoint(high)) by {
            assert forall|w: u32| low.contains(w) implies !high.contains(w) by {
                if high.contains(w) {
                    let v = choose|v: u32| low.contains(v) && f(v) == w;
                    assert(is_submask(v, mask));
                    assert((v | l) & l == l) by (bit_vector);
                }
            }
        }
        lemma_map_size(low, high, f);
        lemma_set_disjoint_lens(low, high);
        lemma_pow2_unfold(ones(mask));
    }
}

/// The enumeration over the variables of `mask` hands out 2^k assignments,
/// where `k` is the number of variables; none when there is no variable.
pub proof fn lemma_assignments_count(mask: u32)
    ensures
        assignments_of(mask).len() == if mask == 0 {
            0
        } else {
            pow2(ones(mask))
        },
{
    if mask != 0 {
        lemma_zero_submask(mask);
        lemma_submasks_from(mask, 0);
        lemma_submasks_len(mask);
        let s = submasks_from(mask, 0);
        assert(s.no_duplicates()) by {
            assert forall|i: int, j: int| 0 <= i < s.len() && 0 <= j < s.len() && i != j implies s[i]
                != s[j] by {
                if i < j {
                    assert(s[i] < s[j]);
                } else {
                    assert(s[j] < s[i]);
                }
            }
        }
        assert(s.to_set() =~= submasks(mask)) by {
            assert forall|w: u32| submasks(mask).contains(w) implies s.to_set().contains(w) by {
                assert(s.contains(w));
            }
        }
        s.unique_seq_to_set();
    }
}

/// A set of variables, and a truth value for each of them. A bit of
/// `values` whose bit in `mask` is clear carries no meaning.
#[derive(Clone, Copy, Debug, PartialEq, Eq, Structural)]
pub struct Environment {
    pub values: u32,
    pub mask: u32,
}

impl Environment {
    /// The bits of the variables.
    pub open spec fn spec_mask(self) -> u32 {
        self.mask
    }

    /// The bits of the values.
    pub open spec fn spec_values(self) -> u32 {
        self.values
    }

    /// Whether `s` is one of the variables.
    pub open spec fn has(self, s: u8) -> bool {
        is_symbol(s) && bit(self.mask, slot(s))
    }

    /// The value given to `s`; meaningful only where `has(s)`.
    pub open spec fn value_of(self, s: u8) -> bool {
        is_symbol(s) && bit(self.values, slot(s))
    }

    /// The environment with the variable `s` added.
    pub open spec fn with_symbol(self, s: u8) -> Environment {
        Environment { values: self.values, mask: self.mask | (1u32 << slot(s)) }
    }

    /// Builds the environment with the variables of `mask`, valued by the
    /// matching bits of `values`.
    pub fn new(mask: u32, values: u32) -> (r: Environment)
        ensures
            r.spec_mask() == mask,
            r.spec_values() == values,
    {
        Environment { values, mask }
    }

    /// Adds the variable `symbol`; its value is the one `values` already holds.
    pub fn enable(&mut self, symbol: Symbol)
        requires
            is_symbol(symbol),
        ensures
            *final(self) == old(self).with_symbol(symbol),
            forall|s: u8| #[trigger] final(self).has(s) == (old(self).has(s) || s == symbol),
            forall|s: u8| #[trigger] final(self).value_of(s) == old(self).value_of(s),
    {
        let index: u8 = symbol - FIRST_SYMBOL;
        self.mask = self.mask | (1u32 << index);
        proof {
            let m = old(self).mask;
            let i = index as u32;
            assert forall|s: u8| #[trigger] self.has(s) == (old(self).has(s) || s == symbol) by {
                if is_symbol(s) {
                    let j = slot(s);
                    assert(j < 26 && i < 26);
                    assert(bit(m | (1u32 << i), j) == (bit(m, j) || j == i)) by (bit_vector)
                        requires
                            j < 26,
                            i < 26,
                    ;
                }
            }
        }
    }

    /// The value of `symbol`, or `None` where it is not one of the variables.
    pub fn get(&self, symbol: Symbol) -> (r: Option<bool>)
        requires
            is_symbol(symbol),
        ensures
            r == (if self.has(symbol) {
                Some(self.value_of(symbol))
            } else {
                None
            }),
    {
        let index: u32 = (symbol - FIRST_SYMBOL) as u32;
        proof {
            lemma_bit_test(self.mask, index);
            lemma_bit_test(self.values, index);
        }
        if (self.mask >> index) & 1 != 0 {
            Some((self.values >> index) & 1 != 0)
        } else {
            None
        }
    }
}

impl Environment {
    /// The variables, in alphabetical order.
    pub fn symbols(&self) -> (r: Vec<Symbol>)
        ensures
            r@ == symbols_below(self.spec_mask(), SYMBOL_COUNT as nat),
            r@.len() <= SYMBOL_COUNT,
    {
        let mut r: Vec<Symbol> = Vec::new();
        let mut i: u32 = 0;
        while i < SYMBOL_COUNT
            invariant
                i <= SYMBOL_COUNT,
                r@ == symbols_below(self.mask, i as nat),
                r@.len() <= i,
            decreases SYMBOL_COUNT - i,
        {
            proof {
                lemma_bit_test(self.mask, i);
            }
            if (self.mask >> i) & 1 != 0 {
                r.push(FIRST_SYMBOL + i as u8);
            }
            i = i + 1;
        }
        r
    }

    /// The values of the variables, in the order of `symbols`.
    pub fn values(&self) -> (r: Vec<bool>)
        ensures
            r@ == values_below(self.spec_mask(), self.spec_values(), SYMBOL_COUNT as nat),
    {
        let mut r: Vec<bool> = Vec::new();
        let mut i: u32 = 0;
        while i < SYMBOL_COUNT
            invariant
                i <= SYMBOL_COUNT,
                r@ == values_below(self.mask, self.values, i as nat),
            decreases SYMBOL_COUNT - i,
        {
            proof {
                lemma_bit_test(self.mask, i);
                lemma_bit_test(self.values, i);
            }
            if (self.mask >> i) & 1 != 0 {
                r.push((self.values >> i) & 1 != 0);
            }
            i = i + 1;
        }
        r
    }
}

impl Default for Environment {
    /// The environment without variables.
    fn default() -> (r: Environment)
        ensures
            r.spec_mask() == 0,
            r.spec_values() == 0,
    {
        Environment { values: 0, mask: 0 }
    }
}

/// Hands out, one at a time, every assignment of truth values to a set of
/// variables, in increasing order of the values read as a number.
#[derive(Clone, Copy, Debug)]
pub struct Assignments {
    env: Environment,
}

impl Assignments {
    /// The enumeration is over, or the current values lie within the mask.
    pub closed spec fn wf(self) -> bool {
        self.env.mask == 0 || is_submask(self.env.values, self.env.mask)
    }

    /// The assignments still to come, in order.
    pub closed spec fn remaining(self) -> Seq<Environment> {
        if self.env.mask == 0 {
            Seq::empty()
        } else {
            submasks_from(self.env.mask, self.env.values).map_values(
                |v: u32| Environment { values: v, mask: self.env.mask },
            )
        }
    }

    /// Starts the enumeration over the variables of `vars`.
    pub fn new(vars: Environment) -> (r: Assignments)
        ensures
            r.wf(),
            r.remaining() == assignments_of(vars.spec_mask()),
    {
        proof {
            lemma_zero_submask(vars.mask);
        }
        Assignments { env: Environment { values: 0, mask: vars.mask } }
    }

    /// The next assignment, or `None` once all have been handed out.
    pub fn next(&mut self) -> (r: Option<Environment>)
        requires
            old(self).wf(),
        ensures
            final(self).wf(),
            old(self).remaining().len() == 0 ==> r is None && final(self).remaining().len() == 0,
            old(self).remaining().len() > 0 ==> r == Some(old(self).remaining()[0])
                && final(self).remaining() == old(self).remaining().drop_first(),
    {
        if self.env.mask == 0 {
            return None;
        }
        let value = self.env;
        let mask = self.env.mask;
        let v = self.env.values;
        proof {
            lemma_submask_full(mask, v);
        }
        match (v | !mask).checked_add(1) {
            Some(x) => {
                proof {
                    lemma_next_submask(mask, v, 0);
                }
                self.env.values = x & mask;
                assert(old(self).remaining() =~= seq![value].add(self.remaining()));
            },
            None => {
                self.env.mask = 0;
                assert(old(self).remaining() =~= seq![value]);
            },
        }
        assert(self.remaining() =~= old(self).remaining().drop_first());
        Some(value)
    }
}

} // verus!
