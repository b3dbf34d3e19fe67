use vstd::prelude::*;
use vstd::arithmetic::power2::pow2;
use vstd::bits::{lemma_usize_pow2_no_overflow, lemma_usize_shl_is_mul};
use vstd::laws_eq::obeys_concrete_eq;
use vstd::std_specs::cmp::PartialEqSpec;
use vstd::string::StringSliceAdditionalSpecFns;

use crate::environment::{is_symbol, slot};
use crate::postfix::is_binary_operator;

verus! {

/// `a` followed by each element of `b` that is not already there, in order.
pub open spec fn union_seq<T>(a: Seq<T>, b: Seq<T>) -> Seq<T>
    decreases b.len(),
{
    if b.len() == 0 {
        a
    } else {
        let acc = union_seq(a, b.drop_last());
        if acc.contains(b.last()) {
            acc
        } else {
            acc.push(b.last())
        }
    }
}

/// The elements of `a` that are in `b`, in order.
pub open spec fn intersection_seq<T>(a: Seq<T>, b: Seq<T>) -> Seq<T> {
    a.filter(|x: T| b.contains(x))
}

/// The elements of `a` that are not in `b`, in order.
pub open spec fn without_seq<T>(a: Seq<T>, b: Seq<T>) -> Seq<T> {
    a.filter(|x: T| !b.contains(x))
}

/// The elements of `a` not in `b`, then those of `b` not in `a`.
pub open spec fn xunion_seq<T>(a: Seq<T>, b: Seq<T>) -> Seq<T> {
    without_seq(a, b) + without_seq(b, a)
}

/// The elements of `s` whose position is a set bit of `i`, in order.
pub open spec fn pick<T>(s: Seq<T>, i: nat) -> Seq<T>
    decreases s.len(),
{
    if s.len() == 0 {
        Seq::empty()
    } else {
        let rest = pick(s.drop_first(), i / 2);
        if i % 2 == 1 {
            seq![s[0]] + rest
        } else {
            rest
        }
    }
}

/// A finite set, its elements kept in the order they were added.
#[derive(Debug)]
pub struct FiniteSet<T>(Vec<T>);

impl<T> View for FiniteSet<T> {
    type V = Seq<T>;

    closed spec fn view(&self) -> Seq<T> {
        self.0@
    }
}

/// Whether `x` is one of the elements of `v`, where `==` on `T` is
/// equality.
fn contains<T: Eq>(v: &Vec<T>, x: &T) -> (r: bool)
    ensures
        obeys_concrete_eq::<T>() ==> r == v@.contains(*x),
{
    let mut i: usize = 0;
    while i < v.len()
        invariant
            0 <= i <= v@.len(),
            obeys_concrete_eq::<T>() ==> forall|k: int| 0 <= k < i ==> v@[k] != *x,
        decreases v@.len() - i,
    {
        proof {
            reveal(obeys_concrete_eq);
        }
        if v[i] == *x {
            return true;
        }
        i = i + 1;
    }
    false
}

/// Whether two elements of `s` are equal.
fn has_duplicates<T: Eq>(s: &[T]) -> (r: bool)
    requires
        obeys_concrete_eq::<T>(),
    ensures
        r == !s@.no_duplicates(),
{
    proof {
        reveal(obeys_concrete_eq);
    }
    let mut i: usize = 0;
    while i < s.len()
        invariant
            T::obeys_eq_spec(),
            forall|a: T, b: T| a.eq_spec(&b) <==> (a == b),
            0 <= i <= s@.len(),
            forall|k: int, l: int| 0 <= k < i && k < l < s@.len() ==> s@[k] != s@[l],
        decreases s@.len() - i,
    {
        let mut j: usize = i + 1;
        while j < s.len()
            invariant
                T::obeys_eq_spec(),
                forall|a: T, b: T| a.eq_spec(&b) <==> (a == b),
                0 <= i < j <= s@.len(),
                forall|l: int| i < l < j ==> s@[i as int] != s@[l],
            decreases s@.len() - j,
        {
            if s[i] == s[j] {
                return true;
            }
            j = j + 1;
        }
        i = i + 1;
    }
    false
}

impl<T> Default for FiniteSet<T> {
    /// The empty set.
    fn default() -> (r: FiniteSet<T>)
        ensures
            r@ == Seq::<T>::empty(),
    {
        FiniteSet(Vec::new())
    }
}

impl<T: Copy> FiniteSet<&T> {
    /// The set of the values that the references point to.
    pub fn cloned(&self) -> (r: FiniteSet<T>)
        ensures
            r@.len() == self@.len(),
            forall|i: int| 0 <= i < r@.len() ==> r@[i] == *self@[i],
    {
        let mut out: Vec<T> = Vec::new();
        let mut i: usize = 0;
        while i < self.0.len()
            invariant
                0 <= i <= self.0@.len(),
                out@.len() == i,
                forall|k: int| 0 <= k < i ==> out@[k] == *self.0@[k],
            decreases self.0@.len() - i,
        {
            out.push(*self.0[i]);
            i = i + 1;
        }
        FiniteSet(out)
    }
}

impl<T: Copy + Eq> FiniteSet<T> {
    /// The set of the elements of `vec`, or `vec` itself where two of them
    /// are equal.
    pub fn try_from(vec: Vec<T>) -> (r: Result<FiniteSet<T>, Vec<T>>)
        requires
            obeys_concrete_eq::<T>(),
        ensures
            vec@.no_duplicates() ==> r is Ok && r->Ok_0@ == vec@,
            !vec@.no_duplicates() ==> r is Err && r->Err_0@ == vec@,
    {
        if has_duplicates(vec.as_slice()) {
            Err(vec)
        } else {
            Ok(FiniteSet(vec))
        }
    }

    /// The elements, in order.
    pub fn into_vec(self) -> (r: Vec<T>)
        ensures
            r@ == self@,
    {
        self.0
    }

    /// Every subset, the one at position `i` holding the elements whose
    /// position is a set bit of `i`.
    pub fn powerset<'a>(&'a self) -> (r: Vec<FiniteSet<&'a T>>)
        requires
            self@.len() < usize::BITS,
        ensures
            r@.len() == pow2(self@.len()),
            forall|i: int|
                0 <= i < r@.len() ==> (#[trigger] r@[i])@.map_values(|x: &T| *x) == pick(
                    self@,
                    i as nat,
                ),
    {
        let n = self.0.len();
        proof {
            lemma_usize_pow2_no_overflow(n as nat);
            lemma_usize_shl_is_mul(1, n);
        }
        let count: usize = 1usize << n;
        let mut out: Vec<FiniteSet<&'a T>> = Vec::new();
        let mut i: usize = 0;
        while i < count
            invariant
                n == self.0@.len(),
                count == pow2(n as nat),
                0 <= i <= count,
                out@.len() == i,
                forall|k: int|
                    0 <= k < i ==> (#[trigger] out@[k])@.map_values(|x: &T| *x) == pick(
                        self.0@,
                        k as nat,
                    ),
            decreases count - i,
        {
            let mut subset: Vec<&'a T> = Vec::new();
            let mut bits: usize = i;
            let mut j: usize = 0;
            assert(self.0@.subrange(0, n as int) =~= self.0@);
            assert(subset@.map_values(|x: &T| *x) + pick(self.0@, i as nat) =~= pick(
                self.0@,
                i as nat,
            ));
            while j < n
                invariant
                    n == self.0@.len(),
                    0 <= j <= n,
                    subset@.map_values(|x: &T| *x) + pick(self.0@.subrange(j as int, n as int), bits as nat)
                        == pick(self.0@, i as nat),
                decreases n - j,
            {
                let ghost rest = self.0@.subrange(j as int, n as int);
                assert(rest.drop_first() =~= self.0@.subrange(j + 1, n as int));
                assert(bits & 1 == bits % 2 && bits >> 1 == bits / 2) by (bit_vector);
                let ghost before = subset@;
                if bits & 1 != 0 {
                    subset.push(&self.0[j]);
                    assert(subset@.map_values(|x: &T| *x) =~= before.map_values(|x: &T| *x).push(
                        rest[0],
                    ));
                    assert(seq![rest[0]] + pick(rest.drop_first(), (bits / 2) as nat) =~= seq![
                        rest[0],
                    ].add(pick(rest.drop_first(), (bits / 2) as nat)));
                    assert(before.map_values(|x: &T| *x).push(rest[0]) + pick(
                        rest.drop_first(),
                        (bits / 2) as nat,
                    ) =~= before.map_values(|x: &T| *x) + (seq![rest[0]] + pick(
                        rest.drop_first(),
                        (bits / 2) as nat,
                    )));
                }
                bits = bits >> 1;
                j = j + 1;
            }
            assert(self.0@.subrange(n as int, n as int) =~= Seq::<T>::empty());
            assert(subset@.map_values(|x: &T| *x) =~= subset@.map_values(|x: &T| *x) + Seq::<
                T,
            >::empty());
            out.push(FiniteSet(subset));
            i = i + 1;
        }
        out
    }

    /// The elements of `self`, then those of `other` not already there.
    pub fn union(&self, other: &Self) -> (r: Self)
        requires
            obeys_concrete_eq::<T>(),
        ensures
            r@ == union_seq(self@, other@),
            self@.no_duplicates() ==> r@.no_duplicates(),
    {
        let mut result: Vec<T> = Vec::new();
        let mut i: usize = 0;
        while i < self.0.len()
            invariant
                0 <= i <= self.0@.len(),
                result@ == self.0@.subrange(0, i as int),
            decreases self.0@.len() - i,
        {
            result.push(self.0[i]);
            i = i + 1;
            assert(result@ =~= self.0@.subrange(0, i as int));
        }
        assert(self.0@.subrange(0, self.0@.len() as int) =~= self.0@);
        let mut j: usize = 0;
        while j < other.0.len()
            invariant
                obeys_concrete_eq::<T>(),
                0 <= j <= other.0@.len(),
                result@ == union_seq(self.0@, other.0@.subrange(0, j as int)),
                self.0@.no_duplicates() ==> result@.no_duplicates(),
            decreases other.0@.len() - j,
        {
            let value = other.0[j];
            assert(other.0@.subrange(0, j + 1).drop_last() =~= other.0@.subrange(0, j as int));
            if !contains(&result, &value) {
                result.push(value);
            }
            j = j + 1;
        }
        assert(other.0@.subrange(0, other.0@.len() as int) =~= other.0@);
        FiniteSet(result)
    }

    /// The elements of `self` that are also in `other`.
    pub fn intersection(&self, other: &Self) -> (r: Self)
        requires
            obeys_concrete_eq::<T>(),
        ensures
            r@ == intersection_seq(self@, other@),
            self@.no_duplicates() ==> r@.no_duplicates(),
    {
        FiniteSet(filter_by(&self.0, &other.0, true))
    }

    /// The elements of either set that are not in the other: those of
    /// `self` first.
    pub fn xunion(&self, other: &Self) -> (r: Self)
        requires
            obeys_concrete_eq::<T>(),
        ensures
            r@ == xunion_seq(self@, other@),
            self@.no_duplicates() && other@.no_duplicates() ==> r@.no_duplicates(),
    {
        let mut left = filter_by(&self.0, &other.0, false);
        let mut right = filter_by(&other.0, &self.0, false);
        let ghost l = left@;
        let ghost rt = right@;
        proof {
            if self@.no_duplicates() && other@.no_duplicates() {
                assert forall|i: int, j: int|
                    0 <= i < l.len() && 0 <= j < rt.len() implies l[i] != rt[j] by {
                    assert(!other.0@.contains(l[i]));
                    assert(other.0@.contains(rt[j]));
                }
                vstd::seq_lib::lemma_no_dup_in_concat(l, rt);
            }
        }
        left.append(&mut right);
        FiniteSet(left)
    }

    /// The elements of `self` that are not in `other`.
    pub fn without(&self, other: &Self) -> (r: Self)
        requires
            obeys_concrete_eq::<T>(),
        ensures
            r@ == without_seq(self@, other@),
            self@.no_duplicates() ==> r@.no_duplicates(),
    {
        FiniteSet(filter_by(&self.0, &other.0, false))
    }
}

/// The elements of `a` whose presence in `b` is `keep`, in order.
fn filter_by<T: Copy + Eq>(a: &Vec<T>, b: &Vec<T>, keep: bool) -> (r: Vec<T>)
    requires
        obeys_concrete_eq::<T>(),
    ensures
        keep ==> r@ == intersection_seq(a@, b@),
        !keep ==> r@ == without_seq(a@, b@),
        forall|k: int| 0 <= k < r@.len() ==> b@.contains(#[trigger] r@[k]) == keep,
        forall|k: int| 0 <= k < r@.len() ==> a@.contains(#[trigger] r@[k]),
        a@.no_duplicates() ==> r@.no_duplicates(),
{
    let mut out: Vec<T> = Vec::new();
    let mut i: usize = 0;
    while i < a.len()
        invariant
            obeys_concrete_eq::<T>(),
            0 <= i <= a@.len(),
            keep ==> out@ == intersection_seq(a@.subrange(0, i as int), b@),
            !keep ==> out@ == without_seq(a@.subrange(0, i as int), b@),
            forall|k: int| 0 <= k < out@.len() ==> b@.contains(#[trigger] out@[k]) == keep,
            forall|k: int|
                0 <= k < out@.len() ==> a@.subrange(0, i as int).contains(#[trigger] out@[k]),
            a@.no_duplicates() ==> out@.no_duplicates(),
        decreases a@.len() - i,
    {
        let x = a[i];
        let ghost pre = a@.subrange(0, i as int);
        let ghost before = out@;
        assert(a@.subrange(0, i + 1) =~= pre.push(x));
        assert(pre.push(x).drop_last() =~= pre);
        proof {
            reveal(Seq::filter);
        }
        if contains(b, &x) == keep {
            out.push(x);
            proof {
                if a@.no_duplicates() {
                    assert forall|k: int| 0 <= k < before.len() implies before[k] != x by {
                        let j = choose|j: int| 0 <= j < pre.len() && pre[j] == before[k];
                        assert(a@[j] == pre[j]);
                    }
                }
            }
        }
        assert forall|k: int| 0 <= k < out@.len() implies a@.subrange(0, i + 1).contains(
            #[trigger] out@[k],
        ) by {
            if k < before.len() {
                let j = choose|j: int| 0 <= j < pre.len() && pre[j] == before[k];
                assert(a@.subrange(0, i + 1)[j] == out@[k]);
            } else {
                assert(a@.subrange(0, i + 1)[i as int] == out@[k]);
            }
        }
        i = i + 1;
    }
    assert(a@.subrange(0, a@.len() as int) =~= a@);
    out
}

impl<T: Copy> Clone for FiniteSet<T> {
    fn clone(&self) -> (r: FiniteSet<T>)
        ensures
            r@ == self@,
    {
        let mut out: Vec<T> = Vec::new();
        let mut i: usize = 0;
        while i < self.0.len()
            invariant
                0 <= i <= self.0@.len(),
                out@ == self.0@.subrange(0, i as int),
            decreases self.0@.len() - i,
        {
            out.push(self.0[i]);
            i = i + 1;
            assert(out@ =~= self.0@.subrange(0, i as int));
        }
        assert(self.0@.subrange(0, self.0@.len() as int) =~= self.0@);
        FiniteSet(out)
    }
}

impl<T: Eq> PartialEq for FiniteSet<T> {
    /// Two sets are equal when they have as many elements and each element
    /// of the first is in the second.
    fn eq(&self, other: &FiniteSet<T>) -> (r: bool) {
        if self.0.len() != other.0.len() {
            return false;
        }
        let mut i: usize = 0;
        while i < self.0.len()
            invariant
                0 <= i <= self.0@.len(),
                self.0@.len() == other.0@.len(),
                obeys_concrete_eq::<T>() ==> forall|k: int|
                    0 <= k < i ==> other.0@.contains(#[trigger] self.0@[k]),
            decreases self.0@.len() - i,
        {
            if !contains(&other.0, &self.0[i]) {
                return false;
            }
            i = i + 1;
        }
        true
    }
}

impl<T: Eq> vstd::std_specs::cmp::PartialEqSpecImpl for FiniteSet<T> {
    open spec fn obeys_eq_spec() -> bool {
        obeys_concrete_eq::<T>()
    }

    open spec fn eq_spec(&self, other: &FiniteSet<T>) -> bool {
        &&& self@.len() == other@.len()
        &&& forall|k: int| 0 <= k < self@.len() ==> other@.contains(#[trigger] self@[k])
    }
}

impl<T: Eq> Eq for FiniteSet<T> {

}

/// Why a postfix formula over sets could not be evaluated.
#[derive(Debug, PartialEq, Eq, Structural)]
pub enum EvaluationError {
    /// An operator with too few operands before it.
    MissingArgument,
    /// At the end, zero or several sets instead of one.
    IncompleteComputation,
    /// A letter beyond the sets given.
    UnspecifiedVar,
    /// A byte outside the grammar of letters and operators.
    UnknownSymbol,
}

/// The union of all of `sets`, in the order in which elements first appear.
pub open spec fn union_all<T>(sets: Seq<Seq<T>>) -> Seq<T>
    decreases sets.len(),
{
    if sets.len() == 0 {
        Seq::empty()
    } else {
        union_seq(union_all(sets.drop_last()), sets.last())
    }
}

/// The set that the two-operand operator `c` gives on `a` and `b`, where
/// complements are taken within `all`.
pub open spec fn set_binary<T>(c: u8, all: Seq<T>, a: Seq<T>, b: Seq<T>) -> Seq<T> {
    if c == 124u8 {
        union_seq(a, b)
    } else if c == 38u8 {
        intersection_seq(a, b)
    } else if c == 94u8 {
        xunion_seq(a, b)
    } else if c == 62u8 {
        without_seq(all, without_seq(a, b))
    } else {
        without_seq(all, intersection_seq(a, b))
    }
}

/// The stack of sets after reading byte `c` with `stack` in hand; the
/// letters name the sets of `env` in order, complements are taken within
/// `all`.
pub open spec fn set_step<T>(stack: Seq<Seq<T>>, c: u8, env: Seq<Seq<T>>, all: Seq<T>) -> Result<
    Seq<Seq<T>>,
    EvaluationError,
> {
    if is_symbol(c) {
        if slot(c) < env.len() {
            Ok(stack.push(env[slot(c) as int]))
        } else {
            Err(EvaluationError::UnspecifiedVar)
        }
    } else if c == 33u8 {
        if stack.len() < 1 {
            Err(EvaluationError::MissingArgument)
        } else {
            Ok(stack.drop_last().push(without_seq(all, stack.last())))
        }
    } else if is_binary_operator(c) {
        if stack.len() < 2 {
            Err(EvaluationError::MissingArgument)
        } else {
            let n = stack.len() as int;
            Ok(stack.subrange(0, n - 2).push(set_binary(c, all, stack[n - 2], stack[n - 1])))
        }
    } else {
        Err(EvaluationError::UnknownSymbol)
    }
}

/// The stack of sets after reading all of `bytes`, or the first error met.
pub open spec fn set_stack<T>(bytes: Seq<u8>, env: Seq<Seq<T>>) -> Result<
    Seq<Seq<T>>,
    EvaluationError,
>
    decreases bytes.len(),
{
    if bytes.len() == 0 {
        Ok(Seq::empty())
    } else {
        match set_stack(bytes.drop_last(), env) {
            Ok(stack) => set_step(stack, bytes.last(), env, union_all(env)),
            Err(e) => Err(e),
        }
    }
}

/// The set that the postfix formula `bytes` denotes over the sets `env`.
pub open spec fn set_evaluate<T>(bytes: Seq<u8>, env: Seq<Seq<T>>) -> Result<
    Seq<T>,
    EvaluationError,
> {
    match set_stack(bytes, env) {
        Ok(stack) => if stack.len() == 1 {
            Ok(stack[0])
        } else {
            Err(EvaluationError::IncompleteComputation)
        },
        Err(e) => Err(e),
    }
}

/// The contents of each of `sets`.
pub open spec fn contents<T>(sets: Seq<FiniteSet<T>>) -> Seq<Seq<T>> {
    sets.map_values(|s: FiniteSet<T>| s@)
}

/// Once evaluation fails, the rest of the text does not matter.
proof fn lemma_set_error_stays<T>(bytes: Seq<u8>, env: Seq<Seq<T>>, i: int, j: int)
    requires
        0 <= i <= j <= bytes.len(),
        set_stack(bytes.subrange(0, i), env) is Err,
    ensures
        set_stack(bytes.subrange(0, j), env) == set_stack(bytes.subrange(0, i), env),
    decreases j,
{
    if j > i {
        lemma_set_error_stays(bytes, env, i, j - 1);
        assert(bytes.subrange(0, j).drop_last() =~= bytes.subrange(0, j - 1));
    }
}

/// Evaluates a postfix formula over sets: the letter `A` names the first
/// of `environment`, `B` the second, and so on; `|`, `&` and `^` are
/// union, intersection and symmetric difference; `!`, `>` and `=` take
/// complements within the union of all the sets given.
pub fn try_evaluate<T: Copy + Eq>(expression: &str, environment: Vec<FiniteSet<T>>) -> (r: Result<
    FiniteSet<T>,
    EvaluationError,
>)
    requires
        obeys_concrete_eq::<T>(),
    ensures
        r is Ok <==> set_evaluate(expression.spec_bytes(), contents(environment@)) is Ok,
        r is Ok ==> r->Ok_0@ == set_evaluate(expression.spec_bytes(), contents(environment@))->Ok_0,
        r is Err ==> r->Err_0 == set_evaluate(expression.spec_bytes(), contents(environment@))->Err_0,
        r is Ok && (forall|k: int|
            0 <= k < environment@.len() ==> (#[trigger] environment@[k])@.no_duplicates())
            ==> r->Ok_0@.no_duplicates(),
{
    let ghost distinct = forall|k: int|
        0 <= k < environment@.len() ==> (#[trigger] environment@[k])@.no_duplicates();
    let ghost env = contents(environment@);
    let mut all: FiniteSet<T> = FiniteSet(Vec::new());
    let mut k: usize = 0;
    while k < environment.len()
        invariant
            obeys_concrete_eq::<T>(),
            env == contents(environment@),
            0 <= k <= environment@.len(),
            all@ == union_all(env.subrange(0, k as int)),
            all@.no_duplicates(),
        decreases environment@.len() - k,
    {
        assert(env.subrange(0, k + 1).drop_last() =~= env.subrange(0, k as int));
        all = all.union(&environment[k]);
        k = k + 1;
    }
    assert(env.subrange(0, environment@.len() as int) =~= env);
    let bytes = expression.as_bytes();
    let mut stack: Vec<FiniteSet<T>> = Vec::new();
    let mut i: usize = 0;
    while i < bytes.len()
        invariant
            obeys_concrete_eq::<T>(),
            env == contents(environment@),
            all@ == union_all(env),
            bytes@ == expression.spec_bytes(),
            0 <= i <= bytes@.len(),
            set_stack(bytes@.subrange(0, i as int), env) is Ok,
            set_stack(bytes@.subrange(0, i as int), env)->Ok_0 == contents(stack@),
            all@.no_duplicates(),
            distinct == (forall|k: int|
                0 <= k < environment@.len() ==> (#[trigger] environment@[k])@.no_duplicates()),
            distinct ==> forall|k: int| 0 <= k < stack@.len() ==> (#[trigger] stack@[k])@.no_duplicates(),
        decreases bytes@.len() - i,
    {
        let c = bytes[i];
        let ghost before = stack@;
        assert(bytes@.subrange(0, i + 1).drop_last() =~= bytes@.subrange(0, i as int));
        if c >= 65u8 && c <= 90u8 {
            let index = (c - 65u8) as usize;
            if index >= environment.len() {
                proof {
                    lemma_set_error_stays(bytes@, env, i + 1, bytes@.len() as int);
                    assert(bytes@.subrange(0, bytes@.len() as int) =~= bytes@);
                }
                return Err(EvaluationError::UnspecifiedVar);
            }
            stack.push(environment[index].clone());
            assert(contents(stack@) =~= contents(before).push(env[index as int]));
        } else if c == 33u8 {
            match stack.pop() {
                Some(x) => {
                    stack.push(all.without(&x));
                    assert(contents(stack@) =~= contents(before).drop_last().push(
                        without_seq(all@, contents(before).last()),
                    ));
                },
                None => {
                    proof {
                        lemma_set_error_stays(bytes@, env, i + 1, bytes@.len() as int);
                        assert(bytes@.subrange(0, bytes@.len() as int) =~= bytes@);
                    }
                    return Err(EvaluationError::MissingArgument);
                },
            }
        } else if c == 124u8 || c == 38u8 || c == 94u8 || c == 62u8 || c == 61u8 {
            if stack.len() < 2 {
                proof {
                    lemma_set_error_stays(bytes@, env, i + 1, bytes@.len() as int);
                    assert(bytes@.subrange(0, bytes@.len() as int) =~= bytes@);
                }
                return Err(EvaluationError::MissingArgument);
            }
            let b = stack.pop().unwrap();
            let a = stack.pop().unwrap();
            let v = if c == 124u8 {
                a.union(&b)
            } else if c == 38u8 {
                a.intersection(&b)
            } else if c == 94u8 {
                a.xunion(&b)
            } else if c == 62u8 {
                all.without(&a.without(&b))
            } else {
                all.without(&a.intersection(&b))
            };
            stack.push(v);
            let ghost cs = contents(before);
            assert(contents(stack@) =~= cs.subrange(0, cs.len() - 2).push(
                set_binary(c, all@, cs[cs.len() - 2], cs[cs.len() - 1]),
            ));
        } else {
            proof {
                lemma_set_error_stays(bytes@, env, i + 1, bytes@.len() as int);
                assert(bytes@.subrange(0, bytes@.len() as int) =~= bytes@);
            }
            return Err(EvaluationError::UnknownSymbol);
        }
        i = i + 1;
    }
    assert(bytes@.subrange(0, bytes@.len() as int) =~= bytes@);
    if stack.len() != 1 {
        return Err(EvaluationError::IncompleteComputation);
    }
    Ok(stack.pop().unwrap())
}

} // verus!
