//! A rank-one constraint system that records variable assignments and
//! constraints `⟨A, z⟩ · ⟨B, z⟩ = ⟨C, z⟩`, and the benchmark circuit `a · b = c`
//! with padding variables and repeated constraints.

use vstd::prelude::*;
use crate::field::PrimeField;

verus! {

/// A variable of a constraint system: public (instance) or private (witness).
#[derive(Clone, Copy, Debug, PartialEq, Eq)]
pub enum Variable {
    Public(usize),
    Private(usize),
}

/// Errors of constraint synthesis.
#[derive(Clone, Copy, Debug, PartialEq, Eq)]
pub enum SynthesisError {
    /// A value needed for an assignment was not given.
    AssignmentMissing,
    /// The constraints cannot be satisfied, as with a bit string of the wrong length.
    Unsatisfiable,
}

/// A linear combination of variables.
pub struct LinearCombination<F: PrimeField> {
    pub terms: Vec<(Variable, F)>,
}

/// A constraint `a · b = c` between three linear combinations.
pub struct Constraint<F: PrimeField> {
    pub a: LinearCombination<F>,
    pub b: LinearCombination<F>,
    pub c: LinearCombination<F>,
}

/// The terms of the three linear combinations of a constraint.
pub open spec fn constraint_terms<F: PrimeField>(c: Constraint<F>) -> (
    Seq<(Variable, F)>,
    Seq<(Variable, F)>,
    Seq<(Variable, F)>,
) {
    (c.a.terms@, c.b.terms@, c.c.terms@)
}

/// The terms of each constraint of a sequence.
pub open spec fn constraints_terms<F: PrimeField>(cs: Seq<Constraint<F>>) -> Seq<
    (Seq<(Variable, F)>, Seq<(Variable, F)>, Seq<(Variable, F)>),
> {
    cs.map_values(|c: Constraint<F>| constraint_terms(c))
}

/// The terms of the linear combination `1 · v`.
pub open spec fn single_terms<F: PrimeField>(v: Variable, one: F) -> Seq<(Variable, F)> {
    seq![(v, one)]
}

/// The assignments and constraints synthesized so far. Public variable 0 is
/// the constant one.
pub struct ConstraintSystem<F: PrimeField> {
    pub public_variables: Vec<F>,
    pub private_variables: Vec<F>,
    pub constraints: Vec<Constraint<F>>,
}

/// The values of a sequence of field elements.
pub open spec fn field_values<F: PrimeField>(v: Seq<F>) -> Seq<int> {
    v.map_values(|x: F| x.value())
}

/// The value assigned to `v`, zero when it is not allocated.
pub open spec fn variable_value(v: Variable, public: Seq<int>, private: Seq<int>) -> int {
    match v {
        Variable::Public(i) => if i < public.len() {
            public[i as int]
        } else {
            0
        },
        Variable::Private(i) => if i < private.len() {
            private[i as int]
        } else {
            0
        },
    }
}

/// The value of a linear combination under an assignment.
pub open spec fn lc_value<F: PrimeField>(
    terms: Seq<(Variable, F)>,
    public: Seq<int>,
    private: Seq<int>,
) -> int
    decreases terms.len(),
{
    if terms.len() == 0 {
        0
    } else {
        (lc_value(terms.drop_last(), public, private) + (terms.last().1.value() * variable_value(
            terms.last().0,
            public,
            private,
        )) % F::modulus()) % F::modulus()
    }
}

/// The constraint holds under the assignment.
pub open spec fn constraint_holds<F: PrimeField>(
    c: (Seq<(Variable, F)>, Seq<(Variable, F)>, Seq<(Variable, F)>),
    public: Seq<int>,
    private: Seq<int>,
) -> bool {
    (lc_value(c.0, public, private) * lc_value(c.1, public, private)) % F::modulus() == lc_value(
        c.2,
        public,
        private,
    )
}

/// Every constraint holds under the assignment.
pub open spec fn all_hold<F: PrimeField>(
    cs: Seq<(Seq<(Variable, F)>, Seq<(Variable, F)>, Seq<(Variable, F)>)>,
    public: Seq<int>,
    private: Seq<int>,
) -> bool {
    forall|i: int| 0 <= i < cs.len() ==> #[trigger] constraint_holds(cs[i], public, private)
}

fn single<F: PrimeField>(v: Variable) -> (r: LinearCombination<F>)
    ensures
        r.terms@.len() == 1,
        r.terms@[0].0 == v,
        r.terms@[0].1.value() == 1,
{
    let mut terms: Vec<(Variable, F)> = Vec::new();
    terms.push((v, F::one()));
    LinearCombination { terms }
}

fn variable_value_exec<F: PrimeField>(v: Variable, public: &Vec<F>, private: &Vec<F>) -> (r: F)
    ensures
        r.value() == variable_value(v, field_values(public@), field_values(private@)),
{
    match v {
        Variable::Public(i) => if i < public.len() {
            public[i]
        } else {
            F::zero()
        },
        Variable::Private(i) => if i < private.len() {
            private[i]
        } else {
            F::zero()
        },
    }
}

fn evaluate<F: PrimeField>(lc: &LinearCombination<F>, public: &Vec<F>, private: &Vec<F>) -> (r: F)
    ensures
        r.value() == lc_value(lc.terms@, field_values(public@), field_values(private@)),
{
    let mut acc = F::zero();
    let mut i: usize = 0;
    while i < lc.terms.len()
        invariant
            i <= lc.terms.len(),
            acc.value() == lc_value(lc.terms@.take(i as int), field_values(public@), field_values(private@)),
        decreases lc.terms.len() - i,
    {
        let (v, coeff) = lc.terms[i];
        let x = variable_value_exec(v, public, private);
        acc = acc.add(&coeff.mul(&x));
        proof {
            assert(lc.terms@.take(i + 1).drop_last() =~= lc.terms@.take(i as int));
        }
        i = i + 1;
    }
    assert(lc.terms@.take(i as int) =~= lc.terms@);
    acc
}

impl<F: PrimeField> ConstraintSystem<F> {
    /// An empty system: the constant one as its only public variable.
    pub fn new() -> (r: Self)
        ensures
            r.public_variables@.len() == 1,
            r.public_variables@[0].value() == 1,
            r.private_variables@.len() == 0,
            r.constraints@.len() == 0,
    {
        let mut public_variables: Vec<F> = Vec::new();
        public_variables.push(F::one());
        ConstraintSystem { public_variables, private_variables: Vec::new(), constraints: Vec::new() }
    }

    /// Allocates a private variable with the given value.
    pub fn alloc_witness(&mut self, value: Option<F>) -> (r: Result<Variable, SynthesisError>)
        ensures
            final(self).public_variables@ == old(self).public_variables@,
            final(self).constraints@ == old(self).constraints@,
            match value {
                Some(x) => r == Ok::<Variable, SynthesisError>(
                    Variable::Private(old(self).private_variables.len()),
                ) && final(self).private_variables@ == old(self).private_variables@.push(x),
                None => r == Err::<Variable, SynthesisError>(SynthesisError::AssignmentMissing)
                    && final(self).private_variables@ == old(self).private_variables@,
            },
    {
        match value {
            Some(x) => {
                let index = self.private_variables.len();
                self.private_variables.push(x);
                Ok(Variable::Private(index))
            },
            None => Err(SynthesisError::AssignmentMissing),
        }
    }

    /// Allocates a public variable with the given value.
    pub fn alloc_input(&mut self, value: Option<F>) -> (r: Result<Variable, SynthesisError>)
        ensures
            final(self).private_variables@ == old(self).private_variables@,
            final(self).constraints@ == old(self).constraints@,
            match value {
                Some(x) => r == Ok::<Variable, SynthesisError>(
                    Variable::Public(old(self).public_variables.len()),
                ) && final(self).public_variables@ == old(self).public_variables@.push(x),
                None => r == Err::<Variable, SynthesisError>(SynthesisError::AssignmentMissing)
                    && final(self).public_variables@ == old(self).public_variables@,
            },
    {
        match value {
            Some(x) => {
                let index = self.public_variables.len();
                self.public_variables.push(x);
                Ok(Variable::Public(index))
            },
            None => Err(SynthesisError::AssignmentMissing),
        }
    }

    /// Adds the constraint `a · b = c`.
    pub fn enforce(
        &mut self,
        a: LinearCombination<F>,
        b: LinearCombination<F>,
        c: LinearCombination<F>,
    )
        ensures
            final(self).public_variables@ == old(self).public_variables@,
            final(self).private_variables@ == old(self).private_variables@,
            constraints_terms(final(self).constraints@) == constraints_terms(old(self).constraints@).push(
                (a.terms@, b.terms@, c.terms@),
            ),
    {
        let ghost before = self.constraints@;
        self.constraints.push(Constraint { a, b, c });
        proof {
            assert(constraints_terms(self.constraints@) =~= constraints_terms(before).push(
                (a.terms@, b.terms@, c.terms@),
            ));
        }
    }

    /// Whether every constraint holds under the recorded assignment.
    pub fn is_satisfied(&self) -> (r: bool)
        ensures
            r == all_hold(
                constraints_terms(self.constraints@),
                field_values(self.public_variables@),
                field_values(self.private_variables@),
            ),
    {
        check_constraints(&self.constraints, &self.public_variables, &self.private_variables)
    }

    /// Whether every constraint holds when the public variables after the
    /// constant one take the values `inputs`, the private ones keeping theirs.
    pub fn is_satisfied_with_inputs(&self, inputs: &[F]) -> (r: bool)
        requires
            self.public_variables.len() > 0,
        ensures
            r == all_hold(
                constraints_terms(self.constraints@),
                field_values(seq![self.public_variables@[0]] + inputs@),
                field_values(self.private_variables@),
            ),
    {
        let mut public: Vec<F> = Vec::new();
        public.push(self.public_variables[0]);
        let mut i: usize = 0;
        while i < inputs.len()
            invariant
                self.public_variables.len() > 0,
                i <= inputs.len(),
                public@ == seq![self.public_variables@[0]] + inputs@.take(i as int),
            decreases inputs.len() - i,
        {
            public.push(inputs[i]);
            proof {
                assert(seq![self.public_variables@[0]] + inputs@.take(i + 1) =~= (seq![
                    self.public_variables@[0],
                ] + inputs@.take(i as int)).push(inputs@[i as int]));
            }
            i = i + 1;
        }
        assert(inputs@.take(inputs.len() as int) =~= inputs@);
        check_constraints(&self.constraints, &public, &self.private_variables)
    }
}

fn check_constraints<F: PrimeField>(
    constraints: &Vec<Constraint<F>>,
    public: &Vec<F>,
    private: &Vec<F>,
) -> (r: bool)
    ensures
        r == all_hold(
            constraints_terms(constraints@),
            field_values(public@),
            field_values(private@),
        ),
{
    let ghost cs = constraints_terms(constraints@);
    let mut i: usize = 0;
    while i < constraints.len()
        invariant
            cs == constraints_terms(constraints@),
            i <= constraints.len(),
            forall|j: int|
                0 <= j < i ==> #[trigger] constraint_holds(
                    cs[j],
                    field_values(public@),
                    field_values(private@),
                ),
        decreases constraints.len() - i,
    {
        let c = &constraints[i];
        let x = evaluate(&c.a, public, private);
        let y = evaluate(&c.b, public, private);
        let z = evaluate(&c.c, public, private);
        let holds = x.mul(&y).equals(&z);
        proof {
            assert(cs[i as int] == constraint_terms(constraints@[i as int]));
            F::lemma_value_range(&z);
            vstd::arithmetic::div_mod::lemma_small_mod(z.value() as nat, F::modulus() as nat);
        }
        if !holds {
            proof {
                F::lemma_parameters();
                vstd::arithmetic::div_mod::lemma_mod_twice(x.value() * y.value(), F::modulus());
                assert(!constraint_holds(cs[i as int], field_values(public@), field_values(private@)));
            }
            return false;
        }
        i = i + 1;
    }
    true
}

/// `terms` is the linear combination `1 · v`.
pub open spec fn is_unit<F: PrimeField>(terms: Seq<(Variable, F)>, v: Variable) -> bool {
    terms.len() == 1 && terms[0].0 == v && terms[0].1.value() == 1
}

/// The constraint is `v_a · v_b = v_c` for single variables.
pub open spec fn is_product_constraint<F: PrimeField>(
    c: (Seq<(Variable, F)>, Seq<(Variable, F)>, Seq<(Variable, F)>),
    va: Variable,
    vb: Variable,
    vc: Variable,
) -> bool {
    is_unit(c.0, va) && is_unit(c.1, vb) && is_unit(c.2, vc)
}

/// The benchmark circuit: private variables `a` and `b`, a public variable
/// `c = a · b`, `num_variables - 3` further private variables holding `a`, and
/// `num_constraints` copies of the constraint `a · b = c`.
#[derive(Clone, Copy)]
pub struct Circuit<F: PrimeField> {
    pub a: Option<F>,
    pub b: Option<F>,
    pub num_constraints: usize,
    pub num_variables: usize,
}

impl<F: PrimeField> Circuit<F> {
    /// Synthesizes the circuit into `cs`.
    pub fn generate_constraints(&self, cs: &mut ConstraintSystem<F>) -> (r: Result<(), SynthesisError>)
        requires
            self.a is Some && self.b is Some ==> self.num_variables >= 3,
        ensures
            match (self.a, self.b) {
                (Some(a), Some(b)) => {
                    let k = old(cs).private_variables.len();
                    let m = old(cs).public_variables.len();
                    let old_cs = constraints_terms(old(cs).constraints@);
                    let new_cs = constraints_terms(final(cs).constraints@);
                    &&& r is Ok
                    &&& final(cs).public_variables@.len() == m + 1
                    &&& final(cs).public_variables@.take(m as int) == old(cs).public_variables@
                    &&& final(cs).public_variables@[m as int].value() == (a.value() * b.value())
                        % F::modulus()
                    &&& final(cs).private_variables@ == old(cs).private_variables@ + seq![a, b]
                        + Seq::new((self.num_variables - 3) as nat, |i: int| a)
                    &&& new_cs.len() == old_cs.len() + self.num_constraints
                    &&& new_cs.take(old_cs.len() as int) == old_cs
                    &&& forall|i: int|
                        old_cs.len() <= i < new_cs.len() ==> #[trigger] is_product_constraint(
                            new_cs[i],
                            Variable::Private(k),
                            Variable::Private((k + 1) as usize),
                            Variable::Public(m),
                        )
                },
                (None, _) => {
                    &&& r == Err::<(), SynthesisError>(SynthesisError::AssignmentMissing)
                    &&& final(cs).public_variables@ == old(cs).public_variables@
                    &&& final(cs).private_variables@ == old(cs).private_variables@
                    &&& final(cs).constraints@ == old(cs).constraints@
                },
                (Some(a), None) => {
                    &&& r == Err::<(), SynthesisError>(SynthesisError::AssignmentMissing)
                    &&& final(cs).public_variables@ == old(cs).public_variables@
                    &&& final(cs).private_variables@ == old(cs).private_variables@.push(a)
                    &&& final(cs).constraints@ == old(cs).constraints@
                },
            },
    {
        let ghost k = cs.private_variables.len();
        let ghost m = cs.public_variables.len();
        let ghost old_private = cs.private_variables@;
        let ghost old_cs = constraints_terms(cs.constraints@);
        let a = match cs.alloc_witness(self.a) {
            Ok(v) => v,
            Err(e) => {
                return Err(e);
            },
        };
        let b = match cs.alloc_witness(self.b) {
            Ok(v) => v,
            Err(e) => {
                return Err(e);
            },
        };
        let product = match (self.a, self.b) {
            (Some(x), Some(y)) => Some(x.mul(&y)),
            _ => None,
        };
        let c = match cs.alloc_input(product) {
            Ok(v) => v,
            Err(e) => {
                return Err(e);
            },
        };
        let ghost av = self.a->Some_0;
        let ghost bv = self.b->Some_0;
        proof {
            assert(cs.public_variables@.take(m as int) =~= cs.public_variables@.drop_last());
        }
        let padding = self.num_variables - 3;
        let mut i: usize = 0;
        while i < padding
            invariant
                self.a == Some(av),
                i <= padding,
                cs.private_variables@ == old_private + seq![av, bv] + Seq::new(i as nat, |t: int| av),
                cs.public_variables@.len() == m + 1,
                constraints_terms(cs.constraints@) == old_cs,
                cs.public_variables@.take(m as int) == old(cs).public_variables@,
                cs.public_variables@[m as int].value() == (av.value() * bv.value()) % F::modulus(),
            decreases padding - i,
        {
            let ghost before = cs.private_variables@;
            let _ = cs.alloc_witness(self.a);
            proof {
                assert(cs.private_variables@ =~= old_private + seq![av, bv] + Seq::new(
                    (i + 1) as nat,
                    |t: int| av,
                ));
            }
            i = i + 1;
        }
        let mut j: usize = 0;
        while j < self.num_constraints
            invariant
                j <= self.num_constraints,
                a == Variable::Private(k as usize),
                b == Variable::Private((k + 1) as usize),
                c == Variable::Public(m as usize),
                cs.private_variables@ == old_private + seq![av, bv] + Seq::new(padding as nat, |t: int| av),
                cs.public_variables@.len() == m + 1,
                cs.public_variables@.take(m as int) == old(cs).public_variables@,
                cs.public_variables@[m as int].value() == (av.value() * bv.value()) % F::modulus(),
                constraints_terms(cs.constraints@).len() == old_cs.len() + j,
                constraints_terms(cs.constraints@).take(old_cs.len() as int) == old_cs,
                forall|t: int|
                    old_cs.len() <= t < constraints_terms(cs.constraints@).len()
                        ==> #[trigger] is_product_constraint(
                        constraints_terms(cs.constraints@)[t],
                        Variable::Private(k as usize),
                        Variable::Private((k + 1) as usize),
                        Variable::Public(m as usize),
                    ),
            decreases self.num_constraints - j,
        {
            let ghost before = constraints_terms(cs.constraints@);
            cs.enforce(single(a), single(b), single(c));
            proof {
                let after = constraints_terms(cs.constraints@);
                assert(after.take(old_cs.len() as int) =~= before.take(old_cs.len() as int));
                assert forall|t: int| old_cs.len() <= t < after.len() implies #[trigger] is_product_constraint(
                    after[t],
                    Variable::Private(k as usize),
                    Variable::Private((k + 1) as usize),
                    Variable::Public(m as usize),
                ) by {
                    if t < before.len() {
                        assert(after[t] == before[t]);
                    }
                }
            }
            j = j + 1;
        }
        Ok(())
    }
}

/// The benchmark circuit accepts exactly the product as its public input:
/// when every constraint is `a · b = c` over the first two private variables
/// and the public variable after the constant one, the constraints hold with
/// public input `x` if and only if there are none or `x = a · b`.
pub proof fn lemma_product_circuit<F: PrimeField>(
    cs: Seq<(Seq<(Variable, F)>, Seq<(Variable, F)>, Seq<(Variable, F)>)>,
    private: Seq<int>,
    x: int,
)
    requires
        private.len() >= 2,
        0 <= x < F::modulus(),
        forall|i: int|
            0 <= i < cs.len() ==> #[trigger] is_product_constraint(
                cs[i],
                Variable::Private(0),
                Variable::Private(1),
                Variable::Public(1),
            ),
    ensures
        all_hold(cs, seq![1int, x], private) <==> (cs.len() == 0 || x == (private[0] * private[1])
            % F::modulus()),
{
    let m = F::modulus();
    F::lemma_parameters();
    let public = seq![1int, x];
    assert forall|i: int| 0 <= i < cs.len() implies #[trigger] constraint_holds(cs[i], public, private)
        == (x == (private[0] * private[1]) % m) by {
        assert(is_product_constraint(cs[i], Variable::Private(0), Variable::Private(1), Variable::Public(1)));
        lemma_unit_value::<F>(cs[i].0, Variable::Private(0), public, private);
        lemma_unit_value::<F>(cs[i].1, Variable::Private(1), public, private);
        lemma_unit_value::<F>(cs[i].2, Variable::Public(1), public, private);
        vstd::arithmetic::div_mod::lemma_mul_mod_noop(private[0], private[1], m);
        vstd::arithmetic::div_mod::lemma_small_mod(x as nat, m as nat);
    }
    if cs.len() > 0 {
        assert(constraint_holds(cs[0], public, private) == (x == (private[0] * private[1]) % m));
    }
}

/// A linear combination is linear in its terms: the empty combination is 0,
/// the single term `k · v` is `k` times the value of `v`, and the
/// concatenation of two combinations is the sum of their values, all modulo
/// the field's modulus.
pub proof fn lemma_lc_value_linear<F: PrimeField>(
    t1: Seq<(Variable, F)>,
    t2: Seq<(Variable, F)>,
    v: Variable,
    k: F,
    public: Seq<int>,
    private: Seq<int>,
)
    ensures
        lc_value(Seq::<(Variable, F)>::empty(), public, private) == 0,
        lc_value(seq![(v, k)], public, private) == (k.value() * variable_value(v, public, private))
            % F::modulus(),
        lc_value(t1 + t2, public, private) == (lc_value(t1, public, private) + lc_value(
            t2,
            public,
            private,
        )) % F::modulus(),
    decreases t2.len(),
{
    let m = F::modulus();
    F::lemma_parameters();
    let single = seq![(v, k)];
    assert(single.drop_last() =~= Seq::<(Variable, F)>::empty());
    let x = (k.value() * variable_value(v, public, private)) % m;
    vstd::arithmetic::div_mod::lemma_mod_bound(k.value() * variable_value(v, public, private), m);
    vstd::arithmetic::div_mod::lemma_small_mod(x as nat, m as nat);
    assert(lc_value(single.drop_last(), public, private) == 0);
    assert(single.last() == (v, k));
    assert(lc_value(single, public, private) == (0 + x) % m);
    lemma_lc_value_range(t1, public, private);
    if t2.len() == 0 {
        assert(t1 + t2 =~= t1);
        vstd::arithmetic::div_mod::lemma_small_mod(lc_value(t1, public, private) as nat, m as nat);
    } else {
        let t2p = t2.drop_last();
        lemma_lc_value_linear(t1, t2p, v, k, public, private);
        assert((t1 + t2).drop_last() =~= t1 + t2p);
        assert((t1 + t2).last() == t2.last());
        let a = lc_value(t1, public, private);
        let b = lc_value(t2p, public, private);
        let c = (t2.last().1.value() * variable_value(t2.last().0, public, private)) % m;
        vstd::arithmetic::div_mod::lemma_add_mod_noop(a + b, c, m);
        vstd::arithmetic::div_mod::lemma_mod_twice(a + b, m);
        vstd::arithmetic::div_mod::lemma_mod_twice(c, m);
        vstd::arithmetic::div_mod::lemma_add_mod_noop(a, b + c, m);
        vstd::arithmetic::div_mod::lemma_mod_twice(a, m);
        vstd::arithmetic::div_mod::lemma_small_mod(a as nat, m as nat);
        vstd::arithmetic::div_mod::lemma_mod_bound(c, m);
        vstd::arithmetic::div_mod::lemma_small_mod(c as nat, m as nat);
        assert(lc_value(t1 + t2, public, private) == ((a + b) % m + c) % m);
        assert(lc_value(t2, public, private) == (b + c) % m);
        assert(((a + b) % m + c) % m == (a + b + c) % m);
        assert((a + (b + c) % m) % m == (a + (b + c)) % m);
    }
}

/// The value of a linear combination lies in `0..modulus`.
proof fn lemma_lc_value_range<F: PrimeField>(
    terms: Seq<(Variable, F)>,
    public: Seq<int>,
    private: Seq<int>,
)
    ensures
        0 <= lc_value(terms, public, private) < F::modulus(),
    decreases terms.len(),
{
    F::lemma_parameters();
    if terms.len() > 0 {
        lemma_lc_value_range(terms.drop_last(), public, private);
        vstd::arithmetic::div_mod::lemma_mod_bound(
            lc_value(terms.drop_last(), public, private) + (terms.last().1.value() * variable_value(
                terms.last().0,
                public,
                private,
            )) % F::modulus(),
            F::modulus(),
        );
    }
}

/// The value of `1 · v` is the value of `v`, reduced.
proof fn lemma_unit_value<F: PrimeField>(
    terms: Seq<(Variable, F)>,
    v: Variable,
    public: Seq<int>,
    private: Seq<int>,
)
    requires
        is_unit(terms, v),
        1 < F::modulus(),
    ensures
        lc_value(terms, public, private) == variable_value(v, public, private) % F::modulus(),
{
    reveal_with_fuel(lc_value, 2);
    assert(terms.drop_last().len() == 0);
    let m = F::modulus();
    let y = variable_value(v, public, private);
    vstd::arithmetic::div_mod::lemma_small_mod(0, m as nat);
    vstd::arithmetic::div_mod::lemma_mod_twice(y, m);
    vstd::arithmetic::div_mod::lemma_mod_bound(y, m);
    vstd::arithmetic::div_mod::lemma_small_mod((y % m) as nat, m as nat);
}

} // verus!
