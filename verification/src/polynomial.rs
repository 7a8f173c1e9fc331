//! Polynomials over the prime-order field: random construction, evaluation
//! by Horner's method, and the Lagrange basis at zero used when a shared
//! value is reconstructed from its shares.

use crate::field::{fe_inverse_val, field_order, FieldElem, WORD_INPUT_LIMIT};
use std::collections::HashSet;
use vstd::arithmetic::div_mod::{
    lemma_add_mod_noop_right, lemma_mod_add_multiples_vanish, lemma_mul_mod_noop_left,
    lemma_mul_mod_noop_right, lemma_small_mod,
};
use vstd::arithmetic::mul::{lemma_mul_basics, lemma_mul_is_associative, lemma_mul_is_commutative};
use vstd::arithmetic::power::{lemma0_pow, lemma1_pow, lemma_pow0, pow};
use vstd::prelude::*;
use vstd::seq_lib::{commutative_foldl, lemma_fold_left_permutation};

verus! {

/// The naive reading of a coefficient sequence as a polynomial: the
/// unreduced integer Σ c[k]·x^k, lowest degree first.
pub open spec fn poly_sum(c: Seq<nat>, x: nat) -> int
    decreases c.len(),
{
    if c.len() == 0 {
        0
    } else {
        poly_sum(c.drop_last(), x) + c.last() as int * pow(x as int, (c.len() - 1) as nat)
    }
}

/// p(x) in the field: the naive sum reduced by the field order.
pub open spec fn poly_eval(c: Seq<nat>, x: nat) -> nat {
    (poly_sum(c, x) % (field_order() as int)) as nat
}

/// Horner's reading of the tail of `c` that starts at index `k`, every step
/// reduced by the field order.
pub open spec fn horner_from(c: Seq<nat>, x: nat, k: int) -> int
    decreases c.len() - k,
{
    if k < 0 || k >= c.len() {
        0
    } else {
        (c[k] as int + x as int * horner_from(c, x, k + 1)) % (field_order() as int)
    }
}

/// The plain sum of the coefficients.
pub open spec fn coeff_sum(c: Seq<nat>) -> int
    decreases c.len(),
{
    if c.len() == 0 {
        0
    } else {
        coeff_sum(c.drop_last()) + c.last()
    }
}

#[verifier::rlimit(50)]
proof fn lemma_poly_sum_front(c: Seq<nat>, x: nat)
    requires
        c.len() > 0,
    ensures
        poly_sum(c, x) == c[0] + x as int * poly_sum(c.subrange(1, c.len() as int), x),
    decreases c.len(),
{
    let t = c.subrange(1, c.len() as int);
    if c.len() == 1 {
        assert(t.len() == 0);
        assert(c.drop_last().len() == 0);
        assert(poly_sum(c.drop_last(), x) == 0);
        assert(poly_sum(t, x) == 0);
        lemma_pow0(x as int);
        assert(poly_sum(c, x) == c.last() as int * pow(x as int, 0));
        assert(c.last() == c[0]);
        lemma_mul_basics(c.last() as int);
        lemma_mul_basics(x as int);
        assert(poly_sum(c, x) == c[0]);
        assert(x as int * poly_sum(t, x) == 0);
        assert(poly_sum(c, x) == c[0] + x as int * poly_sum(t, x));
    } else {
        let cd = c.drop_last();
        let l = c.last() as int;
        let p2 = pow(x as int, (c.len() - 2) as nat);
        lemma_poly_sum_front(cd, x);
        assert(cd.subrange(1, cd.len() as int) =~= t.drop_last());
        assert(t.last() == c.last());
        let e = (c.len() - 1) as nat;
        assert(pow(x as int, e) == x as int * pow(x as int, (e - 1) as nat)) by {
            reveal(pow);
        }
        assert((e - 1) as nat == (c.len() - 2) as nat);
        assert(pow(x as int, e) == x as int * p2);
        let sd = poly_sum(t.drop_last(), x);
        assert(cd[0] == c[0]);
        assert(poly_sum(cd, x) == c[0] + x as int * sd);
        assert(poly_sum(t, x) == sd + l * p2);
        assert(poly_sum(c, x) == poly_sum(cd, x) + l * pow(x as int, e));
        assert(poly_sum(c, x) == c[0] + x as int * sd + l * (x as int * p2));
        assert(l * (x as int * p2) == x as int * (l * p2)) by (nonlinear_arith);
        assert(x as int * (sd + l * p2) == x as int * sd + x as int * (l * p2))
            by (nonlinear_arith);
        assert(poly_sum(c, x) == c[0] + x as int * (sd + l * p2));
        assert(poly_sum(c, x) == c[0] + x as int * poly_sum(t, x));
    }
}

proof fn lemma_horner_from_eq(c: Seq<nat>, x: nat, k: int)
    requires
        0 <= k <= c.len(),
    ensures
        horner_from(c, x, k) == poly_sum(c.subrange(k, c.len() as int), x) % (field_order()
            as int),
    decreases c.len() - k,
{
    let q = field_order() as int;
    let t = c.subrange(k, c.len() as int);
    if k == c.len() {
        assert(t.len() == 0);
    } else {
        let t1 = c.subrange(k + 1, c.len() as int);
        let s1 = poly_sum(t1, x);
        lemma_horner_from_eq(c, x, k + 1);
        lemma_poly_sum_front(t, x);
        assert(t.subrange(1, t.len() as int) =~= t1);
        assert(t[0] == c[k]);
        lemma_mul_mod_noop_right(x as int, s1, q);
        lemma_add_mod_noop_right(c[k] as int, x as int * (s1 % q), q);
        lemma_add_mod_noop_right(c[k] as int, x as int * s1, q);
        assert((x as int * (s1 % q)) % q == (x as int * s1) % q);
        assert(horner_from(c, x, k) == (c[k] as int + x as int * (s1 % q)) % q);
        assert((c[k] as int + (x as int * (s1 % q)) % q) % q == (c[k] as int + x as int * (s1
            % q)) % q);
        assert((c[k] as int + (x as int * s1) % q) % q == (c[k] as int + x as int * s1) % q);
    }
}

/// Law: Horner's method agrees with the naive sum.  Reading the whole
/// coefficient sequence by Horner steps, each reduced by the field order,
/// gives exactly the reduced value of Σ c[k]·x^k.
pub proof fn lemma_horner_matches_sum(c: Seq<nat>, x: nat)
    ensures
        horner_from(c, x, 0) == poly_eval(c, x),
{
    lemma_horner_from_eq(c, x, 0);
    assert(c.subrange(0, c.len() as int) =~= c);
}

proof fn lemma_poly_sum_at_zero(c: Seq<nat>)
    requires
        c.len() > 0,
    ensures
        poly_sum(c, 0) == c[0],
    decreases c.len(),
{
    if c.len() == 1 {
        assert(c.drop_last().len() == 0);
        assert(poly_sum(c.drop_last(), 0) == 0);
        lemma_pow0(0);
        assert(c.last() == c[0]);
    } else {
        lemma_poly_sum_at_zero(c.drop_last());
        lemma0_pow((c.len() - 1) as nat);
        assert(c.drop_last()[0] == c[0]);
    }
}

/// Law: evaluation at the additive identity yields the constant term.
pub proof fn lemma_eval_at_zero(c: Seq<nat>)
    requires
        c.len() > 0,
        c[0] < field_order(),
    ensures
        poly_eval(c, 0) == c[0],
{
    lemma_poly_sum_at_zero(c);
    lemma_small_mod(c[0], field_order());
}

proof fn lemma_poly_sum_at_one(c: Seq<nat>)
    ensures
        poly_sum(c, 1) == coeff_sum(c),
    decreases c.len(),
{
    if c.len() > 0 {
        lemma_poly_sum_at_one(c.drop_last());
        lemma1_pow((c.len() - 1) as nat);
    }
}

/// Law: evaluation at the multiplicative identity yields the sum of all
/// coefficients, reduced by the field order.
pub proof fn lemma_eval_at_one(c: Seq<nat>)
    ensures
        poly_eval(c, 1) == coeff_sum(c) % (field_order() as int),
{
    lemma_poly_sum_at_one(c);
}

/// One step of the numerator product of the Lagrange basis at zero: nodes
/// equal to the index contribute nothing; any other node multiplies the
/// accumulator, reduced by the field order.
pub open spec fn lagrange_num_step(i: usize) -> spec_fn(int, usize) -> int {
    |acc: int, x: usize|
        if x == i {
            acc
        } else {
            (acc * x as int) % (field_order() as int)
        }
}

/// One step of the denominator product: any node other than the index
/// multiplies the accumulator by the field value of x − i.
pub open spec fn lagrange_den_step(i: usize) -> spec_fn(int, usize) -> int {
    |acc: int, x: usize|
        if x == i {
            acc
        } else {
            (acc * ((x as int - i as int) % (field_order() as int))) % (field_order() as int)
        }
}

/// Product, in the field, of the nodes x over all x ≠ i in the sequence.
pub open spec fn lagrange_num(s: Seq<usize>, i: usize) -> int {
    s.fold_left(1int, lagrange_num_step(i))
}

/// Product, in the field, of x − i over all nodes x ≠ i in the sequence.
pub open spec fn lagrange_den(s: Seq<usize>, i: usize) -> int {
    s.fold_left(1int, lagrange_den_step(i))
}

/// The Lagrange basis polynomial ℓ_i evaluated at zero: the numerator
/// product times the field's inverse of the denominator product.
pub open spec fn lagrange_basis_at_0_val(s: Seq<usize>, i: usize) -> int {
    (lagrange_num(s, i) * fe_inverse_val(lagrange_den(s, i) as nat) as int) % (field_order()
        as int)
}

/// Law: the Lagrange basis at zero does not depend on the order in which the
/// nodes are enumerated.  Two enumerations of the same multiset of nodes
/// give the same numerator, the same denominator, and the same basis value.
pub proof fn lemma_lagrange_order_independent(s1: Seq<usize>, s2: Seq<usize>, i: usize)
    requires
        s1.to_multiset() == s2.to_multiset(),
    ensures
        lagrange_num(s1, i) == lagrange_num(s2, i),
        lagrange_den(s1, i) == lagrange_den(s2, i),
        lagrange_basis_at_0_val(s1, i) == lagrange_basis_at_0_val(s2, i),
{
    let q = field_order() as int;
    let f = lagrange_num_step(i);
    let g = lagrange_den_step(i);
    assert(commutative_foldl(f)) by {
        assert forall|x: usize, y: usize, v: int| #[trigger] f(f(v, x), y) == f(f(v, y), x) by {
            if x != i && y != i {
                lemma_mul_mod_noop_left(v * x as int, y as int, q);
                lemma_mul_mod_noop_left(v * y as int, x as int, q);
                assert(v * x as int * y as int == v * y as int * x as int) by (nonlinear_arith);
            }
        }
    }
    assert(commutative_foldl(g)) by {
        assert forall|x: usize, y: usize, v: int| #[trigger] g(g(v, x), y) == g(g(v, y), x) by {
            if x != i && y != i {
                let dx = (x as int - i as int) % q;
                let dy = (y as int - i as int) % q;
                lemma_mul_mod_noop_left(v * dx, dy, q);
                lemma_mul_mod_noop_left(v * dy, dx, q);
                assert(v * dx * dy == v * dy * dx) by (nonlinear_arith);
            }
        }
    }
    lemma_fold_left_permutation(s1, s2, f, 1int);
    lemma_fold_left_permutation(s1, s2, g, 1int);
}

/// Every node small enough for the field's word conversion.
pub open spec fn nodes_in_word_range(s: Set<usize>) -> bool {
    forall|x: usize| #[trigger] s.contains(x) ==> (x as nat) < (WORD_INPUT_LIMIT as nat)
}

/// Law: two duplicate-free enumerations of the same node set are
/// permutations of each other, so either can stand for the set in the
/// Lagrange products.
pub proof fn lemma_node_enumerations_agree(s1: Seq<usize>, s2: Seq<usize>)
    requires
        s1.no_duplicates(),
        s2.no_duplicates(),
        s1.to_set() == s2.to_set(),
    ensures
        s1.to_multiset() == s2.to_multiset(),
{
    s1.to_multiset_ensures();
    s2.to_multiset_ensures();
    s1.lemma_multiset_has_no_duplicates();
    s2.lemma_multiset_has_no_duplicates();
    assert forall|x: usize| s1.to_multiset().count(x) == #[trigger] s2.to_multiset().count(x) by {
        assert(s1.contains(x) == s1.to_set().contains(x));
        assert(s2.contains(x) == s2.to_set().contains(x));
        if s1.contains(x) {
            assert(s1.to_multiset().count(x) > 0);
            assert(s2.to_multiset().count(x) > 0);
            assert(s1.to_multiset().contains(x) && s2.to_multiset().contains(x));
        } else {
            assert(s1.to_multiset().count(x) == 0);
            assert(s2.to_multiset().count(x) == 0);
        }
    }
    assert(s1.to_multiset() =~= s2.to_multiset());
}

/// Law: over a node sequence that holds no node other than the index
/// itself, both products stay the empty product, one.
pub proof fn lemma_lagrange_degenerate(s: Seq<usize>, i: usize)
    requires
        forall|k: int| 0 <= k < s.len() ==> s[k] == i,
    ensures
        lagrange_num(s, i) == 1,
        lagrange_den(s, i) == 1,
    decreases s.len(),
{
    if s.len() > 0 {
        lemma_lagrange_degenerate(s.drop_last(), i);
    }
}

/// Coefficients of a polynomial over the field, lowest degree first.  The
/// constant term is always present: the sequence is never empty.
pub struct Polynomial(pub Vec<FieldElem>);

impl View for Polynomial {
    type V = Seq<nat>;

    /// The residues of the coefficients, lowest degree first.
    open spec fn view(&self) -> Seq<nat> {
        self.0@.map_values(|c: FieldElem| c@)
    }
}

impl Polynomial {
    /// At least one coefficient, each a canonical field element.
    pub open spec fn wf(&self) -> bool {
        self.0@.len() >= 1 && (forall|k: int|
            0 <= k < self.0@.len() ==> (#[trigger] self.0@[k]).wf())
    }

    /// A randomly chosen polynomial of the given degree: `degree + 1`
    /// coefficients, each sampled independently from the field.
    pub fn random(degree: usize) -> (r: Polynomial)
        requires
            degree < usize::MAX,
        ensures
            r.wf(),
            r@.len() == degree + 1,
    {
        let mut coeffs: Vec<FieldElem> = Vec::new();
        while coeffs.len() <= degree
            invariant
                coeffs@.len() <= degree + 1,
                forall|k: int| 0 <= k < coeffs@.len() ==> (#[trigger] coeffs@[k]).wf(),
            decreases degree + 1 - coeffs.len(),
        {
            coeffs.push(FieldElem::random());
        }
        Polynomial(coeffs)
    }

    /// Number of coefficients minus one.
    pub fn degree(&self) -> (d: usize)
        requires
            self.wf(),
        ensures
            d == self@.len() - 1,
    {
        self.0.len() - 1
    }

    /// The coefficients, starting from the lowest degree term.
    pub fn coefficients(&self) -> (c: &Vec<FieldElem>)
        ensures
            c@ == self.0@,
            c@.map_values(|e: FieldElem| e@) == self@,
    {
        &self.0
    }

    /// p(x): the constant term is returned directly when x is zero; any
    /// other point is evaluated by Horner's method, highest degree first.
    pub fn eval(&self, x: &FieldElem) -> (r: FieldElem)
        requires
            self.wf(),
            x.wf(),
        ensures
            r.wf(),
            r@ == poly_eval(self@, x@),
    {
        if x.is_zero() {
            let r = self.0[0].clone();
            proof {
                assert(self@[0] == self.0@[0]@);
                lemma_eval_at_zero(self@);
            }
            r
        } else {
            let n = self.0.len();
            let mut res = self.0[n - 1].clone();
            let mut k: usize = n - 1;
            proof {
                assert(self@[n - 1] == self.0@[n - 1]@);
                assert(horner_from(self@, x@, n as int) == 0);
                lemma_small_mod(self@[n - 1], field_order());
            }
            while k > 0
                invariant
                    self.wf(),
                    x.wf(),
                    k < self.0@.len(),
                    res.wf(),
                    res@ == horner_from(self@, x@, k as int),
                decreases k,
            {
                k = k - 1;
                let t = res.mul(x);
                res = t.add(&self.0[k]);
                proof {
                    let qi = field_order() as int;
                    let h1 = horner_from(self@, x@, k + 1);
                    assert(self@[k as int] == self.0@[k as int]@);
                    lemma_mul_is_commutative(h1, x@ as int);
                    lemma_add_mod_noop_right(self@[k as int] as int, x@ as int * h1, qi);
                    assert(res@ == (self@[k as int] as int + x@ as int * h1) % qi);
                }
            }
            proof {
                lemma_horner_matches_sum(self@, x@);
            }
            res
        }
    }

    /// The Lagrange basis polynomial ℓ_i for the given nodes, evaluated at
    /// zero: the interpolation weight of the share at node i when the
    /// shared value is reconstructed.  A node equal to i is skipped, so a
    /// zero factor never enters the denominator from that case; when the
    /// denominator product is zero all the same, the field's inversion
    /// yields zero and so does the result.  The node bound is forced by the
    /// arithmetic library's word conversion.
    pub fn lagrange_basis_at_0(x_coords: HashSet<usize>, i: usize) -> (r: FieldElem)
        requires
            (i as u64) < WORD_INPUT_LIMIT,
            nodes_in_word_range(x_coords@),
        ensures
            r.wf(),
            (exists|nodes: Seq<usize>|
                {
                    &&& (#[trigger] nodes.to_set()) == x_coords@
                    &&& nodes.no_duplicates()
                    &&& r@ == lagrange_basis_at_0_val(nodes, i)
                    &&& (lagrange_den(nodes, i) != 0 ==> (r@ * lagrange_den(nodes, i)) % (
                    field_order() as int) == lagrange_num(nodes, i))
                }),
    {
        broadcast use vstd::seq_lib::group_seq_properties;

        let mut numerator = FieldElem::one();
        let mut denominator = FieldElem::one();
        let i_fe = FieldElem::from_u64(i as u64);
        let neg_i = i_fe.neg();
        let ghost mut processed: Seq<usize> = Seq::empty();
        for x_ref in it: x_coords.iter()
            invariant
                it.seq().unref().to_set() == x_coords@,
                it.seq().unref().no_duplicates(),
                processed =~= it.seq().unref().take(it.index() as int),
                it.index() == it.seq().len() ==> processed =~= it.seq().unref(),
                (i as u64) < WORD_INPUT_LIMIT,
                nodes_in_word_range(x_coords@),
                numerator.wf(),
                denominator.wf(),
                neg_i.wf(),
                neg_i@ == if i == 0 {
                    0nat
                } else {
                    (field_order() - i as nat) as nat
                },
                numerator@ == lagrange_num(processed, i),
                denominator@ == lagrange_den(processed, i),
        {
            let x: usize = *x_ref;
            proof {
                assert(it.seq().unref()[it.index() as int] == x);
                assert(it.seq().unref().to_set().contains(x));
            }
            if x != i {
                let x_fe = FieldElem::from_u64(x as u64);
                let new_num = numerator.mul(&x_fe);
                let x_minus_i = x_fe.add(&neg_i);
                let new_den = denominator.mul(&x_minus_i);
                proof {
                    let qi = field_order() as int;
                    lemma_mod_add_multiples_vanish(x as int - i as int, qi);
                    assert(x_minus_i@ == (x as int - i as int) % qi);
                }
                numerator = new_num;
                denominator = new_den;
            }
            proof {
                assert(it.seq().unref().take(it.index() as int + 1) =~= it.seq().unref().take(
                    it.index() as int,
                ).push(x));
                assert(it.index() as int + 1 == it.seq().len() ==> it.seq().unref().take(
                    it.index() as int + 1,
                ) =~= it.seq().unref());
            }
            proof {
                let prev = processed;
                processed = processed.push(x);
                assert(processed.drop_last() =~= prev);
                assert(processed.last() == x);
                assert(lagrange_num(processed, i) == lagrange_num_step(i)(
                    lagrange_num(prev, i),
                    x,
                ));
                assert(lagrange_den(processed, i) == lagrange_den_step(i)(
                    lagrange_den(prev, i),
                    x,
                ));
            }
        }
        let ghost nodes = processed;
        proof {
            assert(nodes.to_set() == x_coords@);
            assert(nodes.no_duplicates());
        }
        let inv_den = denominator.inverse();
        let r = numerator.mul(&inv_den);
        proof {
            let qi = field_order() as int;
            let num = numerator@ as int;
            let den = denominator@ as int;
            let inv = inv_den@ as int;
            assert(lagrange_den(nodes, i) as nat == denominator@);
            if den != 0 {
                lemma_mul_mod_noop_left(num * inv, den, qi);
                lemma_mul_is_associative(num, inv, den);
                lemma_mul_is_commutative(inv, den);
                lemma_mul_mod_noop_right(num, den * inv, qi);
                assert((den * inv) % qi == 1);
                lemma_small_mod(numerator@, field_order());
                assert((r@ * den) % qi == num) by {
                    assert((r@ * den) % qi == ((num * inv) % qi) * den % qi);
                    assert(((num * inv) % qi) * den % qi == (num * inv * den) % qi);
                    assert(num * inv * den == num * (inv * den));
                    assert(num * (inv * den) == num * (den * inv));
                    assert((num * (den * inv)) % qi == (num * ((den * inv) % qi)) % qi);
                    assert((num * 1) % qi == num % qi);
                    assert(num % qi == num);
                }
            }
            assert(r@ == lagrange_basis_at_0_val(nodes, i));
        }
        r
    }
}

} // verus!
