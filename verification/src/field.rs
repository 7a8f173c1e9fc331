//! Elements of the prime-order scalar field that the polynomial arithmetic
//! works over.
//!
//! An element is kept as its canonical big-endian encoding, so that every
//! contract can speak of the residue it denotes as a plain integer.  The
//! arithmetic itself (reduction, inversion, random sampling) is done by the
//! `amcl_wrapper` library behind the trusted functions below.

use amcl_wrapper::field_elem::FieldElement;
use vstd::prelude::*;

verus! {

/// Order of the scalar field (the order of the BLS12-381 curve's prime-order
/// group): every field element is a residue below this prime.
pub open spec fn field_order() -> nat {
    0x73eda753299d7d483339d80809a1d80553bda402fffe5bfeffffffff00000001nat
}

/// Number of bytes in the canonical encoding of a field element.
pub const FE_BYTES: usize = 48;

/// Values from a machine word must lie below this bound (two to the 63rd)
/// when an element is built from one: the arithmetic library routes the
/// conversion through a signed word.
pub const WORD_INPUT_LIMIT: u64 = 0x8000000000000000;

/// The value that a big-endian byte string denotes.
pub open spec fn be_bytes_val(s: Seq<u8>) -> nat
    decreases s.len(),
{
    if s.len() == 0 {
        0
    } else {
        be_bytes_val(s.drop_last()) * 256 + s.last() as nat
    }
}

/// A string of zero bytes denotes the value zero.
proof fn lemma_zero_bytes_val(s: Seq<u8>)
    requires
        forall|j: int| 0 <= j < s.len() ==> s[j] == 0,
    ensures
        be_bytes_val(s) == 0,
    decreases s.len(),
{
    if s.len() > 0 {
        lemma_zero_bytes_val(s.drop_last());
    }
}

/// An element of the prime-order scalar field, held as its canonical
/// big-endian encoding of `FE_BYTES` bytes.
#[derive(Debug)]
pub struct FieldElem {
    pub bytes: Vec<u8>,
}

impl View for FieldElem {
    type V = nat;

    /// The residue this element stands for.
    open spec fn view(&self) -> nat {
        be_bytes_val(self.bytes@)
    }
}

/// Result of the field's multiplicative inversion on a given residue.
/// `FieldElem::inverse` names its result with this function; beyond the
/// facts stated there, nothing is assumed of it.
pub uninterp spec fn fe_inverse_val(a: nat) -> nat;

impl FieldElem {
    /// Canonical form: a full-length encoding of a reduced residue.
    pub open spec fn wf(&self) -> bool {
        self.bytes@.len() == FE_BYTES && self@ < field_order()
    }

    /// The additive identity: the all-zero canonical encoding.
    pub fn zero() -> (r: FieldElem)
        ensures
            r.wf(),
            r@ == 0,
    {
        let mut bytes: Vec<u8> = Vec::new();
        while bytes.len() < FE_BYTES
            invariant
                bytes@.len() <= FE_BYTES,
                forall|j: int| 0 <= j < bytes@.len() ==> bytes@[j] == 0,
            decreases FE_BYTES - bytes.len(),
        {
            bytes.push(0u8);
        }
        proof {
            lemma_zero_bytes_val(bytes@);
        }
        FieldElem { bytes }
    }

    /// Relies on amcl_wrapper's `FieldElement::one` (the multiplicative
    /// identity) and `to_bytes`.
    #[verifier::external_body]
    pub fn one() -> (r: FieldElem)
        ensures
            r.wf(),
            r@ == 1,
    {
        FieldElem { bytes: FieldElement::one().to_bytes() }
    }

    /// Relies on amcl_wrapper's `From<u64> for FieldElement`, which places
    /// the word into a bignum unchanged (the field order is far above the
    /// word range, but the conversion goes through a signed word, hence the
    /// bound).
    #[verifier::external_body]
    pub fn from_u64(n: u64) -> (r: FieldElem)
        requires
            n < WORD_INPUT_LIMIT,
        ensures
            r.wf(),
            r@ == n,
    {
        FieldElem { bytes: FieldElement::from(n).to_bytes() }
    }

    /// Relies on amcl_wrapper's `FieldElement::random`: a uniformly sampled
    /// non-zero residue.  Nothing is stated of the value beyond its range;
    /// two calls may differ.
    #[verifier::external_body]
    pub fn random() -> (r: FieldElem)
        ensures
            r.wf(),
            r@ != 0,
    {
        FieldElem { bytes: FieldElement::random().to_bytes() }
    }

    /// Relies on amcl_wrapper's `FieldElement::is_zero` and `from_bytes`
    /// (which reverses `to_bytes` on canonical encodings).
    #[verifier::external_body]
    pub fn is_zero(&self) -> (r: bool)
        requires
            self.wf(),
        ensures
            r == (self@ == 0),
    {
        FieldElement::from_bytes(&self.bytes).unwrap().is_zero()
    }

    /// Relies on amcl_wrapper's `FieldElement::plus`: addition of residues
    /// reduced by the field order.
    #[verifier::external_body]
    pub fn add(&self, other: &FieldElem) -> (r: FieldElem)
        requires
            self.wf(),
            other.wf(),
        ensures
            r.wf(),
            r@ == (self@ + other@) % field_order(),
    {
        let a = FieldElement::from_bytes(&self.bytes).unwrap();
        let b = FieldElement::from_bytes(&other.bytes).unwrap();
        FieldElem { bytes: a.plus(&b).to_bytes() }
    }

    /// Relies on amcl_wrapper's `FieldElement::multiply`: the product of the
    /// residues reduced by the field order (by Barrett reduction).
    #[verifier::external_body]
    pub fn mul(&self, other: &FieldElem) -> (r: FieldElem)
        requires
            self.wf(),
            other.wf(),
        ensures
            r.wf(),
            r@ == (self@ * other@) % field_order(),
    {
        let a = FieldElement::from_bytes(&self.bytes).unwrap();
        let b = FieldElement::from_bytes(&other.bytes).unwrap();
        FieldElem { bytes: a.multiply(&b).to_bytes() }
    }

    /// Relies on amcl_wrapper's `FieldElement::negation`: the additive
    /// inverse, computed as zero minus the residue, reduced by the field
    /// order.
    #[verifier::external_body]
    pub fn neg(&self) -> (r: FieldElem)
        requires
            self.wf(),
        ensures
            r.wf(),
            r@ == if self@ == 0 {
                0nat
            } else {
                (field_order() - self@) as nat
            },
    {
        let a = FieldElement::from_bytes(&self.bytes).unwrap();
        FieldElem { bytes: a.negation().to_bytes() }
    }

    /// Relies on amcl_wrapper's `FieldElement::inverse`: the multiplicative
    /// inverse of a non-zero residue, and zero for zero.  The result is a
    /// function of the residue alone; `fe_inverse_val` names it.
    #[verifier::external_body]
    pub fn inverse(&self) -> (r: FieldElem)
        requires
            self.wf(),
        ensures
            r.wf(),
            r@ == fe_inverse_val(self@),
            self@ != 0 ==> (self@ * r@) % field_order() == 1,
            self@ == 0 ==> r@ == 0,
    {
        let a = FieldElement::from_bytes(&self.bytes).unwrap();
        FieldElem { bytes: a.inverse().to_bytes() }
    }
}

fn bytes_eq(a: &Vec<u8>, b: &Vec<u8>) -> (r: bool)
    ensures
        r == (a@ == b@),
{
    if a.len() != b.len() {
        proof {
            assert(a@.len() != b@.len());
        }
        return false;
    }
    let mut k: usize = 0;
    while k < a.len()
        invariant
            k <= a.len(),
            a@.len() == b@.len(),
            forall|j: int| 0 <= j < k ==> a@[j] == b@[j],
        decreases a.len() - k,
    {
        if a[k] != b[k] {
            return false;
        }
        k += 1;
    }
    proof {
        assert(a@ =~= b@);
    }
    true
}

impl Clone for FieldElem {
    fn clone(&self) -> (r: Self)
        ensures
            r.bytes@ == self.bytes@,
            r@ == self@,
            r.wf() == self.wf(),
    {
        let b = self.bytes.clone();
        proof {
            assert(b@ =~= self.bytes@);
        }
        FieldElem { bytes: b }
    }
}

impl PartialEq for FieldElem {
    fn eq(&self, other: &FieldElem) -> (r: bool) {
        bytes_eq(&self.bytes, &other.bytes)
    }
}

impl vstd::std_specs::cmp::PartialEqSpecImpl for FieldElem {
    open spec fn obeys_eq_spec() -> bool {
        true
    }

    open spec fn eq_spec(&self, other: &FieldElem) -> bool {
        self.bytes@ == other.bytes@
    }
}

} // verus!
