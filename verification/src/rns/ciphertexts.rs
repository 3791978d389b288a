//! Linear and quadratic RNS CKKS ciphertexts.

use vstd::prelude::*;

use super::polynomial::{is_galois_image, is_product, is_sum, lemma_compatible_equiv, RnsPolynomial};

verus! {

#[derive(Clone, Debug, PartialEq, Eq)]
pub struct RnsCiphertext {
    pub c0: RnsPolynomial,
    pub c1: RnsPolynomial,
    pub scale_bits: usize,
    pub level: usize,
}

#[derive(Clone, Debug, PartialEq, Eq)]
pub struct RnsQuadraticCiphertext {
    pub c0: RnsPolynomial,
    pub c1: RnsPolynomial,
    pub c2: RnsPolynomial,
    pub scale_bits: usize,
    pub level: usize,
}

impl RnsCiphertext {
    /// Both components are well-formed and share their residues' moduli and
    /// degree, and `level` is the index of the last residue.
    pub open spec fn wf(&self) -> bool {
        &&& self.c0.wf()
        &&& self.c1.wf()
        &&& self.c0.compatible(&self.c1)
        &&& self.level + 1 == self.c0.spec_levels()
    }

    /// Both components have the given degree and moduli.
    pub open spec fn has_shape(&self, degree: nat, moduli: Seq<u64>) -> bool {
        &&& self.c0.has_shape(degree, moduli)
        &&& self.c1.has_shape(degree, moduli)
        &&& self.level + 1 == moduli.len()
    }

    pub fn new(c0: RnsPolynomial, c1: RnsPolynomial, scale_bits: usize) -> (r: Self)
        requires
            c0.spec_levels() == c1.spec_levels(),
            c0.spec_degree() == c1.spec_degree(),
            c0.spec_levels() > 0,
        ensures
            r.c0 == c0,
            r.c1 == c1,
            r.scale_bits == scale_bits,
            r.level == c0.spec_levels() - 1,
    {
        let level = c0.levels() - 1;
        Self { c0, c1, scale_bits, level }
    }

    pub fn add(&self, other: &Self) -> (r: Self)
        requires
            self.wf(),
            other.wf(),
            self.c0.compatible(&other.c0),
            self.scale_bits == other.scale_bits,
            self.level == other.level,
        ensures
            r.wf(),
            is_sum(r.c0, self.c0, other.c0),
            is_sum(r.c1, self.c1, other.c1),
            r.scale_bits == self.scale_bits,
            r.level == self.level,
    {
        proof {
            lemma_compatible_equiv(self.c0, self.c1, other.c0);
            lemma_compatible_equiv(self.c1, self.c0, other.c0);
            lemma_compatible_equiv(self.c1, other.c0, other.c1);
        }
        Self {
            c0: self.c0.add(&other.c0),
            c1: self.c1.add(&other.c1),
            scale_bits: self.scale_bits,
            level: self.level,
        }
    }

    pub fn apply_galois_automorphism(&self, galois_element: usize) -> (r: Self)
        requires
            self.wf(),
            galois_element % 2 == 1,
            (self.c0.spec_degree() - 1) * galois_element <= usize::MAX,
            2 * self.c0.spec_degree() <= usize::MAX,
        ensures
            r.wf(),
            is_galois_image(r.c0, self.c0, galois_element as nat),
            is_galois_image(r.c1, self.c1, galois_element as nat),
            r.scale_bits == self.scale_bits,
            r.level == self.level,
    {
        Self {
            c0: self.c0.apply_galois_automorphism(galois_element),
            c1: self.c1.apply_galois_automorphism(galois_element),
            scale_bits: self.scale_bits,
            level: self.level,
        }
    }

    /// An exact copy.
    pub fn duplicate(&self) -> (r: Self)
        requires
            self.wf(),
        ensures
            r.wf(),
            r.c0.spec_view() == self.c0.spec_view(),
            r.c1.spec_view() == self.c1.spec_view(),
            r.c0.has_shape(self.c0.spec_degree(), self.c0.spec_moduli()),
            r.c1.has_shape(self.c0.spec_degree(), self.c0.spec_moduli()),
            r.scale_bits == self.scale_bits,
            r.level == self.level,
    {
        let r = self.truncate_levels(self.c0.levels());
        proof {
            assert(self.c0.spec_view().subrange(0, self.c0.spec_levels() as int) =~= self.c0.spec_view());
            assert(self.c1.spec_view().subrange(0, self.c1.spec_levels() as int) =~= self.c1.spec_view());
            lemma_compatible_equiv(self.c0, self.c1, self.c0);
            assert(self.c0.has_shape(self.c0.spec_degree(), self.c0.spec_moduli()));
            assert forall|l: int| 0 <= l < self.c1.spec_levels() implies (#[trigger] self.c1.spec_residues()[l]).spec_modulus()
                == self.c0.spec_moduli()[l] && self.c1.spec_residues()[l].spec_degree() == self.c0.spec_degree() by {
                assert(self.c0.spec_residues()[l].compatible(&self.c1.spec_residues()[l]));
                assert(self.c0.spec_residues()[0].compatible(&self.c1.spec_residues()[0]));
            }
            lemma_prefix_shape(self.c0, r.c0, self.c0.spec_levels(), self.c0.spec_degree(), self.c0.spec_moduli());
            lemma_prefix_shape(self.c1, r.c1, self.c0.spec_levels(), self.c0.spec_degree(), self.c0.spec_moduli());
            assert(self.c0.spec_moduli().subrange(0, self.c0.spec_levels() as int) =~= self.c0.spec_moduli());
        }
        r
    }

    pub fn drop_last_level(&self) -> (r: Self)
        requires
            self.wf(),
            self.level > 0,
        ensures
            r.wf(),
            r.c0.spec_view() == self.c0.spec_view().drop_last(),
            r.c1.spec_view() == self.c1.spec_view().drop_last(),
            r.scale_bits == self.scale_bits,
            r.level == self.level - 1,
    {
        let r = Self {
            c0: self.c0.drop_last_level(),
            c1: self.c1.drop_last_level(),
            scale_bits: self.scale_bits,
            level: self.level - 1,
        };
        proof {
            lemma_prefix_keeps_wf(self.c0, r.c0, self.level as nat);
            lemma_prefix_keeps_wf(self.c1, r.c1, self.level as nat);
            lemma_prefix_keeps_compatible(self.c0, self.c1, r.c0, r.c1, self.level as nat);
        }
        r
    }

    pub fn truncate_levels(&self, level_count: usize) -> (r: Self)
        requires
            self.wf(),
            level_count > 0,
            level_count <= self.c0.spec_levels(),
        ensures
            r.wf(),
            r.c0.spec_view() == self.c0.spec_view().subrange(0, level_count as int),
            r.c1.spec_view() == self.c1.spec_view().subrange(0, level_count as int),
            r.scale_bits == self.scale_bits,
            r.level == level_count - 1,
    {
        let r = Self {
            c0: self.c0.truncate_levels(level_count),
            c1: self.c1.truncate_levels(level_count),
            scale_bits: self.scale_bits,
            level: level_count - 1,
        };
        proof {
            lemma_prefix_keeps_wf(self.c0, r.c0, level_count as nat);
            lemma_prefix_keeps_wf(self.c1, r.c1, level_count as nat);
            lemma_prefix_keeps_compatible(self.c0, self.c1, r.c0, r.c1, level_count as nat);
        }
        r
    }
}

impl RnsQuadraticCiphertext {
    /// The three components are well-formed and compatible, and `level` is the
    /// index of the last residue.
    pub open spec fn wf(&self) -> bool {
        &&& self.c0.wf()
        &&& self.c1.wf()
        &&& self.c2.wf()
        &&& self.c0.compatible(&self.c1)
        &&& self.c0.compatible(&self.c2)
        &&& self.level + 1 == self.c0.spec_levels()
    }

    pub fn new(c0: RnsPolynomial, c1: RnsPolynomial, c2: RnsPolynomial, scale_bits: usize) -> (r: Self)
        requires
            c0.spec_levels() == c1.spec_levels(),
            c0.spec_levels() == c2.spec_levels(),
            c0.spec_degree() == c1.spec_degree(),
            c0.spec_degree() == c2.spec_degree(),
            c0.spec_levels() > 0,
        ensures
            r.c0 == c0,
            r.c1 == c1,
            r.c2 == c2,
            r.scale_bits == scale_bits,
            r.level == c0.spec_levels() - 1,
    {
        let level = c0.levels() - 1;
        Self { c0, c1, c2, scale_bits, level }
    }

    pub fn apply_galois_automorphism(&self, galois_element: usize) -> (r: Self)
        requires
            self.wf(),
            galois_element % 2 == 1,
            (self.c0.spec_degree() - 1) * galois_element <= usize::MAX,
            2 * self.c0.spec_degree() <= usize::MAX,
        ensures
            r.wf(),
            is_galois_image(r.c0, self.c0, galois_element as nat),
            is_galois_image(r.c1, self.c1, galois_element as nat),
            is_galois_image(r.c2, self.c2, galois_element as nat),
            r.scale_bits == self.scale_bits,
            r.level == self.level,
    {
        Self {
            c0: self.c0.apply_galois_automorphism(galois_element),
            c1: self.c1.apply_galois_automorphism(galois_element),
            c2: self.c2.apply_galois_automorphism(galois_element),
            scale_bits: self.scale_bits,
            level: self.level,
        }
    }
}

/// A prefix of a well-formed polynomial's residues is well-formed.
pub proof fn lemma_prefix_keeps_wf(a: RnsPolynomial, r: RnsPolynomial, count: nat)
    requires
        a.wf(),
        0 < count <= a.spec_levels(),
        r.spec_view() == a.spec_view().subrange(0, count as int),
    ensures
        r.wf(),
        r.spec_levels() == count,
        r.spec_degree() == a.spec_degree(),
        forall|l: int| 0 <= l < count ==> (#[trigger] r.spec_residues()[l])@ == a.spec_residues()[l]@,
{
    assert(r.spec_view().len() == count);
    assert forall|l: int| 0 <= l < count implies (#[trigger] r.spec_residues()[l])@ == a.spec_residues()[l]@ by {
        assert(r.spec_view()[l] == a.spec_view()[l]);
    }
    assert(r.spec_residues()[0]@ == a.spec_residues()[0]@);
    assert forall|l: int| 0 <= l < r.spec_moduli().len() implies {
        &&& (#[trigger] r.spec_residues()[l]).wf()
        &&& r.spec_residues()[l].spec_degree() == r.spec_degree()
        &&& r.spec_residues()[l].spec_modulus() == r.spec_moduli()[l]
    } by {
        assert(r.spec_residues()[l]@ == a.spec_residues()[l]@);
        assert(a.spec_residues()[l].wf());
    }
}

/// Prefixes of the same length of two compatible polynomials are compatible.
pub proof fn lemma_prefix_keeps_compatible(
    a: RnsPolynomial,
    b: RnsPolynomial,
    ra: RnsPolynomial,
    rb: RnsPolynomial,
    count: nat,
)
    requires
        a.wf(),
        b.wf(),
        a.compatible(&b),
        0 < count <= a.spec_levels(),
        ra.spec_view() == a.spec_view().subrange(0, count as int),
        rb.spec_view() == b.spec_view().subrange(0, count as int),
    ensures
        ra.compatible(&rb),
{
    lemma_prefix_keeps_wf(a, ra, count);
    lemma_prefix_keeps_wf(b, rb, count);
    assert forall|l: int| 0 <= l < ra.spec_levels() implies (#[trigger] ra.spec_residues()[l]).compatible(
        &rb.spec_residues()[l],
    ) by {
        assert(a.spec_residues()[l].compatible(&b.spec_residues()[l]));
    }
}


/// A prefix of a polynomial of a given shape has the prefix of that shape.
pub proof fn lemma_prefix_shape(a: RnsPolynomial, r: RnsPolynomial, count: nat, degree: nat, moduli: Seq<u64>)
    requires
        a.has_shape(degree, moduli),
        0 < count <= moduli.len(),
        r.spec_view() == a.spec_view().subrange(0, count as int),
    ensures
        r.has_shape(degree, moduli.subrange(0, count as int)),
        r.wf(),
{
    assert(r.spec_view().len() == count);
    assert forall|l: int| 0 <= l < count implies {
        &&& (#[trigger] r.spec_residues()[l]).wf()
        &&& r.spec_residues()[l].spec_degree() == degree
        &&& r.spec_residues()[l].spec_modulus() == moduli.subrange(0, count as int)[l]
    } by {
        assert(r.spec_view()[l] == a.spec_view()[l]);
        assert(r.spec_residues()[l]@ == a.spec_residues()[l]@);
        assert(a.spec_residues()[l].wf());
    }
    assert(r.spec_residues()[0]@ == a.spec_residues()[0]@) by {
        assert(r.spec_view()[0] == a.spec_view()[0]);
    }
    assert(r.spec_moduli() =~= moduli.subrange(0, count as int)) by {
        assert forall|l: int| 0 <= l < count implies r.spec_moduli()[l] == moduli.subrange(0, count as int)[l] by {
            assert(r.spec_view()[l] == a.spec_view()[l]);
            assert(r.spec_residues()[l]@ == a.spec_residues()[l]@);
        }
    }
}

/// The first `moduli.len()` residues of `p` are well-formed, of `degree`
/// coefficients, modulo `moduli` in order; `p` may hold more residues.
pub open spec fn has_prefix_shape(p: RnsPolynomial, degree: nat, moduli: Seq<u64>) -> bool {
    &&& p.spec_levels() >= moduli.len()
    &&& forall|l: int|
        0 <= l < moduli.len() ==> {
            &&& (#[trigger] p.spec_residues()[l]).wf()
            &&& p.spec_residues()[l].spec_degree() == degree
            &&& p.spec_residues()[l].spec_modulus() == moduli[l]
        }
}

/// The first residues of a polynomial of that prefix shape have the shape.
pub proof fn lemma_prefix_of_shape(a: RnsPolynomial, r: RnsPolynomial, degree: nat, moduli: Seq<u64>)
    requires
        has_prefix_shape(a, degree, moduli),
        moduli.len() > 0,
        r.spec_view() == a.spec_view().subrange(0, moduli.len() as int),
    ensures
        r.has_shape(degree, moduli),
        r.wf(),
{
    let count = moduli.len();
    assert(r.spec_view().len() == count);
    assert forall|l: int| 0 <= l < count implies {
        &&& (#[trigger] r.spec_residues()[l]).wf()
        &&& r.spec_residues()[l].spec_degree() == degree
        &&& r.spec_residues()[l].spec_modulus() == moduli[l]
    } by {
        assert(r.spec_view()[l] == a.spec_view()[l]);
        assert(r.spec_residues()[l]@ == a.spec_residues()[l]@);
        assert(a.spec_residues()[l].wf());
    }
    assert(r.spec_residues()[0]@ == a.spec_residues()[0]@) by {
        assert(r.spec_view()[0] == a.spec_view()[0]);
    }
    assert(r.spec_moduli() =~= moduli) by {
        assert forall|l: int| 0 <= l < count implies r.spec_moduli()[l] == moduli[l] by {
            assert(r.spec_view()[l] == a.spec_view()[l]);
            assert(r.spec_residues()[l]@ == a.spec_residues()[l]@);
        }
    }
}

/// `a` and `b` hold the same residues, level and scale.
pub open spec fn same_ciphertext(a: RnsCiphertext, b: RnsCiphertext) -> bool {
    &&& a.c0.spec_view() == b.c0.spec_view()
    &&& a.c1.spec_view() == b.c1.spec_view()
    &&& a.level == b.level
    &&& a.scale_bits == b.scale_bits
}

/// `r` is the sum `a + b`, component by component, at the level and scale of `a`.
pub open spec fn is_ciphertext_sum(r: RnsCiphertext, a: RnsCiphertext, b: RnsCiphertext) -> bool {
    &&& is_sum(r.c0, a.c0, b.c0)
    &&& is_sum(r.c1, a.c1, b.c1)
    &&& r.level == a.level
    &&& r.scale_bits == a.scale_bits
}

/// `r` is `a` times the plaintext `plain`, component by component, at the
/// level of `a` and twice its scale.
pub open spec fn is_plain_product(r: RnsCiphertext, a: RnsCiphertext, plain: RnsPolynomial) -> bool {
    &&& is_product(r.c0, a.c0, plain)
    &&& is_product(r.c1, a.c1, plain)
    &&& r.level == a.level
    &&& r.scale_bits == 2 * a.scale_bits
}

} // verus!
