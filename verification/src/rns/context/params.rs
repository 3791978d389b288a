//! Parameter presets and their validation.

use vstd::prelude::*;

use crate::math::text::decimal;

use super::super::basis::{default_rns_primes, is_rns_basis_error, rns_basis_ok, RnsContext, RnsPrime};
use super::construction::{concat_primes, copy_primes};
use super::{params_ok, RnsCkksParams};

verus! {

/// The message for an auxiliary modulus repeated in the ciphertext chain.
pub open spec fn repeated_aux_text(modulus: nat) -> Seq<char> {
    "auxiliary eval-key modulus "@ + decimal(modulus) + " must be distinct from the ciphertext modulus chain"@
}

/// Auxiliary prime `i` is the first to repeat a ciphertext modulus.
pub open spec fn is_first_repeated_aux(p: RnsCkksParams, i: int) -> bool {
    &&& 0 <= i < p.aux_primes@.len()
    &&& forall|a: int, j: int|
        0 <= a < i && 0 <= j < p.primes@.len() ==> (#[trigger] p.aux_primes@[a]).modulus != (
        #[trigger] p.primes@[j]).modulus
    &&& exists|j: int| 0 <= j < p.primes@.len() && (#[trigger] p.primes@[j]).modulus == p.aux_primes@[i].modulus
}

/// The message of `validate` on invalid parameters: the first failing check,
/// in the order `validate` makes them.
pub open spec fn is_params_error(e: Seq<char>, p: RnsCkksParams) -> bool {
    if p.scale_bits == 0 {
        e == "scale_bits must be greater than zero"@
    } else if p.scale_bits >= 60 {
        e == "scale_bits must stay below 60 bits per rescale step in this RNS scaffold"@
    } else if !(forall|i: int, j: int|
        0 <= i < p.aux_primes@.len() && 0 <= j < p.primes@.len() ==> (#[trigger] p.aux_primes@[i]).modulus != (
        #[trigger] p.primes@[j]).modulus) {
        exists|i: int| #[trigger] is_first_repeated_aux(p, i) && e == repeated_aux_text(p.aux_primes@[i].modulus as nat)
    } else if !rns_basis_ok(p.poly_degree as nat, p.primes@) {
        is_rns_basis_error(e, p.poly_degree as nat, p.primes@)
    } else if !rns_basis_ok(p.poly_degree as nat, p.aux_primes@) {
        is_rns_basis_error(e, p.poly_degree as nat, p.aux_primes@)
    } else {
        is_rns_basis_error(e, p.poly_degree as nat, p.primes@ + p.aux_primes@)
    }
}

/// `format!` of an auxiliary modulus repeated in the ciphertext chain.
#[verifier::external_body]
fn describe_repeated_aux(modulus: u64) -> (r: String)
    ensures
        r@ == repeated_aux_text(modulus as nat),
{
    format!("auxiliary eval-key modulus {modulus} must be distinct from the ciphertext modulus chain")
}

impl RnsCkksParams {
    /// Degree 8 over the default primes, 30-bit scale.
    pub fn toy() -> (r: Self)
        ensures
            r.poly_degree == 8,
            r.primes@ == default_rns_primes_spec(),
            r.aux_primes@.len() == 0,
            r.scale_bits == 30,
    {
        Self { poly_degree: 8, primes: default_rns_primes(), aux_primes: Vec::new(), scale_bits: 30 }
    }

    /// Degree 1024 over the default primes, 40-bit scale.
    pub fn small() -> (r: Self)
        ensures
            r.poly_degree == 1024,
            r.primes@ == default_rns_primes_spec(),
            r.aux_primes@.len() == 0,
            r.scale_bits == 40,
    {
        Self { poly_degree: 1024, primes: default_rns_primes(), aux_primes: Vec::new(), scale_bits: 40 }
    }

    /// Degree `2^15`, eight 50-bit ciphertext primes and two 49-bit auxiliary
    /// primes, 45-bit scale.
    pub fn realistic_8_level() -> (r: Self)
        ensures
            r.poly_degree == 32768,
            r.primes@ == seq![
                RnsPrime { modulus: 1_125_899_908_022_273, primitive_root: 3 },
                RnsPrime { modulus: 1_125_899_908_612_097, primitive_root: 3 },
                RnsPrime { modulus: 1_125_899_909_398_529, primitive_root: 3 },
                RnsPrime { modulus: 1_125_899_910_316_033, primitive_root: 5 },
                RnsPrime { modulus: 1_125_899_911_168_001, primitive_root: 3 },
                RnsPrime { modulus: 1_125_899_911_364_609, primitive_root: 3 },
                RnsPrime { modulus: 1_125_899_913_527_297, primitive_root: 3 },
                RnsPrime { modulus: 1_125_899_914_510_337, primitive_root: 3 },
            ],
            r.aux_primes@ == seq![
                RnsPrime { modulus: 562_949_954_142_209, primitive_root: 3 },
                RnsPrime { modulus: 562_949_955_125_249, primitive_root: 3 },
            ],
            r.scale_bits == 45,
    {
        let mut primes: Vec<RnsPrime> = Vec::new();
        primes.push(RnsPrime::new(1_125_899_908_022_273, 3));
        primes.push(RnsPrime::new(1_125_899_908_612_097, 3));
        primes.push(RnsPrime::new(1_125_899_909_398_529, 3));
        primes.push(RnsPrime::new(1_125_899_910_316_033, 5));
        primes.push(RnsPrime::new(1_125_899_911_168_001, 3));
        primes.push(RnsPrime::new(1_125_899_911_364_609, 3));
        primes.push(RnsPrime::new(1_125_899_913_527_297, 3));
        primes.push(RnsPrime::new(1_125_899_914_510_337, 3));
        let mut aux_primes: Vec<RnsPrime> = Vec::new();
        aux_primes.push(RnsPrime::new(562_949_954_142_209, 3));
        aux_primes.push(RnsPrime::new(562_949_955_125_249, 3));
        let poly_degree: usize = 1 << 15;
        assert(poly_degree == 32768) by (bit_vector)
            requires
                poly_degree == 1usize << 15,
        ;
        let r = Self { poly_degree, primes, aux_primes, scale_bits: 45 };
        proof {
            assert(r.primes@ =~= seq![
                RnsPrime { modulus: 1_125_899_908_022_273, primitive_root: 3 },
                RnsPrime { modulus: 1_125_899_908_612_097, primitive_root: 3 },
                RnsPrime { modulus: 1_125_899_909_398_529, primitive_root: 3 },
                RnsPrime { modulus: 1_125_899_910_316_033, primitive_root: 5 },
                RnsPrime { modulus: 1_125_899_911_168_001, primitive_root: 3 },
                RnsPrime { modulus: 1_125_899_911_364_609, primitive_root: 3 },
                RnsPrime { modulus: 1_125_899_913_527_297, primitive_root: 3 },
                RnsPrime { modulus: 1_125_899_914_510_337, primitive_root: 3 },
            ]);
            assert(r.aux_primes@ =~= seq![
                RnsPrime { modulus: 562_949_954_142_209, primitive_root: 3 },
                RnsPrime { modulus: 562_949_955_125_249, primitive_root: 3 },
            ]);
        }
        r
    }

    /// Check the scale, the distinctness of the auxiliary moduli, and that
    /// every basis the parameters define is valid.
    pub fn validate(&self) -> (r: Result<(), String>)
        ensures
            r is Ok <==> params_ok(*self),
            r matches Err(e) ==> is_params_error(e@, *self),
    {
        if self.scale_bits == 0 {
            return Err("scale_bits must be greater than zero".to_string());
        }
        if self.scale_bits >= 60 {
            return Err("scale_bits must stay below 60 bits per rescale step in this RNS scaffold".to_string());
        }
        let mut i: usize = 0;
        while i < self.aux_primes.len()
            invariant
                0 < self.scale_bits < 60,
                i <= self.aux_primes@.len(),
                forall|a: int, j: int|
                    0 <= a < i && 0 <= j < self.primes@.len() ==> (#[trigger] self.aux_primes@[a]).modulus
                        != (#[trigger] self.primes@[j]).modulus,
            decreases self.aux_primes@.len() - i,
        {
            let aux_modulus = self.aux_primes[i].modulus;
            let mut j: usize = 0;
            while j < self.primes.len()
                invariant
                    0 < self.scale_bits < 60,
                    forall|a: int, k: int|
                        0 <= a < i && 0 <= k < self.primes@.len() ==> (#[trigger] self.aux_primes@[a]).modulus
                            != (#[trigger] self.primes@[k]).modulus,
                    i < self.aux_primes@.len(),
                    aux_modulus == self.aux_primes@[i as int].modulus,
                    j <= self.primes@.len(),
                    forall|k: int| 0 <= k < j ==> (#[trigger] self.primes@[k]).modulus != aux_modulus,
                decreases self.primes@.len() - j,
            {
                if self.primes[j].modulus == aux_modulus {
                    proof {
                        assert(self.primes@[j as int].modulus == self.aux_primes@[i as int].modulus);
                        assert(is_first_repeated_aux(*self, i as int));
                    }
                    return Err(describe_repeated_aux(aux_modulus));
                }
                j += 1;
            }
            i += 1;
        }
        match RnsContext::new(self.poly_degree, copy_primes(self.primes.as_slice())) {
            Ok(_) => {},
            Err(e) => {
                return Err(e);
            },
        }
        if self.aux_primes.len() > 0 {
            match RnsContext::new(self.poly_degree, copy_primes(self.aux_primes.as_slice())) {
                Ok(_) => {},
                Err(e) => {
                    return Err(e);
                },
            }
            let extended = concat_primes(self.primes.as_slice(), self.aux_primes.as_slice());
            match RnsContext::new(self.poly_degree, extended) {
                Ok(_) => {},
                Err(e) => {
                    return Err(e);
                },
            }
        }
        Ok(())
    }
}

/// The primes of the small presets.
pub open spec fn default_rns_primes_spec() -> Seq<RnsPrime> {
    seq![
        RnsPrime { modulus: 998_244_353, primitive_root: 3 },
        RnsPrime { modulus: 1_004_535_809, primitive_root: 3 },
        RnsPrime { modulus: 469_762_049, primitive_root: 3 },
        RnsPrime { modulus: 754_974_721, primitive_root: 11 },
        RnsPrime { modulus: 167_772_161, primitive_root: 3 },
        RnsPrime { modulus: 1_224_736_769, primitive_root: 3 },
    ]
}

} // verus!
