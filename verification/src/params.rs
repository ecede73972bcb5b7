//! Parameter sets and global constants.
//!
//! ML-KEM is defined for three security levels; each fixes the module rank K
//! and the noise / compression widths.  The ring degree N, the prime modulus
//! Q and the primitive 256th root of unity ZETA are shared by all three.

use vstd::prelude::*;

verus! {

/// Number of coefficients in a ring element.
pub const N: usize = 256;
/// The prime modulus.
pub const Q: u16 = 3329;
/// The modulus, widened for intermediate arithmetic.
pub const Q32: u32 = 3329;
/// The modulus, widened for the products inside pointwise multiplication.
pub const Q64: u64 = 3329;
/// Primitive 256th root of unity modulo `Q`.
pub const ZETA: u16 = 17;

/// The numeric parameters that select one ML-KEM instance: the module rank
/// `k`, the two centered-binomial widths `eta_1` and `eta_2`, and the two
/// ciphertext compression widths `d_u` and `d_v`.
#[derive(Clone, Copy, Debug)]
pub struct ParamSet {
    pub k: usize,
    pub eta_1: usize,
    pub eta_2: usize,
    pub d_u: usize,
    pub d_v: usize,
}

impl ParamSet {
    /// The parameter set is one of the three standardized instances.
    pub open spec fn wf(self) -> bool {
        self == (ParamSet { k: 2, eta_1: 3, eta_2: 2, d_u: 10, d_v: 4 })
        || self == (ParamSet { k: 3, eta_1: 2, eta_2: 2, d_u: 10, d_v: 4 })
        || self == (ParamSet { k: 4, eta_1: 2, eta_2: 2, d_u: 11, d_v: 5 })
    }
}

/// Makes a function generic over the three parameter sets: each implementor
/// names one standardized instance.
pub trait MlKemParams {
    /// The instance this marker type stands for.
    spec fn spec_params() -> ParamSet;

    /// Returns the instance's parameters.
    fn params() -> (p: ParamSet)
        ensures
            p == Self::spec_params(),
            p.wf(),
    ;
}

pub struct MlKem512;

impl MlKemParams for MlKem512 {
    open spec fn spec_params() -> ParamSet {
        ParamSet { k: 2, eta_1: 3, eta_2: 2, d_u: 10, d_v: 4 }
    }

    fn params() -> (p: ParamSet) {
        ParamSet { k: 2, eta_1: 3, eta_2: 2, d_u: 10, d_v: 4 }
    }
}

pub struct MlKem768;

impl MlKemParams for MlKem768 {
    open spec fn spec_params() -> ParamSet {
        ParamSet { k: 3, eta_1: 2, eta_2: 2, d_u: 10, d_v: 4 }
    }

    fn params() -> (p: ParamSet) {
        ParamSet { k: 3, eta_1: 2, eta_2: 2, d_u: 10, d_v: 4 }
    }
}

pub struct MlKem1024;

impl MlKemParams for MlKem1024 {
    open spec fn spec_params() -> ParamSet {
        ParamSet { k: 4, eta_1: 2, eta_2: 2, d_u: 11, d_v: 5 }
    }

    fn params() -> (p: ParamSet) {
        ParamSet { k: 4, eta_1: 2, eta_2: 2, d_u: 11, d_v: 5 }
    }
}

/// The recoverable and fatal failures of the scheme: a ring operation on
/// mismatched domains, a byte string of the wrong length handed to
/// deserialization, and an unrecognized parameter-set selector.
#[derive(Clone, Copy, PartialEq, Eq, Structural, Debug)]
pub enum MlKemError {
    InvalidRepresentation,
    MalformedInput,
    ParameterSet,
}

impl ParamSet {
    /// Looks a parameter set up by its standard security-level number.
    /// Returns the instance for 512, 768 or 1024 and rejects every other
    /// selector.
    pub fn from_id(id: usize) -> (r: Result<ParamSet, MlKemError>)
        ensures
            id == 512 ==> r == Ok::<ParamSet, MlKemError>(MlKem512::spec_params()),
            id == 768 ==> r == Ok::<ParamSet, MlKemError>(MlKem768::spec_params()),
            id == 1024 ==> r == Ok::<ParamSet, MlKemError>(MlKem1024::spec_params()),
            id != 512 && id != 768 && id != 1024 ==> r == Err::<ParamSet, MlKemError>(
                MlKemError::ParameterSet,
            ),
    {
        if id == 512 {
            Ok(MlKem512::params())
        } else if id == 768 {
            Ok(MlKem768::params())
        } else if id == 1024 {
            Ok(MlKem1024::params())
        } else {
            Err(MlKemError::ParameterSet)
        }
    }
}

} // verus!
