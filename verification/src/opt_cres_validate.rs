//! Consistency of the lepton and photon definitions on the command line.
use vstd::prelude::*;

verus! {

/// Why a set of options is inconsistent.
#[derive(Copy, Clone, Debug, Eq, PartialEq, Structural, Hash)]
pub enum ValidationError {
    BadLeptonOpt,
    BadPhotonOpt,
}

impl ValidationError {
    /// The error message.
    pub fn message(&self) -> (r: &'static str)
        ensures
            r@ == match self {
                ValidationError::BadLeptonOpt =>
                    "Either all or none of --leptonalgorithm, --leptonradius, --leptonpt have to be set"@,
                ValidationError::BadPhotonOpt =>
                    "Either all or none of --photonefrac, --photonradius, --photonpt have to be set"@,
            },
    {
        match self {
            ValidationError::BadLeptonOpt =>
                "Either all or none of --leptonalgorithm, --leptonradius, --leptonpt have to be set",
            ValidationError::BadPhotonOpt =>
                "Either all or none of --photonefrac, --photonradius, --photonpt have to be set",
        }
    }
}

/// Which parts of a particle definition were given on the command line.
#[derive(Copy, Clone, Debug, Eq, PartialEq, Structural)]
pub struct DefinitionGiven {
    pub first: bool,
    pub second: bool,
    pub third: bool,
}

/// Whether all or none of the parts were given.
pub open spec fn all_or_none(d: DefinitionGiven) -> bool {
    (d.first && d.second && d.third) || (!d.first && !d.second && !d.third)
}

/// Check that the lepton definition (algorithm, transverse momentum,
/// radius) and the photon definition (energy fraction, radius, transverse
/// momentum) are each given completely or not at all; the lepton definition
/// is checked first.
pub fn validate(lepton: DefinitionGiven, photon: DefinitionGiven) -> (r: Result<(), ValidationError>)
    ensures
        r == if !all_or_none(lepton) {
            Err::<(), ValidationError>(ValidationError::BadLeptonOpt)
        } else if !all_or_none(photon) {
            Err(ValidationError::BadPhotonOpt)
        } else {
            Ok(())
        },
{
    if !((lepton.first && lepton.second && lepton.third) || (!lepton.first && !lepton.second
        && !lepton.third)) {
        return Err(ValidationError::BadLeptonOpt);
    }
    if !((photon.first && photon.second && photon.third) || (!photon.first && !photon.second
        && !photon.third)) {
        return Err(ValidationError::BadPhotonOpt);
    }
    Ok(())
}

} // verus!
