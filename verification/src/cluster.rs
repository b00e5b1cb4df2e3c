//! Settings and particle classes of the clustering into jets, dressed
//! leptons and isolated photons.
use vstd::prelude::*;

use crate::text::{concat_str, str_eq};

verus! {

/// Internal particle ID for jets
pub const PID_JET: i32 = 81;

/// Internal particle ID for dressed leptons
pub const PID_DRESSED_LEPTON: i32 = 82;

/// Internal particle ID for isolated photons
pub const PID_ISOLATED_PHOTON: i32 = 83;

/// Jet clustering algorithms
#[derive(Debug, Copy, Clone, PartialEq, Eq, Structural)]
pub enum JetAlgorithm {
    /// The anti-kt algorithm
    AntiKt,
    /// The Cambridge/Aachen algorithm
    CambridgeAachen,
    /// The kt algorithm
    Kt,
}

/// A jet algorithm that is not known.
#[derive(Debug, Clone)]
pub struct UnknownJetAlgorithm(String);

impl UnknownJetAlgorithm {
    /// The setting that was not recognised.
    pub closed spec fn setting(&self) -> Seq<char> {
        self.0@
    }

    /// The error message.
    pub fn message(&self) -> (r: String)
        ensures
            r@ == "Unknown jet algorithm: "@ + self.setting(),
    {
        concat_str("Unknown jet algorithm: ", self.0.as_str())
    }
}

/// The jet algorithm a setting names.
pub open spec fn spec_jet_algorithm(s: Seq<char>) -> Option<JetAlgorithm> {
    if s == "anti_kt"@ || s == "antikt"@ || s == "anti-kt"@ {
        Some(JetAlgorithm::AntiKt)
    } else if s == "kt"@ {
        Some(JetAlgorithm::Kt)
    } else if s == "Cambridge/Aachen"@ || s == "Cambridge-Aachen"@ || s == "Cambridge_Aachen"@
        || s == "cambridge/aachen"@ || s == "cambridge-aachen"@ || s == "cambridge_aachen"@ {
        Some(JetAlgorithm::CambridgeAachen)
    } else {
        None
    }
}

impl JetAlgorithm {
    /// Read a jet algorithm.
    pub fn from_str(s: &str) -> (r: Result<Self, UnknownJetAlgorithm>)
        ensures
            match spec_jet_algorithm(s@) {
                Some(a) => r == Ok::<JetAlgorithm, UnknownJetAlgorithm>(a),
                None => r matches Err(e) && e.setting() == s@,
            },
    {
        if str_eq(s, "anti_kt") || str_eq(s, "antikt") || str_eq(s, "anti-kt") {
            Ok(JetAlgorithm::AntiKt)
        } else if str_eq(s, "kt") {
            Ok(JetAlgorithm::Kt)
        } else if str_eq(s, "Cambridge/Aachen") || str_eq(s, "Cambridge-Aachen") || str_eq(
            s,
            "Cambridge_Aachen",
        ) || str_eq(s, "cambridge/aachen") || str_eq(s, "cambridge-aachen") || str_eq(
            s,
            "cambridge_aachen",
        ) {
            Ok(JetAlgorithm::CambridgeAachen)
        } else {
            Err(UnknownJetAlgorithm(s.to_owned()))
        }
    }
}

/// How to reconstruct W bosons
#[derive(Debug, Copy, Clone, PartialEq, Eq, Structural)]
pub enum WReconstruction {
    /// Don't reconstruct W bosons
    NoReconstruction,
    /// Reconstruct W bosons if the reconstructed (invariant) mass matches
    ByMass,
    /// Reconstruct W bosons if the reconstructed transverse mass matches
    ByTransverseMass,
}

impl Default for WReconstruction {
    fn default() -> (r: Self)
        ensures
            r == WReconstruction::NoReconstruction,
    {
        WReconstruction::NoReconstruction
    }
}

/// The id of the particle, or of its antiparticle if that is positive.
pub open spec fn abs_id(id: i32) -> int {
    if id < 0 {
        -id
    } else {
        id as int
    }
}

/// Whether the particle with this id is a quark up to bottom, an
/// antiquark, or a gluon.
pub fn is_parton(id: i32) -> (r: bool)
    requires
        id != i32::MIN,
    ensures
        r == (abs_id(id) <= 5 || id == 21),
{
    let a = if id < 0 {
        -id
    } else {
        id
    };
    a <= 5 || id == 21
}

/// Whether the id belongs to a hadron of the table `particle_id` keeps.
pub uninterp spec fn in_hadron_table(id: i32) -> bool;

/// Calls `<[ParticleID]>::contains` on `particle_id::hadrons::HADRONS`.
#[verifier::external_body]
fn hadron_table_contains(id: i32) -> (r: bool)
    ensures
        r == in_hadron_table(id),
{
    particle_id::hadrons::HADRONS.contains(&particle_id::ParticleID::new(id))
}

/// Whether the particle with this id, or its antiparticle, is a hadron.
pub fn is_hadron(id: i32) -> (r: bool)
    requires
        id != i32::MIN,
    ensures
        r == in_hadron_table(abs_id(id) as i32),
{
    let a = if id < 0 {
        -id
    } else {
        id
    };
    hadron_table_contains(a)
}

/// Whether the particle is an electron or a muon.
pub fn is_light_lepton(id: i32) -> (r: bool)
    ensures
        r == (id == 11 || id == 13),
{
    id == 11 || id == 13
}

/// Whether the particle is a photon.
pub fn is_photon(id: i32) -> (r: bool)
    ensures
        r == (id == 22),
{
    id == 22
}

/// Whether the particle is a muon.
pub fn is_muon(id: i32) -> (r: bool)
    ensures
        r == (id == 13),
{
    id == 13
}


/// Whether `particle_id` counts the particle as a neutrino: it counts the
/// ids from the electron's (11) to that of the fourth-generation neutrino
/// (18) as leptons, and the even ones among them as neutrinos.
pub open spec fn spec_is_neutrino(id: int) -> bool {
    11 <= id <= 18 && id % 2 == 0
}

/// Whether the particle is a neutrino (not an antineutrino).
pub fn is_neutrino(id: i32) -> (r: bool)
    ensures
        r == spec_is_neutrino(id as int),
{
    11 <= id && id <= 18 && id % 2 == 0
}

/// Whether `particle_id` counts the particle as a charged lepton (not an
/// antilepton): the odd ids among the leptons, from the electron's (11) up
/// to 18.
pub open spec fn spec_is_charged_lepton(id: int) -> bool {
    11 <= id <= 18 && id % 2 == 1
}

/// Whether the particle is a charged lepton (not an antilepton).
pub fn is_charged_lepton(id: i32) -> (r: bool)
    ensures
        r == spec_is_charged_lepton(id as int),
{
    11 <= id && id <= 18 && id % 2 == 1
}

/// Whether the clustering puts a particle into dressed leptons: when
/// leptons are clustered at all, electrons, muons, their antiparticles and
/// photons.
pub fn is_clustered_to_lepton(lepton_clustering: bool, id: i32) -> (r: bool)
    requires
        id != i32::MIN,
    ensures
        r == (lepton_clustering && (abs_id(id) == 11 || abs_id(id) == 13 || id == 22)),
{
    let a = if id < 0 {
        -id
    } else {
        id
    };
    lepton_clustering && (is_light_lepton(a) || is_photon(id))
}

/// Where the clustering puts an outgoing particle.
#[derive(Debug, Copy, Clone, PartialEq, Eq, Structural)]
pub enum Route {
    /// An isolated photon, kept as such
    IsolatedPhoton,
    /// Into the jets
    Jets,
    /// Into the dressed leptons
    DressedLeptons,
    /// Kept as it is (a photon that is not isolated, with no lepton clustering)
    Photon,
    /// Kept with its transverse momentum only, if enough of it is missing
    TransverseMomentum,
    /// Left out
    Dropped,
}

/// Where the clustering puts a particle with this id; `isolated` says for a
/// photon whether it is isolated.
pub open spec fn spec_route(id: i32, isolated: bool, lepton_clustering: bool, include_neutrinos: bool) -> Route {
    if id == 22 {
        if isolated {
            Route::IsolatedPhoton
        } else if lepton_clustering {
            Route::DressedLeptons
        } else {
            Route::Photon
        }
    } else if abs_id(id) <= 5 || id == 21 || in_hadron_table(abs_id(id) as i32) {
        Route::Jets
    } else if lepton_clustering && (abs_id(id) == 11 || abs_id(id) == 13) {
        Route::DressedLeptons
    } else if include_neutrinos || !spec_is_neutrino(abs_id(id)) {
        Route::TransverseMomentum
    } else {
        Route::Dropped
    }
}

/// Where the clustering puts an outgoing particle: photons become isolated
/// photons, go to dressed leptons or stay; partons and hadrons go to jets;
/// electrons and muons to dressed leptons where leptons are clustered;
/// other particles keep their transverse momentum, but for neutrinos, which
/// are left out unless they are included.
pub fn route(id: i32, isolated: bool, lepton_clustering: bool, include_neutrinos: bool) -> (r: Route)
    requires
        id != i32::MIN,
    ensures
        r == spec_route(id, isolated, lepton_clustering, include_neutrinos),
{
    let a = if id < 0 {
        -id
    } else {
        id
    };
    if is_photon(id) {
        if isolated {
            Route::IsolatedPhoton
        } else if lepton_clustering {
            Route::DressedLeptons
        } else {
            Route::Photon
        }
    } else if is_parton(id) || is_hadron(a) {
        Route::Jets
    } else if is_clustered_to_lepton(lepton_clustering, id) {
        Route::DressedLeptons
    } else if include_neutrinos || !is_neutrino(a) {
        Route::TransverseMomentum
    } else {
        Route::Dropped
    }
}

/// A particle and its antiparticle are routed alike: the route depends on
/// the id only through its absolute value, but for the photon and the
/// gluon, which are their own antiparticles and are told by their ids.
pub proof fn law_route_charge_blind(id: i32, isolated: bool, lepton_clustering: bool, include_neutrinos: bool)
    requires
        id != i32::MIN,
        id != 22 && id != -22,
        id != 21 && id != -21,
    ensures
        spec_route(id, isolated, lepton_clustering, include_neutrinos) == spec_route(
            (-id) as i32,
            isolated,
            lepton_clustering,
            include_neutrinos,
        ),
{
    assert(abs_id((-id) as i32) == abs_id(id));
}

/// A particle that is neither a photon nor goes to the jets (a parton or a
/// hadron) goes to the dressed leptons exactly when leptons are clustered
/// and it is an electron, a muon or one of their antiparticles; a photon
/// goes there exactly when it is not isolated and leptons are clustered.
pub proof fn law_route_dressed_leptons(id: i32, isolated: bool, lepton_clustering: bool, include_neutrinos: bool)
    requires
        id != i32::MIN,
    ensures
        id != 22 && spec_route(id, isolated, lepton_clustering, include_neutrinos) != Route::Jets ==> (
        spec_route(id, isolated, lepton_clustering, include_neutrinos) == Route::DressedLeptons <==> (
        lepton_clustering && (id == 11 || id == -11 || id == 13 || id == -13))),
        id == 22 ==> (spec_route(id, isolated, lepton_clustering, include_neutrinos) == Route::DressedLeptons
            <==> (!isolated && lepton_clustering)),
        (id == 11 || id == -11 || id == 13 || id == -13) && lepton_clustering ==> (spec_route(
            id,
            isolated,
            lepton_clustering,
            include_neutrinos,
        ) == Route::DressedLeptons || (spec_route(id, isolated, lepton_clustering, include_neutrinos)
            == Route::Jets && in_hadron_table(abs_id(id) as i32))),
{
}

/// The ids of the W boson that decayed into the charged lepton `lepton` and
/// of the neutrino that came with it: a W+ and a neutrino for an
/// antilepton, a W- and an antineutrino for a lepton.
pub fn w_decay_ids(lepton: i32) -> (r: (i32, i32))
    requires
        lepton != i32::MIN,
        lepton != -i32::MAX,
    ensures
        r == (if lepton < 0 {
            (24i32, (abs_id(lepton) + 1) as i32)
        } else {
            (-24i32, (-abs_id(lepton) - 1) as i32)
        }),
{
    let a = if lepton < 0 {
        -lepton
    } else {
        lepton
    };
    let w = if lepton < 0 {
        24
    } else {
        -24
    };
    let mut nu = -a - 1;
    if lepton < 0 {
        nu = -nu;
    }
    (w, nu)
}

} // verus!
