//! The closed set of features an octopus can be recognised by, and the
//! uniform sampling of one of them.

use vstd::prelude::*;

verus! {

/// Every octopus carries exactly one of these seven features, chosen at
/// capture time and preserved unchanged through tagging.
#[derive(Clone, Copy, Debug, PartialEq, Eq, Structural)]
pub enum IdentifyingFeature {
    FictionReader,
    TopHatWearer,
    AngryExpression,
    ChainSmoker,
    RatherRude,
    GovernmentDistrust,
    DecentBloke,
}

/// The feature that a uniform draw of `i` out of the seven possibilities
/// stands for.
pub open spec fn spec_feature(i: int) -> IdentifyingFeature {
    if i == 0 {
        IdentifyingFeature::FictionReader
    } else if i == 1 {
        IdentifyingFeature::TopHatWearer
    } else if i == 2 {
        IdentifyingFeature::AngryExpression
    } else if i == 3 {
        IdentifyingFeature::ChainSmoker
    } else if i == 4 {
        IdentifyingFeature::RatherRude
    } else if i == 5 {
        IdentifyingFeature::GovernmentDistrust
    } else {
        IdentifyingFeature::DecentBloke
    }
}

/// The feature a draw of `i` stands for, as executable code.
pub fn feature_from_index(i: u64) -> (f: IdentifyingFeature)
    requires
        i < 7,
    ensures
        f == spec_feature(i as int),
{
    if i == 0 {
        IdentifyingFeature::FictionReader
    } else if i == 1 {
        IdentifyingFeature::TopHatWearer
    } else if i == 2 {
        IdentifyingFeature::AngryExpression
    } else if i == 3 {
        IdentifyingFeature::ChainSmoker
    } else if i == 4 {
        IdentifyingFeature::RatherRude
    } else if i == 5 {
        IdentifyingFeature::GovernmentDistrust
    } else {
        IdentifyingFeature::DecentBloke
    }
}

/// Relies on rand's `Rng::gen_range`: a uniform draw from `0..n`, which is
/// always strictly below `n`; it panics only on an empty range, which
/// `0 < n` rules out.
#[verifier::external_body]
fn random_below(n: u64) -> (r: u64)
    requires
        0 < n,
    ensures
        r < n,
{
    rand::Rng::gen_range(&mut rand::thread_rng(), 0..n)
}

/// Draw one of the seven features uniformly at random.
pub fn sample_feature() -> (f: IdentifyingFeature)
    ensures
        exists|i: int| 0 <= i < 7 && f == spec_feature(i),
{
    let i = random_below(7);
    feature_from_index(i)
}

} // verus!
