use octo_journey::entity::UntaggedOctopus;
use octo_journey::feature::{feature_from_index, sample_feature, IdentifyingFeature};
use octo_journey::registry::{AppState, OctopiSnapshot};

#[test]
fn index_maps_to_each_variant_exactly() {
    assert_eq!(feature_from_index(0), IdentifyingFeature::FictionReader);
    assert_eq!(feature_from_index(1), IdentifyingFeature::TopHatWearer);
    assert_eq!(feature_from_index(2), IdentifyingFeature::AngryExpression);
    assert_eq!(feature_from_index(3), IdentifyingFeature::ChainSmoker);
    assert_eq!(feature_from_index(4), IdentifyingFeature::RatherRude);
    assert_eq!(feature_from_index(5), IdentifyingFeature::GovernmentDistrust);
    assert_eq!(feature_from_index(6), IdentifyingFeature::DecentBloke);
}

#[test]
fn sampling_always_lands_on_a_variant() {
    // Exercises the random draw; the result is always one of the seven.
    for _ in 0..100 {
        let f = sample_feature();
        let all = [
            IdentifyingFeature::FictionReader,
            IdentifyingFeature::TopHatWearer,
            IdentifyingFeature::AngryExpression,
            IdentifyingFeature::ChainSmoker,
            IdentifyingFeature::RatherRude,
            IdentifyingFeature::GovernmentDistrust,
            IdentifyingFeature::DecentBloke,
        ];
        assert!(all.contains(&f));
    }
}

#[test]
fn new_octopus_carries_a_sampled_feature() {
    let octopus = UntaggedOctopus::new();
    let same = UntaggedOctopus::with_feature(octopus.identifying_feature);
    assert_eq!(octopus, same);
}

#[test]
fn snapshot_bundles_the_given_mappings() {
    let mut state = AppState::new();
    assert!(state.capture_with(10, 3, IdentifyingFeature::ChainSmoker).is_some());
    let snap = state.snapshot();
    let rebuilt = OctopiSnapshot::new(snap.untagged_octopi.clone(), snap.tagged_octopi.clone());
    assert_eq!(rebuilt.untagged_octopi, snap.untagged_octopi);
    assert_eq!(rebuilt.tagged_octopi, snap.tagged_octopi);
}
