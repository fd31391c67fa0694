use octo_journey::feature::IdentifyingFeature;
use octo_journey::naming::NamingSequencer;
use octo_journey::registry::AppState;

#[test]
fn capture_low_roll_creates_one_untagged() {
    let mut state = AppState::new();
    let found = state.capture(10);
    assert!(found.is_some());
    let (id, octopus) = found.unwrap();
    let snap = state.snapshot();
    assert_eq!(snap.untagged_octopi.len(), 1);
    assert_eq!(snap.tagged_octopi.len(), 0);
    assert_eq!(snap.untagged_octopi[0].0, id);
    assert_eq!(snap.untagged_octopi[0].1, octopus);
}

#[test]
fn capture_high_roll_changes_nothing() {
    let mut state = AppState::new();
    let before = state.snapshot();
    let found = state.capture(90);
    assert!(found.is_none());
    let after = state.snapshot();
    assert_eq!(before.untagged_octopi, after.untagged_octopi);
    assert_eq!(before.tagged_octopi, after.tagged_octopi);
    assert!(after.untagged_octopi.is_empty());
    assert!(after.tagged_octopi.is_empty());
}

#[test]
fn capture_boundary_rolls() {
    let mut state = AppState::new();
    assert!(state.capture(50).is_some());
    assert!(state.capture(51).is_none());
    assert!(state.capture(1).is_some());
    assert!(state.capture(99).is_none());
    assert_eq!(state.snapshot().untagged_octopi.len(), 2);
}

#[test]
fn captured_identifiers_are_distinct() {
    let mut state = AppState::new();
    let (id1, _) = state.capture(10).unwrap();
    let (id2, _) = state.capture(10).unwrap();
    assert_ne!(id1, id2);
    assert!(state.contains_id(id1));
    assert!(state.contains_id(id2));
}

#[test]
fn capture_with_is_deterministic() {
    let mut state = AppState::new();
    let r = state.capture_with(10, 7, IdentifyingFeature::TopHatWearer);
    assert_eq!(r, Some((7, octo_journey::entity::UntaggedOctopus::with_feature(
        IdentifyingFeature::TopHatWearer,
    ))));
    let r2 = state.capture_with(90, 8, IdentifyingFeature::TopHatWearer);
    assert_eq!(r2, None);
}

#[test]
fn capture_with_colliding_identifier_is_refused() {
    let mut state = AppState::new();
    assert!(state.capture_with(10, 7, IdentifyingFeature::RatherRude).is_some());
    let before = state.snapshot();
    assert!(state.capture_with(10, 7, IdentifyingFeature::DecentBloke).is_none());
    let after = state.snapshot();
    assert_eq!(before.untagged_octopi, after.untagged_octopi);
    assert_eq!(after.untagged_octopi.len(), 1);
}

#[test]
fn snapshot_is_idempotent() {
    let mut state = AppState::new();
    let mut seq = NamingSequencer::new();
    assert!(state.capture(10).is_some());
    assert!(state.capture(20).is_some());
    state.tag_all(&mut seq);
    assert!(state.capture(30).is_some());
    let s1 = state.snapshot();
    let s2 = state.snapshot();
    assert_eq!(s1.untagged_octopi, s2.untagged_octopi);
    assert_eq!(s1.tagged_octopi, s2.tagged_octopi);
}

#[test]
fn tag_all_on_empty_registry_is_a_no_op() {
    let mut state = AppState::new();
    let mut seq = NamingSequencer::new();
    let batch = state.tag_all(&mut seq);
    assert!(batch.is_empty());
    assert_eq!(seq.count(), 0);
    let snap = state.snapshot();
    assert!(snap.untagged_octopi.is_empty());
    assert!(snap.tagged_octopi.is_empty());
}

#[test]
fn tag_all_twice_second_call_is_a_no_op() {
    let mut state = AppState::new();
    let mut seq = NamingSequencer::new();
    assert!(state.capture(10).is_some());
    let first = state.tag_all(&mut seq);
    assert_eq!(first.len(), 1);
    assert_eq!(seq.count(), 1);
    let before = state.snapshot();
    let second = state.tag_all(&mut seq);
    assert!(second.is_empty());
    assert_eq!(seq.count(), 1);
    let after = state.snapshot();
    assert_eq!(before.untagged_octopi, after.untagged_octopi);
    assert_eq!(before.tagged_octopi, after.tagged_octopi);
}

#[test]
fn tag_all_moves_three_captures_with_sequential_names() {
    let mut state = AppState::new();
    let mut seq = NamingSequencer::new();
    let (id_a, _) = state.capture(10).unwrap();
    let (id_b, _) = state.capture(10).unwrap();
    let (id_c, _) = state.capture(10).unwrap();

    let batch = state.tag_all(&mut seq);
    assert_eq!(batch.len(), 3);
    assert_eq!(batch[0].0, id_a);
    assert_eq!(batch[1].0, id_b);
    assert_eq!(batch[2].0, id_c);
    assert_eq!(batch[0].1.name, "Original Barry");
    assert_eq!(batch[1].1.name, "Barry 1");
    assert_eq!(batch[2].1.name, "Barry 2");

    let snap = state.snapshot();
    assert!(snap.untagged_octopi.is_empty());
    assert_eq!(snap.tagged_octopi.len(), 3);
    let mut tagged_ids: Vec<u128> = snap.tagged_octopi.iter().map(|p| p.0).collect();
    let mut expected = vec![id_a, id_b, id_c];
    tagged_ids.sort();
    expected.sort();
    assert_eq!(tagged_ids, expected);
}

#[test]
fn capture_during_tagging_window_stays_untagged() {
    let mut state = AppState::new();
    let mut seq = NamingSequencer::new();
    let (id_a, _) = state.capture(10).unwrap();

    // The batch is prepared from a read of the untagged mapping …
    let batch = state.prepare_tag_batch(&mut seq);
    // … a concurrent capture slips in before the batch commits …
    let (id_b, _) = state.capture(10).unwrap();
    // … and the commit must tag only what the batch observed.
    state.commit_tag_batch(&batch);

    let snap = state.snapshot();
    assert_eq!(snap.tagged_octopi.len(), 1);
    assert_eq!(snap.tagged_octopi[0].0, id_a);
    assert_eq!(snap.tagged_octopi[0].1.name, "Original Barry");
    assert_eq!(snap.untagged_octopi.len(), 1);
    assert_eq!(snap.untagged_octopi[0].0, id_b);
    assert_eq!(seq.count(), 1);
}

#[test]
fn committing_the_same_batch_twice_is_harmless() {
    let mut state = AppState::new();
    let mut seq = NamingSequencer::new();
    assert!(state.capture(10).is_some());
    let batch = state.prepare_tag_batch(&mut seq);
    state.commit_tag_batch(&batch);
    let before = state.snapshot();
    state.commit_tag_batch(&batch);
    let after = state.snapshot();
    assert_eq!(before.untagged_octopi, after.untagged_octopi);
    assert_eq!(before.tagged_octopi, after.tagged_octopi);
    assert_eq!(after.tagged_octopi.len(), 1);
}

#[test]
fn identifying_feature_survives_tagging() {
    let features = [
        IdentifyingFeature::FictionReader,
        IdentifyingFeature::TopHatWearer,
        IdentifyingFeature::AngryExpression,
        IdentifyingFeature::ChainSmoker,
        IdentifyingFeature::RatherRude,
        IdentifyingFeature::GovernmentDistrust,
        IdentifyingFeature::DecentBloke,
    ];
    let mut state = AppState::new();
    let mut seq = NamingSequencer::new();
    for (i, feature) in features.iter().enumerate() {
        assert!(state.capture_with(10, i as u128, *feature).is_some());
    }
    let batch = state.tag_all(&mut seq);
    assert_eq!(batch.len(), 7);
    for (i, feature) in features.iter().enumerate() {
        assert_eq!(batch[i].0, i as u128);
        assert_eq!(batch[i].1.identifying_feature, *feature);
    }
}

#[test]
fn tagged_entries_come_only_from_untagged_ones() {
    let mut state = AppState::new();
    let mut seq = NamingSequencer::new();
    let mut captured: Vec<u128> = Vec::new();
    for roll in [10, 40, 50] {
        captured.push(state.capture(roll).unwrap().0);
    }
    state.tag_all(&mut seq);
    let snap = state.snapshot();
    for (id, _) in &snap.tagged_octopi {
        assert!(captured.contains(id));
    }
    // An identifier is never in both mappings at once.
    for (id, _) in &snap.untagged_octopi {
        assert!(!snap.tagged_octopi.iter().any(|(t, _)| t == id));
    }
    assert!(state.check_invariant());
}

#[test]
fn registry_invariant_holds_across_operations() {
    let mut state = AppState::new();
    let mut seq = NamingSequencer::new();
    assert!(state.check_invariant());
    for roll in 1..20 {
        let _ = state.capture(roll);
        assert!(state.check_invariant());
    }
    state.tag_all(&mut seq);
    assert!(state.check_invariant());
}
