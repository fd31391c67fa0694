use octo_journey::naming::NamingSequencer;

#[test]
fn first_name_is_original_barry() {
    let mut seq = NamingSequencer::new();
    assert_eq!(seq.count(), 0);
    let name = seq.next_name();
    assert_eq!(name, "Original Barry");
    assert_eq!(seq.count(), 1);
}

#[test]
fn names_follow_in_sequence_without_gaps() {
    let mut seq = NamingSequencer::new();
    let mut names: Vec<String> = Vec::new();
    for _ in 0..4 {
        names.push(seq.next_name());
    }
    assert_eq!(names, vec!["Original Barry", "Barry 1", "Barry 2", "Barry 3"]);
    assert_eq!(seq.count(), 4);
}

#[test]
fn multi_digit_names_render_in_decimal() {
    let mut seq = NamingSequencer::new();
    let mut last = String::new();
    for _ in 0..105 {
        last = seq.next_name();
    }
    assert_eq!(last, "Barry 104");
    assert_eq!(seq.next_name(), "Barry 105");
}

#[test]
fn names_never_repeat() {
    let mut seq = NamingSequencer::new();
    let mut seen: Vec<String> = Vec::new();
    for _ in 0..50 {
        let name = seq.next_name();
        assert!(!seen.contains(&name));
        seen.push(name);
    }
}
