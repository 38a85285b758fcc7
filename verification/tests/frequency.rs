use fnec::frequency::{
    fr_expanded_count, fr_is_multiplicative, fr_is_truncated, fr_point_count, superseded_fr_warnings,
    MAX_FR_POINTS,
};

#[test]
fn a_superseded_card_is_named_rather_than_silently_dropped() {
    let w = superseded_fr_warnings(&vec!["14.2".to_string(), "7.1".to_string()]);
    assert_eq!(w.len(), 1, "{w:?}");
    assert!(w[0].contains("14.2") && w[0].contains("7.1"), "{w:?}");
    // Negative control: one card supersedes nothing.
    assert!(superseded_fr_warnings(&vec!["14.2".to_string()]).is_empty());
}

#[test]
fn each_superseded_card_is_numbered_against_the_last() {
    let w = superseded_fr_warnings(&vec!["3.5".to_string(), "7".to_string(), "14.2".to_string()]);
    assert_eq!(w.len(), 2);
    assert_eq!(
        w[1],
        "FR card 2 (7 MHz) is superseded by the last FR card (14.2 MHz): fnec runs one execution per deck, at the frequencies the last card asks for. NEC-2 would run an earlier card too if an execution card followed it, which fnec does not model"
    );
    assert!(w[0].starts_with("FR card 1 (3.5 MHz) is superseded by the last FR card (14.2 MHz)"));
    assert!(superseded_fr_warnings(&Vec::new()).is_empty());
}

#[test]
fn an_enormous_step_count_is_bounded() {
    assert!(fr_is_truncated(400_000_000));
    assert_eq!(fr_expanded_count(400_000_000), MAX_FR_POINTS);
    assert_eq!(fr_point_count(400_000_000), 400_000_000);
}

#[test]
fn zero_steps_is_one_frequency() {
    assert_eq!(fr_point_count(0), 1);
    assert_eq!(fr_expanded_count(0), 1);
    assert!(!fr_is_truncated(0));
    assert_eq!(fr_expanded_count(3), 3);
    assert!(!fr_is_truncated(MAX_FR_POINTS as u32));
    assert!(fr_is_truncated(MAX_FR_POINTS as u32 + 1));
}

#[test]
fn an_unrecognised_step_type_is_linear() {
    assert!(fr_is_multiplicative(1));
    assert!(!fr_is_multiplicative(0));
    assert!(!fr_is_multiplicative(2));
}

#[test]
fn the_last_fr_card_governs() {
    assert_eq!(fnec::frequency::governing_fr_index(&[]), None);
    assert_eq!(fnec::frequency::governing_fr_index(&[false, false]), None);
    assert_eq!(fnec::frequency::governing_fr_index(&[false, true, false, true, false]), Some(3));
    assert_eq!(fnec::frequency::governing_fr_index(&[true, false]), Some(0));
}
