use fnec::excitation::{
    deck_has_current_source, deck_has_plane_wave, delta_gap_segments, feedpoint_role, feedpoints,
    find_segment, first_delta_gap_feedpoint, mpie_driven_segment, mpie_unsupported, CardSummary,
    ExSource, FeedpointRole,
};
use fnec::solver::{ExcitationError, MpieSessionError, MpieUnsupported};

fn ex(ex_type: u32, tag: u32, segment: u32) -> CardSummary {
    CardSummary::Ex(ExSource { ex_type, tag, segment, i4: 0 })
}

/// `GW <tag> <n> ...`, then `GE 0`, then `cards`, then `FR` and `EN`.
fn deck_with(cards: &[CardSummary]) -> Vec<CardSummary> {
    let mut d = vec![CardSummary::Other, CardSummary::Other];
    d.extend_from_slice(cards);
    d.push(CardSummary::Other);
    d.push(CardSummary::Other);
    d
}

/// The `(tag, segment number)` of a wire of `n` segments tagged `tag`.
fn wire(tag: u32, n: u32) -> Vec<(u32, u32)> {
    (1..=n).map(|k| (tag, k)).collect()
}

/// The dipole: `GW 1 41 ...`, `GE 0`, `FR`, then its `EX` card, then `EN`.
fn dipole_with(excitation: CardSummary) -> Vec<CardSummary> {
    vec![CardSummary::Other, CardSummary::Other, CardSummary::Other, excitation, CardSummary::Other]
}

#[test]
fn excitation_types_have_their_roles() {
    assert_eq!(feedpoint_role(0), FeedpointRole::DeltaGap);
    assert_eq!(feedpoint_role(5), FeedpointRole::DeltaGap);
    assert_eq!(feedpoint_role(1), FeedpointRole::PlaneWave);
    assert_eq!(feedpoint_role(2), FeedpointRole::PlaneWave);
    assert_eq!(feedpoint_role(3), FeedpointRole::PlaneWave);
    assert_eq!(feedpoint_role(4), FeedpointRole::CurrentSource);
    assert_eq!(feedpoint_role(6), FeedpointRole::Unknown);
    assert_eq!(feedpoint_role(9), FeedpointRole::Unknown);
}

#[test]
fn a_plane_wave_is_never_a_feedpoint() {
    let deck = deck_with(&[ex(1, 1, 3), ex(0, 1, 26)]);
    let i = first_delta_gap_feedpoint(&deck).expect("the voltage source");
    match deck[i] {
        CardSummary::Ex(e) => assert_eq!((e.tag, e.segment), (1, 26)),
        _ => panic!("not an EX card"),
    }
    assert_eq!(feedpoints(&deck).len(), 1, "only the driven source");
}

#[test]
fn a_type_5_source_is_a_feedpoint() {
    let deck = deck_with(&[ex(5, 1, 26)]);
    let i = first_delta_gap_feedpoint(&deck).expect("type 5 is a delta gap");
    match deck[i] {
        CardSummary::Ex(e) => assert_eq!((e.tag, e.segment), (1, 26)),
        _ => panic!("not an EX card"),
    }
}

#[test]
fn a_current_source_is_a_feedpoint_but_not_a_delta_gap() {
    let deck = deck_with(&[ex(4, 1, 26)]);
    assert_eq!(feedpoints(&deck).len(), 1);
    assert_eq!(feedpoints(&deck).first().map(|(_, r)| *r), Some(FeedpointRole::CurrentSource));
    assert!(first_delta_gap_feedpoint(&deck).is_none());
}

#[test]
fn the_first_delta_gap_is_the_first_one_in_deck_order() {
    let deck = deck_with(&[ex(0, 1, 10), ex(5, 1, 26)]);
    let segment = first_delta_gap_feedpoint(&deck).map(|i| match deck[i] {
        CardSummary::Ex(e) => e.segment,
        _ => 0,
    });
    assert_eq!(segment, Some(10), "must be the first delta gap in deck order, not the last");
}

#[test]
fn an_unrecognised_excitation_type_is_not_a_feedpoint() {
    let deck = deck_with(&[ex(9, 1, 26)]);
    assert_eq!(feedpoints(&deck).len(), 0);
    assert!(first_delta_gap_feedpoint(&deck).is_none());
}

#[test]
fn feedpoints_are_yielded_in_deck_order() {
    let deck = deck_with(&[ex(4, 1, 10), ex(0, 1, 26)]);
    let got: Vec<(u32, FeedpointRole)> = feedpoints(&deck)
        .iter()
        .map(|(i, r)| match deck[*i] {
            CardSummary::Ex(e) => (e.segment, *r),
            _ => (0, *r),
        })
        .collect();
    assert_eq!(got, vec![(10, FeedpointRole::CurrentSource), (26, FeedpointRole::DeltaGap)]);
    let first = first_delta_gap_feedpoint(&deck).map(|i| match deck[i] {
        CardSummary::Ex(e) => e.segment,
        _ => 0,
    });
    assert_eq!(first, Some(26));
}

#[test]
fn feedpoints_name_the_card_index_and_role() {
    let deck = deck_with(&[ex(4, 1, 10), CardSummary::Ld, ex(1, 1, 3), ex(0, 1, 26)]);
    assert_eq!(feedpoints(&deck), vec![(2, FeedpointRole::CurrentSource), (5, FeedpointRole::DeltaGap)]);
    assert_eq!(first_delta_gap_feedpoint(&deck), Some(5));
}

#[test]
fn plane_waves_and_current_sources_are_found_anywhere_in_the_deck() {
    assert!(deck_has_plane_wave(&deck_with(&[ex(0, 1, 1), ex(3, 1, 1)])));
    assert!(!deck_has_plane_wave(&deck_with(&[ex(0, 1, 1), ex(4, 1, 1)])));
    assert!(deck_has_current_source(&deck_with(&[ex(0, 1, 1), ex(4, 1, 1)])));
    assert!(!deck_has_current_source(&deck_with(&[ex(5, 1, 1), ex(9, 1, 1)])));
    assert!(!deck_has_plane_wave(&[]));
}

#[test]
fn a_later_gap_on_a_missing_segment_is_refused_not_skipped() {
    let deck = deck_with(&[ex(0, 1, 11), ex(0, 1, 99)]);
    let err = delta_gap_segments(&deck, &wire(1, 21)).expect_err("segment 99 does not exist");
    assert!(matches!(err, ExcitationError::SegmentNotFound { tag: 1, segment: 99 }), "{err:?}");
}

#[test]
fn delta_gaps_drive_their_segments_in_deck_order() {
    let mut segs = wire(1, 5);
    segs.extend(wire(2, 3));
    let deck = deck_with(&[ex(0, 2, 2), ex(1, 7, 7), ex(4, 9, 9), ex(5, 1, 3)]);
    assert_eq!(delta_gap_segments(&deck, &segs), Ok(vec![6, 2]));
    // no delta gap: nothing to drive, and no segment is looked up
    assert_eq!(delta_gap_segments(&deck_with(&[ex(1, 7, 7)]), &segs), Ok(vec![]));
}

#[test]
fn an_unrecognised_type_is_refused_before_a_missing_segment() {
    let deck = deck_with(&[
        ex(0, 1, 99),
        CardSummary::Ex(ExSource { ex_type: 6, tag: 1, segment: 2, i4: 3 }),
        ex(7, 1, 1),
    ]);
    assert_eq!(
        delta_gap_segments(&deck, &wire(1, 3)),
        Err(ExcitationError::UnsupportedType { ex_type: 6, tag: 1, segment: 2, i4: 3 })
    );
}

#[test]
fn the_first_segment_with_the_key_is_found() {
    let segs = vec![(1, 1), (2, 1), (2, 1)];
    assert_eq!(find_segment(&segs, (2, 1)), Some(1));
    assert_eq!(find_segment(&segs, (1, 2)), None);
}

#[test]
fn a_plain_voltage_source_deck_is_supported() {
    assert_eq!(mpie_unsupported(&dipole_with(ex(0, 1, 21))), None);
}

#[test]
fn a_plane_wave_deck_is_refused() {
    let deck = dipole_with(ex(1, 1, 1));
    assert_eq!(mpie_unsupported(&deck), Some(MpieUnsupported::PlaneWave));
}

#[test]
fn a_current_source_deck_is_refused() {
    let deck = dipole_with(ex(4, 1, 21));
    assert_eq!(mpie_unsupported(&deck), Some(MpieUnsupported::CurrentSource));
}

#[test]
fn unstampable_cards_are_refused_by_name() {
    for (card, name) in [
        (CardSummary::Ld, "LD (loads)"),
        (CardSummary::Tl, "TL (transmission line)"),
        (CardSummary::Nt, "NT (network)"),
    ] {
        // inserted after `GE 0`
        let deck = vec![
            CardSummary::Other,
            CardSummary::Other,
            card,
            CardSummary::Other,
            ex(0, 1, 21),
            CardSummary::Other,
        ];
        assert_eq!(
            mpie_unsupported(&deck).as_ref().map(MpieUnsupported::subject),
            Some(name),
            "{name} must be refused by name"
        );
    }
}

#[test]
fn a_type_5_source_can_drive_the_mpie() {
    let deck = dipole_with(ex(5, 1, 21));
    assert_eq!(mpie_unsupported(&deck), None);
    assert!(first_delta_gap_feedpoint(&deck).is_some());
}

#[test]
fn an_unrecognised_excitation_is_not_a_voltage_source() {
    let deck = dipole_with(ex(9, 1, 21));
    assert!(
        first_delta_gap_feedpoint(&deck).is_none(),
        "an unrecognised EX type must not be treated as a delta gap"
    );
}

#[test]
fn an_unrecognised_excitation_is_refused_by_the_solve() {
    let deck = dipole_with(ex(9, 1, 21));
    assert_eq!(mpie_unsupported(&deck), None, "the guard does not cover this");
    let err = mpie_driven_segment(&deck, &wire(1, 41))
        .expect_err("an unrecognised EX type must not silently drive the MPIE");
    assert!(matches!(err, MpieSessionError::NoVoltageSource), "unexpected error: {err:?}");
}

#[test]
fn the_refusal_travels_with_the_solve() {
    let deck = vec![
        CardSummary::Other,
        CardSummary::Other,
        CardSummary::Ld,
        CardSummary::Other,
        ex(0, 1, 21),
        CardSummary::Other,
    ];
    let err = mpie_driven_segment(&deck, &wire(1, 41))
        .expect_err("a loaded deck must be refused by the solve itself");
    assert!(
        matches!(err, MpieSessionError::Unsupported(MpieUnsupported::UnstampableCard(_))),
        "unexpected error: {err:?}"
    );
}

#[test]
fn the_mpie_drives_the_segment_its_first_delta_gap_names() {
    let mut segs = wire(1, 41);
    segs.extend(wire(2, 5));
    assert_eq!(mpie_driven_segment(&dipole_with(ex(0, 2, 3)), &segs), Ok(43));
    assert_eq!(
        mpie_driven_segment(&dipole_with(ex(0, 3, 1)), &segs),
        Err(MpieSessionError::DrivenSegmentNotFound { tag: 3, segment: 1 })
    );
}
