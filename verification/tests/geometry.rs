use fnec::card::{GeCard, GnCard};
use fnec::geometry::{
    build_geometry_tags, check_gw_card, check_segment_budget, gm_plan, gr_plan, ground_choice,
    wire_endpoints_from_tags, GeometryError, GeometryStep, GroundChoice, MAX_SEGMENTS,
};

#[test]
fn wires_are_runs_of_equal_tags() {
    assert_eq!(wire_endpoints_from_tags(&[]), vec![]);
    assert_eq!(wire_endpoints_from_tags(&[1, 1, 1, 2, 2, 1]), vec![(0, 2), (3, 4), (5, 5)]);
    // The largest tag is a tag like any other.
    assert_eq!(wire_endpoints_from_tags(&[u32::MAX, 3, u32::MAX]), vec![(0, 0), (1, 1), (2, 2)]);
    assert_eq!(wire_endpoints_from_tags(&[u32::MAX, u32::MAX]), vec![(0, 1)]);
}

#[test]
fn gm_in_place_moves_the_suffix_from_its_start_tag() {
    // Wires defined 5, 2, 3: moving from tag 2 moves wires 2 and 3.
    let p = gm_plan(&[5, 5, 2, 3], 10, 0, 2).ok().unwrap();
    assert_eq!(p.start, 2);
    assert_eq!(p.tags, vec![5, 5, 12, 13]);
    // Tag 0 segments are never retagged.
    let p = gm_plan(&[0, 1], 10, 0, 0).ok().unwrap();
    assert_eq!(p.tags, vec![0, 11]);
}

#[test]
fn gm_copies_are_cumulative() {
    let p = gm_plan(&[1, 2], 10, 3, 0).ok().unwrap();
    assert_eq!(p.tags, vec![1, 2, 11, 12, 21, 22, 31, 32]);
}

#[test]
fn gm_refusals() {
    assert!(matches!(
        gm_plan(&[1, 2], 1, 0, 7),
        Err(GeometryError::StartTagNotFound { tag: 7 })
    ));
    match gm_plan(&[u32::MAX - 1], 2, 0, 0) {
        Err(e) => assert_eq!(
            e.message(),
            "GM card: tag 4294967294 plus tag increment 2 leaves the u32 tag-number space (largest representable tag is 4294967295)"
        ),
        Ok(_) => panic!("expected an overflow"),
    }
    assert!(gm_plan(&[1; 5000], 1, 1, 0).is_ok());
    assert!(matches!(
        gm_plan(&[1; 5001], 1, 1, 0),
        Err(GeometryError::SegmentBudgetExceeded { card: "GM", projected: 10002 })
    ));
}

#[test]
fn gr_copies_add_multiples_of_the_increment() {
    assert_eq!(gr_plan(&[1, 2], 100, 2).ok().unwrap(), vec![1, 2, 101, 102, 201, 202]);
    assert_eq!(gr_plan(&[1, 2], 100, 0).ok().unwrap(), vec![1, 2]);
    match gr_plan(&[1], u32::MAX, 2) {
        Err(GeometryError::TagOverflow { card, detail }) => {
            assert_eq!(card, "GR");
            assert_eq!(detail, "tag 1 plus tag increment 4294967295");
        }
        _ => panic!("expected an overflow"),
    }
    match gr_plan(&[0], u32::MAX / 2 + 1, 2) {
        Err(GeometryError::TagOverflow { detail, .. }) => {
            assert_eq!(detail, "tag increment 2147483648 times copy 2");
        }
        _ => panic!("expected an overflow"),
    }
}

#[test]
fn ground_choice_follows_gn_then_ge() {
    assert_eq!(ground_choice(None, &[]), GroundChoice::FreeSpace);
    assert_eq!(
        ground_choice(None, &[GeCard { ground_reflection_flag: 0 }, GeCard { ground_reflection_flag: 1 }]),
        GroundChoice::PerfectConductor
    );
    // any positive flag asks for the image ground; zero and negative flags do not
    assert_eq!(ground_choice(None, &[GeCard { ground_reflection_flag: 2 }]), GroundChoice::PerfectConductor);
    assert_eq!(ground_choice(None, &[GeCard { ground_reflection_flag: -1 }]), GroundChoice::FreeSpace);
    assert_eq!(
        ground_choice(Some(GnCard { ground_type: -1 }), &[GeCard { ground_reflection_flag: 1 }]),
        GroundChoice::FreeSpace
    );
    assert_eq!(ground_choice(Some(GnCard { ground_type: 2 }), &[]), GroundChoice::SimpleFiniteGround);
    assert_eq!(
        ground_choice(Some(GnCard { ground_type: 3 }), &[]),
        GroundChoice::Deferred { gn_type: 3 }
    );
}

#[test]
fn geometry_messages() {
    assert_eq!(GeometryError::NoWires.message(), "deck contains no GW (wire) cards");
    assert_eq!(
        GeometryError::ZeroSegments { tag: 4 }.message(),
        "GW tag 4: segment count must be \u{2265} 1"
    );
    assert!(GeometryError::SegmentBudgetExceeded { card: "GW", projected: 12345 }
        .message()
        .starts_with("GW card: the deck reaches 12345 segments, past the 10000 this solver will build"));
}

// The tag and budget side of the geometry builder, card by card: the
// coordinates are built around these decisions outside the library.

#[test]
fn zero_segments_is_error() {
    assert!(matches!(check_gw_card(1, 0, false, 0), Err(GeometryError::ZeroSegments { tag: 1 })));
    // the segment count is checked before the wire's length
    assert!(matches!(check_gw_card(1, 0, true, 0), Err(GeometryError::ZeroSegments { tag: 1 })));
}

#[test]
fn zero_length_wire_is_error() {
    assert!(matches!(check_gw_card(1, 3, true, 0), Err(GeometryError::ZeroLengthWire { tag: 1 })));
    assert!(check_gw_card(1, 3, false, 0).is_ok());
}

#[test]
fn a_single_gw_card_cannot_ask_for_more_segments_than_the_cap() {
    let err = check_gw_card(1, 100_000, false, 0).expect_err("100k segments must be refused");
    assert!(matches!(err, GeometryError::SegmentBudgetExceeded { card: "GW", .. }), "{err:?}");
}

#[test]
fn a_gr_card_cannot_replicate_past_the_cap() {
    let err = gr_plan(&[1], 1, 100_000).expect_err("100k copies must be refused");
    assert!(matches!(err, GeometryError::SegmentBudgetExceeded { card: "GR", .. }), "{err:?}");
}

#[test]
fn gm_copy_cards_cannot_compose_their_way_past_the_cap() {
    let mut tags = vec![1u32];
    let mut refused = None;
    for i in 0..15u32 {
        match gm_plan(&tags, i + 1, 1, 0) {
            Ok(plan) => tags = plan.tags,
            Err(e) => {
                refused = Some(e);
                break;
            }
        }
    }
    let err = refused.expect("15 doublings must be refused");
    assert!(matches!(err, GeometryError::SegmentBudgetExceeded { card: "GM", .. }), "{err:?}");
}

#[test]
fn the_largest_corpus_deck_is_far_inside_the_cap() {
    let mut have = 0usize;
    for tag in 1..=5u32 {
        check_gw_card(tag, 51, false, have).expect("a 5-element yagi is an ordinary deck");
        have += 51;
    }
    assert_eq!(have, 255);
    assert!(have * 39 < MAX_SEGMENTS);
    assert!(check_segment_budget(have, 0, "GW").is_ok());
}

#[test]
fn gm_tag_increment_overflow_is_refused_not_panicked() {
    let err = gm_plan(&[7], u32::MAX, 0, 0).err().expect("tag 7 + increment u32::MAX overflows");
    assert!(matches!(err, GeometryError::TagOverflow { card: "GM", .. }), "{err:?}");
}

#[test]
fn gr_tag_increment_multiply_overflow_is_refused_not_panicked() {
    let err = gr_plan(&[1], 3_000_000_000, 2).expect_err("3e9 * 2 overflows u32");
    assert!(matches!(err, GeometryError::TagOverflow { card: "GR", .. }), "{err:?}");
}

#[test]
fn ordinary_gr_replication_is_unaffected() {
    let tags = gr_plan(&[1], 1, 3).expect("a 4-fold turnstile is an ordinary deck");
    assert_eq!(tags.len(), 4);
    assert_eq!(tags, vec![1, 2, 3, 4]);
}

#[test]
fn gm_copy_increments_tag() {
    let plan = gm_plan(&[1], 1, 1, 0).ok().unwrap();
    assert_eq!(plan.tags.len(), 2);
    // Original (tag=1) unchanged, copy tagged 2
    assert_eq!(plan.tags[0], 1);
    assert_eq!(plan.tags[1], 2);
}

#[test]
fn gr_repeat_produces_correct_count() {
    let tags = gr_plan(&[1], 1, 3).unwrap();
    // 1 original + 3 copies = 4 segments (each wire has 1 segment)
    assert_eq!(tags.len(), 4);
    assert_eq!(tags[0], 1);
    assert_eq!(tags[1], 2);
    assert_eq!(tags[2], 3);
    assert_eq!(tags[3], 4);
}

#[test]
fn ground_model_defaults_to_free_space_without_gn() {
    assert_eq!(ground_choice(None, &[]), GroundChoice::FreeSpace);
}

#[test]
fn ground_model_detects_perfect_conductor_gn1() {
    assert_eq!(ground_choice(Some(GnCard { ground_type: 1 }), &[]), GroundChoice::PerfectConductor);
}

#[test]
fn ground_model_maps_gn0_to_simple_finite_ground() {
    assert_eq!(ground_choice(Some(GnCard { ground_type: 0 }), &[]), GroundChoice::SimpleFiniteGround);
}

#[test]
fn ground_model_maps_gn2_to_simple_finite_ground() {
    assert_eq!(ground_choice(Some(GnCard { ground_type: 2 }), &[]), GroundChoice::SimpleFiniteGround);
}

#[test]
fn ground_model_gn_negative1_returns_free_space() {
    // GN -1 is the NEC "null ground" card: free space, whatever GE says.
    assert_eq!(ground_choice(Some(GnCard { ground_type: -1 }), &[]), GroundChoice::FreeSpace);
}

#[test]
fn no_wires_is_error() {
    assert_eq!(build_geometry_tags(&[]), Err(GeometryError::NoWires));
}

#[test]
fn geometry_tags_follow_the_cards_in_order() {
    let steps = [
        GeometryStep::Wire { tag: 1, segments: 3, zero_length: false },
        GeometryStep::Wire { tag: 2, segments: 2, zero_length: false },
        GeometryStep::Rotate { tag_increment: 10, count: 1 },
        GeometryStep::Move { tag_increment: 100, repeat_count: 0, start_tag: 12 },
    ];
    assert_eq!(build_geometry_tags(&steps), Ok(vec![1, 1, 1, 2, 2, 11, 11, 11, 112, 112]));
    // a GR copy of three segments, three times over: nine segments
    let steps = [
        GeometryStep::Wire { tag: 1, segments: 3, zero_length: false },
        GeometryStep::Rotate { tag_increment: 1, count: 2 },
    ];
    assert_eq!(build_geometry_tags(&steps), Ok(vec![1, 1, 1, 2, 2, 2, 3, 3, 3]));
}

#[test]
fn the_first_refused_card_decides() {
    let steps = [
        GeometryStep::Wire { tag: 4, segments: 0, zero_length: true },
        GeometryStep::Wire { tag: 5, segments: 20_000, zero_length: false },
    ];
    assert_eq!(build_geometry_tags(&steps), Err(GeometryError::ZeroSegments { tag: 4 }));
    let steps = [
        GeometryStep::Wire { tag: 1, segments: 10_000, zero_length: false },
        GeometryStep::Wire { tag: 2, segments: 1, zero_length: true },
    ];
    assert_eq!(build_geometry_tags(&steps), Err(GeometryError::ZeroLengthWire { tag: 2 }));
    let steps = [
        GeometryStep::Wire { tag: 1, segments: 10_000, zero_length: false },
        GeometryStep::Wire { tag: 2, segments: 1, zero_length: false },
    ];
    assert_eq!(
        build_geometry_tags(&steps),
        Err(GeometryError::SegmentBudgetExceeded { card: "GW", projected: 10_001 })
    );
    let steps = [
        GeometryStep::Move { tag_increment: 1, repeat_count: 1, start_tag: 9 },
        GeometryStep::Wire { tag: 1, segments: 1, zero_length: false },
    ];
    assert_eq!(build_geometry_tags(&steps), Err(GeometryError::StartTagNotFound { tag: 9 }));
}
