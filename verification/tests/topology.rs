use fnec::geometry::UnsupportedTopology;
use fnec::topology::{classify_unsupported_topology, conductor_paths, has_high_degree_node};

/// A `2w x 2w` table of coinciding wire ends from a list of end pairs.
fn near_table(ends: usize, pairs: &[(usize, usize)]) -> Vec<Vec<bool>> {
    let mut near = vec![vec![false; ends]; ends];
    for &(a, b) in pairs {
        near[a][b] = true;
        near[b][a] = true;
    }
    near
}

#[test]
fn no_wires_give_no_paths() {
    let paths = conductor_paths(&Vec::new(), &Vec::new()).expect("empty geometry is supported");
    assert!(paths.is_empty());
    assert_eq!(classify_unsupported_topology(&Vec::new(), &Vec::new()), None);
}

#[test]
fn a_single_wire_is_one_forward_path() {
    let wires = vec![(0, 2)];
    let near = near_table(2, &[]);
    let paths = conductor_paths(&wires, &near).expect("a single wire is supported");
    assert_eq!(paths, vec![vec![(0, true), (1, true), (2, true)]]);
    assert_eq!(classify_unsupported_topology(&wires, &near), None);
}

#[test]
fn an_end_to_start_bend_is_walked_forward() {
    let wires = vec![(0, 1), (2, 3)];
    let near = near_table(4, &[(1, 2)]);
    let paths = conductor_paths(&wires, &near).expect("a bend is a degree-2 path");
    assert_eq!(paths, vec![vec![(0, true), (1, true), (2, true), (3, true)]]);
}

#[test]
fn a_start_to_start_split_reverses_the_first_wire() {
    let wires = vec![(0, 1), (2, 3)];
    let near = near_table(4, &[(0, 2)]);
    let paths = conductor_paths(&wires, &near).expect("a split is a degree-2 path");
    assert_eq!(paths, vec![vec![(1, false), (0, false), (2, true), (3, true)]]);
}

#[test]
fn an_end_to_end_split_reverses_the_second_wire() {
    let wires = vec![(0, 1), (2, 4)];
    let near = near_table(4, &[(1, 3)]);
    let paths = conductor_paths(&wires, &near).expect("an end-to-end split is a degree-2 path");
    assert_eq!(paths, vec![vec![(0, true), (1, true), (4, false), (3, false), (2, false)]]);
}

#[test]
fn separate_wires_are_separate_paths_in_wire_order() {
    let wires = vec![(0, 0), (1, 2)];
    let near = near_table(4, &[]);
    let paths = conductor_paths(&wires, &near).expect("two free wires are supported");
    assert_eq!(paths, vec![vec![(0, true)], vec![(1, true), (2, true)]]);
}

#[test]
fn a_three_wire_chain_is_one_path_from_its_first_free_end() {
    // wire 1 runs backwards between wire 0's end and wire 2's start
    let wires = vec![(0, 0), (1, 1), (2, 2)];
    let near = near_table(6, &[(1, 3), (2, 4)]);
    let paths = conductor_paths(&wires, &near).expect("a chain is supported");
    assert_eq!(paths, vec![vec![(0, true), (1, false), (2, true)]]);
}

#[test]
fn a_t_junction_is_refused_as_high_degree() {
    let wires = vec![(0, 0), (1, 1), (2, 2)];
    let near = near_table(6, &[(1, 2), (1, 4), (2, 4)]);
    assert_eq!(conductor_paths(&wires, &near), None);
    assert!(has_high_degree_node(&near));
    assert_eq!(
        classify_unsupported_topology(&wires, &near),
        Some(UnsupportedTopology::HighDegreeJunction)
    );
}

#[test]
fn a_two_wire_loop_is_refused_as_closed() {
    let wires = vec![(0, 1), (2, 3)];
    let near = near_table(4, &[(1, 2), (3, 0)]);
    assert_eq!(conductor_paths(&wires, &near), None);
    assert!(!has_high_degree_node(&near));
    assert_eq!(classify_unsupported_topology(&wires, &near), Some(UnsupportedTopology::ClosedLoop));
}

#[test]
fn a_wire_closed_on_itself_is_refused_as_closed() {
    let wires = vec![(0, 3)];
    let near = near_table(2, &[(0, 1)]);
    assert_eq!(conductor_paths(&wires, &near), None);
    assert_eq!(classify_unsupported_topology(&wires, &near), Some(UnsupportedTopology::ClosedLoop));
}

#[test]
fn a_loop_beside_a_free_wire_is_still_refused() {
    let wires = vec![(0, 0), (1, 1), (2, 2)];
    let near = near_table(6, &[(3, 4), (5, 2)]);
    assert_eq!(conductor_paths(&wires, &near), None);
    assert_eq!(classify_unsupported_topology(&wires, &near), Some(UnsupportedTopology::ClosedLoop));
}

#[test]
fn high_degree_is_reported_before_a_loop() {
    // a loop of two wires plus a third wire touching one of its nodes
    let wires = vec![(0, 0), (1, 1), (2, 2)];
    let near = near_table(6, &[(1, 2), (1, 4), (2, 4), (3, 0)]);
    assert_eq!(
        classify_unsupported_topology(&wires, &near),
        Some(UnsupportedTopology::HighDegreeJunction)
    );
}

use fnec::topology::{detect_wire_junctions, merge_collinear_wire_endpoints};

#[test]
fn merging_without_joins_keeps_every_wire() {
    let base = vec![(0, 2), (3, 5), (6, 6)];
    assert_eq!(merge_collinear_wire_endpoints(&base, &vec![false, false]), base);
}

#[test]
fn collinear_contiguous_wires_merge_into_one() {
    let base = vec![(0, 2), (3, 5), (6, 6)];
    assert_eq!(merge_collinear_wire_endpoints(&base, &vec![true, true]), vec![(0, 6)]);
    assert_eq!(merge_collinear_wire_endpoints(&base, &vec![false, true]), vec![(0, 2), (3, 6)]);
    assert_eq!(merge_collinear_wire_endpoints(&base, &vec![true, false]), vec![(0, 5), (6, 6)]);
}

#[test]
fn wires_that_are_not_contiguous_do_not_merge() {
    // a gap in the segment numbering: the physical test alone is not enough
    let base = vec![(0, 2), (4, 5)];
    assert_eq!(merge_collinear_wire_endpoints(&base, &vec![true]), base);
}

#[test]
fn fewer_than_two_wires_are_returned_as_they_are() {
    assert_eq!(merge_collinear_wire_endpoints(&Vec::new(), &Vec::new()), Vec::new());
    assert_eq!(merge_collinear_wire_endpoints(&vec![(0, 9)], &Vec::new()), vec![(0, 9)]);
}

#[test]
fn junctions_list_each_coinciding_pair_of_ends_once() {
    // wire 0 = segs 0..=1, wire 1 = segs 2..=3; wire 0's end meets wire 1's start
    let wires = vec![(0, 1), (2, 3)];
    let near = near_table(4, &[(1, 2)]);
    assert_eq!(detect_wire_junctions(&wires, &near), vec![(1, 2, false)]);
}

#[test]
fn junction_kinds_follow_the_ends() {
    let wires = vec![(0, 1), (2, 3)];
    // start to start and end to end: the current reverses
    let near = near_table(4, &[(0, 2), (1, 3)]);
    assert_eq!(detect_wire_junctions(&wires, &near), vec![(0, 2, true), (1, 3, true)]);
}

#[test]
fn the_two_ends_of_a_one_segment_wire_are_no_junction() {
    let wires = vec![(0, 0), (1, 1)];
    let near = near_table(4, &[(0, 1), (1, 2)]);
    assert_eq!(detect_wire_junctions(&wires, &near), vec![(0, 1, false)]);
}

use fnec::solver::HallenDrive;
use fnec::topology::{classify_paths, hallen_route, path_is_trivial, PathRoute};

#[test]
fn a_split_geometry_routes_to_paths_and_a_straight_one_does_not() {
    // two 21-segment wires leaving one point: a start-to-start split
    let split_v = vec![(0, 20), (21, 41)];
    let r = hallen_route(false, false, &split_v, &near_table(4, &[(0, 2)]));
    assert_eq!(r.drive, HallenDrive::DeltaGap);
    assert!(r.paths, "a start-to-start split needs the conductor-path basis");

    let straight = vec![(0, 50)];
    assert!(
        !hallen_route(false, false, &straight, &near_table(2, &[])).paths,
        "a single straight wire must keep the plain basis"
    );
}

#[test]
fn the_drive_of_a_route_follows_the_excitation() {
    let straight = vec![(0, 50)];
    let near = near_table(2, &[]);
    assert_eq!(hallen_route(true, true, &straight, &near).drive, HallenDrive::PlaneWave);
    assert_eq!(hallen_route(false, true, &straight, &near).drive, HallenDrive::CurrentSource);
}

#[test]
fn trivial_paths_run_forward_through_contiguous_segments() {
    assert!(path_is_trivial(&vec![]));
    assert!(path_is_trivial(&vec![(4, true), (5, true), (6, true)]));
    assert!(!path_is_trivial(&vec![(4, true), (6, true)]));
    assert!(!path_is_trivial(&vec![(5, true), (4, true)]));
    assert!(!path_is_trivial(&vec![(4, false)]));
}

#[test]
fn routing_keeps_reducible_unsupported_and_non_trivial_apart() {
    // an end-to-start chain of two wires is reducible
    let chain = vec![(0, 1), (2, 3)];
    assert!(matches!(classify_paths(&chain, &near_table(4, &[(1, 2)])), PathRoute::Reducible));
    // a split is not
    match classify_paths(&chain, &near_table(4, &[(0, 2)])) {
        PathRoute::NonTrivial(ps) => {
            assert_eq!(ps, vec![vec![(1, false), (0, false), (2, true), (3, true)]]);
        }
        _ => panic!("a split needs the path basis"),
    }
    // a loop has no decomposition
    assert!(matches!(
        classify_paths(&chain, &near_table(4, &[(1, 2), (3, 0)])),
        PathRoute::Unsupported
    ));
}

#[test]
fn junctions_come_in_ascending_segment_pairs() {
    let wires = vec![(0, 1), (2, 3), (4, 6)];
    // wire 0's end meets wire 1's start and wire 2's end; wire 1's end meets wire 2's start
    let near = near_table(6, &[(1, 2), (1, 5), (2, 5), (3, 4)]);
    assert_eq!(
        detect_wire_junctions(&wires, &near),
        vec![(1, 2, false), (1, 6, true), (2, 6, false), (3, 4, false)]
    );
}

#[test]
fn a_one_segment_wire_can_meet_a_third_end_twice() {
    // both ends of the one-segment wire 0 lie near wire 1's start
    let wires = vec![(0, 0), (1, 1)];
    let near = near_table(4, &[(0, 2), (1, 2)]);
    assert_eq!(detect_wire_junctions(&wires, &near), vec![(0, 1, true), (0, 1, false)]);
}

#[test]
fn the_paths_list_every_segment_once() {
    // wires from the tags [1, 1, 2, 2, 2, 3, 4, 4]; a V of wires 0 and 1 joined
    // start to start, wire 2 alone, wire 3 joined end to end with wire 1
    let tags = [1, 1, 2, 2, 2, 3, 4, 4];
    let wires = fnec::geometry::wire_endpoints_from_tags(&tags);
    assert_eq!(wires, vec![(0, 1), (2, 4), (5, 5), (6, 7)]);
    let near = near_table(8, &[(0, 2), (3, 7)]);
    let paths = conductor_paths(&wires, &near).expect("two chains and a free wire");
    let mut seen: Vec<usize> = paths.iter().flatten().map(|&(s, _)| s).collect();
    assert_eq!(seen.len(), tags.len());
    seen.sort();
    assert_eq!(seen, (0..tags.len()).collect::<Vec<usize>>());
}
