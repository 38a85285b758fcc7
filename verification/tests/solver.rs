use fnec::mpie::{build_bases, Leg};
use fnec::solver::{
    dispatch_frequency_point, hallen_drive, segment_matches, AccelRequestKind, DispatchDecision,
    FeedpointError, HallenDrive, HallenRoute, MpieError, MpieSessionError, MpieUnsupported,
    NonFiniteCurrents, PlaneWaveError, SolveError, GPU_DISPATCH_NOT_WIRED,
};

#[test]
fn hybrid_gpu_candidate_dispatch_falls_back_to_cpu_for_now() {
    let decision = dispatch_frequency_point(AccelRequestKind::HybridGpuCandidate);
    assert!(matches!(
        decision,
        DispatchDecision::FallbackToCpu { reason: GPU_DISPATCH_NOT_WIRED }
    ));
}

#[test]
fn gpu_only_dispatch_falls_back_to_cpu_for_now() {
    let decision = dispatch_frequency_point(AccelRequestKind::GpuOnly);
    assert!(matches!(
        decision,
        DispatchDecision::FallbackToCpu { reason: GPU_DISPATCH_NOT_WIRED }
    ));
}

#[test]
fn the_fallback_reason_names_the_missing_dispatch() {
    assert_eq!(GPU_DISPATCH_NOT_WIRED, "per-frequency GPU dispatch not yet wired (PH7-CHK-004)");
}

#[test]
fn mode_labels() {
    let route = |drive| HallenRoute { drive, paths: false };
    assert_eq!(route(HallenDrive::PlaneWave).mode_label(), "hallen-planewave");
    assert_eq!(route(HallenDrive::CurrentSource).mode_label(), "hallen-current-source");
    assert_eq!(route(HallenDrive::DeltaGap).mode_label(), "hallen");
    assert_eq!(hallen_drive(true, true), HallenDrive::PlaneWave);
    assert_eq!(hallen_drive(false, true), HallenDrive::CurrentSource);
    assert_eq!(hallen_drive(false, false), HallenDrive::DeltaGap);
}

#[test]
fn load_ranges() {
    assert!(segment_matches(0, 0, 0, 7, 3));
    assert!(!segment_matches(2, 0, 0, 7, 3));
    assert!(segment_matches(7, 3, 0, 7, 3));
    assert!(!segment_matches(7, 3, 0, 7, 4));
    assert!(segment_matches(7, 2, 5, 7, 4));
    assert!(!segment_matches(7, 2, 5, 7, 6));
}

#[test]
fn mpie_refusals_name_their_subject() {
    assert_eq!(MpieUnsupported::PlaneWave.subject(), "incident plane-wave excitation");
    assert_eq!(
        MpieUnsupported::CurrentSource.message(),
        "EX: current-source excitation is not supported by the MPIE solver"
    );
    assert_eq!(
        MpieUnsupported::UnstampableCard("LD (loads)").message(),
        "LD (loads): not supported by the MPIE solver"
    );
    assert_eq!(
        MpieSessionError::DrivenSegmentNotFound { tag: 1, segment: 6 }.message(),
        "EX: driven segment 1/6 not found"
    );
}

#[test]
fn solver_error_messages() {
    assert_eq!(SolveError::Singular.message(), "impedance matrix is singular");
    assert_eq!(
        SolveError::DimensionMismatch { z_n: 3, v_len: 2 }.message(),
        "Z is 3\u{d7}3 but V has length 2"
    );
    assert_eq!(
        MpieError::Solve(SolveError::Singular).message(),
        "MPIE solve failed: impedance matrix is singular"
    );
    assert!(NonFiniteCurrents { first_bad: 4, total: 11 }
        .message()
        .starts_with("the solve did not converge: segment 4 of 11 has a current"));
    assert!(FeedpointError::NoCurrent { tag: 1, seg: 6 }
        .message()
        .starts_with("no current flows at the feedpoint (tag 1, segment 6), so it has no impedance"));
    assert_eq!(
        PlaneWaveError::NoPlaneWaveCard.message(),
        "EX: no incident-plane-wave (type 1/2/3) card found"
    );
}

#[test]
fn bases_pair_the_reference_arm_with_each_other_arm() {
    // A straight two-segment wire 0-1-2 and a T at node 1 with a third arm 1-3.
    let (bases, feed) = build_bases(3, &[[0, 1], [1, 2]]);
    assert_eq!(
        bases,
        vec![vec![
            Leg { seg: 0, v_is_p1: true, toward: true },
            Leg { seg: 1, v_is_p1: false, toward: false }
        ]]
    );
    assert_eq!(feed, vec![None, Some(0), None]);
    let (bases, feed) = build_bases(4, &[[0, 1], [1, 2], [1, 3]]);
    assert_eq!(bases.len(), 2);
    assert_eq!(bases[1][1], Leg { seg: 2, v_is_p1: false, toward: false });
    assert_eq!(feed, vec![None, None, None, None]);
}

#[test]
fn every_basis_meets_at_one_node_in_on_the_first_leg_out_on_the_second() {
    // a closed triangle and a three-arm junction at node 3
    let segments = [[0, 1], [1, 2], [2, 0], [0, 3], [3, 4], [3, 5]];
    let (bases, feed) = build_bases(6, &segments);
    let vertex = |l: &Leg| segments[l.seg][if l.v_is_p1 { 1 } else { 0 }];
    // node 0 has three ends (two bases), nodes 1 and 2 two (one each), node 3 three (two)
    assert_eq!(bases.len(), 6);
    for b in &bases {
        assert_eq!(b.len(), 2);
        assert!(b[0].toward && !b[1].toward);
        assert_eq!(vertex(&b[0]), vertex(&b[1]));
    }
    assert_eq!(feed, vec![None, Some(2), Some(3), None, None, None]);
}

#[test]
fn solves_refuse_sizes_that_disagree_with_z() {
    assert_eq!(fnec::solver::check_dimensions(3, 3), Ok(()));
    assert_eq!(
        fnec::solver::check_dimensions(3, 2),
        Err(SolveError::DimensionMismatch { z_n: 3, v_len: 2 })
    );
    assert_eq!(fnec::solver::check_hallen_dimensions(4, 4, 4), Ok(()));
    assert_eq!(
        fnec::solver::check_hallen_dimensions(4, 4, 5),
        Err(SolveError::HallenDimensionMismatch { z_n: 4, rhs_len: 4, cos_len: 5 })
    );
    assert_eq!(
        fnec::solver::check_hallen_dimensions(4, 3, 4),
        Err(SolveError::HallenDimensionMismatch { z_n: 4, rhs_len: 3, cos_len: 4 })
    );
}
