use fnec::geometry::{check_segment_budget, GeometryError, MAX_SEGMENTS};
use fnec::project::SolverConfig;
use fnec::solver::KernelTiming;

#[test]
fn kernel_timing_structure() {
    let timing = KernelTiming {
        prep_us: 100,
        exec_us: 500,
        retrieval_us: 10,
    };
    assert_eq!(timing.total_us(), 610);
}

#[test]
fn solver_config_default_is_hallen_auto() {
    let sc = SolverConfig::default();
    assert_eq!(sc.mode, "hallen");
    assert_eq!(sc.pulse_rhs, "auto");
}

#[test]
fn the_budget_projection_does_not_wrap_at_u32() {
    let err = check_segment_budget(0, u64::from(u32::MAX) + 1, "GW")
        .expect_err("2^32 segments must be refused, not wrapped to 0");
    assert!(
        matches!(
            err,
            GeometryError::SegmentBudgetExceeded {
                card: "GW",
                projected: 4_294_967_296
            }
        ),
        "{err:?}"
    );
    let err = check_segment_budget(100_000, 100_000u64 * 100_000u64, "GR")
        .expect_err("1e10 segments must be refused");
    assert!(
        matches!(
            err,
            GeometryError::SegmentBudgetExceeded {
                card: "GR",
                projected: 10_000_100_000
            }
        ),
        "{err:?}"
    );
}

#[test]
fn budget_admits_exactly_the_cap() {
    assert!(check_segment_budget(MAX_SEGMENTS - 1, 1, "GW").is_ok());
    assert!(check_segment_budget(MAX_SEGMENTS, 1, "GW").is_err());
    assert!(check_segment_budget(0, 0, "GW").is_ok());
}
