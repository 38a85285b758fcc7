use fnec::report::{
    append_sections, render_text_report, render_text_report_with_sections, FixedSection, ReportSection,
    ReportTables,
};

/// A rendered standard report, as the float formatting outside the library
/// would produce it.
fn base_report() -> String {
    "SOLVER_MODE hallen\nFEEDPOINTS\nTAG SEG Z_RE Z_IM\n1 26 74.242874 13.899516\n".to_string()
}

#[test]
fn render_with_sections_no_extra_is_identical_to_base() {
    assert_eq!(render_text_report_with_sections(base_report(), &[]), base_report());
}

#[test]
fn render_with_sections_appends_custom_section() {
    let section = FixedSection("MY_SECTION\nsome data\n");
    let report = render_text_report_with_sections(base_report(), &[&section]);
    assert!(report.contains("MY_SECTION\nsome data\n"));
    // Standard headers still present.
    assert!(report.contains("FEEDPOINTS\n"));
}

#[test]
fn render_with_sections_multiple_sections_appended_in_order() {
    let s1 = FixedSection("SECTION_A\n");
    let s2 = FixedSection("SECTION_B\n");
    let report = render_text_report_with_sections(base_report(), &[&s1, &s2]);
    let a_pos = report.find("SECTION_A\n").expect("SECTION_A missing");
    let b_pos = report.find("SECTION_B\n").expect("SECTION_B missing");
    assert!(a_pos < b_pos, "sections should appear in order");
}

#[test]
fn each_section_starts_on_a_new_line() {
    let s1 = FixedSection("A");
    let s2 = FixedSection("B\n");
    let report = render_text_report_with_sections("BASE".to_string(), &[&s1, &s2]);
    assert_eq!(report, "BASE\nA\nB\n");
}

#[test]
fn rendered_sections_are_appended_exactly() {
    let parts = vec!["X\n".to_string(), String::new(), "Y".to_string()];
    assert_eq!(append_sections("R\n".to_string(), &parts), "R\n\nX\n\n\nY");
    assert_eq!(append_sections("R".to_string(), &Vec::new()), "R");
}

// The rows below are formatted as the report's float formatting writes them.

const DIPOLE_FEED: &str = "1 26 1.000000 0.000000 0.013471 -0.002522 74.242874 13.899516";

fn tables(feedpoints: &[&str]) -> ReportTables {
    ReportTables {
        feedpoints: feedpoints.iter().map(|r| r.to_string()).collect(),
        sources: Vec::new(),
        loads: Vec::new(),
        currents: Vec::new(),
        pattern: Vec::new(),
        receive_pattern: Vec::new(),
    }
}

#[test]
fn report_has_contract_headers_and_table() {
    let report = render_text_report("14.200000", "hallen", "Nec2", &tables(&[DIPOLE_FEED]));
    assert!(report.starts_with("FNEC FEEDPOINT REPORT\nFORMAT_VERSION 1\n"));
    assert!(report.contains("FREQ_MHZ 14.200000\n"));
    assert!(report.contains("SOLVER_MODE hallen\n"));
    assert!(report.contains("PULSE_RHS Nec2\n"));
    assert!(report.contains("FEEDPOINTS\n"));
    assert!(report.contains("TAG SEG V_RE V_IM I_RE I_IM Z_RE Z_IM\n"));
    assert!(report.contains("1 26 1.000000 0.000000 0.013471 -0.002522 74.242874 13.899516\n"));
    // No CURRENTS section when current_table is empty.
    assert!(!report.contains("CURRENTS\n"));
}

#[test]
fn report_includes_currents_section_when_provided() {
    let mut t = tables(&[DIPOLE_FEED]);
    t.currents = vec![
        "1 1 0.000000e0 0.000000e0 0.000000e0 0.0000".to_string(),
        "1 26 1.347100e-2 -2.522000e-3 1.370508e-2 -10.6041".to_string(),
    ];
    let report = render_text_report("14.200000", "hallen", "Nec2", &t);
    assert!(report.contains("CURRENTS\n"));
    assert!(report.contains("TAG SEG I_RE I_IM I_MAG I_PHASE\n"));
    let lines: Vec<&str> = report.lines().collect();
    let curr_lines: Vec<&&str> =
        lines.iter().skip_while(|l| **l != "TAG SEG I_RE I_IM I_MAG I_PHASE").skip(1).collect();
    assert!(curr_lines.len() >= 2, "expected at least 2 current rows, got {}", curr_lines.len());
}

#[test]
fn report_includes_radiation_pattern_section_when_provided() {
    let mut t = tables(&[DIPOLE_FEED]);
    t.pattern = vec!["90.0000 0.0000 2.1400 2.1400 -999.9900 0.0000".to_string()];
    let report = render_text_report("14.200000", "hallen", "Nec2", &t);
    assert!(report.contains("RADIATION_PATTERN\n"));
    assert!(report.contains("N_POINTS 1\n"));
    assert!(report.contains("THETA PHI GAIN_DB GAIN_V_DB GAIN_H_DB AXIAL_RATIO\n"));
}

#[test]
fn report_includes_sources_and_loads_in_stable_section_order() {
    let mut t = tables(&[DIPOLE_FEED]);
    t.sources = vec!["0 1 26 0 1.000000 0.000000".to_string()];
    t.loads = vec!["2 1 26 26 5.000000 0.000001 0.000000".to_string()];
    let report = render_text_report("14.200000", "hallen", "Nec2", &t);
    let feed_idx = report.find("FEEDPOINTS\n").expect("missing FEEDPOINTS");
    let source_idx = report.find("SOURCES\n").expect("missing SOURCES");
    let load_idx = report.find("LOADS\n").expect("missing LOADS");
    assert!(feed_idx < source_idx);
    assert!(source_idx < load_idx);
    assert!(report.contains("N_SOURCES 1\n"));
    assert!(report.contains("TYPE TAG SEG I4 V_RE V_IM\n"));
    assert!(report.contains("N_LOADS 1\n"));
    assert!(report.contains("TYPE TAG SEG_FIRST SEG_LAST F1 F2 F3\n"));
}

#[test]
fn report_with_empty_feedpoint_rows_renders_headers_only() {
    let report = render_text_report("14.200000", "hallen", "Nec2", &tables(&[]));
    assert!(report.contains("FEEDPOINTS\n"));
    assert!(report.contains("TAG SEG V_RE V_IM I_RE I_IM Z_RE Z_IM\n"));
    let after_header = report.split("TAG SEG V_RE V_IM I_RE I_IM Z_RE Z_IM\n").nth(1).unwrap_or("");
    let first_line = after_header.lines().next().unwrap_or("");
    assert!(first_line.is_empty(), "expected no data row after empty feedpoints, got: {first_line:?}");
}

#[test]
fn report_omits_radiation_pattern_section_when_empty() {
    let report = render_text_report("14.200000", "hallen", "1", &tables(&["1 1 1.000000 0.000000 0.020000 0.000000 50.000000 0.000000"]));
    assert!(!report.contains("RADIATION_PATTERN\n"));
}

#[test]
fn a_minimal_report_is_exactly_its_header_and_feedpoints() {
    let report = render_text_report("7.100000", "hallen", "auto", &tables(&["R"]));
    assert_eq!(
        report,
        "FNEC FEEDPOINT REPORT\nFORMAT_VERSION 1\nFREQ_MHZ 7.100000\nSOLVER_MODE hallen\nPULSE_RHS auto\n\nFEEDPOINTS\nTAG SEG V_RE V_IM I_RE I_IM Z_RE Z_IM\nR\n"
    );
}

#[test]
fn the_receive_pattern_comes_last_with_its_count() {
    let mut t = tables(&[]);
    t.receive_pattern = vec!["0.0000 0.0000 -3.0000".to_string(), "10.0000 0.0000 -2.5000".to_string()];
    t.currents = vec!["C".to_string()];
    let report = render_text_report("1.000000", "m", "p", &t);
    assert!(report.ends_with(
        "\nCURRENTS\nTAG SEG I_RE I_IM I_MAG I_PHASE\nC\n\nRECEIVE_PATTERN\nN_POINTS 2\nTHETA PHI RESPONSE_DB\n0.0000 0.0000 -3.0000\n10.0000 0.0000 -2.5000\n"
    ));
}

#[test]
fn a_fixed_section_renders_its_text() {
    assert_eq!(FixedSection("MY_SECTION\nhello world\n").render(), "MY_SECTION\nhello world\n");
    assert_eq!(
        render_text_report_with_sections("R".to_string(), &[&FixedSection("A"), &FixedSection("")]),
        "R\nA\n"
    );
}
