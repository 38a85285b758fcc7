use fnec::project::{
    check_payload_version, check_project_version, markdown_manifest, strip_yaml_scalar,
    NamedRun, ProjectError, RunHistory, SolverConfig, PROJECT_FILE_VERSION,
};

const MANIFEST: &str = "---
format: fnec-project-markdown
version: 1
---

# Dipole project

```toml project
version = 1
name = \"dipole\"
```
";

fn markdown_message(r: Result<fnec::project::MarkdownManifest, ProjectError>) -> String {
    match r {
        Err(ProjectError::MarkdownParseError(m)) => m,
        Err(other) => panic!("expected a markdown parse error, got {other:?}"),
        Ok(_) => panic!("expected a markdown parse error"),
    }
}

#[test]
fn manifest_yields_version_and_toml_block() {
    let m = markdown_manifest(MANIFEST).ok().unwrap();
    assert_eq!(m.frontmatter_version, 1);
    assert_eq!(m.project_toml, "version = 1\nname = \"dipole\"\n");
}

#[test]
fn manifest_accepts_quoted_values_comments_and_other_keys() {
    let text = "---\n# a comment\nformat: \"fnec-project-markdown\"\nauthor: me\nversion: '7'\n---\n```toml project\nx = 1\n```\n";
    let m = markdown_manifest(text).ok().unwrap();
    assert_eq!(m.frontmatter_version, 7);
    assert_eq!(m.project_toml, "x = 1\n");
}

#[test]
fn manifest_errors() {
    assert_eq!(
        markdown_message(markdown_manifest("format: x\n")),
        "missing YAML frontmatter opening delimiter"
    );
    assert_eq!(
        markdown_message(markdown_manifest("---\nformat: fnec-project-markdown\nversion: 1\n")),
        "missing YAML frontmatter closing delimiter"
    );
    assert_eq!(
        markdown_message(markdown_manifest("---\nno colon here\n---\n")),
        "invalid frontmatter line: no colon here"
    );
    assert_eq!(
        markdown_message(markdown_manifest("---\nformat: other\nversion: 1\n---\n")),
        "frontmatter format must be fnec-project-markdown"
    );
    assert_eq!(
        markdown_message(markdown_manifest("---\nformat: fnec-project-markdown\nversion: one\n---\n")),
        "frontmatter version must be an integer"
    );
    assert_eq!(
        markdown_message(markdown_manifest("---\nformat: fnec-project-markdown\n\n---\n")),
        "frontmatter version is required"
    );
    assert_eq!(
        markdown_message(markdown_manifest("---\nformat: fnec-project-markdown\nversion: 1\n---\n```toml\nx = 1\n```\n")),
        "missing fenced TOML project block (```toml project)"
    );
}

#[test]
fn version_rules() {
    assert!(check_project_version(PROJECT_FILE_VERSION).is_ok());
    assert!(matches!(check_project_version(99), Err(ProjectError::UnsupportedVersion(99))));
    assert!(check_payload_version(2, 2).is_ok());
    match check_payload_version(1, 2) {
        Err(ProjectError::MarkdownParseError(m)) => assert_eq!(
            m,
            "frontmatter version 1 does not match project payload version 2"
        ),
        _ => panic!("expected a markdown parse error"),
    }
}

#[test]
fn yaml_scalars_lose_one_pair_of_quotes() {
    assert_eq!(strip_yaml_scalar("\"abc\""), "abc");
    assert_eq!(strip_yaml_scalar("'abc'"), "abc");
    assert_eq!(strip_yaml_scalar("\"abc'"), "\"abc'");
    assert_eq!(strip_yaml_scalar("\""), "\"");
    assert_eq!(strip_yaml_scalar("\"\""), "");
    assert_eq!(strip_yaml_scalar("plain"), "plain");
}

#[test]
fn named_run_holds_an_optional_override() {
    let run = NamedRun {
        name: "baseline".to_string(),
        description: None,
        solver: Some(SolverConfig::default()),
    };
    assert_eq!(run.solver.unwrap().mode, "hallen");
}

/// A run record as a frontend stores it: the history keeps it as it is.
#[derive(Debug, Clone, PartialEq)]
struct RunRecord {
    timestamp: String,
    solver: SolverConfig,
    impedance_re: f64,
    impedance_im: f64,
}

fn make_run_record(label: &str, z_re: f64, z_im: f64) -> RunRecord {
    RunRecord {
        timestamp: "2026-05-05T12:00:00Z".to_string(),
        solver: SolverConfig { mode: label.to_string(), pulse_rhs: "auto".to_string() },
        impedance_re: z_re,
        impedance_im: z_im,
    }
}

#[test]
fn run_history_starts_empty() {
    let h: RunHistory<RunRecord> = RunHistory::default();
    assert!(h.is_empty());
    assert_eq!(h.run_count(), 0);
    assert!(h.last_run().is_none());
    assert!(h.run_by_index(0).is_none());
}

#[test]
fn run_history_push_and_query() {
    let mut h = RunHistory::default();
    h.push(make_run_record("hallen", 74.24, 13.90));
    h.push(make_run_record("continuity", 50.0, 0.0));

    assert_eq!(h.run_count(), 2);
    assert!(!h.is_empty());
    assert_eq!(h.last_run().unwrap().solver.mode, "continuity");
    assert_eq!(h.run_by_index(0).unwrap().solver.mode, "hallen");
    assert_eq!(h.run_by_index(1).unwrap().solver.mode, "continuity");
    assert!(h.run_by_index(2).is_none());
}

#[test]
fn a_pushed_run_is_the_last_and_keeps_the_earlier_ones() {
    let mut h = RunHistory(vec![make_run_record("a", 1.0, 0.0)]);
    let before = h.clone();
    let rec = make_run_record("b", 2.0, -1.0);
    h.push(rec.clone());
    assert_eq!(h.last_run(), Some(&rec));
    assert_eq!(h.run_by_index(1), Some(&rec));
    assert_eq!(h.run_by_index(0), before.run_by_index(0));
    assert_eq!(h.run_count(), before.run_count() + 1);
}

#[test]
fn project_error_unsupported_version_display() {
    let msg = ProjectError::UnsupportedVersion(42).message();
    assert!(msg.contains("42"), "display should mention the bad version");
    assert!(
        msg.contains(&PROJECT_FILE_VERSION.to_string()),
        "display should mention the expected version"
    );
    assert_eq!(msg, "unsupported project file version 42 (expected 1)");
}

#[test]
fn markdown_parse_error_display_includes_reason() {
    let msg = ProjectError::MarkdownParseError("bad schema".to_string()).message();
    assert!(msg.contains("markdown parse error"));
    assert!(msg.contains("bad schema"));
}

#[test]
fn a_toml_error_is_shown_after_its_prefix() {
    let err = toml::from_str::<toml::Value>("version = ").unwrap_err();
    let text = err.to_string();
    let msg = ProjectError::DeserialiseError(err).message();
    assert_eq!(msg, format!("project deserialise error: {text}"));
}

#[test]
fn a_wrapped_project_text_comes_back_unchanged() {
    let toml = "version = 1\nname = \"dipole\"\ndeck_path = \"dipole.nec\"\n\n[solver]\nmode = \"hallen\"\n";
    let md = format!("---\nformat: fnec-project-markdown\nversion: 1\n---\n```toml project\n{toml}```\n");
    let m = markdown_manifest(&md).ok().unwrap();
    assert_eq!(m.frontmatter_version, 1);
    assert_eq!(m.project_toml, toml);
}
