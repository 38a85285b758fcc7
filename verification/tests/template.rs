use fnec::template::substitute;
use std::collections::HashMap;

fn map(pairs: &[(&str, &str)]) -> HashMap<String, String> {
    pairs
        .iter()
        .map(|(k, v)| (k.to_string(), v.to_string()))
        .collect()
}

#[test]
fn single_token_replaced() {
    let vars = map(&[("LEN", "5.282")]);
    assert_eq!(substitute("$LEN", &vars).ok().unwrap(), "5.282");
}

#[test]
fn multiple_tokens_in_line() {
    let vars = map(&[("A", "1.0"), ("B", "2.0")]);
    assert_eq!(substitute("$A $B", &vars).ok().unwrap(), "1.0 2.0");
}

#[test]
fn dollar_dollar_escape() {
    let vars = map(&[]);
    assert_eq!(substitute("$$", &vars).ok().unwrap(), "$");
}

#[test]
fn bare_dollar_passes_through() {
    let vars = map(&[]);
    assert_eq!(substitute("$ ", &vars).ok().unwrap(), "$ ");
}

#[test]
fn undefined_variable_returns_error() {
    let vars = map(&[]);
    let err = substitute("$MISSING", &vars).err().unwrap();
    assert_eq!(err.undefined_var, "MISSING");
    assert_eq!(err.line, 1);
}

#[test]
fn error_reports_correct_line_number() {
    let vars = map(&[("A", "x")]);
    let err = substitute("$A\n$MISSING\n", &vars).err().unwrap();
    assert_eq!(err.line, 2);
}

#[test]
fn multiline_substitution() {
    let vars = map(&[("HALF", "5.282"), ("FREQ", "14.2")]);
    let tmpl = "GW 1 51 0 0 -$HALF 0 0 $HALF 0.001\nFR 0 1 0 0 $FREQ 0\n";
    let result = substitute(tmpl, &vars).ok().unwrap();
    assert!(result.contains("-5.282"));
    assert!(result.contains("14.2"));
}

#[test]
fn text_without_dollar_is_returned_unchanged() {
    let vars = map(&[("A", "1")]);
    let text = "GW 1 11 0 0 -2.677 0 0 2.677 0.001\nEN\n";
    assert_eq!(substitute(text, &vars).ok().unwrap(), text);
}

#[test]
fn longest_identifier_is_used() {
    let vars = map(&[("A", "short"), ("AB", "long")]);
    assert_eq!(substitute("$AB", &vars).ok().unwrap(), "long");
    assert_eq!(substitute("$A-B", &vars).ok().unwrap(), "short-B");
}

#[test]
fn value_is_inserted_verbatim_without_resubstitution() {
    let vars = map(&[("A", "$B"), ("B", "x")]);
    assert_eq!(substitute("$A", &vars).ok().unwrap(), "$B");
}

#[test]
fn underscore_and_digits_belong_to_names() {
    let vars = map(&[("HALF_LEN_2", "7")]);
    assert_eq!(substitute("[$HALF_LEN_2]", &vars).ok().unwrap(), "[7]");
}

#[test]
fn template_error_message_names_line_and_variable() {
    let vars = map(&[]);
    let err = substitute("\n\n$FREQ", &vars).err().unwrap();
    assert_eq!(err.line, 3);
    assert_eq!(
        err.message(),
        "line 3: undefined template variable '$FREQ'; provide it via --vars"
    );
}
