use fnec::card::{
    run_validators, Card, CardKind, DeckValidator, DiagnosticLevel, NecDeck, RequireCard,
    ValidationDiagnostic,
};

/// A deck must carry an `EX` card.
fn require_ex_card() -> RequireCard {
    RequireCard { kind: CardKind::Ex, message: "deck has no EX card".to_string() }
}

/// A deck must carry an `FR` card.
fn require_fr_card() -> RequireCard {
    RequireCard { kind: CardKind::Fr, message: "deck has no FR card".to_string() }
}

fn texts(v: &[&str]) -> Vec<String> {
    v.iter().map(|s| s.to_string()).collect()
}

fn make_ex_card() -> Card {
    Card {
        kind: CardKind::Ex,
        fields: texts(&["0", "1", "1", "0", "1.0", "0.0", "0.0", "0.0", "0.0", "0.0"]),
    }
}

fn make_fr_card() -> Card {
    Card {
        kind: CardKind::Fr,
        fields: texts(&["0", "1", "14.0", "0.0"]),
    }
}

#[test]
fn validator_returns_empty_when_deck_passes() {
    let mut deck = NecDeck::new();
    deck.cards.push(make_ex_card());
    let v = require_ex_card();
    let diags = v.validate(&deck);
    assert!(diags.is_empty(), "expected no diagnostics, got: {diags:?}");
}

#[test]
fn validator_returns_error_when_deck_fails() {
    let deck = NecDeck::new();
    let v = require_ex_card();
    let diags = v.validate(&deck);
    assert_eq!(diags.len(), 1);
    assert_eq!(diags[0].level, DiagnosticLevel::Error);
    assert!(diags[0].message.contains("no EX card"));
}

#[test]
fn run_validators_aggregates_all_diagnostics() {
    let deck = NecDeck::new();
    let ex_v = require_ex_card();
    let fr_v = require_fr_card();
    let diags = run_validators(&deck, &[&ex_v, &fr_v]);
    assert_eq!(diags.len(), 2, "expected two diagnostics, got: {diags:?}");
}

#[test]
fn run_validators_continues_after_first_failure() {
    let deck = NecDeck::new();
    let ex_v = require_ex_card();
    let fr_v = require_fr_card();
    let diags = run_validators(&deck, &[&ex_v, &fr_v]);
    let messages: Vec<&str> = diags.iter().map(|d| d.message.as_str()).collect();
    assert!(messages.iter().any(|m| m.contains("EX")));
    assert!(messages.iter().any(|m| m.contains("FR")));
}

#[test]
fn run_validators_returns_empty_when_all_pass() {
    let mut deck = NecDeck::new();
    deck.cards.push(make_ex_card());
    deck.cards.push(make_fr_card());
    let ex_v = require_ex_card();
    let fr_v = require_fr_card();
    let diags = run_validators(&deck, &[&ex_v, &fr_v]);
    assert!(diags.is_empty());
}

#[test]
fn warning_level_diagnostic_is_distinct_from_error() {
    let d_err = ValidationDiagnostic::error("bad".to_string());
    let d_warn = ValidationDiagnostic::warning("suspicious".to_string());
    assert_eq!(d_err.level, DiagnosticLevel::Error);
    assert_eq!(d_warn.level, DiagnosticLevel::Warning);
    assert_ne!(d_err.level, d_warn.level);
}

#[test]
fn run_validators_with_empty_validator_list_returns_empty() {
    let deck = NecDeck::new();
    let diags = run_validators(&deck, &[]);
    assert!(diags.is_empty());
}

#[test]
fn run_validators_keeps_validator_order() {
    let deck = NecDeck::new();
    let ex_v = require_ex_card();
    let fr_v = require_fr_card();
    let diags = run_validators(&deck, &[&fr_v, &ex_v]);
    assert_eq!(diags[0].message, "deck has no FR card");
    assert_eq!(diags[1].message, "deck has no EX card");
}

#[test]
fn typed_card_views() {
    let c = Card { kind: CardKind::Comment, fields: texts(&["hello"]) };
    assert_eq!(c.comment_card().unwrap().text, "hello");
    assert!(make_ex_card().comment_card().is_none());
    let pt = Card { kind: CardKind::Pt, fields: texts(&["-1", "0"]) };
    assert_eq!(pt.pt_card().unwrap().raw_fields, texts(&["-1", "0"]));
    assert!(pt.nt_card().is_none());
}

#[test]
fn collected_diagnostics_keep_validator_order() {
    let a = ValidationDiagnostic::warning("a".to_string());
    let b = ValidationDiagnostic::error("b".to_string());
    let c = ValidationDiagnostic::warning("c".to_string());
    let all = fnec::card::collect_diagnostics(vec![vec![a.clone(), b.clone()], vec![], vec![c.clone()]]);
    assert_eq!(all, vec![a, b, c]);
}
