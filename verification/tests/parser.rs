use fnec::card::{Card, CardKind};
use fnec::parser::{parse, parse_fields, parse_numeric_field, rp_normalize, split_mnemonic, ParseError};

const DIPOLE_DECK: &str = "\
CM Half-wave dipole at 28 MHz
CE
GW 1 11 0.0 0.0 -2.677 0.0 0.0 2.677 0.001
EX 0 1 6 0 1.0 0.0
FR 0 1 28.0 0.0
RP 0 37 1 0.0 0.0 5.0 0.0
EN
";

fn card(kind: CardKind, fields: &[&str]) -> Card {
    Card {
        kind,
        fields: fields.iter().map(|s| s.to_string()).collect(),
    }
}

#[test]
fn parse_dipole_deck_cards() {
    let result = parse(DIPOLE_DECK).expect("parse must succeed");
    assert!(result.warnings.is_empty(), "unexpected warnings: {:?}", result.warnings);
    let cards = &result.deck.cards;
    assert_eq!(cards.len(), 7);
    assert_eq!(cards[0], card(CardKind::Comment, &["Half-wave dipole at 28 MHz"]));
    assert_eq!(cards[1], card(CardKind::Comment, &[""]));
    assert_eq!(
        cards[2],
        card(CardKind::Gw, &["1", "11", "0.0", "0.0", "-2.677", "0.0", "0.0", "2.677", "0.001"])
    );
    assert_eq!(
        cards[3],
        card(CardKind::Ex, &["0", "1", "6", "0", "1.0", "0.0", "0.0", "0.0", "0.0", "0.0"])
    );
    assert_eq!(cards[4], card(CardKind::Fr, &["0", "1", "28.0", "0.0"]));
    assert_eq!(
        cards[5],
        card(CardKind::Rp, &["0", "37", "1", "0.0", "0.0", "5.0", "0.0", "0"])
    );
    assert_eq!(cards[6], card(CardKind::En, &[]));
}

#[test]
fn unknown_card_is_warning_not_error() {
    let input = "CM test\nXX some unknown card\nEN\n";
    let result = parse(input).expect("should not be a fatal error");
    assert_eq!(result.warnings.len(), 1);
    assert!(matches!(
        &result.warnings[0],
        ParseError::UnknownCard { mnemonic, .. } if mnemonic == "XX"
    ));
}

#[test]
fn too_few_gw_fields_is_error() {
    let input = "GW 1 11 0.0\n";
    assert!(parse(input).is_err());
}

#[test]
fn bad_numeric_field_is_error() {
    let input = "GW 1 11 X 0.0 -2.677 0.0 0.0 2.677 0.001\n";
    assert!(parse(input).is_err());
}

#[test]
fn blank_lines_are_skipped() {
    let input = "\nCM test\n\nEN\n\n";
    let result = parse(input).expect("parse must succeed");
    assert_eq!(result.deck.cards.len(), 2);
}

#[test]
fn stops_at_en() {
    let input = "CM before\nEN\nCM after\n";
    let result = parse(input).expect("parse must succeed");
    assert_eq!(result.deck.cards.len(), 2);
    assert_eq!(result.deck.cards[1], card(CardKind::En, &[]));
}

#[test]
fn ex_i4_field_is_preserved() {
    let input = "EX 5 2 7 3 1.5 -0.25\nEN\n";
    let result = parse(input).expect("parse must succeed");
    assert!(result.warnings.is_empty());
    assert_eq!(result.deck.cards.len(), 2);
    assert_eq!(
        result.deck.cards[0],
        card(CardKind::Ex, &["5", "2", "7", "3", "1.5", "-0.25", "0.0", "0.0", "0.0", "0.0"])
    );
}

#[test]
fn rp_card_accepts_both_7_field_and_8_field_xnda_forms() {
    let seven = parse("RP 0 19 1 30.0 0.0 5.0 0.0\nEN\n").expect("parse 7-field");
    let eight = parse("RP 0 19 1 1000 30.0 0.0 5.0 0.0\nEN\n").expect("parse 8-field");
    let r7 = &seven.deck.cards[0];
    let r8 = &eight.deck.cards[0];
    assert_eq!(r8.fields[3], "30.0", "8-field theta0 must be 30, not XNDA=1000");
    assert_eq!(r7.fields[..7], r8.fields[..7]);
    assert!(rp_normalize(r8.fields[7].parse::<u32>().unwrap()));
    assert!(!rp_normalize(r7.fields[7].parse::<u32>().unwrap()));
}

#[test]
fn ex_plane_wave_polarization_f3_is_captured() {
    let input = "EX 1 1 1 0 30.0 0.0 45.0\nEN\n";
    let result = parse(input).expect("parse must succeed");
    assert_eq!(
        result.deck.cards[0],
        card(CardKind::Ex, &["1", "1", "1", "0", "30.0", "0.0", "45.0", "0.0", "0.0", "0.0"])
    );
    let no_f3 = parse("EX 0 1 26 0 1.0 0.0\nEN\n").expect("parse");
    assert_eq!(no_f3.deck.cards[0].fields[6], "0.0");
}

#[test]
fn parse_gn_type_and_optional_medium_params() {
    let input = "GW 1 3 0 0 1 0 0 4 0.001\nGN 2 0 0 0 13.0 0.005\nEN\n";
    let result = parse(input).expect("parse must succeed");
    assert!(result.warnings.is_empty());
    let gn = result.deck.cards.iter().find(|c| c.kind == CardKind::Gn);
    assert_eq!(gn, Some(&card(CardKind::Gn, &["2", "13.0", "0.005"])));
}

#[test]
fn parse_ge_defaults_flag_to_zero_when_omitted() {
    let input = "GW 1 3 0 0 1 0 0 4 0.001\nGE\nEN\n";
    let result = parse(input).expect("parse must succeed");
    assert!(result.warnings.is_empty());
    let ge = result.deck.cards.iter().find(|c| c.kind == CardKind::Ge);
    assert_eq!(ge, Some(&card(CardKind::Ge, &["0"])));
}

#[test]
fn parser_recognises_gm_card() {
    let input = "GW 1 3 0 0 1 0 0 4 0.001\nGM 0 1 0 0 0 1.0 0 0 1\nEN\n";
    let result = parse(input).expect("parse must succeed");
    assert!(result.warnings.is_empty());
    let gm = result.deck.cards.iter().find(|c| c.kind == CardKind::Gm);
    assert_eq!(
        gm,
        Some(&card(CardKind::Gm, &["0", "1", "0", "0", "0", "1.0", "0", "0", "1"]))
    );
}

#[test]
fn parser_recognises_gr_card() {
    let input = "GW 1 3 0.5 0 1 0.5 0 4 0.001\nGR 1 1 180.0\nEN\n";
    let result = parse(input).expect("parse must succeed");
    assert!(result.warnings.is_empty());
    let gr = result.deck.cards.iter().find(|c| c.kind == CardKind::Gr);
    assert_eq!(gr, Some(&card(CardKind::Gr, &["1", "1", "180.0"])));
}

#[test]
fn parser_recognises_pt_card() {
    let input = "GW 1 3 0 0 1 0 0 4 0.001\nPT -1 0 0 0 0 0 0 0 0 0 0 0 0\nEN\n";
    let result = parse(input).expect("parse must succeed");
    assert!(result.warnings.is_empty());
    let pt = result.deck.cards.iter().find(|c| c.kind == CardKind::Pt);
    assert!(pt.is_some());
    assert_eq!(pt.unwrap().fields.len(), 13);
}

#[test]
fn gm_too_few_fields_is_error() {
    let input = "GM 0 1 0 0\nEN\n";
    assert!(parse(input).is_err());
}

#[test]
fn gr_too_few_fields_is_error() {
    let input = "GR 1 1\nEN\n";
    assert!(parse(input).is_err());
}

// --- further behaviour -------------------------------------------------------

#[test]
fn errors_carry_line_card_field_and_text() {
    match parse("CM x\nGW 1 11 X 0.0 -2.677 0.0 0.0 2.677 0.001\n") {
        Err(ParseError::BadField { line, card, field, raw }) => {
            assert_eq!((line, card.as_str(), field, raw.as_str()), (2, "GW", 3, "X"));
        }
        _ => panic!("expected a BadField error"),
    }
    match parse("GW 1 11 0.0\n") {
        Err(e) => {
            assert_eq!(
                e,
                ParseError::TooFewFields { line: 1, card: "GW".to_string(), need: 9, got: 3 }
            );
            assert_eq!(e.message(), "line 1: GW needs 9 fields, got 3");
        }
        Ok(_) => panic!("expected an error"),
    }
}

#[test]
fn ex_optional_fields_are_checked_before_the_integer_fields() {
    match parse("EX Q 1 1 0 1.0 Z\n") {
        Err(ParseError::BadField { field, raw, .. }) => {
            assert_eq!((field, raw.as_str()), (6, "Z"));
        }
        _ => panic!("expected a BadField error"),
    }
}

#[test]
fn mnemonics_are_case_insensitive_and_unknown_ones_upper_cased() {
    let r = parse("gw 1 1 0 0 0 0 0 1 0.001\nxq\nen\n").expect("parse");
    assert_eq!(r.deck.cards[0].kind, CardKind::Gw);
    assert_eq!(
        r.warnings,
        vec![ParseError::UnknownCard { line: 2, mnemonic: "XQ".to_string() }]
    );
    assert_eq!(r.deck.cards[1].kind, CardKind::En);
}

#[test]
fn fr_canonical_form_skips_i3_i4() {
    let r = parse("FR 0 3 0 0 14.2 0.1\nEN\n").expect("parse");
    assert_eq!(r.deck.cards[0], card(CardKind::Fr, &["0", "3", "14.2", "0.1"]));
}

#[test]
fn tl_velocity_defaults_to_one() {
    let r = parse("TL 1 1 2 1 1 0 50 1.5\nEN\n").expect("parse");
    assert_eq!(
        r.deck.cards[0],
        card(CardKind::Tl, &["1", "1", "2", "1", "1", "0", "50", "1.5", "1.0"])
    );
}

#[test]
fn ld_fills_missing_values() {
    let r = parse("LD 4 1 2 0 50\nEN\n").expect("parse");
    assert_eq!(
        r.deck.cards[0],
        card(CardKind::Ld, &["4", "1", "2", "0", "50", "0.0", "0.0"])
    );
}

#[test]
fn ne_and_nh_near_field_cards() {
    let r = parse("NE 0 1 1 10 0 0 1\nNH 0 1 1 1\nEN\n").expect("parse");
    assert_eq!(
        r.deck.cards[0],
        card(CardKind::Ne, &["0", "1", "1", "10", "0", "0", "1", "0.0", "0.0", "0.0"])
    );
    assert_eq!(r.deck.cards[1].kind, CardKind::Nh);
}

#[test]
fn float_syntax_follows_rust_f64() {
    for ok in ["1", "-1.5e3", "+.5", "1.", "1E-2", "inf", "-Infinity", "NaN", "007"] {
        assert!(parse_numeric_field(1, "GW", 1, ok).is_ok(), "{ok} should be accepted");
        assert!(ok.parse::<f64>().is_ok());
    }
    for bad in ["", ".", "e5", "1e", "1e+", "--1", "1.2.3", "0x10", "1_000", " 1", "infinit"] {
        assert!(parse_numeric_field(1, "GW", 1, bad).is_err(), "{bad} should be refused");
        assert!(bad.parse::<f64>().is_err());
    }
}

#[test]
fn crlf_line_endings_are_accepted() {
    let r = parse("CM a\r\nGW 1 1 0 0 0 0 0 1 0.001\r\nEN\r\n").expect("parse");
    assert_eq!(r.deck.cards.len(), 3);
    assert_eq!(r.deck.cards[0], card(CardKind::Comment, &["a"]));
}

#[test]
fn split_mnemonic_and_fields() {
    assert_eq!(split_mnemonic("GW 1  2"), ("GW", " 1  2"));
    assert_eq!(split_mnemonic("EN"), ("EN", ""));
    assert_eq!(parse_fields("  a b\t c "), vec!["a", "b", "c"]);
}

#[test]
fn an_unknown_card_changes_only_the_warnings() {
    let with = parse("CM a\nGW 1 3 0 0 0 0 0 1 0.001\nZZ 9 9\nEX 0 1 2 0 1 0\nEN\n").ok().unwrap();
    let without = parse("CM a\nGW 1 3 0 0 0 0 0 1 0.001\nEX 0 1 2 0 1 0\nEN\n").ok().unwrap();
    assert_eq!(with.deck.cards, without.deck.cards);
    assert_eq!(with.warnings.len(), without.warnings.len() + 1);
    // after EN the unknown card is never read
    let late = parse("CM a\nEN\nZZ 9 9\n").ok().unwrap();
    assert!(late.warnings.is_empty());
    // a fatal error later in the deck is fatal either way
    assert!(parse("ZZ\nGW 1\n").is_err());
    assert!(parse("GW 1\n").is_err());
}
