//! NEC deck parser.
//!
//! Parses geometry, program-control, and loading cards:
//! `CM`, `CE`, `GW`, `GE`, `GM`, `GR`, `GN`, `EX`, `FR`, `RP`, `NE`, `NH`,
//! `LD`, `TL`, `NT`, `PT`, `EN`.
//!
//! Unknown cards produce a [`ParseError::UnknownCard`] warning but do not stop
//! parsing; a missing field or a field that is not a number stops it.
//!
//! Field layout of each kind in [`Card::fields`] (numbers are the 1-based
//! positions of the deck fields they come from):
//!
//! | kind | fields |
//! |------|--------|
//! | `Comment` | the text after the mnemonic, trimmed |
//! | `Gw`, `Gm` | deck fields 1–9 |
//! | `Gr` | deck fields 1–3 |
//! | `Ge` | field 1, `0` when absent |
//! | `Gn` | field 1, then 5 and 6 when present |
//! | `Ex`, `Ne`, `Nh` | fields 1–4, then 5–10 with `0.0` for each absent one |
//! | `Fr` | fields 1, 2, then 5, 6 (six or more fields) or 3, 4 |
//! | `Rp` | fields 1–3, the four angles (from field 5 with eight or more fields, else 4), then `XNDA` (field 4 with eight or more fields, else `0`) |
//! | `Ld` | fields 1–4, then 5–7 with `0.0` for each absent one |
//! | `Tl` | fields 1–8, then 9 (`1.0` when absent) |
//! | `Pt`, `Nt` | every field, verbatim |
//! | `En` | none |

use vstd::prelude::*;
use crate::card::{Card, CardKind, CardView, NecDeck, cards_view, strings_view};
use crate::text::{
    chars_of, float_text_ok, is_ascii_ws, is_float_text, is_ascii_whitespace_char, lines, lines_of,
    lines_view, split_ws, split_ws_chars, string_of, to_upper_char, trim, trim_chars, upper,
    upper_char, decimal_text, u64_text,
};

verus! {

/// A parse error.
#[derive(Debug, Clone, PartialEq)]
pub enum ParseError {
    /// A card mnemonic was encountered that this parser does not recognise.
    UnknownCard { line: usize, mnemonic: String },
    /// A field could not be read as a number.
    BadField { line: usize, card: String, field: usize, raw: String },
    /// A card did not have enough fields.
    TooFewFields { line: usize, card: String, need: usize, got: usize },
}

/// The mathematical value of a [`ParseError`].
pub enum ParseErrorView {
    UnknownCard { line: nat, mnemonic: Seq<char> },
    BadField { line: nat, card: Seq<char>, field: nat, raw: Seq<char> },
    TooFewFields { line: nat, card: Seq<char>, need: nat, got: nat },
}

impl View for ParseError {
    type V = ParseErrorView;

    open spec fn view(&self) -> ParseErrorView {
        match self {
            ParseError::UnknownCard { line, mnemonic } => ParseErrorView::UnknownCard {
                line: *line as nat,
                mnemonic: mnemonic@,
            },
            ParseError::BadField { line, card, field, raw } => ParseErrorView::BadField {
                line: *line as nat,
                card: card@,
                field: *field as nat,
                raw: raw@,
            },
            ParseError::TooFewFields { line, card, need, got } => ParseErrorView::TooFewFields {
                line: *line as nat,
                card: card@,
                need: *need as nat,
                got: *got as nat,
            },
        }
    }
}

pub open spec fn errors_view(v: Seq<ParseError>) -> Seq<ParseErrorView> {
    v.map_values(|e: ParseError| e@)
}

/// Result of parsing a NEC deck.
///
/// Non-fatal errors (unknown cards) are collected in `warnings` while parsing
/// continues.  Fatal errors (missing or non-numeric fields) are returned
/// early via `Err`.
pub struct ParseResult {
    pub deck: NecDeck,
    /// Non-fatal warnings accumulated during parsing.
    pub warnings: Vec<ParseError>,
}

// ---------------------------------------------------------------------------
// The grammar
// ---------------------------------------------------------------------------

/// Number of leading characters that are not ASCII whitespace.
pub open spec fn word_len(t: Seq<char>) -> nat
    decreases t.len(),
{
    if t.len() > 0 && !is_ascii_ws(t[0]) {
        1 + word_len(t.skip(1))
    } else {
        0
    }
}

/// The mnemonic of a trimmed line: everything before the first ASCII
/// whitespace character.
pub open spec fn mnemonic_of(t: Seq<char>) -> Seq<char> {
    t.take(word_len(t) as int)
}

/// What follows the mnemonic, starting with the whitespace that ends it.
pub open spec fn rest_of(t: Seq<char>) -> Seq<char> {
    t.skip(word_len(t) as int)
}

/// The card kind an upper-cased mnemonic names.
pub open spec fn kind_of(m: Seq<char>) -> Option<CardKind> {
    if m == seq!['C', 'M'] || m == seq!['C', 'E'] {
        Some(CardKind::Comment)
    } else if m == seq!['G', 'W'] {
        Some(CardKind::Gw)
    } else if m == seq!['G', 'E'] {
        Some(CardKind::Ge)
    } else if m == seq!['G', 'M'] {
        Some(CardKind::Gm)
    } else if m == seq!['G', 'R'] {
        Some(CardKind::Gr)
    } else if m == seq!['G', 'N'] {
        Some(CardKind::Gn)
    } else if m == seq!['E', 'X'] {
        Some(CardKind::Ex)
    } else if m == seq!['N', 'E'] {
        Some(CardKind::Ne)
    } else if m == seq!['N', 'H'] {
        Some(CardKind::Nh)
    } else if m == seq!['F', 'R'] {
        Some(CardKind::Fr)
    } else if m == seq!['R', 'P'] {
        Some(CardKind::Rp)
    } else if m == seq!['L', 'D'] {
        Some(CardKind::Ld)
    } else if m == seq!['T', 'L'] {
        Some(CardKind::Tl)
    } else if m == seq!['N', 'T'] {
        Some(CardKind::Nt)
    } else if m == seq!['P', 'T'] {
        Some(CardKind::Pt)
    } else if m == seq!['E', 'N'] {
        Some(CardKind::En)
    } else {
        None
    }
}

/// The number of fields a card of kind `k` must have.
pub open spec fn need_of(k: CardKind) -> nat {
    match k {
        CardKind::Gw | CardKind::Gm => 9,
        CardKind::Gr => 3,
        CardKind::Gn => 1,
        CardKind::Ex | CardKind::Ne | CardKind::Nh | CardKind::Fr | CardKind::Ld => 4,
        CardKind::Rp => 7,
        CardKind::Tl => 8,
        _ => 0,
    }
}

/// `lo, lo + 1, ..., hi - 1`.
pub open spec fn range_seq(lo: int, hi: int) -> Seq<int> {
    Seq::new(if hi > lo { (hi - lo) as nat } else { 0 }, |i: int| lo + i)
}

/// The optional field numbers `lo..=hi` that a card with `n` fields has.
pub open spec fn present(lo: int, hi: int, n: nat) -> Seq<int> {
    range_seq(lo, if n < hi { (n + 1) as int } else { hi + 1 })
}

/// First field of the four `RP` angles, counted from 0.
pub open spec fn rp_angle_start(n: nat) -> int {
    if n >= 8 { 4 } else { 3 }
}

/// First of the two `FR` frequency fields, counted from 0.
pub open spec fn fr_freq_start(n: nat) -> int {
    if n >= 6 { 4 } else { 2 }
}

/// The 1-based numbers of the fields a card of kind `k` with `n` fields reads
/// as numbers, in the order they are read.
pub open spec fn check_order(k: CardKind, n: nat) -> Seq<int> {
    match k {
        CardKind::Gw | CardKind::Gm => range_seq(1, 10),
        CardKind::Gr => range_seq(1, 4),
        CardKind::Ge => if n > 0 { seq![1] } else { Seq::empty() },
        CardKind::Gn => present(5, 6, n) + seq![1],
        CardKind::Ex => present(5, 10, n) + range_seq(1, 5),
        CardKind::Ne | CardKind::Nh => range_seq(1, 5) + present(5, 10, n),
        CardKind::Fr => seq![1, 2, fr_freq_start(n) + 1, fr_freq_start(n) + 2],
        CardKind::Rp => (if n >= 8 { seq![4] } else { Seq::empty() }) + range_seq(1, 4) + range_seq(
            rp_angle_start(n) + 1,
            rp_angle_start(n) + 5,
        ),
        CardKind::Ld => present(5, 7, n) + range_seq(1, 5),
        CardKind::Tl => present(9, 9, n) + range_seq(1, 9),
        _ => Seq::empty(),
    }
}

/// The first field number in `order` whose text is not a number.
pub open spec fn first_bad(f: Seq<Seq<char>>, order: Seq<int>) -> Option<int>
    decreases order.len(),
{
    if order.len() == 0 {
        None
    } else if !is_float_text(f[order[0] - 1]) {
        Some(order[0])
    } else {
        first_bad(f, order.skip(1))
    }
}

pub open spec fn zero_text() -> Seq<char> {
    seq!['0']
}

pub open spec fn zero_point_zero() -> Seq<char> {
    seq!['0', '.', '0']
}

pub open spec fn one_point_zero() -> Seq<char> {
    seq!['1', '.', '0']
}

/// Field `i` (0-based) of `f`, or `d` when the card has no such field.
pub open spec fn field_or(f: Seq<Seq<char>>, i: int, d: Seq<char>) -> Seq<char> {
    if i < f.len() { f[i] } else { d }
}

/// The fields of a parsed card of kind `k` with deck fields `f`, the text
/// after the mnemonic being `rest`.
pub open spec fn card_fields(k: CardKind, f: Seq<Seq<char>>, rest: Seq<char>) -> Seq<Seq<char>> {
    let n = f.len();
    match k {
        CardKind::Comment => seq![trim(rest)],
        CardKind::Gw | CardKind::Gm => f.take(9),
        CardKind::Gr => f.take(3),
        CardKind::Ge => seq![field_or(f, 0, zero_text())],
        CardKind::Gn => seq![f[0]] + (if n > 4 { seq![f[4]] } else { Seq::empty() }) + (if n > 5 {
            seq![f[5]]
        } else {
            Seq::empty()
        }),
        CardKind::Ex | CardKind::Ne | CardKind::Nh => f.take(4) + Seq::new(
            6,
            |j: int| field_or(f, 4 + j, zero_point_zero()),
        ),
        CardKind::Fr => seq![f[0], f[1], f[fr_freq_start(n)], f[fr_freq_start(n) + 1]],
        CardKind::Rp => f.take(3) + f.subrange(rp_angle_start(n), rp_angle_start(n) + 4) + seq![
            if n >= 8 { f[3] } else { zero_text() },
        ],
        CardKind::Ld => f.take(4) + Seq::new(3, |j: int| field_or(f, 4 + j, zero_point_zero())),
        CardKind::Tl => f.take(8) + seq![field_or(f, 8, one_point_zero())],
        CardKind::Pt | CardKind::Nt => f,
        CardKind::En => Seq::empty(),
    }
}

/// What one line of a deck contributes.
pub enum LineOutcome {
    /// A blank line.
    Skip,
    /// A card.
    Push(CardView),
    /// An unknown card: a warning, and parsing goes on.
    Warn(ParseErrorView),
    /// The `EN` card: parsing ends here.
    Stop(CardView),
    /// A fatal error.
    Fail(ParseErrorView),
}

/// What the deck line `line`, numbered `lineno`, contributes.
pub open spec fn line_outcome(lineno: nat, line: Seq<char>) -> LineOutcome {
    let t = trim(line);
    if t.len() == 0 {
        LineOutcome::Skip
    } else {
        let m = upper(mnemonic_of(t));
        let rest = rest_of(t);
        match kind_of(m) {
            None => LineOutcome::Warn(ParseErrorView::UnknownCard { line: lineno, mnemonic: m }),
            Some(k) => {
                if k == CardKind::En {
                    LineOutcome::Stop(CardView { kind: CardKind::En, fields: Seq::empty() })
                } else {
                    let f = split_ws(rest);
                    if f.len() < need_of(k) {
                        LineOutcome::Fail(
                            ParseErrorView::TooFewFields {
                                line: lineno,
                                card: m,
                                need: need_of(k),
                                got: f.len(),
                            },
                        )
                    } else {
                        match first_bad(f, check_order(k, f.len())) {
                            Some(i) => LineOutcome::Fail(
                                ParseErrorView::BadField {
                                    line: lineno,
                                    card: m,
                                    field: i as nat,
                                    raw: f[i - 1],
                                },
                            ),
                            None => LineOutcome::Push(
                                CardView { kind: k, fields: card_fields(k, f, rest) },
                            ),
                        }
                    }
                }
            },
        }
    }
}

pub type Parsed = Result<(Seq<CardView>, Seq<ParseErrorView>), ParseErrorView>;

/// Cards and warnings of `ls[i..]`, whose first line is numbered `i + 1`.
pub open spec fn parse_lines(ls: Seq<Seq<char>>, i: int) -> Parsed
    decreases ls.len() - i,
{
    if i < 0 || i >= ls.len() {
        Ok((Seq::empty(), Seq::empty()))
    } else {
        match line_outcome((i + 1) as nat, ls[i]) {
            LineOutcome::Skip => parse_lines(ls, i + 1),
            LineOutcome::Push(c) => after(seq![c], Seq::empty(), parse_lines(ls, i + 1)),
            LineOutcome::Warn(w) => after(Seq::empty(), seq![w], parse_lines(ls, i + 1)),
            LineOutcome::Stop(c) => Ok((seq![c], Seq::empty())),
            LineOutcome::Fail(e) => Err(e),
        }
    }
}

/// `cs` and `ws` in front of the cards and warnings of `r`.
pub open spec fn after(cs: Seq<CardView>, ws: Seq<ParseErrorView>, r: Parsed) -> Parsed {
    match r {
        Ok((c, w)) => Ok((cs + c, ws + w)),
        Err(e) => Err(e),
    }
}

/// The parse of a whole deck text.
pub open spec fn parse_spec(input: Seq<char>) -> Parsed {
    parse_lines(lines(input), 0)
}

pub proof fn lemma_after_after(
    cs1: Seq<CardView>,
    ws1: Seq<ParseErrorView>,
    cs2: Seq<CardView>,
    ws2: Seq<ParseErrorView>,
    r: Parsed,
)
    ensures
        after(cs1, ws1, after(cs2, ws2, r)) == after(cs1 + cs2, ws1 + ws2, r),
{
    match r {
        Ok((c, w)) => {
            assert(cs1 + (cs2 + c) =~= (cs1 + cs2) + c);
            assert(ws1 + (ws2 + w) =~= (ws1 + ws2) + w);
        },
        Err(_) => {},
    }
}

// ---------------------------------------------------------------------------
// Line-level helpers
// ---------------------------------------------------------------------------

pub proof fn lemma_word_len(t: Seq<char>, i: int)
    requires
        0 <= i <= t.len(),
        forall|j: int| 0 <= j < i ==> !is_ascii_ws(t[j]),
        i == t.len() || is_ascii_ws(t[i]),
    ensures
        word_len(t) == i,
    decreases i,
{
    if i > 0 {
        lemma_word_len(t.skip(1), i - 1);
    }
}

/// Length of the mnemonic at the start of `t`.
fn word_end(t: &[char]) -> (r: usize)
    ensures
        r == word_len(t@),
        r <= t.len(),
{
    let mut i: usize = 0;
    while i < t.len() && !is_ascii_whitespace_char(t[i])
        invariant
            i <= t.len(),
            forall|j: int| 0 <= j < i ==> !is_ascii_ws(t@[j]),
        decreases t.len() - i,
    {
        i = i + 1;
    }
    proof {
        lemma_word_len(t@, i as int);
    }
    i
}

/// Split a line into its mnemonic (everything before the first ASCII
/// whitespace character) and the rest (from that character on).
pub fn split_mnemonic(line: &str) -> (r: (&str, &str))
    ensures
        r.0@ == mnemonic_of(line@),
        r.1@ == rest_of(line@),
{
    let v = chars_of(line);
    let p = word_end(&v);
    let n = line.unicode_len();
    (line.substring_char(0, p), line.substring_char(p, n))
}

/// `str::split_whitespace`, collected.
pub fn parse_fields(s: &str) -> (r: Vec<String>)
    ensures
        strings_view(r@) == split_ws(s@),
{
    let v = chars_of(s);
    let f = split_ws_chars(&v);
    strings_of(&f)
}

fn strings_of(f: &Vec<Vec<char>>) -> (r: Vec<String>)
    ensures
        strings_view(r@) == lines_view(f@),
{
    let mut out: Vec<String> = Vec::new();
    let mut i: usize = 0;
    while i < f.len()
        invariant
            i <= f.len(),
            out.len() == i,
            forall|j: int| 0 <= j < i ==> #[trigger] out@[j]@ == f@[j]@,
        decreases f.len() - i,
    {
        let s = string_of(&f[i]);
        out.push(s);
        i = i + 1;
    }
    assert(strings_view(out@) =~= lines_view(f@));
    out
}

/// The `TooFewFields` error when `fields` has fewer than `need` entries.
pub fn require_fields(lineno: usize, card: &str, fields: &[String], need: usize) -> (r: Result<(), ParseError>)
    ensures
        fields@.len() < need ==> r is Err && r->Err_0@ == (ParseErrorView::TooFewFields {
            line: lineno as nat,
            card: card@,
            need: need as nat,
            got: fields@.len(),
        }),
        fields@.len() >= need ==> r is Ok,
{
    if fields.len() < need {
        Err(
            ParseError::TooFewFields {
                line: lineno,
                card: card.to_owned(),
                need,
                got: fields.len(),
            },
        )
    } else {
        Ok(())
    }
}

/// Read field number `field` of a card as a number: `Ok` with its text when
/// the text is a number a Rust `f64` parses from, `BadField` otherwise.
pub fn parse_numeric_field(lineno: usize, card: &str, field: usize, s: &str) -> (r: Result<
    String,
    ParseError,
>)
    ensures
        is_float_text(s@) ==> r is Ok && r->Ok_0@ == s@,
        !is_float_text(s@) ==> r is Err && r->Err_0@ == (ParseErrorView::BadField {
            line: lineno as nat,
            card: card@,
            field: field as nat,
            raw: s@,
        }),
{
    let v = chars_of(s);
    if float_text_ok(&v) {
        Ok(s.to_owned())
    } else {
        Err(
            ParseError::BadField {
                line: lineno,
                card: card.to_owned(),
                field,
                raw: s.to_owned(),
            },
        )
    }
}

/// Whether an `RP` card's `XNDA` value asks for normalized gain: its
/// thousands digit is not zero.
pub fn rp_normalize(xnda: u32) -> (r: bool)
    ensures
        r == ((xnda / 1000) % 10 != 0),
{
    (xnda / 1000) % 10 != 0
}

// ---------------------------------------------------------------------------
// Executable card reading
// ---------------------------------------------------------------------------

/// What one line contributes (executable form of [`LineOutcome`]).
pub enum LineResult {
    Skip,
    Push(Card),
    Warn(ParseError),
    Stop(Card),
    Fail(ParseError),
}

impl LineResult {
    pub open spec fn view_as(&self) -> LineOutcome {
        match self {
            LineResult::Skip => LineOutcome::Skip,
            LineResult::Push(c) => LineOutcome::Push(c@),
            LineResult::Warn(e) => LineOutcome::Warn(e@),
            LineResult::Stop(c) => LineOutcome::Stop(c@),
            LineResult::Fail(e) => LineOutcome::Fail(e@),
        }
    }
}

fn eq2(m: &[char], a: char, b: char) -> (r: bool)
    ensures
        r == (m@ == seq![a, b]),
{
    let r = m.len() == 2 && m[0] == a && m[1] == b;
    proof {
        if m.len() == 2 && m[0] == a && m[1] == b {
            assert(m@ =~= seq![a, b]);
        }
    }
    r
}

fn kind_from(m: &[char]) -> (r: Option<CardKind>)
    ensures
        r == kind_of(m@),
{
    if eq2(m, 'C', 'M') || eq2(m, 'C', 'E') {
        Some(CardKind::Comment)
    } else if eq2(m, 'G', 'W') {
        Some(CardKind::Gw)
    } else if eq2(m, 'G', 'E') {
        Some(CardKind::Ge)
    } else if eq2(m, 'G', 'M') {
        Some(CardKind::Gm)
    } else if eq2(m, 'G', 'R') {
        Some(CardKind::Gr)
    } else if eq2(m, 'G', 'N') {
        Some(CardKind::Gn)
    } else if eq2(m, 'E', 'X') {
        Some(CardKind::Ex)
    } else if eq2(m, 'N', 'E') {
        Some(CardKind::Ne)
    } else if eq2(m, 'N', 'H') {
        Some(CardKind::Nh)
    } else if eq2(m, 'F', 'R') {
        Some(CardKind::Fr)
    } else if eq2(m, 'R', 'P') {
        Some(CardKind::Rp)
    } else if eq2(m, 'L', 'D') {
        Some(CardKind::Ld)
    } else if eq2(m, 'T', 'L') {
        Some(CardKind::Tl)
    } else if eq2(m, 'N', 'T') {
        Some(CardKind::Nt)
    } else if eq2(m, 'P', 'T') {
        Some(CardKind::Pt)
    } else if eq2(m, 'E', 'N') {
        Some(CardKind::En)
    } else {
        None
    }
}

fn need_for(k: CardKind) -> (r: usize)
    ensures
        r == need_of(k),
{
    match k {
        CardKind::Gw | CardKind::Gm => 9,
        CardKind::Gr => 3,
        CardKind::Gn => 1,
        CardKind::Ex | CardKind::Ne | CardKind::Nh | CardKind::Fr | CardKind::Ld => 4,
        CardKind::Rp => 7,
        CardKind::Tl => 8,
        _ => 0,
    }
}

pub open spec fn ints_view(v: Seq<usize>) -> Seq<int> {
    v.map_values(|x: usize| x as int)
}

/// Appends `lo..hi` to `v`.
fn push_range(v: &mut Vec<usize>, lo: usize, hi: usize)
    ensures
        ints_view(final(v)@) == ints_view(old(v)@) + range_seq(lo as int, hi as int),
{
    let ghost start = ints_view(v@);
    if hi <= lo {
        assert(range_seq(lo as int, hi as int) =~= Seq::<int>::empty());
        assert(ints_view(v@) =~= start + range_seq(lo as int, hi as int));
        return;
    }
    let mut i = lo;
    assert(ints_view(v@) =~= start + range_seq(lo as int, lo as int));
    while i < hi
        invariant
            lo <= i <= hi,
            ints_view(v@) == start + range_seq(lo as int, i as int),
        decreases hi - i,
    {
        let ghost before = v@;
        v.push(i);
        proof {
            assert(v@ == before.push(i));
            assert(ints_view(v@) =~= ints_view(before).push(i as int));
            assert(range_seq(lo as int, (i + 1) as int) =~= range_seq(lo as int, i as int).push(
                i as int,
            ));
            assert(ints_view(v@) =~= start + range_seq(lo as int, (i + 1) as int));
        }
        i = i + 1;
    }
}

fn order_for(k: CardKind, n: usize) -> (r: Vec<usize>)
    ensures
        ints_view(r@) == check_order(k, n as nat),
{
    let mut v: Vec<usize> = Vec::new();
    proof {
        assert(ints_view(v@) =~= Seq::<int>::empty());
    }
    match k {
        CardKind::Gw | CardKind::Gm => {
            push_range(&mut v, 1, 10);
        },
        CardKind::Gr => {
            push_range(&mut v, 1, 4);
        },
        CardKind::Ge => {
            if n > 0 {
                v.push(1);
            }
        },
        CardKind::Gn => {
            push_range(&mut v, 5, if n < 6 { n + 1 } else { 7 });
            v.push(1);
        },
        CardKind::Ex => {
            push_range(&mut v, 5, if n < 10 { n + 1 } else { 11 });
            push_range(&mut v, 1, 5);
        },
        CardKind::Ne | CardKind::Nh => {
            push_range(&mut v, 1, 5);
            push_range(&mut v, 5, if n < 10 { n + 1 } else { 11 });
        },
        CardKind::Fr => {
            let fi: usize = if n >= 6 { 4 } else { 2 };
            v.push(1);
            v.push(2);
            v.push(fi + 1);
            v.push(fi + 2);
        },
        CardKind::Rp => {
            if n >= 8 {
                v.push(4);
            }
            push_range(&mut v, 1, 4);
            let a: usize = if n >= 8 { 4 } else { 3 };
            push_range(&mut v, a + 1, a + 5);
        },
        CardKind::Ld => {
            push_range(&mut v, 5, if n < 7 { n + 1 } else { 8 });
            push_range(&mut v, 1, 5);
        },
        CardKind::Tl => {
            push_range(&mut v, 9, if n < 9 { n + 1 } else { 10 });
            push_range(&mut v, 1, 9);
        },
        _ => {},
    }
    proof {
        assert(ints_view(v@) =~= check_order(k, n as nat));
    }
    v
}

/// The first field in `order` that is not a number.
fn find_bad(f: &Vec<Vec<char>>, order: &Vec<usize>) -> (r: Option<usize>)
    requires
        forall|j: int| 0 <= j < order.len() ==> 1 <= #[trigger] order@[j] <= f.len(),
    ensures
        match r {
            Some(i) => 1 <= i <= f.len() && first_bad(lines_view(f@), ints_view(order@)) == Some(i as int),
            None => first_bad(lines_view(f@), ints_view(order@)) is None,
        },
{
    let ghost fv = lines_view(f@);
    let ghost ov = ints_view(order@);
    let mut j: usize = 0;
    assert(ov.skip(0) =~= ov);
    while j < order.len()
        invariant
            j <= order.len(),
            fv == lines_view(f@),
            ov == ints_view(order@),
            forall|q: int| 0 <= q < order.len() ==> 1 <= #[trigger] order@[q] <= f.len(),
            first_bad(fv, ov) == first_bad(fv, ov.skip(j as int)),
        decreases order.len() - j,
    {
        let idx = order[j];
        proof {
            assert(ov.skip(j as int)[0] == idx as int);
            assert(ov.skip(j as int).skip(1) =~= ov.skip(j + 1));
            assert(fv[idx - 1] == f@[idx - 1]@);
        }
        if !float_text_ok(&f[idx - 1]) {
            return Some(idx);
        }
        j = j + 1;
    }
    proof {
        assert(ov.skip(j as int) =~= Seq::<int>::empty());
    }
    None
}

fn text_of(chars: &[char]) -> (r: Vec<char>)
    ensures
        r@ == chars@,
{
    let mut v: Vec<char> = Vec::new();
    let mut i: usize = 0;
    while i < chars.len()
        invariant
            i <= chars.len(),
            v@ == chars@.take(i as int),
        decreases chars.len() - i,
    {
        v.push(chars[i]);
        i = i + 1;
        assert(v@ =~= chars@.take(i as int));
    }
    assert(chars@.take(chars.len() as int) =~= chars@);
    v
}

/// Field `i` of `f`, or `d` when there is none.
fn field_or_exec(f: &Vec<Vec<char>>, i: usize, d: &[char]) -> (r: Vec<char>)
    ensures
        r@ == field_or(lines_view(f@), i as int, d@),
{
    if i < f.len() {
        f[i].clone()
    } else {
        text_of(d)
    }
}

/// The fields of a card of kind `k` (executable form of [`card_fields`]).
fn fields_for(k: CardKind, f: &Vec<Vec<char>>, rest: &[char]) -> (r: Vec<Vec<char>>)
    requires
        f.len() >= need_of(k),
        k != CardKind::Ge ==> true,
    ensures
        lines_view(r@) == card_fields(k, lines_view(f@), rest@),
{
    let ghost fv = lines_view(f@);
    let n = f.len();
    let zero = ['0'];
    let zpz = ['0', '.', '0'];
    let opz = ['1', '.', '0'];
    proof {
        assert(zero@ =~= zero_text());
        assert(zpz@ =~= zero_point_zero());
        assert(opz@ =~= one_point_zero());
    }
    let mut out: Vec<Vec<char>> = Vec::new();
    match k {
        CardKind::Comment => {
            out.push(trim_chars(rest));
        },
        CardKind::Gw | CardKind::Gm | CardKind::Gr => {
            let m: usize = if k == CardKind::Gr { 3 } else { 9 };
            let mut i: usize = 0;
            while i < m
                invariant
                    i <= m <= f.len(),
                    out.len() == i,
                    forall|j: int| 0 <= j < i ==> #[trigger] out@[j]@ == f@[j]@,
                decreases m - i,
            {
                out.push(f[i].clone());
                i = i + 1;
            }
        },
        CardKind::Ge => {
            out.push(field_or_exec(f, 0, &zero));
        },
        CardKind::Gn => {
            out.push(f[0].clone());
            if n > 4 {
                out.push(f[4].clone());
            }
            if n > 5 {
                out.push(f[5].clone());
            }
        },
        CardKind::Ex | CardKind::Ne | CardKind::Nh | CardKind::Ld => {
            let extra: usize = if k == CardKind::Ld { 3 } else { 6 };
            let mut i: usize = 0;
            while i < 4
                invariant
                    i <= 4 <= f.len(),
                    out.len() == i,
                    forall|j: int| 0 <= j < i ==> #[trigger] out@[j]@ == f@[j]@,
                decreases 4 - i,
            {
                out.push(f[i].clone());
                i = i + 1;
            }
            let mut e: usize = 0;
            while e < extra
                invariant
                    e <= extra <= 6,
                    4 <= f.len(),
                    zpz@ == zero_point_zero(),
                    fv == lines_view(f@),
                    out.len() == 4 + e,
                    forall|j: int| 0 <= j < 4 ==> #[trigger] out@[j]@ == f@[j]@,
                    forall|j: int| 0 <= j < e ==> #[trigger] out@[4 + j]@ == field_or(fv, 4 + j, zero_point_zero()),
                decreases extra - e,
            {
                out.push(field_or_exec(f, 4 + e, &zpz));
                e = e + 1;
            }
            proof {
                assert forall|j: int| 0 <= j < 4 + extra implies #[trigger] lines_view(out@)[j] == card_fields(k, fv, rest@)[j] by {
                    if j >= 4 {
                        assert(out@[4 + (j - 4)]@ == field_or(fv, 4 + (j - 4), zero_point_zero()));
                    }
                }
            }
        },
        CardKind::Fr => {
            let fi: usize = if n >= 6 { 4 } else { 2 };
            out.push(f[0].clone());
            out.push(f[1].clone());
            out.push(f[fi].clone());
            out.push(f[fi + 1].clone());
        },
        CardKind::Rp => {
            let a: usize = if n >= 8 { 4 } else { 3 };
            out.push(f[0].clone());
            out.push(f[1].clone());
            out.push(f[2].clone());
            out.push(f[a].clone());
            out.push(f[a + 1].clone());
            out.push(f[a + 2].clone());
            out.push(f[a + 3].clone());
            if n >= 8 {
                out.push(f[3].clone());
            } else {
                out.push(text_of(&zero));
            }
        },
        CardKind::Tl => {
            let mut i: usize = 0;
            while i < 8
                invariant
                    i <= 8 <= f.len(),
                    out.len() == i,
                    forall|j: int| 0 <= j < i ==> #[trigger] out@[j]@ == f@[j]@,
                decreases 8 - i,
            {
                out.push(f[i].clone());
                i = i + 1;
            }
            out.push(field_or_exec(f, 8, &opz));
        },
        CardKind::Pt | CardKind::Nt => {
            out = f.clone();
        },
        CardKind::En => {},
    }
    proof {
        assert(lines_view(out@) =~= card_fields(k, fv, rest@));
    }
    out
}

/// What the deck line `line`, numbered `lineno`, contributes.
pub fn parse_line(lineno: usize, line: &[char]) -> (r: LineResult)
    ensures
        r.view_as() == line_outcome(lineno as nat, line@),
{
    let t = trim_chars(line);
    if t.len() == 0 {
        return LineResult::Skip;
    }
    let p = word_end(&t);
    let mut m: Vec<char> = Vec::new();
    let mut i: usize = 0;
    while i < p
        invariant
            i <= p <= t.len(),
            m@ == upper(t@.take(i as int)),
        decreases p - i,
    {
        m.push(to_upper_char(t[i]));
        i = i + 1;
        proof {
            assert(m@ =~= upper(t@.take(i as int)));
        }
    }
    let ghost mv = upper(mnemonic_of(t@));
    assert(m@ == mv);
    let mut rest: Vec<char> = Vec::new();
    let mut j: usize = p;
    while j < t.len()
        invariant
            p <= j <= t.len(),
            rest@ == t@.subrange(p as int, j as int),
        decreases t.len() - j,
    {
        rest.push(t[j]);
        j = j + 1;
        assert(rest@ =~= t@.subrange(p as int, j as int));
    }
    assert(rest@ =~= rest_of(t@));
    let card = string_of(&m);
    match kind_from(&m) {
        None => LineResult::Warn(ParseError::UnknownCard { line: lineno, mnemonic: card }),
        Some(k) => {
            if k == CardKind::En {
                let c = Card { kind: CardKind::En, fields: Vec::new() };
                assert(c@.fields =~= Seq::<Seq<char>>::empty());
                return LineResult::Stop(c);
            }
            let f = split_ws_chars(&rest);
            let need = need_for(k);
            if f.len() < need {
                return LineResult::Fail(
                    ParseError::TooFewFields { line: lineno, card, need, got: f.len() },
                );
            }
            let order = order_for(k, f.len());
            proof {
                assert forall|q: int| 0 <= q < order.len() implies 1 <= #[trigger] order@[q] <= f.len() by {
                    assert(ints_view(order@)[q] == order@[q] as int);
                }
            }
            match find_bad(&f, &order) {
                Some(idx) => {
                    let raw = string_of(&f[idx - 1]);
                    proof {
                        assert(lines_view(f@)[idx - 1] == f@[idx - 1]@);
                    }
                    LineResult::Fail(
                        ParseError::BadField { line: lineno, card, field: idx, raw },
                    )
                },
                None => {
                    let cf = fields_for(k, &f, &rest);
                    let fields = strings_of(&cf);
                    LineResult::Push(Card { kind: k, fields })
                },
            }
        },
    }
}

/// Parse a NEC deck from a string.
///
/// Returns `Err` on the first fatal parse error.  Unknown cards are collected
/// as non-fatal warnings and parsing continues; parsing stops at `EN`.
pub fn parse(input: &str) -> (r: Result<ParseResult, ParseError>)
    ensures
        match r {
            Ok(p) => parse_spec(input@) == Ok::<(Seq<CardView>, Seq<ParseErrorView>), ParseErrorView>(
                (cards_view(p.deck.cards@), errors_view(p.warnings@)),
            ),
            Err(e) => parse_spec(input@) == Err::<(Seq<CardView>, Seq<ParseErrorView>), ParseErrorView>(e@),
        },
{
    let chars = chars_of(input);
    let ls = lines_of(&chars);
    let ghost lv = lines(input@);
    let mut deck = NecDeck::new();
    let mut warnings: Vec<ParseError> = Vec::new();
    let mut idx: usize = 0;
    proof {
        assert(cards_view(deck.cards@) =~= Seq::<CardView>::empty());
        assert(errors_view(warnings@) =~= Seq::<ParseErrorView>::empty());
        match parse_lines(lv, 0) {
            Ok((c, w)) => {
                assert(Seq::<CardView>::empty() + c =~= c);
                assert(Seq::<ParseErrorView>::empty() + w =~= w);
            },
            Err(_) => {},
        }
    }
    while idx < ls.len()
        invariant
            lv == lines_view(ls@),
            lv == lines(input@),
            idx <= ls.len(),
            parse_spec(input@) == after(
                cards_view(deck.cards@),
                errors_view(warnings@),
                parse_lines(lv, idx as int),
            ),
        decreases ls.len() - idx,
    {
        proof {
            assert(lv[idx as int] == ls@[idx as int]@);
        }
        let lineno = idx + 1;
        let ghost cs = cards_view(deck.cards@);
        let ghost ws = errors_view(warnings@);
        let outcome = parse_line(lineno, &ls[idx]);
        match outcome {
            LineResult::Skip => {},
            LineResult::Push(c) => {
                let ghost cv = c@;
                deck.cards.push(c);
                proof {
                    lemma_after_after(cs, ws, seq![cv], Seq::empty(), parse_lines(lv, idx + 1));
                    assert(cards_view(deck.cards@) =~= cs + seq![cv]);
                    assert(ws + Seq::<ParseErrorView>::empty() =~= ws);
                }
            },
            LineResult::Warn(w) => {
                let ghost wv = w@;
                warnings.push(w);
                proof {
                    lemma_after_after(cs, ws, Seq::empty(), seq![wv], parse_lines(lv, idx + 1));
                    assert(errors_view(warnings@) =~= ws + seq![wv]);
                    assert(cs + Seq::<CardView>::empty() =~= cs);
                }
            },
            LineResult::Stop(c) => {
                let ghost cv = c@;
                deck.cards.push(c);
                proof {
                    assert(cards_view(deck.cards@) =~= cs + seq![cv]);
                    assert(ws + Seq::<ParseErrorView>::empty() =~= ws);
                }
                return Ok(ParseResult { deck, warnings });
            },
            LineResult::Fail(e) => {
                return Err(e);
            },
        }
        idx = idx + 1;
    }
    proof {
        assert(cs_empty_ok(cards_view(deck.cards@), errors_view(warnings@)));
    }
    Ok(ParseResult { deck, warnings })
}

spec fn cs_empty_ok(cs: Seq<CardView>, ws: Seq<ParseErrorView>) -> bool {
    after(cs, ws, Ok((Seq::empty(), Seq::empty()))) == Ok::<
        (Seq<CardView>, Seq<ParseErrorView>),
        ParseErrorView,
    >((cs, ws))
}

impl ParseError {
    /// The message shown for this error.
    pub fn message(&self) -> (r: String)
        ensures
            r@ == error_message(self@),
    {
        let mut r = String::new();
        match self {
            ParseError::UnknownCard { line, mnemonic } => {
                r.append("line ");
                r.append(string_of(&u64_text(*line as u64)).as_str());
                r.append(": unknown card '");
                r.append(mnemonic.as_str());
                r.append("'");
            },
            ParseError::BadField { line, card, field, raw } => {
                r.append("line ");
                r.append(string_of(&u64_text(*line as u64)).as_str());
                r.append(": ");
                r.append(card.as_str());
                r.append(" field ");
                r.append(string_of(&u64_text(*field as u64)).as_str());
                r.append(": cannot parse '");
                r.append(raw.as_str());
                r.append("'");
            },
            ParseError::TooFewFields { line, card, need, got } => {
                r.append("line ");
                r.append(string_of(&u64_text(*line as u64)).as_str());
                r.append(": ");
                r.append(card.as_str());
                r.append(" needs ");
                r.append(string_of(&u64_text(*need as u64)).as_str());
                r.append(" fields, got ");
                r.append(string_of(&u64_text(*got as u64)).as_str());
            },
        }
        r
    }
}

/// The text of a parse error's message.
pub open spec fn error_message(e: ParseErrorView) -> Seq<char> {
    match e {
        ParseErrorView::UnknownCard { line, mnemonic } => "line "@ + decimal_text(line)
            + ": unknown card '"@ + mnemonic + "'"@,
        ParseErrorView::BadField { line, card, field, raw } => "line "@ + decimal_text(line) + ": "@
            + card + " field "@ + decimal_text(field) + ": cannot parse '"@ + raw + "'"@,
        ParseErrorView::TooFewFields { line, card, need, got } => "line "@ + decimal_text(line)
            + ": "@ + card + " needs "@ + decimal_text(need) + " fields, got "@ + decimal_text(
            got,
        ),
    }
}

} // verus!

verus! {

// ---------------------------------------------------------------------------
// Laws of the parser
// ---------------------------------------------------------------------------

/// A pushed line never carries the `EN` card.
proof fn lemma_push_not_en(lineno: nat, line: Seq<char>)
    ensures
        line_outcome(lineno, line) matches LineOutcome::Push(c) ==> c.kind != CardKind::En,
        line_outcome(lineno, line) matches LineOutcome::Stop(c) ==> c.kind == CardKind::En,
{
}

proof fn lemma_en_last_from(ls: Seq<Seq<char>>, i: int)
    ensures
        parse_lines(ls, i) matches Ok((cs, ws)) ==> forall|j: int|
            0 <= j < cs.len() - 1 ==> (#[trigger] cs[j]).kind != CardKind::En,
    decreases ls.len() - i,
{
    if 0 <= i < ls.len() {
        lemma_en_last_from(ls, i + 1);
        lemma_push_not_en((i + 1) as nat, ls[i]);
        match line_outcome((i + 1) as nat, ls[i]) {
            LineOutcome::Push(c) => {
                if let Ok((cs, ws)) = parse_lines(ls, i + 1) {
                    let all = seq![c] + cs;
                    assert forall|j: int| 0 <= j < all.len() - 1 implies (#[trigger] all[j]).kind
                        != CardKind::En by {
                        if j > 0 {
                            assert(all[j] == cs[j - 1]);
                        }
                    }
                }
            },
            _ => {},
        }
    }
}

/// The `EN` card, when a deck has one, is its last card: nothing after it
/// is ever parsed.
pub proof fn law_en_card_is_last(input: Seq<char>)
    ensures
        parse_spec(input) matches Ok((cs, ws)) ==> forall|j: int|
            0 <= j < cs.len() - 1 ==> (#[trigger] cs[j]).kind != CardKind::En,
{
    lemma_en_last_from(lines(input), 0);
}

proof fn lemma_same_prefix_from(ls1: Seq<Seq<char>>, ls2: Seq<Seq<char>>, k: int, i: int)
    requires
        0 <= i <= k < ls1.len(),
        k < ls2.len(),
        ls1.take(k + 1) == ls2.take(k + 1),
        line_outcome((k + 1) as nat, ls1[k]) is Stop,
    ensures
        parse_lines(ls1, i) == parse_lines(ls2, i),
    decreases k - i,
{
    assert(ls1[i] == ls1.take(k + 1)[i]);
    assert(ls2[i] == ls2.take(k + 1)[i]);
    if i < k {
        lemma_same_prefix_from(ls1, ls2, k, i + 1);
    }
}

/// Whatever follows an `EN` card does not change the parse: two decks whose
/// lines agree up to and including an `EN` line parse alike.
pub proof fn law_text_after_en_is_ignored(ls1: Seq<Seq<char>>, ls2: Seq<Seq<char>>, k: int)
    requires
        0 <= k < ls1.len(),
        k < ls2.len(),
        ls1.take(k + 1) == ls2.take(k + 1),
        line_outcome((k + 1) as nat, ls1[k]) is Stop,
    ensures
        parse_lines(ls1, 0) == parse_lines(ls2, 0),
{
    lemma_same_prefix_from(ls1, ls2, k, 0);
}

/// Two line outcomes alike but for the line numbers their errors carry.
pub open spec fn alike(o1: LineOutcome, o2: LineOutcome) -> bool {
    match (o1, o2) {
        (LineOutcome::Skip, LineOutcome::Skip) => true,
        (LineOutcome::Push(a), LineOutcome::Push(b)) => a == b,
        (LineOutcome::Warn(_), LineOutcome::Warn(_)) => true,
        (LineOutcome::Stop(a), LineOutcome::Stop(b)) => a == b,
        (LineOutcome::Fail(_), LineOutcome::Fail(_)) => true,
        _ => false,
    }
}

/// Two parses alike but for line numbers, the first with `d` more warnings:
/// both fail, or both succeed with the same cards.
pub open spec fn alike_parses(r1: Parsed, r2: Parsed, d: int) -> bool {
    match (r1, r2) {
        (Err(_), Err(_)) => true,
        (Ok((c1, w1)), Ok((c2, w2))) => c1 == c2 && w1.len() == w2.len() + d,
        _ => false,
    }
}

proof fn lemma_outcome_numbering(n1: nat, n2: nat, line: Seq<char>)
    ensures
        alike(line_outcome(n1, line), line_outcome(n2, line)),
{
}

proof fn lemma_alike_after(cs: Seq<CardView>, ws1: Seq<ParseErrorView>, ws2: Seq<ParseErrorView>, r1: Parsed, r2: Parsed, d: int)
    requires
        alike_parses(r1, r2, d),
        ws1.len() == ws2.len(),
    ensures
        alike_parses(after(cs, ws1, r1), after(cs, ws2, r2), d),
{
}

/// The lines after a removed line `i` parse alike, numbered one apart.
proof fn lemma_parse_after_removed(ls: Seq<Seq<char>>, i: int, j: int)
    requires
        0 <= i < ls.len(),
        i + 1 <= j <= ls.len(),
    ensures
        alike_parses(parse_lines(ls, j), parse_lines(ls.remove(i), j - 1), 0),
    decreases ls.len() - j,
{
    let ls2 = ls.remove(i);
    if j < ls.len() {
        lemma_parse_after_removed(ls, i, j + 1);
        assert(ls2[j - 1] == ls[j]);
        lemma_outcome_numbering((j + 1) as nat, j as nat, ls[j]);
        let o1 = line_outcome((j + 1) as nat, ls[j]);
        let o2 = line_outcome(j as nat, ls2[j - 1]);
        match o1 {
            LineOutcome::Push(c) => {
                lemma_alike_after(seq![c], Seq::empty(), Seq::empty(), parse_lines(ls, j + 1), parse_lines(ls2, j), 0);
            },
            LineOutcome::Warn(w1) => {
                let w2 = o2->Warn_0;
                lemma_alike_after(Seq::empty(), seq![w1], seq![w2], parse_lines(ls, j + 1), parse_lines(ls2, j), 0);
            },
            _ => {},
        }
    }
}

proof fn lemma_alike_warn(w: ParseErrorView, r1: Parsed, r2: Parsed)
    requires
        alike_parses(r1, r2, 0),
    ensures
        alike_parses(after(Seq::empty(), seq![w], r1), r2, 1),
{
    if let Ok((c, ws)) = r1 {
        assert(Seq::<CardView>::empty() + c =~= c);
    }
}

/// The lines before a removed unknown-card line `i` parse alike, the first
/// with that line's warning more when parsing reaches it.
proof fn lemma_parse_before_removed(ls: Seq<Seq<char>>, i: int, j: int)
    requires
        0 <= j <= i < ls.len(),
        line_outcome((i + 1) as nat, ls[i]) is Warn,
    ensures
        alike_parses(parse_lines(ls, j), parse_lines(ls.remove(i), j), 1) || alike_parses(
            parse_lines(ls, j),
            parse_lines(ls.remove(i), j),
            0,
        ),
    decreases i - j,
{
    let ls2 = ls.remove(i);
    if j == i {
        lemma_parse_after_removed(ls, i, i + 1);
        let w = line_outcome((i + 1) as nat, ls[i])->Warn_0;
        assert(parse_lines(ls, i) == after(Seq::empty(), seq![w], parse_lines(ls, i + 1)));
        lemma_alike_warn(w, parse_lines(ls, i + 1), parse_lines(ls2, i));
    } else {
        lemma_parse_before_removed(ls, i, j + 1);
        assert(ls2[j] == ls[j]);
        let o = line_outcome((j + 1) as nat, ls[j]);
        let d: int = if alike_parses(parse_lines(ls, j + 1), parse_lines(ls2, j + 1), 1) { 1 } else { 0 };
        match o {
            LineOutcome::Push(c) => {
                lemma_alike_after(seq![c], Seq::empty(), Seq::empty(), parse_lines(ls, j + 1), parse_lines(ls2, j + 1), d);
            },
            LineOutcome::Warn(w) => {
                lemma_alike_after(Seq::empty(), seq![w], seq![w], parse_lines(ls, j + 1), parse_lines(ls2, j + 1), d);
            },
            _ => {},
        }
    }
}

/// An unknown card does not stop parsing: a deck parses as it would without
/// the unknown card's line — it fails when that deck fails, and otherwise
/// gives the same cards — with that line's warning more, when parsing
/// reaches it (an `EN` card earlier ends the parse before it).
pub proof fn law_unknown_card_does_not_stop_parsing(ls: Seq<Seq<char>>, i: int)
    requires
        0 <= i < ls.len(),
        line_outcome((i + 1) as nat, ls[i]) is Warn,
    ensures
        alike_parses(parse_lines(ls, 0), parse_lines(ls.remove(i), 0), 1) || alike_parses(
            parse_lines(ls, 0),
            parse_lines(ls.remove(i), 0),
            0,
        ),
{
    lemma_parse_before_removed(ls, i, 0);
}

/// The number of fields a parsed card of kind `k` carries (`PT` and `NT`
/// keep however many the deck gave).
pub open spec fn layout_len(k: CardKind, n: nat) -> nat {
    match k {
        CardKind::Comment | CardKind::Ge => 1,
        CardKind::Gw | CardKind::Gm | CardKind::Tl => 9,
        CardKind::Gr => 3,
        CardKind::Gn => if n > 5 { 3 } else if n > 4 { 2 } else { 1 },
        CardKind::Ex | CardKind::Ne | CardKind::Nh => 10,
        CardKind::Fr => 4,
        CardKind::Rp => 8,
        CardKind::Ld => 7,
        CardKind::Pt | CardKind::Nt => n,
        CardKind::En => 0,
    }
}

/// A card in the layout of its kind: the right number of fields, and every
/// field of a numeric kind is a number.
pub open spec fn well_formed_card(c: CardView) -> bool {
    &&& (c.kind != CardKind::Pt && c.kind != CardKind::Nt && c.kind != CardKind::Gn)
        ==> c.fields.len() == layout_len(c.kind, 0)
    &&& c.kind == CardKind::Gn ==> 1 <= c.fields.len() <= 3
    &&& (c.kind != CardKind::Comment && c.kind != CardKind::Pt && c.kind != CardKind::Nt)
        ==> forall|j: int| 0 <= j < c.fields.len() ==> is_float_text(#[trigger] c.fields[j])
}

proof fn lemma_first_bad_none(f: Seq<Seq<char>>, order: Seq<int>, q: int)
    requires
        first_bad(f, order) is None,
        0 <= q < order.len(),
    ensures
        is_float_text(f[order[q] - 1]),
    decreases order.len(),
{
    if q > 0 {
        assert(order.skip(1)[q - 1] == order[q]);
        lemma_first_bad_none(f, order.skip(1), q - 1);
    }
}

/// The default texts of absent fields are numbers.
proof fn lemma_defaults_are_numbers()
    ensures
        is_float_text(zero_text()),
        is_float_text(zero_point_zero()),
        is_float_text(one_point_zero()),
{
    let z = zero_text();
    assert(crate::text::unsigned_part(z) == z);
    assert(z.skip(1) =~= Seq::<char>::empty());
    assert(crate::text::digits_prefix(z.skip(1)) == 0);
    assert(crate::text::digits_prefix(z) == 1);
    assert(z.skip(1 as int) =~= Seq::<char>::empty());
    assert(crate::text::is_decimal_number(z));
    let a = zero_point_zero();
    let b = one_point_zero();
    assert(crate::text::unsigned_part(a) == a);
    assert(crate::text::unsigned_part(b) == b);
    assert(a.skip(1) =~= seq!['.', '0']);
    assert(b.skip(1) =~= seq!['.', '0']);
    assert(crate::text::digits_prefix(seq!['.', '0']) == 0);
    assert(crate::text::digits_prefix(a) == 1);
    assert(crate::text::digits_prefix(b) == 1);
    assert(a.skip(1 as int).skip(1) =~= seq!['0']);
    assert(seq!['0'].skip(1) =~= Seq::<char>::empty());
    assert(crate::text::digits_prefix(Seq::<char>::empty()) == 0);
    assert(crate::text::digits_prefix(seq!['0']) == 1);
    assert(a.skip(1 as int).skip(1).skip(1) =~= Seq::<char>::empty());
    assert(b.skip(1 as int).skip(1).skip(1) =~= Seq::<char>::empty());
    assert(crate::text::is_decimal_number(a));
    assert(crate::text::is_decimal_number(b));
}

/// A pushed card is in the layout of its kind.
proof fn lemma_pushed_card_well_formed(lineno: nat, line: Seq<char>)
    ensures
        line_outcome(lineno, line) matches LineOutcome::Push(c) ==> well_formed_card(c),
        line_outcome(lineno, line) matches LineOutcome::Stop(c) ==> well_formed_card(c),
{
    let t = trim(line);
    if t.len() > 0 {
        let m = upper(mnemonic_of(t));
        let rest = rest_of(t);
        if let Some(k) = kind_of(m) {
            let f = split_ws(rest);
            let n = f.len();
            let order = check_order(k, n);
            if k != CardKind::En && n >= need_of(k) && first_bad(f, order) is None {
                lemma_defaults_are_numbers();
                let cf = card_fields(k, f, rest);
                // Each checked field number `q` is a number.
                assert forall|q: int| #![trigger order.contains(q)] order.contains(q) implies is_float_text(f[q - 1]) by {
                    let p = choose|p: int| 0 <= p < order.len() && order[p] == q;
                    lemma_first_bad_none(f, order, p);
                }
                if k != CardKind::Comment && k != CardKind::Pt && k != CardKind::Nt {
                    assert forall|j: int| 0 <= j < cf.len() implies is_float_text(#[trigger] cf[j]) by {
                        lemma_card_field_checked(k, f, rest, j);
                    }
                }
            }
        }
    }
}

/// Field `j` of a parsed card is a checked deck field or a default text.
proof fn lemma_card_field_checked(k: CardKind, f: Seq<Seq<char>>, rest: Seq<char>, j: int)
    requires
        k != CardKind::Comment && k != CardKind::Pt && k != CardKind::Nt && k != CardKind::En,
        f.len() >= need_of(k),
        0 <= j < card_fields(k, f, rest).len(),
        forall|q: int| #![trigger check_order(k, f.len()).contains(q)] check_order(k, f.len()).contains(q) ==> is_float_text(f[q - 1]),
        is_float_text(zero_text()),
        is_float_text(zero_point_zero()),
        is_float_text(one_point_zero()),
    ensures
        is_float_text(card_fields(k, f, rest)[j]),
{
    let n = f.len();
    let order = check_order(k, n);
    let cf = card_fields(k, f, rest);
    // The deck field behind card field `j`, when it is one.
    let fld: int = match k {
        CardKind::Gw | CardKind::Gm | CardKind::Gr | CardKind::Tl => j,
        CardKind::Ge => 0,
        CardKind::Gn => if j == 0 { 0 } else if j == 1 && n > 4 { 4 } else { 5 },
        CardKind::Ex | CardKind::Ne | CardKind::Nh | CardKind::Ld => j,
        CardKind::Fr => if j < 2 { j } else { fr_freq_start(n) + j - 2 },
        CardKind::Rp => if j < 3 { j } else if j < 7 { rp_angle_start(n) + j - 3 } else { 3 },
        _ => 0,
    };
    if fld < n && cf[j] == f[fld] && !(k == CardKind::Rp && j == 7 && n < 8) {
        assert(order.contains(fld + 1)) by {
            match k {
                CardKind::Gw | CardKind::Gm => {
                    assert(range_seq(1, 10)[fld] == fld + 1);
                },
                CardKind::Gr => {
                    assert(range_seq(1, 4)[fld] == fld + 1);
                },
                CardKind::Ge => {
                    assert(order[0] == 1);
                },
                CardKind::Gn => {
                    if fld == 0 {
                        assert(order[order.len() - 1] == 1);
                    } else {
                        assert(present(5, 6, n)[fld - 4] == fld + 1);
                        assert(order[fld - 4] == fld + 1);
                    }
                },
                CardKind::Ex => {
                    if fld < 4 {
                        let p = present(5, 10, n);
                        assert(order[p.len() + fld] == fld + 1);
                    } else {
                        assert(order[fld - 4] == fld + 1);
                    }
                },
                CardKind::Ne | CardKind::Nh => {
                    if fld < 4 {
                        assert(order[fld] == fld + 1);
                    } else {
                        assert(order[fld] == fld + 1);
                    }
                },
                CardKind::Ld => {
                    if fld < 4 {
                        let p = present(5, 7, n);
                        assert(order[p.len() + fld] == fld + 1);
                    } else {
                        assert(order[fld - 4] == fld + 1);
                    }
                },
                CardKind::Tl => {
                    if fld < 8 {
                        let p = present(9, 9, n);
                        assert(order[p.len() + fld] == fld + 1);
                    } else {
                        assert(order[0] == fld + 1);
                    }
                },
                CardKind::Fr => {
                    assert(order[j] == fld + 1);
                },
                CardKind::Rp => {
                    let off: int = if n >= 8 { 1 } else { 0 };
                    if j < 3 {
                        assert(order[off + j] == fld + 1);
                    } else if j < 7 {
                        assert(order[off + 3 + (j - 3)] == fld + 1);
                    } else {
                        assert(order[0] == fld + 1);
                    }
                },
                _ => {},
            }
        }
    }
}

proof fn lemma_cards_well_formed_from(ls: Seq<Seq<char>>, i: int)
    ensures
        parse_lines(ls, i) matches Ok((cs, ws)) ==> forall|j: int|
            0 <= j < cs.len() ==> well_formed_card(#[trigger] cs[j]),
    decreases ls.len() - i,
{
    if 0 <= i < ls.len() {
        lemma_cards_well_formed_from(ls, i + 1);
        lemma_pushed_card_well_formed((i + 1) as nat, ls[i]);
        match line_outcome((i + 1) as nat, ls[i]) {
            LineOutcome::Push(c) => {
                if let Ok((cs, ws)) = parse_lines(ls, i + 1) {
                    let all = seq![c] + cs;
                    assert forall|j: int| 0 <= j < all.len() implies well_formed_card(#[trigger] all[j]) by {
                        if j > 0 {
                            assert(all[j] == cs[j - 1]);
                        }
                    }
                }
            },
            _ => {},
        }
    }
}

/// Every card a successful parse returns is in the layout of its kind: the
/// field count the kind fixes, and numbers (text a Rust `f64` parses from)
/// in every field of a numeric card.
pub proof fn law_parsed_cards_follow_their_layout(input: Seq<char>)
    ensures
        parse_spec(input) matches Ok((cs, ws)) ==> forall|j: int|
            0 <= j < cs.len() ==> well_formed_card(#[trigger] cs[j]),
{
    lemma_cards_well_formed_from(lines(input), 0);
}

/// The kinds whose parsed fields keep the deck's field order.
pub open spec fn keeps_field_order(k: CardKind) -> bool {
    matches!(k, CardKind::Gw | CardKind::Gm | CardKind::Gr | CardKind::Ge | CardKind::Ex | CardKind::Ne
        | CardKind::Nh | CardKind::Ld | CardKind::Tl | CardKind::Pt | CardKind::Nt)
}

/// How many fields a parsed card of such a kind has, for `n` deck fields.
pub open spec fn layout_count(k: CardKind, n: nat) -> nat {
    match k {
        CardKind::Gw | CardKind::Gm | CardKind::Tl => 9,
        CardKind::Gr => 3,
        CardKind::Ge => 1,
        CardKind::Ex | CardKind::Ne | CardKind::Nh => 10,
        CardKind::Ld => 7,
        _ => n,
    }
}

/// The text a field that the deck omits takes.
pub open spec fn omitted_text(k: CardKind) -> Seq<char> {
    match k {
        CardKind::Ge => seq!['0'],
        CardKind::Tl => seq!['1', '.', '0'],
        _ => seq!['0', '.', '0'],
    }
}

/// A field the deck gives is kept as written, and only a field the deck
/// omits takes its default: for a card kind that keeps the deck's field
/// order, parsed field `i` is deck field `i` whenever the deck has one,
/// and the kind's default text otherwise.
pub proof fn law_given_fields_are_kept(k: CardKind, f: Seq<Seq<char>>, rest: Seq<char>)
    requires
        keeps_field_order(k),
        f.len() >= need_of(k),
    ensures
        card_fields(k, f, rest).len() == layout_count(k, f.len()),
        forall|i: int|
            0 <= i < layout_count(k, f.len()) && i < f.len() ==> #[trigger] card_fields(k, f, rest)[i] == f[i],
        forall|i: int|
            f.len() <= i < layout_count(k, f.len()) ==> #[trigger] card_fields(k, f, rest)[i] == omitted_text(k),
{
    let r = card_fields(k, f, rest);
    assert forall|i: int| 0 <= i < layout_count(k, f.len()) && i < f.len() implies #[trigger] card_fields(
        k,
        f,
        rest,
    )[i] == f[i] by {
        match k {
            CardKind::Ex | CardKind::Ne | CardKind::Nh | CardKind::Ld => {
                if i >= 4 {
                    assert(r[i] == field_or(f, 4 + (i - 4), zero_point_zero()));
                }
            },
            CardKind::Tl => {
                if i == 8 {
                    assert(r[i] == field_or(f, 8, one_point_zero()));
                }
            },
            _ => {},
        }
    }
    assert forall|i: int| f.len() <= i < layout_count(k, f.len()) implies #[trigger] card_fields(k, f, rest)[i]
        == omitted_text(k) by {
        match k {
            CardKind::Ex | CardKind::Ne | CardKind::Nh | CardKind::Ld => {
                assert(r[i] == field_or(f, 4 + (i - 4), zero_point_zero()));
            },
            CardKind::Tl => {
                assert(r[i] == field_or(f, 8, one_point_zero()));
            },
            CardKind::Ge => {
                assert(r[i] == field_or(f, 0, zero_text()));
            },
            _ => {},
        }
    }
}

/// The optional medium fields of a `GN` card are kept when the deck gives
/// them: the card is the ground type, then deck field 4 (the relative
/// permittivity) when there is one, then deck field 5 (the conductivity)
/// when there is one; nothing is made up for a field the deck omits.
pub proof fn law_gn_keeps_its_given_medium(f: Seq<Seq<char>>, rest: Seq<char>)
    requires
        f.len() >= 1,
    ensures
        card_fields(CardKind::Gn, f, rest)[0] == f[0],
        card_fields(CardKind::Gn, f, rest).len() == 1 + (if f.len() > 4 { 1int } else { 0 }) + (if f.len() > 5 {
            1int
        } else {
            0
        }),
        f.len() > 4 ==> card_fields(CardKind::Gn, f, rest)[1] == f[4],
        f.len() > 5 ==> card_fields(CardKind::Gn, f, rest)[2] == f[5],
{
}

} // verus!
