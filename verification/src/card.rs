//! The parsed form of an NEC deck.
//!
//! A card is its kind and its fields in a fixed order per kind. Numeric
//! fields are held as the text the deck gave, once the parser has checked that
//! the text is a number; turning that text into a machine number is left to
//! the caller (see [`crate::parser`] for the field layout of each kind).

use vstd::prelude::*;

verus! {

/// The NEC card mnemonics this parser understands.
#[derive(Debug, Clone, Copy, PartialEq, Eq, Structural)]
pub enum CardKind {
    /// `CM` or `CE`: one line of free comment text.
    Comment,
    /// `GW`: straight wire.
    Gw,
    /// `GM`: move / copy wires.
    Gm,
    /// `GR`: repeat wires by rotation about z.
    Gr,
    /// `GE`: end of geometry.
    Ge,
    /// `GN`: ground.
    Gn,
    /// `LD`: load.
    Ld,
    /// `TL`: transmission line.
    Tl,
    /// `PT`: transmission-line source (fields kept verbatim).
    Pt,
    /// `NT`: network (fields kept verbatim).
    Nt,
    /// `EX`: excitation.
    Ex,
    /// `FR`: frequency.
    Fr,
    /// `RP`: radiation pattern.
    Rp,
    /// `NE`: near electric field.
    Ne,
    /// `NH`: near magnetic field.
    Nh,
    /// `EN`: end of data.
    En,
}

/// One parsed card.
#[derive(Debug, Clone, PartialEq)]
pub struct Card {
    pub kind: CardKind,
    /// The card's fields in the layout of its kind.
    pub fields: Vec<String>,
}

/// The mathematical value of a [`Card`].
pub struct CardView {
    pub kind: CardKind,
    pub fields: Seq<Seq<char>>,
}

pub open spec fn strings_view(v: Seq<String>) -> Seq<Seq<char>> {
    v.map_values(|s: String| s@)
}

impl View for Card {
    type V = CardView;

    open spec fn view(&self) -> CardView {
        CardView { kind: self.kind, fields: strings_view(self.fields@) }
    }
}

/// A fully parsed NEC deck.
///
/// Cards are stored in source order.  The `EN` card, when present, is
/// included as the last element.
#[derive(Debug, Clone, PartialEq)]
pub struct NecDeck {
    pub cards: Vec<Card>,
}

pub open spec fn cards_view(v: Seq<Card>) -> Seq<CardView> {
    v.map_values(|c: Card| c@)
}

impl NecDeck {
    /// An empty deck.
    pub fn new() -> (d: NecDeck)
        ensures
            d.cards@.len() == 0,
    {
        NecDeck { cards: Vec::new() }
    }
}

/// Comment card (`CM` … `CE`): one line of free text.
#[derive(Debug, Clone, PartialEq)]
pub struct CommentCard {
    /// Text after the mnemonic, stripped of leading/trailing whitespace.
    pub text: String,
}

/// `GE`: geometry end, with its ground-reflection flag.
#[derive(Debug, Clone, Copy, PartialEq, Eq, Structural)]
pub struct GeCard {
    /// `0` disables geometry reflection; `1` asks for a PEC ground image.
    pub ground_reflection_flag: i32,
}

/// `GN`: ground definition; only the ground type is read here.
#[derive(Debug, Clone, Copy, PartialEq, Eq, Structural)]
pub struct GnCard {
    /// `-1` null ground, `0` reflection-coefficient, `1` PEC, `2` Sommerfeld.
    pub ground_type: i32,
}

/// `PT`: transmission-line source, fields kept verbatim.
#[derive(Debug, Clone, PartialEq)]
pub struct PtCard {
    pub raw_fields: Vec<String>,
}

/// `NT`: network definition, fields kept verbatim.
#[derive(Debug, Clone, PartialEq)]
pub struct NtCard {
    pub raw_fields: Vec<String>,
}

/// `EN`: end of data.
#[derive(Debug, Clone, Copy, PartialEq, Eq, Structural)]
pub struct EnCard;

fn clone_strings(v: &Vec<String>) -> (r: Vec<String>)
    ensures
        strings_view(r@) == strings_view(v@),
{
    let mut out: Vec<String> = Vec::new();
    let mut i: usize = 0;
    while i < v.len()
        invariant
            i <= v.len(),
            out.len() == i,
            forall|j: int| 0 <= j < i ==> #[trigger] out@[j]@ == v@[j]@,
        decreases v.len() - i,
    {
        out.push(v[i].clone());
        i = i + 1;
    }
    assert(strings_view(out@) =~= strings_view(v@));
    out
}

impl Card {
    /// The comment text of a comment card.
    pub fn comment_card(&self) -> (r: Option<CommentCard>)
        requires
            self.kind == CardKind::Comment ==> self.fields@.len() == 1,
        ensures
            r is Some <==> self.kind == CardKind::Comment,
            r matches Some(c) ==> c.text@ == self@.fields[0],
    {
        if self.kind == CardKind::Comment {
            Some(CommentCard { text: self.fields[0].clone() })
        } else {
            None
        }
    }

    /// The fields of a `PT` card.
    pub fn pt_card(&self) -> (r: Option<PtCard>)
        ensures
            r is Some <==> self.kind == CardKind::Pt,
            r matches Some(c) ==> strings_view(c.raw_fields@) == self@.fields,
    {
        if self.kind == CardKind::Pt {
            Some(PtCard { raw_fields: clone_strings(&self.fields) })
        } else {
            None
        }
    }

    /// The fields of an `NT` card.
    pub fn nt_card(&self) -> (r: Option<NtCard>)
        ensures
            r is Some <==> self.kind == CardKind::Nt,
            r matches Some(c) ==> strings_view(c.raw_fields@) == self@.fields,
    {
        if self.kind == CardKind::Nt {
            Some(NtCard { raw_fields: clone_strings(&self.fields) })
        } else {
            None
        }
    }
}

/// Severity level for a [`ValidationDiagnostic`].
#[derive(Debug, Clone, Copy, PartialEq, Eq, Structural)]
pub enum DiagnosticLevel {
    /// Fatal: the caller should abort the solve.
    Error,
    /// Non-fatal: the caller may continue but should inform the user.
    Warning,
}

/// A diagnostic message produced by a [`DeckValidator`].
#[derive(Debug, Clone, PartialEq)]
pub struct ValidationDiagnostic {
    /// Human-readable description of the issue.
    pub message: String,
    /// Severity level.
    pub level: DiagnosticLevel,
}

impl ValidationDiagnostic {
    /// Create an error-level diagnostic.
    pub fn error(message: String) -> (d: ValidationDiagnostic)
        ensures
            d.message == message,
            d.level == DiagnosticLevel::Error,
    {
        ValidationDiagnostic { message, level: DiagnosticLevel::Error }
    }

    /// Create a warning-level diagnostic.
    pub fn warning(message: String) -> (d: ValidationDiagnostic)
        ensures
            d.message == message,
            d.level == DiagnosticLevel::Warning,
    {
        ValidationDiagnostic { message, level: DiagnosticLevel::Warning }
    }
}

/// Deck post-processor: receives the parsed deck before geometry resolution
/// and may transform it (tag renaming, card injection, annotation).
pub trait DeckPostProcessor {
    /// Called once with the fully parsed deck.
    fn process(&mut self, deck: &mut NecDeck);
}

/// Deck validator: inspects the parsed deck and reports diagnostics; an
/// empty list means the deck passed.
pub trait DeckValidator {
    /// The diagnostics this validator reports for `deck`.
    spec fn diagnostics(&self, deck: NecDeck) -> Seq<ValidationDiagnostic>;

    /// Validate `deck` and return a (possibly empty) list of diagnostics.
    fn validate(&self, deck: &NecDeck) -> (r: Vec<ValidationDiagnostic>)
        ensures
            r@ == self.diagnostics(*deck),
    ;
}

/// A validator that requires a card kind: a deck with no card of `kind`
/// gets one error, `message`; any other deck passes.
pub struct RequireCard {
    pub kind: CardKind,
    pub message: String,
}

impl DeckValidator for RequireCard {
    open spec fn diagnostics(&self, deck: NecDeck) -> Seq<ValidationDiagnostic> {
        if exists|i: int| 0 <= i < deck.cards@.len() && (#[trigger] deck.cards@[i]).kind == self.kind {
            Seq::empty()
        } else {
            seq![ValidationDiagnostic { message: self.message, level: DiagnosticLevel::Error }]
        }
    }

    fn validate(&self, deck: &NecDeck) -> (r: Vec<ValidationDiagnostic>) {
        let mut i: usize = 0;
        while i < deck.cards.len()
            invariant
                i <= deck.cards.len(),
                forall|j: int| 0 <= j < i ==> (#[trigger] deck.cards@[j]).kind != self.kind,
            decreases deck.cards.len() - i,
        {
            if deck.cards[i].kind == self.kind {
                return Vec::new();
            }
            i = i + 1;
        }
        let mut r: Vec<ValidationDiagnostic> = Vec::new();
        r.push(ValidationDiagnostic { message: self.message.clone(), level: DiagnosticLevel::Error });
        proof {
            assert(r@ =~= seq![ValidationDiagnostic { message: self.message, level: DiagnosticLevel::Error }]);
        }
        r
    }
}

/// The lists of `parts`, concatenated in order.
pub open spec fn concat_all(parts: Seq<Seq<ValidationDiagnostic>>) -> Seq<ValidationDiagnostic>
    decreases parts.len(),
{
    if parts.len() == 0 {
        Seq::empty()
    } else {
        concat_all(parts.drop_last()) + parts.last()
    }
}

pub open spec fn lists_view(v: Seq<Vec<ValidationDiagnostic>>) -> Seq<Seq<ValidationDiagnostic>> {
    v.map_values(|l: Vec<ValidationDiagnostic>| l@)
}

/// Every validator's diagnostics, concatenated in validator order.
pub fn collect_diagnostics(per_validator: Vec<Vec<ValidationDiagnostic>>) -> (r: Vec<
    ValidationDiagnostic,
>)
    ensures
        r@ == concat_all(lists_view(per_validator@)),
{
    let mut out: Vec<ValidationDiagnostic> = Vec::new();
    let mut parts = per_validator;
    let ghost all = lists_view(parts@);
    let n = parts.len();
    let mut rev: Vec<Vec<ValidationDiagnostic>> = Vec::new();
    // Take the lists off the back, then append them front to back.
    while parts.len() > 0
        invariant
            parts.len() + rev.len() == n,
            all.len() == n,
            forall|j: int| 0 <= j < parts.len() ==> #[trigger] parts@[j]@ == all[j],
            forall|j: int| 0 <= j < rev.len() ==> #[trigger] rev@[j]@ == all[n - 1 - j],
        decreases parts.len(),
    {
        let l = parts.pop().unwrap();
        rev.push(l);
    }
    let mut k: usize = 0;
    proof {
        assert(all.take(0) =~= Seq::<Seq<ValidationDiagnostic>>::empty());
    }
    while rev.len() > 0
        invariant
            k + rev.len() == n,
            all.len() == n,
            forall|j: int| 0 <= j < rev.len() ==> #[trigger] rev@[j]@ == all[n - 1 - j],
            out@ == concat_all(all.take(k as int)),
        decreases rev.len(),
    {
        let mut l = rev.pop().unwrap();
        proof {
            assert(l@ == all[k as int]);
            assert(all.take(k + 1).drop_last() =~= all.take(k as int));
        }
        out.append(&mut l);
        k = k + 1;
    }
    proof {
        assert(all.take(n as int) =~= all);
    }
    out
}

/// Run a list of validators against `deck` and collect all diagnostics.
///
/// Validators are run in the order given; all are run regardless of earlier
/// failures, so the result is every validator's diagnostics concatenated in
/// validator order (see [`collect_diagnostics`]).
pub fn run_validators(deck: &NecDeck, validators: &[&dyn DeckValidator]) -> (r: Vec<
    ValidationDiagnostic,
>)
    ensures
        r@ == concat_all(
            Seq::new(validators@.len(), |i: int| validators@[i].diagnostics(*deck)),
        ),
{
    let ghost want = Seq::new(validators@.len(), |i: int| validators@[i].diagnostics(*deck));
    let mut per: Vec<Vec<ValidationDiagnostic>> = Vec::new();
    let mut i: usize = 0;
    while i < validators.len()
        invariant
            i <= validators.len(),
            per.len() == i,
            want == Seq::new(validators@.len(), |i: int| validators@[i].diagnostics(*deck)),
            forall|j: int| 0 <= j < i ==> #[trigger] per@[j]@ == want[j],
        decreases validators.len() - i,
    {
        per.push(validators[i].validate(deck));
        i = i + 1;
    }
    proof {
        assert(lists_view(per@) =~= want);
    }
    collect_diagnostics(per)
}

} // verus!
