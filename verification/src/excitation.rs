//! Which `EX` cards drive a deck, and how.
//!
//! An `EX` card's type number decides its role: types 0 and 5 are delta-gap
//! voltage sources, 1 to 3 incident plane waves, 4 a current source, and any
//! other number is not recognised. The decisions here read only the integer
//! fields of the cards; the voltages and angles stay with the caller.

use vstd::prelude::*;
use crate::solver::{ExcitationError, MpieSessionError, MpieUnsupported};

verus! {

/// What an `EX` card's type number makes of it.
#[derive(Debug, Clone, Copy, PartialEq, Eq, Structural)]
pub enum FeedpointRole {
    /// `EX 0` or `EX 5`: a voltage across a segment gap.
    DeltaGap,
    /// `EX 4`: a forced current.
    CurrentSource,
    /// `EX 1`, `2` or `3`: an incident plane wave, with no feedpoint.
    PlaneWave,
    /// Any other type number.
    Unknown,
}

pub open spec fn role_of(ex_type: u32) -> FeedpointRole {
    if ex_type == 0 || ex_type == 5 {
        FeedpointRole::DeltaGap
    } else if 1 <= ex_type <= 3 {
        FeedpointRole::PlaneWave
    } else if ex_type == 4 {
        FeedpointRole::CurrentSource
    } else {
        FeedpointRole::Unknown
    }
}

/// The role of an `EX` card of type `ex_type`.
pub fn feedpoint_role(ex_type: u32) -> (r: FeedpointRole)
    ensures
        r == role_of(ex_type),
{
    if ex_type == 0 || ex_type == 5 {
        FeedpointRole::DeltaGap
    } else if 1 <= ex_type && ex_type <= 3 {
        FeedpointRole::PlaneWave
    } else if ex_type == 4 {
        FeedpointRole::CurrentSource
    } else {
        FeedpointRole::Unknown
    }
}

/// The integer fields of an `EX` card: type, tag, segment number and `I4`.
#[derive(Debug, Clone, Copy, PartialEq, Eq, Structural)]
pub struct ExSource {
    pub ex_type: u32,
    pub tag: u32,
    pub segment: u32,
    pub i4: u32,
}

/// A deck card as the excitation decisions see it.
#[derive(Debug, Clone, Copy, PartialEq, Eq, Structural)]
pub enum CardSummary {
    Ex(ExSource),
    Ld,
    Tl,
    Nt,
    /// Any other card.
    Other,
}

/// Whether `c` is an `EX` card with role `role`.
pub open spec fn ex_with_role(c: CardSummary, role: FeedpointRole) -> bool {
    c matches CardSummary::Ex(e) && role_of(e.ex_type) == role
}

/// Whether some card of `cards` is an `EX` card with role `role`.
pub open spec fn has_role(cards: Seq<CardSummary>, role: FeedpointRole) -> bool {
    exists|i: int| 0 <= i < cards.len() && ex_with_role(#[trigger] cards[i], role)
}

fn any_with_role(cards: &[CardSummary], role: FeedpointRole) -> (r: bool)
    ensures
        r == has_role(cards@, role),
{
    let mut i: usize = 0;
    while i < cards.len()
        invariant
            i <= cards.len(),
            forall|j: int| 0 <= j < i ==> !ex_with_role(#[trigger] cards@[j], role),
        decreases cards.len() - i,
    {
        if let CardSummary::Ex(e) = cards[i] {
            if feedpoint_role(e.ex_type) == role {
                return true;
            }
        }
        i = i + 1;
    }
    false
}

/// True if the deck carries an incident-plane-wave `EX` card (types 1-3).
pub fn deck_has_plane_wave(cards: &[CardSummary]) -> (r: bool)
    ensures
        r == has_role(cards@, FeedpointRole::PlaneWave),
{
    any_with_role(cards, FeedpointRole::PlaneWave)
}

/// True if the deck carries a current-source `EX` card (type 4).
pub fn deck_has_current_source(cards: &[CardSummary]) -> (r: bool)
    ensures
        r == has_role(cards@, FeedpointRole::CurrentSource),
{
    any_with_role(cards, FeedpointRole::CurrentSource)
}

/// The feedpoints of a deck, in deck order: each delta-gap or current-source
/// `EX` card, by its index among the cards, with its role. Plane waves and
/// unrecognised types name no feedpoint.
pub open spec fn feedpoints_spec(cards: Seq<CardSummary>) -> Seq<(int, FeedpointRole)>
    decreases cards.len(),
{
    if cards.len() == 0 {
        Seq::empty()
    } else {
        let prev = feedpoints_spec(cards.drop_last());
        let i = cards.len() - 1;
        match cards.last() {
            CardSummary::Ex(e) => {
                let role = role_of(e.ex_type);
                if role == FeedpointRole::DeltaGap || role == FeedpointRole::CurrentSource {
                    prev.push((i, role))
                } else {
                    prev
                }
            },
            _ => prev,
        }
    }
}

pub open spec fn feedpoints_view(v: Seq<(usize, FeedpointRole)>) -> Seq<(int, FeedpointRole)> {
    v.map_values(|p: (usize, FeedpointRole)| (p.0 as int, p.1))
}

/// Every `EX` card that names a feedpoint, in deck order, with its role.
pub fn feedpoints(cards: &[CardSummary]) -> (r: Vec<(usize, FeedpointRole)>)
    ensures
        feedpoints_view(r@) == feedpoints_spec(cards@),
{
    let mut out: Vec<(usize, FeedpointRole)> = Vec::new();
    let mut i: usize = 0;
    proof {
        assert(cards@.take(0) =~= Seq::<CardSummary>::empty());
        assert(feedpoints_view(out@) =~= Seq::<(int, FeedpointRole)>::empty());
    }
    while i < cards.len()
        invariant
            i <= cards.len(),
            feedpoints_view(out@) == feedpoints_spec(cards@.take(i as int)),
        decreases cards.len() - i,
    {
        proof {
            assert(cards@.take(i + 1).drop_last() =~= cards@.take(i as int));
            assert(cards@.take(i + 1).last() == cards@[i as int]);
        }
        if let CardSummary::Ex(e) = cards[i] {
            let role = feedpoint_role(e.ex_type);
            if role == FeedpointRole::DeltaGap || role == FeedpointRole::CurrentSource {
                out.push((i, role));
            }
        }
        proof {
            assert(feedpoints_view(out@) =~= feedpoints_spec(cards@.take(i + 1)));
        }
        i = i + 1;
    }
    proof {
        assert(cards@.take(cards.len() as int) =~= cards@);
    }
    out
}

/// The index of the first delta-gap `EX` card, for callers that report a
/// single impedance and cannot price a current source.
pub fn first_delta_gap_feedpoint(cards: &[CardSummary]) -> (r: Option<usize>)
    ensures
        r is None <==> !has_role(cards@, FeedpointRole::DeltaGap),
        r matches Some(i) ==> i < cards.len() && ex_with_role(cards@[i as int], FeedpointRole::DeltaGap)
            && forall|j: int| 0 <= j < i ==> !ex_with_role(#[trigger] cards@[j], FeedpointRole::DeltaGap),
{
    let mut i: usize = 0;
    while i < cards.len()
        invariant
            i <= cards.len(),
            forall|j: int| 0 <= j < i ==> !ex_with_role(#[trigger] cards@[j], FeedpointRole::DeltaGap),
        decreases cards.len() - i,
    {
        if let CardSummary::Ex(e) = cards[i] {
            if feedpoint_role(e.ex_type) == FeedpointRole::DeltaGap {
                return Some(i);
            }
        }
        i = i + 1;
    }
    None
}

/// What in one card the MPIE cannot represent, if anything.
pub open spec fn mpie_blocker(c: CardSummary) -> Option<MpieUnsupported> {
    match c {
        CardSummary::Ld => Some(MpieUnsupported::UnstampableCard("LD (loads)")),
        CardSummary::Tl => Some(MpieUnsupported::UnstampableCard("TL (transmission line)")),
        CardSummary::Nt => Some(MpieUnsupported::UnstampableCard("NT (network)")),
        CardSummary::Ex(e) => {
            if role_of(e.ex_type) == FeedpointRole::PlaneWave {
                Some(MpieUnsupported::PlaneWave)
            } else if role_of(e.ex_type) == FeedpointRole::CurrentSource {
                Some(MpieUnsupported::CurrentSource)
            } else {
                None
            }
        },
        CardSummary::Other => None,
    }
}

/// What in this deck the MPIE cannot represent, if anything: the blocker of
/// the first card that has one (`LD`, `TL`, `NT`, a plane wave or a current
/// source).
pub fn mpie_unsupported(cards: &[CardSummary]) -> (r: Option<MpieUnsupported>)
    ensures
        r is None <==> forall|i: int| 0 <= i < cards.len() ==> (#[trigger] mpie_blocker(cards@[i])) is None,
        r is Some ==> exists|i: int|
            0 <= i < cards.len() && #[trigger] mpie_blocker(cards@[i]) == r && forall|j: int|
                0 <= j < i ==> (#[trigger] mpie_blocker(cards@[j])) is None,
{
    let mut i: usize = 0;
    while i < cards.len()
        invariant
            i <= cards.len(),
            forall|j: int| 0 <= j < i ==> (#[trigger] mpie_blocker(cards@[j])) is None,
        decreases cards.len() - i,
    {
        let found = match cards[i] {
            CardSummary::Ld => Some(MpieUnsupported::UnstampableCard("LD (loads)")),
            CardSummary::Tl => Some(MpieUnsupported::UnstampableCard("TL (transmission line)")),
            CardSummary::Nt => Some(MpieUnsupported::UnstampableCard("NT (network)")),
            CardSummary::Ex(e) => {
                let role = feedpoint_role(e.ex_type);
                if role == FeedpointRole::PlaneWave {
                    Some(MpieUnsupported::PlaneWave)
                } else if role == FeedpointRole::CurrentSource {
                    Some(MpieUnsupported::CurrentSource)
                } else {
                    None
                }
            },
            CardSummary::Other => None,
        };
        assert(found == mpie_blocker(cards@[i as int]));
        if found.is_some() {
            return found;
        }
        i = i + 1;
    }
    None
}

/// Whether `k` is the first index of `segs` holding `key`.
pub open spec fn first_at(segs: Seq<(u32, u32)>, key: (u32, u32), k: int) -> bool {
    &&& 0 <= k < segs.len()
    &&& segs[k] == key
    &&& forall|j: int| 0 <= j < k ==> segs[j] != key
}

/// Whether some segment holds `key`.
pub open spec fn holds_key(segs: Seq<(u32, u32)>, key: (u32, u32)) -> bool {
    exists|k: int| 0 <= k < segs.len() && segs[k] == key
}

/// The index of the first segment whose `(tag, segment number)` is `key`.
pub fn find_segment(segs: &[(u32, u32)], key: (u32, u32)) -> (r: Option<usize>)
    ensures
        r is None <==> !holds_key(segs@, key),
        r matches Some(k) ==> first_at(segs@, key, k as int),
{
    let mut k: usize = 0;
    while k < segs.len()
        invariant
            k <= segs.len(),
            forall|j: int| 0 <= j < k ==> segs@[j] != key,
        decreases segs.len() - k,
    {
        let (tag, segment) = segs[k];
        if tag == key.0 && segment == key.1 {
            return Some(k);
        }
        k = k + 1;
    }
    None
}

/// The delta-gap `EX` cards of a deck, in deck order.
pub open spec fn delta_gaps(cards: Seq<CardSummary>) -> Seq<ExSource>
    decreases cards.len(),
{
    if cards.len() == 0 {
        Seq::empty()
    } else {
        let prev = delta_gaps(cards.drop_last());
        match cards.last() {
            CardSummary::Ex(e) => if role_of(e.ex_type) == FeedpointRole::DeltaGap {
                prev.push(e)
            } else {
                prev
            },
            _ => prev,
        }
    }
}

/// Whether `c` is an `EX` card of an unrecognised type.
pub open spec fn unknown_ex(c: CardSummary) -> bool {
    ex_with_role(c, FeedpointRole::Unknown)
}

/// Whether the segment a delta gap names exists.
pub open spec fn gap_found(segs: Seq<(u32, u32)>, e: ExSource) -> bool {
    holds_key(segs, (e.tag, e.segment))
}

/// The segments the delta-gap sources of a Hallén right-hand side drive, one
/// per delta-gap `EX` card in deck order, given the `(tag, segment number)`
/// of every segment. An `EX` card of an unrecognised type is refused first
/// (the first such card in the deck); then a delta gap whose segment does
/// not exist (the first such gap). Plane waves and current sources are
/// driven elsewhere and contribute nothing.
pub fn delta_gap_segments(cards: &[CardSummary], segs: &[(u32, u32)]) -> (r: Result<
    Vec<usize>,
    ExcitationError,
>)
    ensures
        r is Ok <==> (forall|i: int| 0 <= i < cards.len() ==> !unknown_ex(#[trigger] cards@[i])) && (forall|
            m: int,
        |
            0 <= m < delta_gaps(cards@).len() ==> gap_found(segs@, #[trigger] delta_gaps(cards@)[m])),
        r matches Ok(p) ==> p.len() == delta_gaps(cards@).len() && forall|m: int|
            0 <= m < p.len() ==> first_at(
                segs@,
                (delta_gaps(cards@)[m].tag, delta_gaps(cards@)[m].segment),
                #[trigger] p@[m] as int,
            ),
        (exists|i: int| 0 <= i < cards.len() && unknown_ex(#[trigger] cards@[i])) ==> exists|i: int|
            0 <= i < cards.len() && #[trigger] unknown_ex(cards@[i]) && (forall|j: int|
                0 <= j < i ==> !unknown_ex(#[trigger] cards@[j])) && (cards@[i] matches CardSummary::Ex(
                e,
            ) && r == Err::<Vec<usize>, ExcitationError>(
                ExcitationError::UnsupportedType {
                    ex_type: e.ex_type,
                    tag: e.tag,
                    segment: e.segment,
                    i4: e.i4,
                },
            )),
        (forall|i: int| 0 <= i < cards.len() ==> !unknown_ex(#[trigger] cards@[i])) && r is Err ==> exists|
            m: int,
        |
            0 <= m < delta_gaps(cards@).len() && !gap_found(segs@, #[trigger] delta_gaps(cards@)[m])
                && (forall|q: int| 0 <= q < m ==> gap_found(segs@, #[trigger] delta_gaps(cards@)[q]))
                && r == Err::<Vec<usize>, ExcitationError>(
                ExcitationError::SegmentNotFound {
                    tag: delta_gaps(cards@)[m].tag,
                    segment: delta_gaps(cards@)[m].segment,
                },
            ),
{
    let mut i: usize = 0;
    while i < cards.len()
        invariant
            i <= cards.len(),
            forall|j: int| 0 <= j < i ==> !unknown_ex(#[trigger] cards@[j]),
        decreases cards.len() - i,
    {
        if let CardSummary::Ex(e) = cards[i] {
            if feedpoint_role(e.ex_type) == FeedpointRole::Unknown {
                assert(unknown_ex(cards@[i as int]));
                return Err(
                    ExcitationError::UnsupportedType {
                        ex_type: e.ex_type,
                        tag: e.tag,
                        segment: e.segment,
                        i4: e.i4,
                    },
                );
            }
        }
        i = i + 1;
    }
    let mut out: Vec<usize> = Vec::new();
    let mut i: usize = 0;
    proof {
        assert(cards@.take(0) =~= Seq::<CardSummary>::empty());
    }
    while i < cards.len()
        invariant
            i <= cards.len(),
            forall|j: int| 0 <= j < cards.len() ==> !unknown_ex(#[trigger] cards@[j]),
            out.len() == delta_gaps(cards@.take(i as int)).len(),
            forall|m: int|
                0 <= m < out.len() ==> first_at(
                    segs@,
                    (delta_gaps(cards@.take(i as int))[m].tag, delta_gaps(cards@.take(i as int))[m].segment),
                    #[trigger] out@[m] as int,
                ),
            forall|m: int|
                0 <= m < delta_gaps(cards@.take(i as int)).len() ==> gap_found(
                    segs@,
                    #[trigger] delta_gaps(cards@.take(i as int))[m],
                ),
        decreases cards.len() - i,
    {
        let ghost before = delta_gaps(cards@.take(i as int));
        proof {
            assert(cards@.take(i + 1).drop_last() =~= cards@.take(i as int));
            assert(cards@.take(i + 1).last() == cards@[i as int]);
        }
        if let CardSummary::Ex(e) = cards[i] {
            if feedpoint_role(e.ex_type) == FeedpointRole::DeltaGap {
                let ghost now = delta_gaps(cards@.take(i + 1));
                assert(now == before.push(e));
                match find_segment(segs, (e.tag, e.segment)) {
                    Some(k) => {
                        out.push(k);
                        assert forall|m: int| 0 <= m < out.len() implies first_at(
                            segs@,
                            (now[m].tag, now[m].segment),
                            #[trigger] out@[m] as int,
                        ) by {
                            if m < before.len() {
                                assert(now[m] == before[m]);
                            }
                        }
                        assert forall|m: int| 0 <= m < now.len() implies gap_found(
                            segs@,
                            #[trigger] now[m],
                        ) by {
                            if m < before.len() {
                                assert(now[m] == before[m]);
                            } else {
                                assert(segs@[k as int] == (e.tag, e.segment));
                            }
                        }
                    },
                    None => {
                        proof {
                            lemma_delta_gaps_prefix(cards@, i as int + 1);
                            let all = delta_gaps(cards@);
                            let m = before.len() as int;
                            assert(all[m] == now[m]);
                            assert(now[m] == e);
                            assert forall|q: int| 0 <= q < m implies gap_found(segs@, #[trigger] all[q]) by {
                                assert(all[q] == now[q]);
                                assert(now[q] == before[q]);
                            }
                        }
                        return Err(ExcitationError::SegmentNotFound { tag: e.tag, segment: e.segment });
                    },
                }
            }
        }
        i = i + 1;
    }
    proof {
        assert(cards@.take(cards.len() as int) =~= cards@);
    }
    Ok(out)
}

/// The delta gaps of a prefix of the cards begin the delta gaps of all of
/// them.
proof fn lemma_delta_gaps_prefix(cards: Seq<CardSummary>, k: int)
    requires
        0 <= k <= cards.len(),
    ensures
        delta_gaps(cards.take(k)).len() <= delta_gaps(cards).len(),
        forall|m: int|
            0 <= m < delta_gaps(cards.take(k)).len() ==> #[trigger] delta_gaps(cards)[m] == delta_gaps(
                cards.take(k),
            )[m],
    decreases cards.len() - k,
{
    if k < cards.len() {
        lemma_delta_gaps_prefix(cards, k + 1);
        assert(cards.take(k + 1).drop_last() =~= cards.take(k));
        let a = delta_gaps(cards.take(k));
        let b = delta_gaps(cards.take(k + 1));
        assert forall|m: int| 0 <= m < a.len() implies #[trigger] delta_gaps(cards)[m] == a[m] by {
            assert(b[m] == a[m]);
        }
    } else {
        assert(cards.take(k) =~= cards);
    }
}

/// The segment an MPIE solve drives, given the `(tag, segment number)` of
/// every segment: refused first for what the MPIE cannot represent, then for
/// a deck with no delta gap, then when the first delta gap's segment does
/// not exist; otherwise the first segment that the first delta gap names.
pub fn mpie_driven_segment(cards: &[CardSummary], segs: &[(u32, u32)]) -> (r: Result<
    usize,
    MpieSessionError,
>)
    ensures
        (exists|i: int| 0 <= i < cards.len() && (#[trigger] mpie_blocker(cards@[i])) is Some) ==> exists|
            i: int,
        |
            0 <= i < cards.len() && #[trigger] mpie_blocker(cards@[i]) is Some && (forall|j: int|
                0 <= j < i ==> (#[trigger] mpie_blocker(cards@[j])) is None) && r == Err::<
                usize,
                MpieSessionError,
            >(MpieSessionError::Unsupported(mpie_blocker(cards@[i])->0)),
        (forall|i: int| 0 <= i < cards.len() ==> (#[trigger] mpie_blocker(cards@[i])) is None) ==> {
            if !has_role(cards@, FeedpointRole::DeltaGap) {
                r == Err::<usize, MpieSessionError>(MpieSessionError::NoVoltageSource)
            } else {
                exists|i: int|
                    0 <= i < cards.len() && #[trigger] ex_with_role(cards@[i], FeedpointRole::DeltaGap)
                        && (forall|j: int|
                        0 <= j < i ==> !ex_with_role(#[trigger] cards@[j], FeedpointRole::DeltaGap))
                        && (cards@[i] matches CardSummary::Ex(e) && if holds_key(
                        segs@,
                        (e.tag, e.segment),
                    ) {
                        r matches Ok(k) && first_at(segs@, (e.tag, e.segment), k as int)
                    } else {
                        r == Err::<usize, MpieSessionError>(
                            MpieSessionError::DrivenSegmentNotFound { tag: e.tag, segment: e.segment },
                        )
                    })
            }
        },
{
    if let Some(u) = mpie_unsupported(cards) {
        return Err(MpieSessionError::Unsupported(u));
    }
    match first_delta_gap_feedpoint(cards) {
        None => Err(MpieSessionError::NoVoltageSource),
        Some(i) => {
            if let CardSummary::Ex(e) = cards[i] {
                match find_segment(segs, (e.tag, e.segment)) {
                    Some(k) => Ok(k),
                    None => Err(MpieSessionError::DrivenSegmentNotFound { tag: e.tag, segment: e.segment }),
                }
            } else {
                Err(MpieSessionError::NoVoltageSource)
            }
        },
    }
}

} // verus!
