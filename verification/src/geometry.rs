//! The integer side of geometry building: segment budget, wire runs, and the
//! tag arithmetic of `GM` and `GR` cards.
//!
//! The coordinates of segments are floating point and are computed by the
//! caller; what this module decides — which segments a card touches, which
//! tags the result carries, and when a card is refused — needs only the tags.

use vstd::prelude::*;
use crate::card::{GeCard, GnCard};
use crate::text::{decimal_text, push_decimal};

verus! {

/// The largest segment count a geometry may reach.
///
/// The binding constraint is the dense impedance matrix every solver
/// allocates: `16 * N^2` bytes and an `O(N^3)` factorisation.
pub const MAX_SEGMENTS: usize = 10_000;

/// Error returned while building a geometry.
#[derive(Debug, Clone, PartialEq)]
pub enum GeometryError {
    /// A GW card specified zero segments.
    ZeroSegments { tag: u32 },
    /// A GW card has zero-length wire (start == end).
    ZeroLengthWire { tag: u32 },
    /// No GW cards were found in the deck.
    NoWires,
    /// A `GM` card's `ITS` names a tag no wire carries.
    StartTagNotFound { tag: u32 },
    /// The deck asks for more segments than [`MAX_SEGMENTS`].
    SegmentBudgetExceeded { card: &'static str, projected: u64 },
    /// A `GM` or `GR` card's tag arithmetic left the `u32` tag-number space.
    TagOverflow { card: &'static str, detail: String },
}

/// The mathematical value of a [`GeometryError`].
pub enum GeometryErrorView {
    ZeroSegments { tag: u32 },
    ZeroLengthWire { tag: u32 },
    NoWires,
    StartTagNotFound { tag: u32 },
    SegmentBudgetExceeded { card: Seq<char>, projected: u64 },
    TagOverflow { card: Seq<char>, detail: Seq<char> },
}

impl View for GeometryError {
    type V = GeometryErrorView;

    open spec fn view(&self) -> GeometryErrorView {
        match self {
            GeometryError::ZeroSegments { tag } => GeometryErrorView::ZeroSegments { tag: *tag },
            GeometryError::ZeroLengthWire { tag } => GeometryErrorView::ZeroLengthWire { tag: *tag },
            GeometryError::NoWires => GeometryErrorView::NoWires,
            GeometryError::StartTagNotFound { tag } => GeometryErrorView::StartTagNotFound {
                tag: *tag,
            },
            GeometryError::SegmentBudgetExceeded { card, projected } => {
                GeometryErrorView::SegmentBudgetExceeded { card: card@, projected: *projected }
            },
            GeometryError::TagOverflow { card, detail } => GeometryErrorView::TagOverflow {
                card: card@,
                detail: detail@,
            },
        }
    }
}

/// The message shown for a geometry error.
pub open spec fn geometry_message(e: GeometryErrorView) -> Seq<char> {
    match e {
        GeometryErrorView::ZeroSegments { tag } => "GW tag "@ + decimal_text(tag as nat)
            + ": segment count must be \u{2265} 1"@,
        GeometryErrorView::ZeroLengthWire { tag } => "GW tag "@ + decimal_text(tag as nat)
            + ": wire has zero length (start == end)"@,
        GeometryErrorView::NoWires => "deck contains no GW (wire) cards"@,
        GeometryErrorView::SegmentBudgetExceeded { card, projected } => card
            + " card: the deck reaches "@ + decimal_text(projected as nat) + " segments, past the "@
            + decimal_text(MAX_SEGMENTS as nat) + " this solver will build \u{2014} the impedance matrix is 16*N^2 bytes and its factorisation O(N^3), so the cap is already about 1.6 GB of matrix"@,
        GeometryErrorView::StartTagNotFound { tag } => "GM card: no segment has tag "@
            + decimal_text(tag as nat) + ", so there is nothing to move from there"@,
        GeometryErrorView::TagOverflow { card, detail } => card + " card: "@ + detail
            + " leaves the u32 tag-number space (largest representable tag is "@ + decimal_text(
            u32::MAX as nat,
        ) + ")"@,
    }
}

impl GeometryError {
    /// The message shown for this error.
    pub fn message(&self) -> (r: String)
        ensures
            r@ == geometry_message(self@),
    {
        let mut r = String::new();
        match self {
            GeometryError::ZeroSegments { tag } => {
                r.append("GW tag ");
                push_decimal(&mut r, *tag as u64);
                r.append(": segment count must be \u{2265} 1");
            },
            GeometryError::ZeroLengthWire { tag } => {
                r.append("GW tag ");
                push_decimal(&mut r, *tag as u64);
                r.append(": wire has zero length (start == end)");
            },
            GeometryError::NoWires => {
                r.append("deck contains no GW (wire) cards");
            },
            GeometryError::SegmentBudgetExceeded { card, projected } => {
                r.append(card);
                r.append(" card: the deck reaches ");
                push_decimal(&mut r, *projected);
                r.append(" segments, past the ");
                push_decimal(&mut r, MAX_SEGMENTS as u64);
                r.append(" this solver will build \u{2014} the impedance matrix is 16*N^2 bytes and its factorisation O(N^3), so the cap is already about 1.6 GB of matrix");
            },
            GeometryError::StartTagNotFound { tag } => {
                r.append("GM card: no segment has tag ");
                push_decimal(&mut r, *tag as u64);
                r.append(", so there is nothing to move from there");
            },
            GeometryError::TagOverflow { card, detail } => {
                r.append(card);
                r.append(" card: ");
                r.append(detail.as_str());
                r.append(" leaves the u32 tag-number space (largest representable tag is ");
                push_decimal(&mut r, u32::MAX as u64);
                r.append(")");
            },
        }
        r
    }
}

/// Refuse a card that would take the running segment total past
/// [`MAX_SEGMENTS`]: `have` segments exist and the card adds `adding`.
///
/// The projection is done in `u64`, where the counts a deck can supply do
/// not wrap.
pub fn check_segment_budget(have: usize, adding: u64, card: &'static str) -> (r: Result<
    (),
    GeometryError,
>)
    requires
        have + adding <= u64::MAX,
    ensures
        have + adding <= MAX_SEGMENTS <==> r is Ok,
        r matches Err(e) ==> e@ == (GeometryErrorView::SegmentBudgetExceeded {
            card: card@,
            projected: (have + adding) as u64,
        }),
{
    let projected = have as u64 + adding;
    if projected > MAX_SEGMENTS as u64 {
        return Err(GeometryError::SegmentBudgetExceeded { card, projected });
    }
    Ok(())
}

/// The refusals of a `GW` card, in the order they are checked: no segments,
/// then a zero-length wire (`zero_length`, a floating-point test on the
/// card's end points), then the segment budget with `have` segments built.
pub fn check_gw_card(tag: u32, segments: u32, zero_length: bool, have: usize) -> (r: Result<(), GeometryError>)
    requires
        have + segments <= u64::MAX,
    ensures
        segments == 0 ==> (r matches Err(e) && e@ == GeometryErrorView::ZeroSegments { tag }),
        segments != 0 && zero_length ==> (r matches Err(e) && e@ == GeometryErrorView::ZeroLengthWire { tag }),
        segments != 0 && !zero_length ==> (r is Ok <==> have + segments <= MAX_SEGMENTS),
        segments != 0 && !zero_length && r is Err ==> r->Err_0@ == (GeometryErrorView::SegmentBudgetExceeded {
            card: "GW"@,
            projected: (have + segments) as u64,
        }),
{
    if segments == 0 {
        return Err(GeometryError::ZeroSegments { tag });
    }
    if zero_length {
        return Err(GeometryError::ZeroLengthWire { tag });
    }
    check_segment_budget(have, segments as u64, "GW")
}

// ---------------------------------------------------------------------------
// Wires as runs of equal tags
// ---------------------------------------------------------------------------

/// The wires of a segment list given by its tags: the maximal runs of
/// consecutive segments with equal tags, as inclusive `(first, last)` index
/// pairs in order.
pub open spec fn wire_runs(tags: Seq<u32>) -> Seq<(int, int)>
    decreases tags.len(),
{
    if tags.len() == 0 {
        Seq::empty()
    } else {
        let prev = wire_runs(tags.drop_last());
        let i = tags.len() - 1;
        let t = tags[i];
        if i > 0 && tags[i - 1] == t {
            prev.update(prev.len() - 1, (prev.last().0, i))
        } else {
            prev.push((i, i))
        }
    }
}

/// The last run of a non-empty tag list ends at the last index.
pub proof fn lemma_wire_runs_last(tags: Seq<u32>)
    requires
        tags.len() > 0,
    ensures
        wire_runs(tags).len() > 0,
        wire_runs(tags).last().1 == tags.len() - 1,
    decreases tags.len(),
{
    let i = tags.len() - 1;
    if i > 0 && tags[i - 1] == tags[i] {
        lemma_wire_runs_last(tags.drop_last());
    }
}

/// Every run is a non-empty range of indices of the tag list.
pub proof fn lemma_wire_runs_bounds(tags: Seq<u32>)
    ensures
        forall|k: int| 0 <= k < wire_runs(tags).len() ==> 0 <= (#[trigger] wire_runs(tags)[k]).0 <= wire_runs(tags)[k].1 < tags.len(),
    decreases tags.len(),
{
    if tags.len() > 0 {
        let d = tags.drop_last();
        lemma_wire_runs_bounds(d);
        let prev = wire_runs(d);
        let i = tags.len() - 1;
        let r = wire_runs(tags);
        if i > 0 && tags[i - 1] == tags[i] {
            assert(d.last() == tags[i - 1]);
            lemma_wire_runs_last(d);
            assert(r == prev.update(prev.len() - 1, (prev.last().0, i)));
            assert forall|k: int| 0 <= k < r.len() implies 0 <= (#[trigger] r[k]).0 <= r[k].1 < tags.len() by {
                if k < prev.len() - 1 {
                    assert(r[k] == prev[k]);
                } else {
                    assert(prev[prev.len() - 1].0 <= prev[prev.len() - 1].1);
                }
            }
        } else {
            assert(r == prev.push((i, i)));
            assert forall|k: int| 0 <= k < r.len() implies 0 <= (#[trigger] r[k]).0 <= r[k].1 < tags.len() by {
                if k < prev.len() {
                    assert(r[k] == prev[k]);
                }
            }
        }
    }
}

pub open spec fn pairs_view(v: Seq<(usize, usize)>) -> Seq<(int, int)> {
    v.map_values(|p: (usize, usize)| (p.0 as int, p.1 as int))
}

/// Compute per-wire endpoint indices from the tags of a flat segment list
/// (see [`wire_runs`]).
pub fn wire_endpoints_from_tags(tags: &[u32]) -> (r: Vec<(usize, usize)>)
    ensures
        pairs_view(r@) == wire_runs(tags@),
        forall|k: int| 0 <= k < r.len() ==> (#[trigger] r@[k]).0 <= r@[k].1 < tags.len(),
{
    let mut out: Vec<(usize, usize)> = Vec::new();
    let mut i: usize = 0;
    proof {
        assert(tags@.take(0) =~= Seq::<u32>::empty());
        assert(pairs_view(out@) =~= Seq::<(int, int)>::empty());
    }
    while i < tags.len()
        invariant
            i <= tags.len(),
            pairs_view(out@) == wire_runs(tags@.take(i as int)),
        decreases tags.len() - i,
    {
        let t = tags[i];
        let ghost prefix = tags@.take(i + 1);
        proof {
            assert(prefix.drop_last() =~= tags@.take(i as int));
            if i > 0 {
                assert(prefix[i - 1] == tags@[i - 1]);
            }
        }
        if i > 0 && tags[i - 1] == t {
            proof {
                lemma_wire_runs_last(tags@.take(i as int));
            }
            let last = out.len() - 1;
            let (first, _) = out[last];
            out.set(last, (first, i));
            proof {
                assert(pairs_view(out@) =~= wire_runs(prefix));
            }
        } else {
            out.push((i, i));
            proof {
                assert(pairs_view(out@) =~= wire_runs(prefix));
            }
        }
        i = i + 1;
    }
    proof {
        assert(tags@.take(tags.len() as int) =~= tags@);
        lemma_wire_runs_bounds(tags@);
        assert forall|k: int| 0 <= k < out.len() implies (#[trigger] out@[k]).0 <= out@[k].1 < tags.len() by {
            assert(pairs_view(out@)[k] == wire_runs(tags@)[k]);
        }
    }
    out
}

// ---------------------------------------------------------------------------
// GM: move or copy a suffix of the structure
// ---------------------------------------------------------------------------

/// A tag after a `GM` increment: tag 0 is never retagged, and a tag past
/// `u32::MAX` has no value.
pub open spec fn gm_retag(tag: u32, inc: u32) -> Option<u32> {
    if tag == 0 {
        Some(0)
    } else if tag + inc <= u32::MAX {
        Some((tag + inc) as u32)
    } else {
        None
    }
}

/// Every tag of `s` retagged, or the first tag that overflows.
pub open spec fn retag_all(s: Seq<u32>, inc: u32) -> Result<Seq<u32>, u32>
    decreases s.len(),
{
    if s.len() == 0 {
        Ok(Seq::empty())
    } else {
        match gm_retag(s[0], inc) {
            None => Err(s[0]),
            Some(t) => match retag_all(s.skip(1), inc) {
                Err(x) => Err(x),
                Ok(rest) => Ok(seq![t] + rest),
            },
        }
    }
}

/// `k` successive `GM` copies of `src`, each made from the one before, in
/// order; or the first tag that overflows.
pub open spec fn gm_copies(src: Seq<u32>, inc: u32, k: nat) -> Result<Seq<u32>, u32>
    decreases k,
{
    if k == 0 {
        Ok(Seq::empty())
    } else {
        match retag_all(src, inc) {
            Err(x) => Err(x),
            Ok(c) => match gm_copies(c, inc, (k - 1) as nat) {
                Err(x) => Err(x),
                Ok(rest) => Ok(c + rest),
            },
        }
    }
}

/// Index of the first segment tagged `tag`.
pub open spec fn first_index_of(tags: Seq<u32>, tag: u32) -> Option<int>
    decreases tags.len(),
{
    if tags.len() == 0 {
        None
    } else {
        match first_index_of(tags.drop_last(), tag) {
            Some(i) => Some(i),
            None => if tags.last() == tag {
                Some(tags.len() - 1)
            } else {
                None
            },
        }
    }
}

/// The overflow detail of a `GM` retag.
pub open spec fn gm_overflow_detail(tag: u32, inc: u32) -> Seq<char> {
    "tag "@ + decimal_text(tag as nat) + " plus tag increment "@ + decimal_text(inc as nat)
}

/// What a `GM` card with tag increment `inc`, repeat count `nrpt` and start
/// tag `its` does to the tags of a structure: the index where the affected
/// suffix starts and the tags afterwards, or the error it is refused with.
///
/// `its == 0` selects the whole structure, otherwise the suffix from the
/// first segment tagged `its`. With `nrpt == 0` the suffix is retagged in
/// place; otherwise `nrpt` copies of it are appended, each retagged from the
/// one before, after the segment budget admits them.
pub open spec fn gm_result(tags: Seq<u32>, inc: u32, nrpt: u32, its: u32) -> Result<
    (int, Seq<u32>),
    GeometryErrorView,
> {
    let start = if its == 0 {
        Some(0int)
    } else {
        first_index_of(tags, its)
    };
    match start {
        None => Err(GeometryErrorView::StartTagNotFound { tag: its }),
        Some(s) => {
            let suffix = tags.skip(s);
            if nrpt == 0 {
                match retag_all(suffix, inc) {
                    Err(t) => Err(
                        GeometryErrorView::TagOverflow {
                            card: "GM"@,
                            detail: gm_overflow_detail(t, inc),
                        },
                    ),
                    Ok(moved) => Ok((s, tags.take(s) + moved)),
                }
            } else {
                let projected = tags.len() + suffix.len() * nrpt;
                if projected > MAX_SEGMENTS {
                    Err(
                        GeometryErrorView::SegmentBudgetExceeded {
                            card: "GM"@,
                            projected: projected as u64,
                        },
                    )
                } else {
                    match gm_copies(suffix, inc, nrpt as nat) {
                        Err(t) => Err(
                            GeometryErrorView::TagOverflow {
                                card: "GM"@,
                                detail: gm_overflow_detail(t, inc),
                            },
                        ),
                        Ok(copies) => Ok((s, tags + copies)),
                    }
                }
            }
        },
    }
}

/// The affected suffix of a `GM` card and the structure's tags after it.
pub struct GmPlan {
    /// Index of the first segment the card moves or copies.
    pub start: usize,
    /// Every segment's tag after the card.
    pub tags: Vec<u32>,
}

fn retag_exec(s: &[u32], inc: u32) -> (r: Result<Vec<u32>, u32>)
    ensures
        match r {
            Ok(v) => retag_all(s@, inc) == Ok::<Seq<u32>, u32>(v@),
            Err(t) => retag_all(s@, inc) == Err::<Seq<u32>, u32>(t),
        },
{
    let mut out: Vec<u32> = Vec::new();
    let mut i: usize = 0;
    proof {
        assert(s@.skip(0) =~= s@);
        assert(out@ + s@ =~= s@);
        lemma_retag_prefix(out@, s@, inc);
    }
    while i < s.len()
        invariant
            i <= s.len(),
            retag_all(s@, inc) == prepend_ok(out@, retag_all(s@.skip(i as int), inc)),
        decreases s.len() - i,
    {
        let t = s[i];
        let ghost rest = s@.skip(i as int);
        assert(rest[0] == t);
        assert(rest.skip(1) =~= s@.skip(i + 1));
        if t == 0 {
            proof {
                lemma_prepend_ok_push(out@, 0, retag_all(rest.skip(1), inc));
            }
            out.push(0);
        } else if t <= u32::MAX - inc {
            proof {
                lemma_prepend_ok_push(out@, (t + inc) as u32, retag_all(rest.skip(1), inc));
            }
            out.push(t + inc);
        } else {
            return Err(t);
        }
        i = i + 1;
    }
    proof {
        assert(s@.skip(i as int) =~= Seq::<u32>::empty());
        assert(out@ + Seq::<u32>::empty() =~= out@);
    }
    Ok(out)
}

/// `p` in front of a successful result.
pub open spec fn prepend_ok(p: Seq<u32>, r: Result<Seq<u32>, u32>) -> Result<Seq<u32>, u32> {
    match r {
        Ok(v) => Ok(p + v),
        Err(x) => Err(x),
    }
}

proof fn lemma_retag_prefix(p: Seq<u32>, s: Seq<u32>, inc: u32)
    requires
        p.len() == 0,
    ensures
        prepend_ok(p, retag_all(s, inc)) == retag_all(s, inc),
{
    match retag_all(s, inc) {
        Ok(v) => {
            assert(p + v =~= v);
        },
        Err(_) => {},
    }
}

proof fn lemma_prepend_ok_push(p: Seq<u32>, t: u32, r: Result<Seq<u32>, u32>)
    ensures
        prepend_ok(p, prefixed_one(t, r)) == prepend_ok(p.push(t), r),
{
    match r {
        Ok(v) => {
            assert(p + (seq![t] + v) =~= p.push(t) + v);
        },
        Err(_) => {},
    }
}

pub open spec fn prefixed_one(t: u32, r: Result<Seq<u32>, u32>) -> Result<Seq<u32>, u32> {
    match r {
        Ok(v) => Ok(seq![t] + v),
        Err(x) => Err(x),
    }
}

fn gm_overflow(tag: u32, inc: u32) -> (e: GeometryError)
    ensures
        e@ == (GeometryErrorView::TagOverflow { card: "GM"@, detail: gm_overflow_detail(tag, inc) }),
{
    let mut d = String::new();
    d.append("tag ");
    push_decimal(&mut d, tag as u64);
    d.append(" plus tag increment ");
    push_decimal(&mut d, inc as u64);
    GeometryError::TagOverflow { card: "GM", detail: d }
}

/// The tag side of a `GM` card (see [`gm_result`]).
pub fn gm_plan(tags: &[u32], tag_increment: u32, repeat_count: u32, start_tag: u32) -> (r: Result<
    GmPlan,
    GeometryError,
>)
    requires
        tags.len() * (repeat_count + 1) <= u64::MAX,
    ensures
        match r {
            Ok(p) => gm_result(tags@, tag_increment, repeat_count, start_tag) == Ok::<
                (int, Seq<u32>),
                GeometryErrorView,
            >((p.start as int, p.tags@)),
            Err(e) => gm_result(tags@, tag_increment, repeat_count, start_tag) == Err::<
                (int, Seq<u32>),
                GeometryErrorView,
            >(e@),
        },
{
    // Resolve ITS to where the affected suffix begins.
    let mut start: usize = 0;
    if start_tag != 0 {
        let mut i: usize = 0;
        proof {
            assert(tags@.take(0) =~= Seq::<u32>::empty());
        }
        while i < tags.len() && tags[i] != start_tag
            invariant
                i <= tags.len(),
                first_index_of(tags@.take(i as int), start_tag) is None,
            decreases tags.len() - i,
        {
            proof {
                assert(tags@.take(i + 1).drop_last() =~= tags@.take(i as int));
            }
            i = i + 1;
        }
        if i == tags.len() {
            proof {
                assert(tags@.take(i as int) =~= tags@);
            }
            return Err(GeometryError::StartTagNotFound { tag: start_tag });
        }
        proof {
            lemma_first_index_found(tags@, start_tag, i as int);
        }
        start = i;
    }
    let suffix: Vec<u32> = tags_from(tags, start);
    if repeat_count == 0 {
        match retag_exec(&suffix, tag_increment) {
            Err(t) => Err(gm_overflow(t, tag_increment)),
            Ok(moved) => {
                let mut all = tags_from(tags, 0);
                all.truncate(start);
                let mut moved = moved;
                let ghost head = all@;
                all.append(&mut moved);
                proof {
                    assert(tags@.skip(0) =~= tags@);
                    assert(head =~= tags@.take(start as int));
                }
                Ok(GmPlan { start, tags: all })
            },
        }
    } else {
        proof {
            assert(suffix.len() * repeat_count <= tags.len() * repeat_count) by (nonlinear_arith)
                requires
                    suffix.len() <= tags.len(),
            ;
            assert(tags.len() * (repeat_count + 1) == tags.len() + tags.len() * repeat_count)
                by (nonlinear_arith);
        }
        let adding = suffix.len() as u64 * repeat_count as u64;
        match check_segment_budget(tags.len(), adding, "GM") {
            Err(e) => {
                return Err(e);
            },
            Ok(()) => {},
        }
        // Copies, each built from the previous one.
        let mut all = tags_from(tags, 0);
        proof {
            assert(all@ =~= tags@);
        }
        let mut src = suffix;
        let mut k: u32 = 0;
        let ghost suffix_v = src@;
        proof {
            assert(all@ =~= tags@ + Seq::<u32>::empty());
            assert(all@.skip(tags@.len() as int) =~= Seq::<u32>::empty());
            match gm_copies(suffix_v, tag_increment, repeat_count as nat) {
                Ok(v) => {
                    assert(Seq::<u32>::empty() + v =~= v);
                },
                Err(_) => {},
            }
        }
        while k < repeat_count
            invariant
                k <= repeat_count,
                gm_result(tags@, tag_increment, repeat_count, start_tag) == match gm_copies(
                    suffix_v,
                    tag_increment,
                    repeat_count as nat,
                ) {
                    Err(t) => Err(
                        GeometryErrorView::TagOverflow {
                            card: "GM"@,
                            detail: gm_overflow_detail(t, tag_increment),
                        },
                    ),
                    Ok(copies) => Ok((start as int, tags@ + copies)),
                },
                gm_copies(suffix_v, tag_increment, repeat_count as nat) == prepend_ok(
                    all@.skip(tags@.len() as int),
                    gm_copies(src@, tag_increment, (repeat_count - k) as nat),
                ),
                all@.take(tags@.len() as int) == tags@,
                all@.len() >= tags@.len(),
            decreases repeat_count - k,
        {
            let ghost copied = all@.skip(tags@.len() as int);
            match retag_exec(&src, tag_increment) {
                Err(t) => {
                    proof {
                        assert(gm_copies(src@, tag_increment, (repeat_count - k) as nat)
                            == Err::<Seq<u32>, u32>(t));
                    }
                    return Err(gm_overflow(t, tag_increment));
                },
                Ok(c) => {
                    let mut c2 = c.clone();
                    proof {
                        lemma_prepend_ok_concat(copied, c@, gm_copies(c@, tag_increment, (repeat_count - k - 1) as nat));
                    }
                    all.append(&mut c2);
                    proof {
                        assert(all@.skip(tags@.len() as int) =~= copied + c@);
                        assert(all@.take(tags@.len() as int) =~= tags@);
                    }
                    src = c;
                },
            }
            k = k + 1;
        }
        proof {
            assert(all@.skip(tags@.len() as int) + Seq::<u32>::empty() =~= all@.skip(
                tags@.len() as int,
            ));
            assert(all@ =~= tags@ + all@.skip(tags@.len() as int));
        }
        Ok(GmPlan { start, tags: all })
    }
}

proof fn lemma_prepend_ok_concat(p: Seq<u32>, c: Seq<u32>, r: Result<Seq<u32>, u32>)
    ensures
        prepend_ok(p, match r {
            Ok(rest) => Ok(c + rest),
            Err(x) => Err(x),
        }) == prepend_ok(p + c, r),
{
    match r {
        Ok(v) => {
            assert(p + (c + v) =~= (p + c) + v);
        },
        Err(_) => {},
    }
}

proof fn lemma_first_index_found(tags: Seq<u32>, tag: u32, i: int)
    requires
        0 <= i < tags.len(),
        tags[i] == tag,
        first_index_of(tags.take(i), tag) is None,
    ensures
        first_index_of(tags, tag) == Some(i),
    decreases tags.len(),
{
    if i + 1 < tags.len() {
        assert(tags.drop_last().take(i) =~= tags.take(i));
        lemma_first_index_found(tags.drop_last(), tag, i);
    } else {
        assert(tags.drop_last() =~= tags.take(i));
    }
}

/// Copy of `tags[from..]`.
fn tags_from(tags: &[u32], from: usize) -> (r: Vec<u32>)
    requires
        from <= tags.len(),
    ensures
        r@ == tags@.skip(from as int),
{
    let mut r: Vec<u32> = Vec::new();
    let mut i = from;
    while i < tags.len()
        invariant
            from <= i <= tags.len(),
            r@ == tags@.subrange(from as int, i as int),
        decreases tags.len() - i,
    {
        r.push(tags[i]);
        i = i + 1;
        assert(r@ =~= tags@.subrange(from as int, i as int));
    }
    assert(r@ =~= tags@.skip(from as int));
    r
}

/// Copies are cumulative: in the `k`-th copy (counting from 1) a nonzero tag
/// `t` of the moved suffix becomes `t + k * inc`, and tag 0 stays 0.
pub proof fn lemma_gm_copies_cumulative(src: Seq<u32>, inc: u32, n: nat, k: nat, j: int)
    requires
        gm_copies(src, inc, n) is Ok,
        1 <= k <= n,
        0 <= j < src.len(),
    ensures
        gm_copies(src, inc, n)->Ok_0.len() == n * src.len(),
        (k - 1) * src.len() + j < n * src.len(),
        gm_copies(src, inc, n)->Ok_0[(k - 1) * src.len() + j] == (if src[j] == 0 {
            0
        } else {
            src[j] + k * inc
        }),
    decreases n,
{
    lemma_gm_copies_len(src, inc, n);
    lemma_retag_all_values(src, inc);
    let c = retag_all(src, inc)->Ok_0;
    let rest = gm_copies(c, inc, (n - 1) as nat)->Ok_0;
    let all = gm_copies(src, inc, n)->Ok_0;
    let len = src.len();
    assert(all == c + rest);
    assert(c.len() == len);
    assert((k - 1) * len + j < n * len) by (nonlinear_arith)
        requires
            1 <= k <= n,
            0 <= j < len,
    ;
    if k == 1 {
        assert((k - 1) * len + j == j) by (nonlinear_arith)
            requires
                k == 1,
        ;
        assert(all[j] == c[j]);
        assert(Some(c[j]) == gm_retag(src[j], inc));
        assert(k * inc == inc) by (nonlinear_arith)
            requires
                k == 1,
        ;
    } else {
        lemma_gm_copies_cumulative(c, inc, (n - 1) as nat, (k - 1) as nat, j);
        let idx = (k - 1) * len + j;
        let ridx = (k - 2) * len + j;
        assert(idx == len + ridx) by (nonlinear_arith)
            requires
                k >= 2,
                idx == (k - 1) * len + j,
                ridx == (k - 2) * len + j,
        ;
        assert(all[idx] == rest[ridx]);
        assert(Some(c[j]) == gm_retag(src[j], inc));
        if src[j] != 0 {
            assert(c[j] == src[j] + inc);
            assert(c[j] + (k - 1) * inc == src[j] + k * inc) by (nonlinear_arith)
                requires
                    c[j] == src[j] + inc,
            ;
        }
    }
}

proof fn lemma_gm_copies_len(src: Seq<u32>, inc: u32, n: nat)
    requires
        gm_copies(src, inc, n) is Ok,
    ensures
        gm_copies(src, inc, n)->Ok_0.len() == n * src.len(),
    decreases n,
{
    if n > 0 {
        lemma_retag_all_values(src, inc);
        let c = retag_all(src, inc)->Ok_0;
        lemma_gm_copies_len(c, inc, (n - 1) as nat);
        let rest = gm_copies(c, inc, (n - 1) as nat)->Ok_0;
        assert(gm_copies(src, inc, n)->Ok_0 == c + rest);
        assert(rest.len() == (n - 1) * src.len());
        let m = (n - 1) as nat;
        assert(n * src.len() == src.len() + m * src.len()) by (nonlinear_arith)
            requires
                m == n - 1,
        ;
    } else {
        assert(n * src.len() == 0) by (nonlinear_arith)
            requires
                n == 0,
        ;
    }
}

/// A successful retag keeps the length and retags every tag.
pub proof fn lemma_retag_all_values(s: Seq<u32>, inc: u32)
    ensures
        retag_all(s, inc) matches Ok(v) ==> v.len() == s.len() && forall|j: int|
            0 <= j < s.len() ==> Some(#[trigger] v[j]) == gm_retag(s[j], inc),
    decreases s.len(),
{
    if s.len() > 0 {
        lemma_retag_all_values(s.skip(1), inc);
        if let Ok(v) = retag_all(s, inc) {
            assert forall|j: int| 0 <= j < s.len() implies Some(#[trigger] v[j]) == gm_retag(
                s[j],
                inc,
            ) by {
                if j > 0 {
                    assert(s.skip(1)[j - 1] == s[j]);
                }
            }
        }
    }
}

// ---------------------------------------------------------------------------
// GR: repeat the whole structure by rotation
// ---------------------------------------------------------------------------

/// Copies `from..=count` of a `GR` card over the original tags `orig`, in
/// order; or the overflow detail of the first tag arithmetic that fails.
pub open spec fn gr_copies(orig: Seq<u32>, inc: u32, from: nat, count: nat) -> Result<Seq<u32>, Seq<char>>
    decreases count + 1 - from,
{
    if from > count || from == 0 {
        Ok(Seq::empty())
    } else if inc * from > u32::MAX {
        Err("tag increment "@ + decimal_text(inc as nat) + " times copy "@ + decimal_text(from))
    } else {
        let step = (inc * from) as u32;
        match first_over(orig, step) {
            Some(t) => Err("tag "@ + decimal_text(t as nat) + " plus tag increment "@ + decimal_text(
                step as nat,
            )),
            None => match gr_copies(orig, inc, from + 1, count) {
                Err(d) => Err(d),
                Ok(rest) => Ok(orig.map_values(|t: u32| (t + step) as u32) + rest),
            },
        }
    }
}

/// The first tag of `s` that `step` pushes past `u32::MAX`.
pub open spec fn first_over(s: Seq<u32>, step: u32) -> Option<u32>
    decreases s.len(),
{
    if s.len() == 0 {
        None
    } else if s[0] + step > u32::MAX {
        Some(s[0])
    } else {
        first_over(s.skip(1), step)
    }
}

/// What a `GR` card with tag increment `inc` and `count` copies does to the
/// tags of a structure: copy `k` (1 to `count`) repeats every original tag
/// plus `k * inc`, after the segment budget admits all copies.
pub open spec fn gr_result(tags: Seq<u32>, inc: u32, count: u32) -> Result<Seq<u32>, GeometryErrorView> {
    if count == 0 {
        Ok(tags)
    } else {
        let projected = tags.len() + tags.len() * count;
        if projected > MAX_SEGMENTS {
            Err(
                GeometryErrorView::SegmentBudgetExceeded {
                    card: "GR"@,
                    projected: projected as u64,
                },
            )
        } else {
            match gr_copies(tags, inc, 1, count as nat) {
                Err(d) => Err(GeometryErrorView::TagOverflow { card: "GR"@, detail: d }),
                Ok(copies) => Ok(tags + copies),
            }
        }
    }
}

/// The tag side of a `GR` card (see [`gr_result`]).
#[verifier::loop_isolation(false)]
pub fn gr_plan(tags: &[u32], tag_increment: u32, count: u32) -> (r: Result<Vec<u32>, GeometryError>)
    requires
        tags.len() * (count + 1) <= u64::MAX,
    ensures
        match r {
            Ok(v) => gr_result(tags@, tag_increment, count) == Ok::<Seq<u32>, GeometryErrorView>(v@),
            Err(e) => gr_result(tags@, tag_increment, count) == Err::<Seq<u32>, GeometryErrorView>(e@),
        },
{
    if count == 0 {
        let v = tags_from(tags, 0);
        assert(v@ =~= tags@);
        return Ok(v);
    }
    proof {
        assert(tags.len() * (count + 1) == tags.len() + tags.len() * count) by (nonlinear_arith);
    }
    match check_segment_budget(tags.len(), tags.len() as u64 * count as u64, "GR") {
        Err(e) => {
            return Err(e);
        },
        Ok(()) => {},
    }
    let mut all = tags_from(tags, 0);
    proof {
        assert(all@ =~= tags@);
    }
    let mut done: u32 = 0;
    proof {
        assert(all@.skip(tags@.len() as int) =~= Seq::<u32>::empty());
        match gr_copies(tags@, tag_increment, 1, count as nat) {
            Ok(v) => {
                assert(Seq::<u32>::empty() + v =~= v);
            },
            Err(_) => {},
        }
    }
    while done < count
        invariant
            done <= count,
            gr_result(tags@, tag_increment, count) == match gr_copies(tags@, tag_increment, 1, count as nat) {
                Err(d) => Err(GeometryErrorView::TagOverflow { card: "GR"@, detail: d }),
                Ok(copies) => Ok(tags@ + copies),
            },
            count <= u32::MAX,
            all@.take(tags@.len() as int) == tags@,
            all@.len() >= tags@.len(),
            gr_copies(tags@, tag_increment, 1, count as nat) == prepend_text_ok(
                all@.skip(tags@.len() as int),
                gr_copies(tags@, tag_increment, (done + 1) as nat, count as nat),
            ),
        decreases count - done,
    {
        let copy_idx = done + 1;
        let ghost copied = all@.skip(tags@.len() as int);
        let step = match tag_increment.checked_mul(copy_idx) {
            Some(s) => s,
            None => {
                let mut d = String::new();
                d.append("tag increment ");
                push_decimal(&mut d, tag_increment as u64);
                d.append(" times copy ");
                push_decimal(&mut d, copy_idx as u64);
                return Err(GeometryError::TagOverflow { card: "GR", detail: d });
            },
        };
        // Check every tag before copying, so the first failure is reported.
        let mut j: usize = 0;
        assert(tags@.skip(0) =~= tags@);
        while j < tags.len()
            invariant
                j <= tags.len(),
                first_over(tags@, step) == first_over(tags@.skip(j as int), step),
            decreases tags.len() - j,
        {
            proof {
                assert(tags@.skip(j as int)[0] == tags@[j as int]);
                assert(tags@.skip(j as int).skip(1) =~= tags@.skip(j + 1));
            }
            if tags[j] > u32::MAX - step {
                let mut d = String::new();
                d.append("tag ");
                push_decimal(&mut d, tags[j] as u64);
                d.append(" plus tag increment ");
                push_decimal(&mut d, step as u64);
                return Err(GeometryError::TagOverflow { card: "GR", detail: d });
            }
            j = j + 1;
        }
        proof {
            assert(tags@.skip(j as int) =~= Seq::<u32>::empty());
        }
        let ghost before = all@;
        let mut q: usize = 0;
        while q < tags.len()
            invariant
                q <= tags.len(),
                first_over(tags@, step) is None,
                all@ == before + tags@.take(q as int).map_values(|t: u32| (t + step) as u32),
            decreases tags.len() - q,
        {
            proof {
                lemma_first_over_none(tags@, step, q as int);
            }
            all.push(tags[q] + step);
            q = q + 1;
            proof {
                assert(all@ =~= before + tags@.take(q as int).map_values(|t: u32| (t + step) as u32));
            }
        }
        proof {
            assert(tags@.take(tags.len() as int) =~= tags@);
            let c = tags@.map_values(|t: u32| (t + step) as u32);
            assert(all@.skip(tags@.len() as int) =~= copied + c);
            assert(all@.take(tags@.len() as int) =~= tags@);
            match gr_copies(tags@, tag_increment, (copy_idx + 1) as nat, count as nat) {
                Ok(rest) => {
                    assert(copied + (c + rest) =~= (copied + c) + rest);
                },
                Err(_) => {},
            }
        }
        done = done + 1;
    }
    proof {
        assert(all@ =~= tags@ + all@.skip(tags@.len() as int));
        assert(all@.skip(tags@.len() as int) + Seq::<u32>::empty() =~= all@.skip(
            tags@.len() as int,
        ));
    }
    Ok(all)
}

pub open spec fn prepend_text_ok(p: Seq<u32>, r: Result<Seq<u32>, Seq<char>>) -> Result<Seq<u32>, Seq<char>> {
    match r {
        Ok(v) => Ok(p + v),
        Err(x) => Err(x),
    }
}

proof fn lemma_first_over_none(s: Seq<u32>, step: u32, q: int)
    requires
        first_over(s, step) is None,
        0 <= q < s.len(),
    ensures
        s[q] + step <= u32::MAX,
    decreases q,
{
    if q > 0 {
        assert(s.skip(1)[q - 1] == s[q]);
        lemma_first_over_none(s.skip(1), step, q - 1);
    }
}

/// The ground a deck asks for, before its medium parameters are read.
#[derive(Debug, Clone, Copy, PartialEq, Eq, Structural)]
pub enum GroundChoice {
    /// No ground: free space.
    FreeSpace,
    /// Perfect electric conductor at z = 0 (image method).
    PerfectConductor,
    /// The simple finite-ground model (GN 0 or 2).
    SimpleFiniteGround,
    /// A GN type that is not implemented; solved as free space with a warning.
    Deferred { gn_type: i32 },
}

/// The ground selected by a GN card's type.
pub open spec fn gn_choice(gn_type: i32) -> GroundChoice {
    if gn_type == -1 {
        GroundChoice::FreeSpace
    } else if gn_type == 1 {
        GroundChoice::PerfectConductor
    } else if gn_type == 0 || gn_type == 2 {
        GroundChoice::SimpleFiniteGround
    } else {
        GroundChoice::Deferred { gn_type }
    }
}

/// The ground of a deck: its first `GN` card decides; without one, any `GE`
/// card with a positive ground-reflection flag asks for a PEC ground (image
/// method at z = 0); otherwise free space.
pub fn ground_choice(first_gn: Option<GnCard>, ge_cards: &[GeCard]) -> (r: GroundChoice)
    ensures
        r == match first_gn {
            Some(gn) => gn_choice(gn.ground_type),
            None => if exists|i: int| 0 <= i < ge_cards@.len() && (#[trigger] ge_cards@[i]).ground_reflection_flag
                > 0 {
                GroundChoice::PerfectConductor
            } else {
                GroundChoice::FreeSpace
            },
        },
{
    if let Some(gn) = first_gn {
        let t = gn.ground_type;
        return if t == -1 {
            GroundChoice::FreeSpace
        } else if t == 1 {
            GroundChoice::PerfectConductor
        } else if t == 0 || t == 2 {
            GroundChoice::SimpleFiniteGround
        } else {
            GroundChoice::Deferred { gn_type: t }
        };
    }
    let mut i: usize = 0;
    while i < ge_cards.len()
        invariant
            i <= ge_cards.len(),
            first_gn is None,
            forall|j: int| 0 <= j < i ==> (#[trigger] ge_cards@[j]).ground_reflection_flag <= 0,
        decreases ge_cards.len() - i,
    {
        if ge_cards[i].ground_reflection_flag > 0 {
            assert(ge_cards@[i as int].ground_reflection_flag > 0);
            return GroundChoice::PerfectConductor;
        }
        i = i + 1;
    }
    GroundChoice::FreeSpace
}

/// Why a geometry is out of scope for the single-path (degree-2) Hallén
/// solve.
#[derive(Debug, Clone, Copy, PartialEq, Eq, Structural)]
pub enum UnsupportedTopology {
    /// A node where three or more wire ends meet (a T/Y junction).
    HighDegreeJunction,
    /// A closed loop — a conductor with no free end.
    ClosedLoop,
}

} // verus!

verus! {

// ---------------------------------------------------------------------------
// Laws of the GM and GR tag arithmetic
// ---------------------------------------------------------------------------

/// An in-place `GM` card (no copies) leaves the structure's size and the
/// segments before the moved suffix alone, and retags every moved segment by
/// the tag increment (tag 0 excepted).
pub proof fn law_gm_in_place(tags: Seq<u32>, inc: u32, its: u32)
    ensures
        gm_result(tags, inc, 0, its) matches Ok((s, t)) ==> {
            &&& 0 <= s <= tags.len()
            &&& t.len() == tags.len()
            &&& t.take(s) == tags.take(s)
            &&& forall|j: int| s <= j < tags.len() ==> Some(#[trigger] t[j]) == gm_retag(tags[j], inc)
        },
{
    if let Ok((s, t)) = gm_result(tags, inc, 0, its) {
        if its != 0 {
            lemma_first_index_bound(tags, its);
        }
        let suffix = tags.skip(s);
        lemma_retag_all_values(suffix, inc);
        let moved = retag_all(suffix, inc)->Ok_0;
        assert(t == tags.take(s) + moved);
        assert(t.take(s) =~= tags.take(s));
        assert forall|j: int| s <= j < tags.len() implies Some(#[trigger] t[j]) == gm_retag(tags[j], inc) by {
            assert(t[j] == moved[j - s]);
            assert(suffix[j - s] == tags[j]);
        }
    }
}

proof fn lemma_first_index_bound(tags: Seq<u32>, tag: u32)
    ensures
        first_index_of(tags, tag) matches Some(i) ==> 0 <= i < tags.len() && tags[i] == tag,
    decreases tags.len(),
{
    if tags.len() > 0 {
        lemma_first_index_bound(tags.drop_last(), tag);
    }
}

/// `GM` copies are cumulative: copy `k` (counting from 1) of the moved
/// suffix is appended after the original structure and the `k - 1` copies
/// before it, and carries every nonzero suffix tag `t` as `t + k * inc`.
pub proof fn law_gm_copies_are_cumulative(tags: Seq<u32>, inc: u32, nrpt: u32, its: u32, k: nat, j: int)
    requires
        nrpt > 0,
        1 <= k <= nrpt,
        gm_result(tags, inc, nrpt, its) is Ok,
        0 <= j < tags.len() - gm_result(tags, inc, nrpt, its)->Ok_0.0,
    ensures
        ({
            let (s, t) = gm_result(tags, inc, nrpt, its)->Ok_0;
            let len = tags.len() - s;
            &&& t.len() == tags.len() + nrpt * len
            &&& t.take(tags.len() as int) == tags
            &&& t[tags.len() + (k - 1) * len + j] == (if tags[s + j] == 0 {
                0
            } else {
                tags[s + j] + k * inc
            })
        }),
{
    let (s, t) = gm_result(tags, inc, nrpt, its)->Ok_0;
    if its != 0 {
        lemma_first_index_bound(tags, its);
    }
    let suffix = tags.skip(s);
    let copies = gm_copies(suffix, inc, nrpt as nat)->Ok_0;
    assert(t == tags + copies);
    lemma_gm_copies_cumulative(suffix, inc, nrpt as nat, k, j);
    assert(t.take(tags.len() as int) =~= tags);
    assert(t[tags.len() + (k - 1) * suffix.len() + j] == copies[(k - 1) * suffix.len() + j]);
}

/// `GR` copy `k` (counting from 1) repeats every original tag `t` as
/// `t + k * inc`, after the original structure and the copies before it.
pub proof fn law_gr_copies_add_the_increment(tags: Seq<u32>, inc: u32, count: u32, k: nat, j: int)
    requires
        count > 0,
        1 <= k <= count,
        0 <= j < tags.len(),
        gr_result(tags, inc, count) is Ok,
    ensures
        ({
            let t = gr_result(tags, inc, count)->Ok_0;
            &&& t.len() == tags.len() + count * tags.len()
            &&& t.take(tags.len() as int) == tags
            &&& t[k * tags.len() + j] == tags[j] + k * inc
        }),
{
    let t = gr_result(tags, inc, count)->Ok_0;
    let copies = gr_copies(tags, inc, 1, count as nat)->Ok_0;
    assert(t == tags + copies);
    lemma_gr_copies_values(tags, inc, 1, count as nat, k, j);
    assert(t.take(tags.len() as int) =~= tags);
    assert(k * tags.len() == tags.len() + (k - 1) * tags.len()) by (nonlinear_arith);
    lemma_gr_copies_len(tags, inc, 1, count as nat);
    assert((k - 1) * tags.len() + j < count * tags.len()) by (nonlinear_arith)
        requires
            1 <= k <= count,
            0 <= j < tags.len(),
    ;
    assert(t[k * tags.len() + j] == copies[(k - 1) * tags.len() + j]);
}

proof fn lemma_gr_copies_values(orig: Seq<u32>, inc: u32, from: nat, count: nat, k: nat, j: int)
    requires
        1 <= from <= k <= count,
        0 <= j < orig.len(),
        gr_copies(orig, inc, from, count) is Ok,
    ensures
        gr_copies(orig, inc, from, count)->Ok_0.len() == (count + 1 - from) * orig.len(),
        gr_copies(orig, inc, from, count)->Ok_0[(k - from) * orig.len() + j] == orig[j] + k * inc,
    decreases count + 1 - from,
{
    let step = (inc * from) as u32;
    let c = orig.map_values(|t: u32| (t + step) as u32);
    lemma_first_over_none_all(orig, step);
    let all = gr_copies(orig, inc, from, count)->Ok_0;
    let len = orig.len();
    if from < count {
        lemma_gr_copies_len(orig, inc, from + 1, count);
        let rest = gr_copies(orig, inc, from + 1, count)->Ok_0;
        assert(all == c + rest);
        assert((count + 1 - from) * len == len + (count + 1 - (from + 1)) * len) by (nonlinear_arith);
        if k > from {
            lemma_gr_copies_values(orig, inc, from + 1, count, k, j);
            assert((k - from) * len + j == len + ((k - (from + 1)) * len + j)) by (nonlinear_arith)
                requires
                    k > from,
            ;
            assert((k - (from + 1)) * len + j < (count + 1 - (from + 1)) * len) by (nonlinear_arith)
                requires
                    from + 1 <= k <= count,
                    0 <= j < len,
            ;
            assert(all[(k - from) * len + j] == rest[(k - (from + 1)) * len + j]);
        } else {
            assert((k - from) * len == 0) by (nonlinear_arith)
                requires
                    k == from,
            ;
            assert(all[j] == c[j]);
            assert(orig[j] + step <= u32::MAX);
            assert(inc * from <= u32::MAX);
            assert(k * inc == inc * from) by (nonlinear_arith)
                requires
                    k == from,
            ;
            assert(c[j] == orig[j] + step);
        }
    } else {
        assert(gr_copies(orig, inc, from + 1, count) == Ok::<Seq<u32>, Seq<char>>(Seq::empty()));
        assert(all =~= c);
        assert((count + 1 - from) * len == len) by (nonlinear_arith)
            requires
                from == count,
        ;
        assert((k - from) * len == 0) by (nonlinear_arith)
            requires
                k == from,
        ;
        assert(all[j] == c[j]);
        assert(orig[j] + step <= u32::MAX);
        assert(inc * from <= u32::MAX);
        assert(k * inc == inc * from) by (nonlinear_arith)
            requires
                k == from,
        ;
        assert(c[j] == orig[j] + step);
    }
}

proof fn lemma_gr_copies_len(orig: Seq<u32>, inc: u32, from: nat, count: nat)
    requires
        1 <= from,
        gr_copies(orig, inc, from, count) is Ok,
    ensures
        gr_copies(orig, inc, from, count)->Ok_0.len() == (if from <= count {
            (count + 1 - from) * orig.len()
        } else {
            0
        }),
    decreases count + 1 - from,
{
    if from <= count {
        lemma_gr_copies_len(orig, inc, from + 1, count);
        assert((count + 1 - from) * orig.len() == orig.len() + (if from + 1 <= count {
            (count + 1 - (from + 1)) * orig.len()
        } else {
            0
        })) by (nonlinear_arith)
            requires
                from <= count,
        ;
    }
}

proof fn lemma_first_over_none_all(s: Seq<u32>, step: u32)
    ensures
        first_over(s, step) is None ==> forall|q: int| 0 <= q < s.len() ==> #[trigger] s[q] + step
            <= u32::MAX,
{
    if first_over(s, step) is None {
        assert forall|q: int| 0 <= q < s.len() implies #[trigger] s[q] + step <= u32::MAX by {
            lemma_first_over_none(s, step, q);
        }
    }
}

/// A `GM` or `GR` card that adds segments never takes the structure past
/// [`MAX_SEGMENTS`].
pub proof fn law_copies_stay_within_budget(tags: Seq<u32>, inc: u32, n: u32, its: u32)
    requires
        n > 0,
    ensures
        gm_result(tags, inc, n, its) matches Ok((s, t)) ==> t.len() <= MAX_SEGMENTS,
        gr_result(tags, inc, n) matches Ok(t) ==> t.len() <= MAX_SEGMENTS,
{
    if let Ok((s, t)) = gm_result(tags, inc, n, its) {
        if its != 0 {
            lemma_first_index_bound(tags, its);
        }
        let suffix = tags.skip(s);
        lemma_gm_copies_len(suffix, inc, n as nat);
        assert(n * suffix.len() == suffix.len() * n) by (nonlinear_arith);
    }
    if let Ok(t) = gr_result(tags, inc, n) {
        lemma_gr_copies_len(tags, inc, 1, n as nat);
        assert(n * tags.len() == tags.len() * n) by (nonlinear_arith);
    }
}

} // verus!

verus! {

/// The wires of a tag list are its maximal runs of one tag: in order, each
/// run's segments share a tag, the segment before a run and the one after it
/// carry other tags, and the runs cover the list one after the other, every
/// segment in exactly one wire.
pub open spec fn runs_are_maximal(tags: Seq<u32>, runs: Seq<(int, int)>) -> bool {
    &&& forall|r: int| #![trigger runs[r]] 0 <= r < runs.len() ==> {
        let (a, b) = runs[r];
        &&& 0 <= a <= b < tags.len()
        &&& forall|q: int| a <= q <= b ==> #[trigger] tags[q] == tags[a]
        &&& (a == 0 || tags[a - 1] != tags[a])
        &&& (b == tags.len() - 1 || tags[b + 1] != tags[a])
    }
    &&& forall|r: int| #![trigger runs[r]] 0 <= r < runs.len() - 1 ==> runs[r].1 + 1 == runs[r + 1].0
    &&& (tags.len() == 0 <==> runs.len() == 0)
    &&& (runs.len() > 0 ==> runs[0].0 == 0 && runs.last().1 == tags.len() - 1)
}

/// [`wire_runs`] yields the maximal runs; the last of them ends where the
/// tag list ends.
proof fn lemma_wire_runs_shape(tags: Seq<u32>)
    ensures
        ({
            let runs = wire_runs(tags);
            &&& forall|r: int| #![trigger runs[r]] 0 <= r < runs.len() ==> {
                let (a, b) = runs[r];
                &&& 0 <= a <= b < tags.len()
                &&& (forall|q: int| a <= q <= b ==> #[trigger] tags[q] == tags[a])
                &&& (a == 0 || tags[a - 1] != tags[a])
                &&& (r < runs.len() - 1 ==> tags[b + 1] != tags[a])
            }
            &&& forall|r: int| #![trigger runs[r]] 0 <= r < runs.len() - 1 ==> runs[r].1 + 1 == runs[r + 1].0
            &&& (tags.len() == 0 <==> runs.len() == 0)
            &&& (runs.len() > 0 ==> runs[0].0 == 0 && runs.last().1 == tags.len() - 1)
        }),
    decreases tags.len(),
{
    if tags.len() > 0 {
        let prev_tags = tags.drop_last();
        lemma_wire_runs_shape(prev_tags);
        let prev = wire_runs(prev_tags);
        let runs = wire_runs(tags);
        let i = tags.len() - 1;
        let t = tags[i];
        assert forall|q: int| 0 <= q < prev_tags.len() implies prev_tags[q] == tags[q] by {}
        if i > 0 && tags[i - 1] == t {
            lemma_wire_runs_last(prev_tags);
            let last = prev.len() - 1;
            let (a0, b0) = prev[last];
            assert(b0 == i - 1);
            assert(runs == prev.update(last, (a0, i)));
            assert forall|r: int| #![trigger runs[r]] 0 <= r < runs.len() implies {
                let (a, b) = runs[r];
                &&& 0 <= a <= b < tags.len()
                &&& (forall|q: int| a <= q <= b ==> #[trigger] tags[q] == tags[a])
                &&& (a == 0 || tags[a - 1] != tags[a])
                &&& (r < runs.len() - 1 ==> tags[b + 1] != tags[a])
            } by {
                if r < last {
                    assert(runs[r] == prev[r]);
                    assert(prev[r].1 < tags.len() - 1);
                } else {
                    assert(runs[r] == (a0, i));
                    assert forall|q: int| a0 <= q <= i implies #[trigger] tags[q] == tags[a0] by {
                        if q < i {
                            assert(prev_tags[q] == prev_tags[a0]);
                        }
                    }
                }
            }
            assert forall|r: int| #![trigger runs[r]] 0 <= r < runs.len() - 1 implies runs[r].1 + 1
                == runs[r + 1].0 by {
                assert(runs[r] == prev[r]);
                if r + 1 < last {
                    assert(runs[r + 1] == prev[r + 1]);
                }
            }
        } else {
            assert(runs == prev.push((i, i)));
            assert forall|r: int| #![trigger runs[r]] 0 <= r < runs.len() implies {
                let (a, b) = runs[r];
                &&& 0 <= a <= b < tags.len()
                &&& (forall|q: int| a <= q <= b ==> #[trigger] tags[q] == tags[a])
                &&& (a == 0 || tags[a - 1] != tags[a])
                &&& (r < runs.len() - 1 ==> tags[b + 1] != tags[a])
            } by {
                if r < prev.len() {
                    assert(runs[r] == prev[r]);
                    let (a, b) = prev[r];
                    assert forall|q: int| a <= q <= b implies #[trigger] tags[q] == tags[a] by {
                        assert(prev_tags[q] == prev_tags[a]);
                    }
                    if r == prev.len() - 1 {
                        assert(b == i - 1);
                    }
                }
            }
            assert forall|r: int| #![trigger runs[r]] 0 <= r < runs.len() - 1 implies runs[r].1 + 1
                == runs[r + 1].0 by {
                assert(runs[r] == prev[r]);
                if r + 1 < prev.len() {
                    assert(runs[r + 1] == prev[r + 1]);
                }
            }
        }
    }
}

/// The wires of a tag list are its maximal runs of one tag (see
/// [`runs_are_maximal`]).
pub proof fn law_wires_are_maximal_runs(tags: Seq<u32>)
    ensures
        runs_are_maximal(tags, wire_runs(tags)),
{
    lemma_wire_runs_shape(tags);
}

// ---------------------------------------------------------------------------
// The whole build, card by card
// ---------------------------------------------------------------------------

/// A geometry card as the tag bookkeeping sees it.
#[derive(Debug, Clone, Copy, PartialEq, Eq, Structural)]
pub enum GeometryStep {
    /// `GW`: `segments` segments tagged `tag`; `zero_length` when the wire's
    /// two end points coincide.
    Wire { tag: u32, segments: u32, zero_length: bool },
    /// `GM`: move (`repeat_count == 0`) or copy the structure from the first
    /// segment tagged `start_tag` (`0`: from the first segment).
    Move { tag_increment: u32, repeat_count: u32, start_tag: u32 },
    /// `GR`: `count` rotated copies of the structure.
    Rotate { tag_increment: u32, count: u32 },
}

/// The tags after one card, or its refusal.
pub open spec fn step_result(tags: Seq<u32>, step: GeometryStep) -> Result<Seq<u32>, GeometryErrorView> {
    match step {
        GeometryStep::Wire { tag, segments, zero_length } => {
            if segments == 0 {
                Err(GeometryErrorView::ZeroSegments { tag })
            } else if zero_length {
                Err(GeometryErrorView::ZeroLengthWire { tag })
            } else if tags.len() + segments > MAX_SEGMENTS {
                Err(
                    GeometryErrorView::SegmentBudgetExceeded {
                        card: "GW"@,
                        projected: (tags.len() + segments) as u64,
                    },
                )
            } else {
                Ok(tags + Seq::new(segments as nat, |k: int| tag))
            }
        },
        GeometryStep::Move { tag_increment, repeat_count, start_tag } => {
            match gm_result(tags, tag_increment, repeat_count, start_tag) {
                Ok((_, t)) => Ok(t),
                Err(e) => Err(e),
            }
        },
        GeometryStep::Rotate { tag_increment, count } => gr_result(tags, tag_increment, count),
    }
}

/// The tags after the cards `steps`, in order, or the first refusal.
pub open spec fn steps_result(steps: Seq<GeometryStep>) -> Result<Seq<u32>, GeometryErrorView>
    decreases steps.len(),
{
    if steps.len() == 0 {
        Ok(Seq::empty())
    } else {
        match steps_result(steps.drop_last()) {
            Ok(t) => step_result(t, steps.last()),
            Err(e) => Err(e),
        }
    }
}

/// The tags of every segment of a geometry, or why it is refused: the
/// first card refused, else no segment at all.
pub open spec fn geometry_tags(steps: Seq<GeometryStep>) -> Result<Seq<u32>, GeometryErrorView> {
    match steps_result(steps) {
        Ok(t) => if t.len() == 0 {
            Err(GeometryErrorView::NoWires)
        } else {
            Ok(t)
        },
        Err(e) => Err(e),
    }
}

/// A card keeps the structure within the segment budget.
proof fn lemma_step_within_budget(tags: Seq<u32>, step: GeometryStep)
    requires
        tags.len() <= MAX_SEGMENTS,
    ensures
        step_result(tags, step) matches Ok(t) ==> t.len() <= MAX_SEGMENTS,
{
    match step {
        GeometryStep::Wire { .. } => {},
        GeometryStep::Move { tag_increment, repeat_count, start_tag } => {
            if repeat_count == 0 {
                law_gm_in_place(tags, tag_increment, start_tag);
            } else {
                law_copies_stay_within_budget(tags, tag_increment, repeat_count, start_tag);
            }
        },
        GeometryStep::Rotate { tag_increment, count } => {
            if count > 0 {
                law_copies_stay_within_budget(tags, tag_increment, count, 0);
            }
        },
    }
}

proof fn lemma_steps_within_budget(steps: Seq<GeometryStep>)
    ensures
        steps_result(steps) matches Ok(t) ==> t.len() <= MAX_SEGMENTS,
    decreases steps.len(),
{
    if steps.len() > 0 {
        lemma_steps_within_budget(steps.drop_last());
        if let Ok(t) = steps_result(steps.drop_last()) {
            lemma_step_within_budget(t, steps.last());
        }
    }
}

/// Build the tags of every segment of a geometry, card by card: `GW`
/// appends a wire, `GM` moves or copies a suffix, `GR` repeats the
/// structure; the first card refused decides, and a geometry with no
/// segment is refused.
pub fn build_geometry_tags(steps: &[GeometryStep]) -> (r: Result<Vec<u32>, GeometryError>)
    ensures
        match r {
            Ok(v) => geometry_tags(steps@) == Ok::<Seq<u32>, GeometryErrorView>(v@),
            Err(e) => geometry_tags(steps@) == Err::<Seq<u32>, GeometryErrorView>(e@),
        },
{
    let mut tags: Vec<u32> = Vec::new();
    let mut i: usize = 0;
    proof {
        assert(steps@.take(0) =~= Seq::<GeometryStep>::empty());
    }
    while i < steps.len()
        invariant
            i <= steps.len(),
            steps_result(steps@.take(i as int)) == Ok::<Seq<u32>, GeometryErrorView>(tags@),
            tags.len() <= MAX_SEGMENTS,
        decreases steps.len() - i,
    {
        proof {
            assert(steps@.take(i + 1).drop_last() =~= steps@.take(i as int));
            assert(steps@.take(i + 1).last() == steps@[i as int]);
            lemma_step_within_budget(tags@, steps@[i as int]);
        }
        let ghost before = tags@;
        match steps[i] {
            GeometryStep::Wire { tag, segments, zero_length } => {
                match check_gw_card(tag, segments, zero_length, tags.len()) {
                    Err(e) => {
                        proof {
                            lemma_first_refusal_stands(steps@, i as int + 1);
                        }
                        return Err(e);
                    },
                    Ok(()) => {},
                }
                let mut k: u32 = 0;
                while k < segments
                    invariant
                        k <= segments,
                        tags@ == before + Seq::new(k as nat, |q: int| tag),
                    decreases segments - k,
                {
                    tags.push(tag);
                    k = k + 1;
                    proof {
                        assert(tags@ =~= before + Seq::new(k as nat, |q: int| tag));
                    }
                }
            },
            GeometryStep::Move { tag_increment, repeat_count, start_tag } => {
                proof {
                    assert(tags.len() * (repeat_count + 1) <= 10_000 * (u32::MAX + 1)) by (nonlinear_arith)
                        requires
                            tags.len() <= 10_000,
                            repeat_count <= u32::MAX,
                    ;
                }
                match gm_plan(tags.as_slice(), tag_increment, repeat_count, start_tag) {
                    Err(e) => {
                        proof {
                            lemma_first_refusal_stands(steps@, i as int + 1);
                        }
                        return Err(e);
                    },
                    Ok(p) => {
                        tags = p.tags;
                    },
                }
            },
            GeometryStep::Rotate { tag_increment, count } => {
                proof {
                    assert(tags.len() * (count + 1) <= 10_000 * (u32::MAX + 1)) by (nonlinear_arith)
                        requires
                            tags.len() <= 10_000,
                            count <= u32::MAX,
                    ;
                }
                match gr_plan(tags.as_slice(), tag_increment, count) {
                    Err(e) => {
                        proof {
                            lemma_first_refusal_stands(steps@, i as int + 1);
                        }
                        return Err(e);
                    },
                    Ok(v) => {
                        tags = v;
                    },
                }
            },
        }
        i = i + 1;
    }
    proof {
        assert(steps@.take(steps.len() as int) =~= steps@);
    }
    if tags.len() == 0 {
        return Err(GeometryError::NoWires);
    }
    Ok(tags)
}

/// A refusal by the cards up to `k` stands whatever cards follow.
proof fn lemma_first_refusal_stands(steps: Seq<GeometryStep>, k: int)
    requires
        0 <= k <= steps.len(),
    ensures
        steps_result(steps.take(k)) is Err ==> steps_result(steps) == steps_result(steps.take(k)),
    decreases steps.len() - k,
{
    if k < steps.len() {
        lemma_first_refusal_stands(steps, k + 1);
        assert(steps.take(k + 1).drop_last() =~= steps.take(k));
    } else {
        assert(steps.take(k) =~= steps);
    }
}

/// The geometry a deck builds: when it is built, it has between one
/// segment and [`MAX_SEGMENTS`]; and the first card refused decides the
/// refusal, whatever cards follow it.
pub proof fn law_geometry_fits_and_first_refusal_decides(steps: Seq<GeometryStep>, k: int)
    requires
        0 <= k <= steps.len(),
    ensures
        geometry_tags(steps) matches Ok(t) ==> 1 <= t.len() <= MAX_SEGMENTS,
        steps_result(steps.take(k)) matches Err(e) ==> geometry_tags(steps) == Err::<
            Seq<u32>,
            GeometryErrorView,
        >(e),
{
    lemma_steps_within_budget(steps);
    lemma_first_refusal_stands(steps, k);
}

} // verus!
