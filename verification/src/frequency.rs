//! Which `FR` card governs a solve, how many points a card asks for, and the
//! warning each superseded card earns. The frequencies themselves are
//! floating point and are computed by the caller.
//!
//! The last `FR` card governs: a deck runs one execution, at the frequencies
//! the last card asks for. Every earlier card is named in a warning rather
//! than dropped in silence.

use vstd::prelude::*;
use crate::text::{decimal_text, push_decimal};

verus! {

/// The index of the `FR` card that governs a solve among the deck's cards,
/// given which of them are `FR` cards: the last one, or none.
pub fn governing_fr_index(is_fr: &[bool]) -> (r: Option<usize>)
    ensures
        r is None <==> forall|i: int| 0 <= i < is_fr.len() ==> !(#[trigger] is_fr@[i]),
        r matches Some(k) ==> k < is_fr.len() && is_fr@[k as int] && forall|i: int|
            k < i < is_fr.len() ==> !(#[trigger] is_fr@[i]),
{
    let mut k: usize = is_fr.len();
    while k > 0
        invariant
            k <= is_fr.len(),
            forall|i: int| k <= i < is_fr.len() ==> !(#[trigger] is_fr@[i]),
        decreases k,
    {
        if is_fr[k - 1] {
            return Some(k - 1);
        }
        k = k - 1;
    }
    None
}

/// Upper bound on the points one `FR` card may expand to.
pub const MAX_FR_POINTS: usize = 100_000;

/// How many points a card with `steps` steps asks for: at least one, since
/// `steps = 0` is a single frequency rather than none.
pub fn fr_point_count(steps: u32) -> (n: usize)
    ensures
        n == if steps == 0 { 1 } else { steps as int },
{
    if steps == 0 {
        1
    } else {
        steps as usize
    }
}

/// How many of those points are expanded: no more than [`MAX_FR_POINTS`].
pub fn fr_expanded_count(steps: u32) -> (n: usize)
    ensures
        n == if steps == 0 { 1 } else if steps > MAX_FR_POINTS { MAX_FR_POINTS as int } else { steps as int },
{
    let n = fr_point_count(steps);
    if n > MAX_FR_POINTS {
        MAX_FR_POINTS
    } else {
        n
    }
}

/// Whether a card asks for more points than are expanded.
pub fn fr_is_truncated(steps: u32) -> (b: bool)
    ensures
        b == (steps > MAX_FR_POINTS),
{
    fr_point_count(steps) > MAX_FR_POINTS
}

/// Whether a card's steps multiply (`step_type == 1`); every other step type
/// adds.
pub fn fr_is_multiplicative(step_type: u32) -> (b: bool)
    ensures
        b == (step_type == 1),
{
    step_type == 1
}

/// The warning for card number `number` (from 1), starting at `start` MHz,
/// superseded by the last card, starting at `last` MHz.
pub open spec fn superseded_text(number: nat, start: Seq<char>, last: Seq<char>) -> Seq<char> {
    "FR card "@ + decimal_text(number) + " ("@ + start + " MHz) is superseded by the last FR card ("@ + last
        + " MHz): fnec runs one execution per deck, at the frequencies the last card asks for. NEC-2 would run an earlier card too if an execution card followed it, which fnec does not model"@
}

pub open spec fn texts(v: Seq<String>) -> Seq<Seq<char>> {
    v.map_values(|s: String| s@)
}

/// One warning per `FR` card the last one supersedes, in card order, given
/// each card's start frequency as the text it is reported with.
pub fn superseded_fr_warnings(start_mhz: &Vec<String>) -> (w: Vec<String>)
    requires
        start_mhz.len() <= u64::MAX,
    ensures
        start_mhz.len() < 2 ==> w.len() == 0,
        start_mhz.len() >= 2 ==> w.len() == start_mhz.len() - 1,
        forall|i: int|
            0 <= i < w.len() ==> (#[trigger] w@[i])@ == superseded_text(
                (i + 1) as nat,
                start_mhz@[i]@,
                start_mhz@[start_mhz.len() - 1]@,
            ),
{
    let mut out: Vec<String> = Vec::new();
    let n = start_mhz.len();
    if n < 2 {
        return out;
    }
    let last = &start_mhz[n - 1];
    let mut i: usize = 0;
    while i < n - 1
        invariant
            2 <= n == start_mhz.len() <= u64::MAX,
            last@ == start_mhz@[n - 1]@,
            i <= n - 1,
            out.len() == i,
            forall|k: int| 0 <= k < i ==> (#[trigger] out@[k])@ == superseded_text(
                (k + 1) as nat,
                start_mhz@[k]@,
                start_mhz@[n - 1]@,
            ),
        decreases n - 1 - i,
    {
        let mut m = String::new();
        m.append("FR card ");
        push_decimal(&mut m, (i + 1) as u64);
        m.append(" (");
        m.append(start_mhz[i].as_str());
        m.append(" MHz) is superseded by the last FR card (");
        m.append(last.as_str());
        m.append(
            " MHz): fnec runs one execution per deck, at the frequencies the last card asks for. NEC-2 would run an earlier card too if an execution card followed it, which fnec does not model",
        );
        proof {
            assert(m@ =~= superseded_text((i + 1) as nat, start_mhz@[i as int]@, start_mhz@[n - 1]@));
        }
        out.push(m);
        i = i + 1;
    }
    out
}

} // verus!
