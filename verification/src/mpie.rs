//! The wire graph of the MPIE solver: which triangle bases its nodes carry.
//!
//! Segments join nodes; at every node where `d >= 2` segment ends meet, the
//! first incident segment (the reference arm) is paired with each other arm,
//! giving `d - 1` bases of two legs each. A delta gap can feed a node of
//! degree exactly 2, through that node's one basis.

use vstd::prelude::*;

verus! {

/// One leg of a triangle basis.
#[derive(Debug, Clone, Copy, PartialEq, Eq, Structural)]
pub struct Leg {
    /// Global segment index.
    pub seg: usize,
    /// Whether the basis vertex is the segment's second point.
    pub v_is_p1: bool,
    /// Whether current on this leg flows toward the vertex.
    pub toward: bool,
}

/// The segment ends at `node`, in segment order (a segment's first point
/// before its second): `(segment, the end is the second point)`.
pub open spec fn incident(segments: Seq<[usize; 2]>, node: usize) -> Seq<(usize, bool)>
    decreases segments.len(),
{
    if segments.len() == 0 {
        Seq::empty()
    } else {
        let i = (segments.len() - 1) as usize;
        let s = segments.last();
        incident(segments.drop_last(), node) + (if s[0] == node {
            seq![(i, false)]
        } else {
            Seq::empty()
        }) + (if s[1] == node {
            seq![(i, true)]
        } else {
            Seq::empty()
        })
    }
}

/// The bases at a node with incident ends `legs`.
pub open spec fn node_bases(legs: Seq<(usize, bool)>) -> Seq<Seq<Leg>> {
    if legs.len() < 2 {
        Seq::empty()
    } else {
        Seq::new(
            (legs.len() - 1) as nat,
            |k: int|
                seq![
                    Leg { seg: legs[0].0, v_is_p1: legs[0].1, toward: true },
                    Leg { seg: legs[k + 1].0, v_is_p1: legs[k + 1].1, toward: false },
                ],
        )
    }
}

/// The bases of nodes `0..k`, in node order.
pub open spec fn bases_upto(segments: Seq<[usize; 2]>, k: int) -> Seq<Seq<Leg>>
    decreases k,
{
    if k <= 0 {
        Seq::empty()
    } else {
        bases_upto(segments, k - 1) + node_bases(incident(segments, (k - 1) as usize))
    }
}

/// The basis a delta gap at `node` feeds: the node's basis when exactly two
/// segment ends meet there.
pub open spec fn node_feed(segments: Seq<[usize; 2]>, node: int) -> Option<int> {
    if incident(segments, node as usize).len() == 2 {
        Some(bases_upto(segments, node).len() as int)
    } else {
        None
    }
}

pub open spec fn bases_view(v: Seq<Vec<Leg>>) -> Seq<Seq<Leg>> {
    v.map_values(|b: Vec<Leg>| b@)
}

pub open spec fn feed_view(v: Seq<Option<usize>>) -> Seq<Option<int>> {
    v.map_values(
        |o: Option<usize>|
            match o {
                Some(x) => Some(x as int),
                None => None,
            },
    )
}

fn incident_exec(segments: &[[usize; 2]], node: usize) -> (r: Vec<(usize, bool)>)
    ensures
        r@ == incident(segments@, node),
{
    let mut out: Vec<(usize, bool)> = Vec::new();
    let mut si: usize = 0;
    proof {
        assert(segments@.take(0) =~= Seq::<[usize; 2]>::empty());
    }
    while si < segments.len()
        invariant
            si <= segments.len(),
            out@ == incident(segments@.take(si as int), node),
        decreases segments.len() - si,
    {
        let s = segments[si];
        let ghost before = out@;
        proof {
            assert(segments@.take(si + 1).drop_last() =~= segments@.take(si as int));
            assert(segments@.take(si + 1).last() == s);
        }
        if s[0] == node {
            out.push((si, false));
        }
        let ghost mid = out@;
        if s[1] == node {
            out.push((si, true));
        }
        proof {
            assert(out@ =~= incident(segments@.take(si + 1), node));
        }
        si = si + 1;
    }
    proof {
        assert(segments@.take(segments.len() as int) =~= segments@);
    }
    out
}

/// Build the leg-based triangle bases from the wire graph, plus a per-node
/// map to the degree-2 basis that a delta gap at that node would feed.
pub fn build_bases(n_nodes: usize, segments: &[[usize; 2]]) -> (r: (Vec<Vec<Leg>>, Vec<Option<usize>>))
    requires
        forall|i: int| 0 <= i < segments.len() ==> (#[trigger] segments@[i])[0] < n_nodes && segments@[i][1]
            < n_nodes,
    ensures
        bases_view(r.0@) == bases_upto(segments@, n_nodes as int),
        r.1@.len() == n_nodes,
        forall|node: int| 0 <= node < n_nodes ==> feed_view(r.1@)[node] == node_feed(segments@, node),
{
    let mut bases: Vec<Vec<Leg>> = Vec::new();
    let mut feed: Vec<Option<usize>> = Vec::new();
    let mut node: usize = 0;
    proof {
        assert(bases_view(bases@) =~= Seq::<Seq<Leg>>::empty());
    }
    while node < n_nodes
        invariant
            node <= n_nodes,
            bases_view(bases@) == bases_upto(segments@, node as int),
            feed@.len() == node,
            forall|q: int| 0 <= q < node ==> feed_view(feed@)[q] == node_feed(segments@, q),
        decreases n_nodes - node,
    {
        let legs = incident_exec(segments, node);
        let deg = legs.len();
        let ghost before = bases_view(bases@);
        let start = bases.len();
        if deg >= 2 {
            let (s0, v0) = legs[0];
            let mut k: usize = 1;
            while k < deg
                invariant
                    deg == legs.len(),
                    deg >= 2,
                    legs@[0] == (s0, v0),
                    1 <= k <= deg,
                    bases_view(bases@) == before + node_bases(legs@).take((k - 1) as int),
                decreases deg - k,
            {
                let (sk, vk) = legs[k];
                let mut basis: Vec<Leg> = Vec::new();
                basis.push(Leg { seg: s0, v_is_p1: v0, toward: true });
                basis.push(Leg { seg: sk, v_is_p1: vk, toward: false });
                let ghost old_b = bases@;
                let ghost bv = basis@;
                bases.push(basis);
                proof {
                    assert(bv =~= node_bases(legs@)[k - 1]);
                    assert(bases@ == old_b.push(basis));
                    assert(bases_view(bases@) =~= bases_view(old_b).push(bv));
                    assert(node_bases(legs@).take(k as int) =~= node_bases(legs@).take((k - 1) as int).push(
                        node_bases(legs@)[k - 1],
                    ));
                    assert(bases_view(bases@) =~= before + node_bases(legs@).take(k as int));
                }
                k = k + 1;
            }
            proof {
                assert(node_bases(legs@).take((deg - 1) as int) =~= node_bases(legs@));
            }
        } else {
            proof {
                assert(before + node_bases(legs@) =~= before);
            }
        }
        proof {
            assert(bases_view(bases@) =~= bases_upto(segments@, node + 1));
        }
        if deg == 2 {
            feed.push(Some(start));
        } else {
            feed.push(None);
        }
        proof {
            assert(feed_view(feed@)[node as int] == node_feed(segments@, node as int));
        }
        node = node + 1;
    }
    (bases, feed)
}

/// The node a leg's basis vertex sits on.
pub open spec fn leg_vertex(segments: Seq<[usize; 2]>, l: Leg) -> usize {
    if l.v_is_p1 {
        segments[l.seg as int][1]
    } else {
        segments[l.seg as int][0]
    }
}

proof fn lemma_incident_at(segments: Seq<[usize; 2]>, node: usize)
    requires
        segments.len() <= usize::MAX,
    ensures
        forall|q: int|
            0 <= q < incident(segments, node).len() ==> (#[trigger] incident(segments, node)[q]).0 < segments.len()
                && (if incident(segments, node)[q].1 {
                segments[incident(segments, node)[q].0 as int][1]
            } else {
                segments[incident(segments, node)[q].0 as int][0]
            }) == node,
    decreases segments.len(),
{
    if segments.len() > 0 {
        let d = segments.drop_last();
        lemma_incident_at(d, node);
        let i = (segments.len() - 1) as usize;
        let s = segments.last();
        let a = if s[0] == node { seq![(i, false)] } else { Seq::empty() };
        let b = if s[1] == node { seq![(i, true)] } else { Seq::empty() };
        let prev = incident(d, node);
        let all = incident(segments, node);
        assert(all == prev + a + b);
        assert forall|q: int| 0 <= q < all.len() implies (#[trigger] all[q]).0 < segments.len() && (if all[q].1 {
            segments[all[q].0 as int][1]
        } else {
            segments[all[q].0 as int][0]
        }) == node by {
            if q < prev.len() {
                assert(all[q] == prev[q]);
                let e = incident(d, node)[q];
                assert(e.0 < d.len());
                assert(segments[e.0 as int] == d[e.0 as int]);
            } else if q < prev.len() + a.len() {
                assert(all[q] == a[q - prev.len()]);
                assert(all[q] == (i, false));
                assert(segments[i as int] == s);
            } else {
                assert(all[q] == b[q - prev.len() - a.len()]);
                assert(all[q] == (i, true));
                assert(segments[i as int] == s);
            }
        }
    }
}

/// Kirchhoff's current law holds at every node by construction: each basis
/// at a node pairs two legs that meet at that node, current flowing toward
/// it on the first and away from it on the second. A node where `d >= 2`
/// segment ends meet carries `d - 1` bases; a free end carries none.
pub proof fn law_bases_meet_at_their_node(segments: Seq<[usize; 2]>, node: usize)
    requires
        segments.len() <= usize::MAX,
    ensures
        node_bases(incident(segments, node)).len() == if incident(segments, node).len() >= 2 {
            incident(segments, node).len() - 1
        } else {
            0
        },
        forall|m: int|
            0 <= m < node_bases(incident(segments, node)).len() ==> {
                let b = #[trigger] node_bases(incident(segments, node))[m];
                &&& b.len() == 2
                &&& b[0].toward && !b[1].toward
                &&& b[0].seg < segments.len() && b[1].seg < segments.len()
                &&& leg_vertex(segments, b[0]) == node && leg_vertex(segments, b[1]) == node
            },
{
    lemma_incident_at(segments, node);
    let legs = incident(segments, node);
    if legs.len() >= 2 {
        assert forall|m: int| 0 <= m < node_bases(legs).len() implies {
            let b = #[trigger] node_bases(legs)[m];
            &&& b.len() == 2
            &&& b[0].toward && !b[1].toward
            &&& b[0].seg < segments.len() && b[1].seg < segments.len()
            &&& leg_vertex(segments, b[0]) == node && leg_vertex(segments, b[1]) == node
        } by {
            let b = node_bases(legs)[m];
            assert(legs[0] == incident(segments, node)[0]);
            assert(legs[m + 1] == incident(segments, node)[m + 1]);
        }
    }
}

/// How many segment ends sit on `node` (a segment with both ends there
/// counts twice).
pub open spec fn degree(segments: Seq<[usize; 2]>, node: usize) -> nat
    decreases segments.len(),
{
    if segments.len() == 0 {
        0
    } else {
        let s = segments.last();
        degree(segments.drop_last(), node) + (if s[0] == node {
            1nat
        } else {
            0nat
        }) + (if s[1] == node {
            1nat
        } else {
            0nat
        })
    }
}

/// The sum over nodes `0..k` of `max(degree - 1, 0)`.
pub open spec fn excess_upto(segments: Seq<[usize; 2]>, k: int) -> nat
    decreases k,
{
    if k <= 0 {
        0
    } else {
        let d = degree(segments, (k - 1) as usize);
        excess_upto(segments, k - 1) + (if d >= 2 {
            (d - 1) as nat
        } else {
            0nat
        })
    }
}

proof fn lemma_incident_len(segments: Seq<[usize; 2]>, node: usize)
    ensures
        incident(segments, node).len() == degree(segments, node),
    decreases segments.len(),
{
    if segments.len() > 0 {
        lemma_incident_len(segments.drop_last(), node);
    }
}

/// A basis of two legs, in toward the node on the first and out on the
/// second, whose vertices are one node below `k`, on two different segment
/// ends (the first before the second in segment order).
pub open spec fn basis_below(segments: Seq<[usize; 2]>, b: Seq<Leg>, k: int) -> bool {
    &&& b.len() == 2
    &&& b[0].toward && !b[1].toward
    &&& b[0].seg < segments.len() && b[1].seg < segments.len()
    &&& leg_vertex(segments, b[0]) == leg_vertex(segments, b[1])
    &&& leg_vertex(segments, b[0]) < k
    &&& end_before(leg_end(b[0]), leg_end(b[1]))
}

proof fn lemma_bases_upto(segments: Seq<[usize; 2]>, k: int)
    requires
        segments.len() <= usize::MAX,
        0 <= k <= usize::MAX,
    ensures
        bases_upto(segments, k).len() == excess_upto(segments, k),
        forall|m: int|
            0 <= m < bases_upto(segments, k).len() ==> basis_below(
                segments,
                #[trigger] bases_upto(segments, k)[m],
                k,
            ),
    decreases k,
{
    if k > 0 {
        let node = (k - 1) as usize;
        lemma_bases_upto(segments, k - 1);
        lemma_incident_len(segments, node);
        law_bases_meet_at_their_node(segments, node);
        law_bases_pair_the_reference_arm_with_each_other_arm(segments, node);
        let prev = bases_upto(segments, k - 1);
        let here = node_bases(incident(segments, node));
        let all = bases_upto(segments, k);
        assert(all == prev + here);
        assert forall|m: int| 0 <= m < all.len() implies basis_below(segments, #[trigger] all[m], k) by {
            if m < prev.len() {
                assert(all[m] == prev[m]);
                assert(basis_below(segments, prev[m], k - 1));
            } else {
                assert(all[m] == here[m - prev.len()]);
                assert(end_before(leg_end(here[m - prev.len()][0]), leg_end(here[m - prev.len()][1])));
            }
        }
    }
}

/// The bases of the nodes `0..n_nodes` number the sum over those nodes of
/// `max(d - 1, 0)`, `d` being how many segment ends meet at the node; a delta
/// gap can feed a node exactly when two ends meet there; and every basis is
/// two legs on two different segment ends of the list whose vertices are one
/// node, current flowing toward it on the first leg and away from it on the
/// second.
pub proof fn law_basis_count(segments: Seq<[usize; 2]>, n_nodes: usize)
    requires
        segments.len() <= usize::MAX,
    ensures
        bases_upto(segments, n_nodes as int).len() == excess_upto(segments, n_nodes as int),
        forall|v: int|
            0 <= v < n_nodes ==> ((#[trigger] node_feed(segments, v)) is Some <==> degree(
                segments,
                v as usize,
            ) == 2),
        forall|m: int|
            0 <= m < bases_upto(segments, n_nodes as int).len() ==> basis_below(
                segments,
                #[trigger] bases_upto(segments, n_nodes as int)[m],
                n_nodes as int,
            ),
{
    lemma_bases_upto(segments, n_nodes as int);
    assert forall|v: int| 0 <= v < n_nodes implies ((#[trigger] node_feed(segments, v)) is Some <==> degree(
        segments,
        v as usize,
    ) == 2) by {
        lemma_incident_len(segments, v as usize);
    }
}

/// The segment end a leg's vertex is: its segment, and whether it is the
/// segment's second point.
pub open spec fn leg_end(l: Leg) -> (usize, bool) {
    (l.seg, l.v_is_p1)
}

/// Segment end `e` lies on `node`.
pub open spec fn end_on(segments: Seq<[usize; 2]>, e: (usize, bool), node: usize) -> bool {
    e.0 < segments.len() && (if e.1 {
        segments[e.0 as int][1]
    } else {
        segments[e.0 as int][0]
    }) == node
}

/// `a` comes before `b` in segment order: a lower segment, or the same
/// segment's first point before its second.
pub open spec fn end_before(a: (usize, bool), b: (usize, bool)) -> bool {
    a.0 < b.0 || (a.0 == b.0 && !a.1 && b.1)
}

/// The ends at a node, in segment order: each lies on the node, they
/// ascend, and every end on the node is among them.
proof fn lemma_incident_ordered(segments: Seq<[usize; 2]>, node: usize)
    requires
        segments.len() <= usize::MAX,
    ensures
        forall|p: int|
            0 <= p < incident(segments, node).len() ==> end_on(segments, #[trigger] incident(segments, node)[p], node),
        forall|p: int, q: int|
            0 <= p < q < incident(segments, node).len() ==> end_before(
                #[trigger] incident(segments, node)[p],
                #[trigger] incident(segments, node)[q],
            ),
        forall|e: (usize, bool)|
            #[trigger] end_on(segments, e, node) ==> exists|p: int|
                0 <= p < incident(segments, node).len() && incident(segments, node)[p] == e,
    decreases segments.len(),
{
    lemma_incident_at(segments, node);
    if segments.len() > 0 {
        let d = segments.drop_last();
        lemma_incident_ordered(d, node);
        lemma_incident_at(d, node);
        let i = (segments.len() - 1) as usize;
        let sl = segments.last();
        let a = if sl[0] == node { seq![(i, false)] } else { Seq::<(usize, bool)>::empty() };
        let b = if sl[1] == node { seq![(i, true)] } else { Seq::<(usize, bool)>::empty() };
        let prev = incident(d, node);
        let all = incident(segments, node);
        assert(all == prev + a + b);
        assert forall|p: int| 0 <= p < all.len() implies end_on(segments, #[trigger] all[p], node) by {}
        assert forall|p: int, q: int| 0 <= p < q < all.len() implies end_before(#[trigger] all[p], #[trigger] all[q]) by {
            if q < prev.len() {
                assert(all[p] == prev[p] && all[q] == prev[q]);
            } else if p < prev.len() {
                assert(all[p] == prev[p]);
                assert(prev[p].0 < d.len());
                assert(all[q].0 == i);
            } else {
                assert(p == prev.len() && q == prev.len() + 1);
                assert(a.len() == 1 && b.len() == 1);
            }
        }
        assert forall|e: (usize, bool)| #[trigger] end_on(segments, e, node) implies exists|p: int|
            0 <= p < all.len() && all[p] == e by {
            if e.0 < i {
                assert(d[e.0 as int] == segments[e.0 as int]);
                assert(end_on(d, e, node));
                let p = choose|p: int| 0 <= p < prev.len() && prev[p] == e;
                assert(all[p] == prev[p]);
            } else if !e.1 {
                assert(all[prev.len() as int] == e);
            } else {
                assert(all[(prev.len() + a.len()) as int] == e);
            }
        }
    }
}

/// The bases at a node pair the node's reference arm, its first segment
/// end in segment order, with each of the node's other segment ends in
/// turn: every first leg is that reference end (current toward the node),
/// no end on the node comes before it, every second leg is a later end on
/// the node (current away), the second legs ascend, and every end on the
/// node other than the reference is some basis's second leg. So no basis
/// pairs a segment end with itself, and no two bases share a second leg.
pub proof fn law_bases_pair_the_reference_arm_with_each_other_arm(segments: Seq<[usize; 2]>, node: usize)
    requires
        segments.len() <= usize::MAX,
    ensures
        ({
            let bs = node_bases(incident(segments, node));
            &&& forall|m: int|
                0 <= m < bs.len() ==> {
                    let b = #[trigger] bs[m];
                    &&& b.len() == 2
                    &&& b[0].toward && !b[1].toward
                    &&& end_on(segments, leg_end(b[0]), node) && end_on(segments, leg_end(b[1]), node)
                    &&& forall|e: (usize, bool)| end_on(segments, e, node) ==> !#[trigger] end_before(e, leg_end(b[0]))
                    &&& end_before(leg_end(b[0]), leg_end(b[1]))
                    &&& leg_end(b[0]) == leg_end(bs[0][0])
                }
            &&& forall|m1: int, m2: int|
                0 <= m1 < m2 < bs.len() ==> end_before(leg_end((#[trigger] bs[m1])[1]), leg_end((#[trigger] bs[m2])[1]))
            &&& forall|e: (usize, bool)|
                #[trigger] end_on(segments, e, node) && bs.len() > 0 && e != leg_end(bs[0][0]) ==> exists|m: int|
                    0 <= m < bs.len() && leg_end(bs[m][1]) == e
        }),
{
    lemma_incident_ordered(segments, node);
    let inc = incident(segments, node);
    let bs = node_bases(inc);
    if inc.len() >= 2 {
        assert forall|m: int| 0 <= m < bs.len() implies {
            let b = #[trigger] bs[m];
            &&& b.len() == 2
            &&& b[0].toward && !b[1].toward
            &&& end_on(segments, leg_end(b[0]), node) && end_on(segments, leg_end(b[1]), node)
            &&& forall|e: (usize, bool)| end_on(segments, e, node) ==> !#[trigger] end_before(e, leg_end(b[0]))
            &&& end_before(leg_end(b[0]), leg_end(b[1]))
            &&& leg_end(b[0]) == leg_end(bs[0][0])
        } by {
            let b = bs[m];
            assert(leg_end(b[0]) == inc[0]);
            assert(leg_end(b[1]) == inc[m + 1]);
            assert(end_on(segments, inc[0], node));
            assert(end_on(segments, inc[m + 1], node));
            assert(end_before(inc[0], inc[m + 1]));
            assert forall|e: (usize, bool)| end_on(segments, e, node) implies !#[trigger] end_before(e, leg_end(b[0])) by {
                let p = choose|p: int| 0 <= p < inc.len() && inc[p] == e;
                if p > 0 {
                    assert(end_before(inc[0], inc[p]));
                }
            }
        }
        assert forall|m1: int, m2: int| 0 <= m1 < m2 < bs.len() implies end_before(
            leg_end((#[trigger] bs[m1])[1]),
            leg_end((#[trigger] bs[m2])[1]),
        ) by {
            assert(leg_end(bs[m1][1]) == inc[m1 + 1]);
            assert(leg_end(bs[m2][1]) == inc[m2 + 1]);
            assert(end_before(inc[m1 + 1], inc[m2 + 1]));
        }
        assert forall|e: (usize, bool)| #[trigger] end_on(segments, e, node) && bs.len() > 0 && e != leg_end(
            bs[0][0],
        ) implies exists|m: int| 0 <= m < bs.len() && leg_end(bs[m][1]) == e by {
            let p = choose|p: int| 0 <= p < inc.len() && inc[p] == e;
            assert(leg_end(bs[0][0]) == inc[0]);
            assert(p != 0);
            assert(leg_end(bs[p - 1][1]) == inc[p]);
        }
    }
}

} // verus!

