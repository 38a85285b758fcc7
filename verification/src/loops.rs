//! Why a wire set refused without a T/Y junction has a closed conductor.
//!
//! Counting ends: with no node of three or more ends, every end lies on a
//! node of one or two. A group of `m` wires has `2m` ends; each two-end node
//! of the group holds two of them, and the group was joined from `m` single
//! wires by at least `m - 1` such nodes. So a group has `2m - 2e` free ends
//! for some `e >= m - 1`: two, or none.

use vstd::prelude::*;
use crate::topology::{
    cluster_step, clusters, conductor_paths_spec, degree, filtered, free_ends, group, has_high_degree,
    has_self_joint, in_group, is_root, joined_upto, lemma_filtered_bound, lemma_filtered_prefix, nodes,
    reps, roots, Clusters,
};

verus! {

/// Strictly ascending.
pub open spec fn ascending_ints(s: Seq<int>) -> bool {
    forall|i: int, j: int| 0 <= i < j < s.len() ==> s[i] < s[j]
}

/// The shape of the nodes after the first `k` of `n` ends were considered:
/// every considered end is placed, every node lists its ends in ascending
/// order, and an end is listed exactly by the node it is placed in.
pub open spec fn clusters_wf(c: Clusters, n: int, k: int) -> bool {
    &&& c.node_of.len() == n
    &&& forall|e: int| 0 <= e < n ==> -1 <= #[trigger] c.node_of[e] < c.members.len()
    &&& forall|e: int| 0 <= e < k && e < n ==> #[trigger] c.node_of[e] >= 0
    &&& forall|j: int| 0 <= j < c.members.len() ==> ascending_ints(#[trigger] c.members[j]) && c.members[j].len() >= 1
    &&& forall|j: int, q: int|
        0 <= j < c.members.len() && 0 <= q < c.members[j].len() ==> 0 <= #[trigger] c.members[j][q] < n
            && c.node_of[c.members[j][q]] == j
    &&& forall|e: int| 0 <= e < n && #[trigger] c.node_of[e] >= 0 ==> c.members[c.node_of[e]].contains(e)
}

proof fn lemma_joined(row: Seq<bool>, node_of: Seq<int>, id: int, k: int)
    ensures
        forall|q: int| 0 <= q < joined_upto(row, node_of, id, k).len() ==> {
            let j = #[trigger] joined_upto(row, node_of, id, k)[q];
            0 <= j < k && j != id && node_of[j] < 0 && row[j]
        },
        ascending_ints(joined_upto(row, node_of, id, k)),
        forall|j: int| 0 <= j < k && j != id && node_of[j] < 0 && row[j] ==> joined_upto(row, node_of, id, k).contains(j),
    decreases k,
{
    if k > 0 {
        lemma_joined(row, node_of, id, k - 1);
        let p = joined_upto(row, node_of, id, k - 1);
        let j = k - 1;
        if j != id && node_of[j] < 0 && row[j] {
            let s = p.push(j);
            assert(joined_upto(row, node_of, id, k) == s);
            assert forall|a: int| 0 <= a < k && a != id && node_of[a] < 0 && row[a] implies s.contains(a) by {
                if a < k - 1 {
                    assert(p.contains(a));
                    let q = choose|q: int| 0 <= q < p.len() && p[q] == a;
                    assert(s[q] == a);
                } else {
                    assert(s[s.len() - 1] == a);
                }
            }
        } else {
            assert forall|a: int| 0 <= a < k && a != id && node_of[a] < 0 && row[a] implies p.contains(a) by {
                if a == k - 1 {
                    assert(false);
                }
            }
        }
    }
}

proof fn lemma_cluster_step_wf(c: Clusters, near: Seq<Seq<bool>>, id: int, n: int)
    requires
        0 <= id < n,
        clusters_wf(c, n, id),
    ensures
        clusters_wf(cluster_step(c, near, id, n), n, id + 1),
{
    if c.node_of[id] < 0 {
        let node = c.members.len() as int;
        let jn = joined_upto(near[id], c.node_of, id, n);
        lemma_joined(near[id], c.node_of, id, n);
        let ms = seq![id] + jn;
        let c2 = cluster_step(c, near, id, n);
        assert(c2.members == c.members.push(ms));
        // every joined end comes after `id`: the ends before it are placed
        assert forall|q: int| 0 <= q < jn.len() implies id < #[trigger] jn[q] by {
            let j = jn[q];
            if j < id {
                assert(c.node_of[j] >= 0);
            }
        }
        assert(ascending_ints(ms)) by {
            assert forall|a: int, b: int| 0 <= a < b < ms.len() implies ms[a] < ms[b] by {
                if a == 0 {
                    assert(ms[b] == jn[b - 1]);
                } else {
                    assert(ms[a] == jn[a - 1]);
                    assert(ms[b] == jn[b - 1]);
                }
            }
        }
        assert forall|j: int, q: int|
            0 <= j < c2.members.len() && 0 <= q < c2.members[j].len() implies 0 <= #[trigger] c2.members[j][q] < n
                && c2.node_of[c2.members[j][q]] == j by {
            if j < node {
                assert(c2.members[j] == c.members[j]);
                let e = c.members[j][q];
                assert(c.node_of[e] == j);
            } else {
                if q > 0 {
                    assert(ms[q] == jn[q - 1]);
                }
            }
        }
        assert forall|e: int| 0 <= e < n && #[trigger] c2.node_of[e] >= 0 implies c2.members[c2.node_of[e]].contains(
            e,
        ) by {
            if e == id {
                assert(ms[0] == id);
            } else if c.node_of[e] < 0 && near[id][e] {
                assert(jn.contains(e));
                let q = choose|q: int| 0 <= q < jn.len() && jn[q] == e;
                assert(ms[q + 1] == e);
            } else {
                assert(c2.node_of[e] == c.node_of[e]);
                assert(c2.members[c.node_of[e]] == c.members[c.node_of[e]]);
            }
        }
        assert forall|j: int| 0 <= j < c2.members.len() implies ascending_ints(#[trigger] c2.members[j])
            && c2.members[j].len() >= 1 by {
            if j < node {
                assert(c2.members[j] == c.members[j]);
            }
        }
    }
}

/// The clustering keeps its shape (see [`clusters_wf`]).
pub proof fn lemma_clusters_wf(near: Seq<Seq<bool>>, n: int, k: int)
    requires
        0 <= k <= n,
    ensures
        clusters_wf(clusters(near, n, k), n, k),
    decreases k,
{
    if k > 0 {
        lemma_clusters_wf(near, n, k - 1);
        lemma_cluster_step_wf(clusters(near, n, k - 1), near, k - 1, n);
    }
}

// ---------------------------------------------------------------------------
// Counting
// ---------------------------------------------------------------------------

/// How many of `0..n` satisfy `p`.
pub open spec fn count(n: int, p: spec_fn(int) -> bool) -> nat
    decreases n,
{
    if n <= 0 {
        0
    } else {
        count(n - 1, p) + if p(n - 1) {
            1nat
        } else {
            0nat
        }
    }
}

proof fn lemma_count_congruent(n: int, p: spec_fn(int) -> bool, q: spec_fn(int) -> bool)
    requires
        forall|x: int| 0 <= x < n ==> #[trigger] p(x) == q(x),
    ensures
        count(n, p) == count(n, q),
    decreases n,
{
    if n > 0 {
        lemma_count_congruent(n - 1, p, q);
    }
}

proof fn lemma_count_split(n: int, r: spec_fn(int) -> bool, p: spec_fn(int) -> bool, q: spec_fn(int) -> bool)
    requires
        forall|x: int| 0 <= x < n ==> #[trigger] r(x) == (p(x) || q(x)) && !(p(x) && q(x)),
    ensures
        count(n, r) == count(n, p) + count(n, q),
    decreases n,
{
    if n > 0 {
        lemma_count_split(n - 1, r, p, q);
    }
}

proof fn lemma_count_none(n: int, p: spec_fn(int) -> bool)
    requires
        forall|x: int| 0 <= x < n ==> !(#[trigger] p(x)),
    ensures
        count(n, p) == 0,
    decreases n,
{
    if n > 0 {
        lemma_count_none(n - 1, p);
    }
}

proof fn lemma_count_one(n: int, p: spec_fn(int) -> bool, a: int)
    requires
        0 <= a < n,
        forall|x: int| 0 <= x < n && x != a ==> !(#[trigger] p(x)),
    ensures
        count(n, p) == if p(a) {
            1nat
        } else {
            0nat
        },
    decreases n,
{
    if n - 1 == a {
        lemma_count_none(n - 1, p);
    } else {
        lemma_count_one(n - 1, p, a);
    }
}

proof fn lemma_count_witness(n: int, p: spec_fn(int) -> bool, a: int)
    requires
        0 <= a < n,
        p(a),
    ensures
        count(n, p) >= 1,
    decreases n,
{
    if n - 1 != a {
        lemma_count_witness(n - 1, p, a);
    }
}

// ---------------------------------------------------------------------------
// The ends of a group
// ---------------------------------------------------------------------------

/// Whether an end is on a wire of the group with representative `v`.
pub open spec fn end_in_group(rep: Seq<int>, v: int) -> spec_fn(int) -> bool {
    |e: int| rep[e / 2] == v
}

/// Whether an end of the group is free (alone on its node).
pub open spec fn free_end_in_group(c: Clusters, rep: Seq<int>, v: int) -> spec_fn(int) -> bool {
    |e: int| rep[e / 2] == v && degree(c, e) == 1
}

/// Whether an end of the group shares its node with one other end.
pub open spec fn paired_end_in_group(c: Clusters, rep: Seq<int>, v: int) -> spec_fn(int) -> bool {
    |e: int| rep[e / 2] == v && degree(c, e) == 2
}

/// A group of `m` wires has `2m` ends.
proof fn lemma_group_ends(rep: Seq<int>, v: int, w: int)
    requires
        w >= 0,
    ensures
        count(2 * w, end_in_group(rep, v)) == 2 * count(w, in_group(rep, v)),
    decreases w,
{
    if w > 0 {
        lemma_group_ends(rep, v, w - 1);
        let p = end_in_group(rep, v);
        assert(count(2 * w - 1, p) == count(2 * w - 2, p) + if p(2 * w - 2) { 1nat } else { 0nat });
        assert((2 * w - 2) / 2 == w - 1);
        assert((2 * w - 1) / 2 == w - 1);
    }
}

/// The free ends a group lists are its free ends counted end by end.
proof fn lemma_free_ends_count(c: Clusters, rep: Seq<int>, v: int, k: int)
    requires
        k >= 0,
    ensures
        free_ends(c, group(rep, k, v)).len() == count(2 * k, free_end_in_group(c, rep, v)),
    decreases k,
{
    if k > 0 {
        lemma_free_ends_count(c, rep, v, k - 1);
        let p = free_end_in_group(c, rep, v);
        let g0 = group(rep, k - 1, v);
        let g1 = group(rep, k, v);
        assert(count(2 * k - 1, p) == count(2 * k - 2, p) + if p(2 * k - 2) { 1nat } else { 0nat });
        assert((2 * k - 2) / 2 == k - 1);
        assert((2 * k - 1) / 2 == k - 1);
        if rep[k - 1] == v {
            assert(g1 == g0.push(k - 1));
            assert(g1.drop_last() == g0);
        } else {
            assert(g1 == g0);
        }
    }
}

/// Every end of a group is free or paired when no node joins three ends.
proof fn lemma_free_or_paired(c: Clusters, rep: Seq<int>, v: int, n: int)
    requires
        clusters_wf(c, n, n),
        forall|j: int| 0 <= j < c.members.len() ==> (#[trigger] c.members[j]).len() < 3,
    ensures
        count(n, end_in_group(rep, v)) == count(n, free_end_in_group(c, rep, v)) + count(
            n,
            paired_end_in_group(c, rep, v),
        ),
{
    assert forall|e: int| 0 <= e < n implies (#[trigger] end_in_group(rep, v)(e)) == (free_end_in_group(c, rep, v)(e)
        || paired_end_in_group(c, rep, v)(e)) && !(free_end_in_group(c, rep, v)(e) && paired_end_in_group(c, rep, v)(
        e,
    )) by {
        let j = c.node_of[e];
        assert(j >= 0);
        assert(c.members[j].len() >= 1);
        assert(c.members[j].len() < 3);
    }
    lemma_count_split(n, end_in_group(rep, v), free_end_in_group(c, rep, v), paired_end_in_group(c, rep, v));
}

// ---------------------------------------------------------------------------
// Paired ends and two-end nodes
// ---------------------------------------------------------------------------

/// Whether node `j` joins two ends, its first on a wire of group `v`.
pub open spec fn pair_node_in_group(c: Clusters, rep: Seq<int>, v: int) -> spec_fn(int) -> bool {
    |j: int| c.members[j].len() == 2 && rep[c.members[j][0] / 2] == v
}

/// Paired ends of group `v` placed on one of the first `k` nodes.
pub open spec fn paired_end_upto(c: Clusters, rep: Seq<int>, v: int, k: int) -> spec_fn(int) -> bool {
    |e: int| c.node_of[e] < k && rep[e / 2] == v && degree(c, e) == 2
}

/// Paired ends of group `v` placed on node `k`.
pub open spec fn paired_end_at(c: Clusters, rep: Seq<int>, v: int, k: int) -> spec_fn(int) -> bool {
    |e: int| c.node_of[e] == k && rep[e / 2] == v && degree(c, e) == 2
}

/// Both ends of a two-end node lie on wires of one group.
pub open spec fn pairs_joined(c: Clusters, rep: Seq<int>) -> bool {
    forall|j: int|
        0 <= j < c.members.len() && (#[trigger] c.members[j]).len() == 2 ==> rep[c.members[j][0] / 2]
            == rep[c.members[j][1] / 2]
}

proof fn lemma_paired_at_node(c: Clusters, rep: Seq<int>, v: int, n: int, k: int)
    requires
        clusters_wf(c, n, n),
        pairs_joined(c, rep),
        0 <= k < c.members.len(),
    ensures
        count(n, paired_end_at(c, rep, v, k)) == 2 * (if pair_node_in_group(c, rep, v)(k) {
            1nat
        } else {
            0nat
        }),
{
    let m = c.members[k];
    let at = paired_end_at(c, rep, v, k);
    if m.len() != 2 {
        assert forall|e: int| 0 <= e < n implies !(#[trigger] at(e)) by {
            if c.node_of[e] == k {
                assert(degree(c, e) == m.len());
            }
        }
        lemma_count_none(n, at);
    } else {
        let a = m[0];
        let b = m[1];
        assert(a < b);
        assert(0 <= a < n && c.node_of[a] == k);
        assert(0 <= b < n && c.node_of[b] == k);
        let pa = |e: int| e == a && at(e);
        let pb = |e: int| e == b && at(e);
        assert forall|e: int| 0 <= e < n implies #[trigger] at(e) == (pa(e) || pb(e)) && !(pa(e) && pb(e)) by {
            if at(e) {
                assert(m.contains(e));
                let q = choose|q: int| 0 <= q < m.len() && m[q] == e;
                assert(q == 0 || q == 1);
            }
        }
        lemma_count_split(n, at, pa, pb);
        lemma_count_one(n, pa, a);
        lemma_count_one(n, pb, b);
        assert(degree(c, a) == 2);
        assert(degree(c, b) == 2);
        assert(rep[a / 2] == rep[b / 2]);
    }
}

proof fn lemma_paired_upto(c: Clusters, rep: Seq<int>, v: int, n: int, k: int)
    requires
        clusters_wf(c, n, n),
        pairs_joined(c, rep),
        0 <= k <= c.members.len(),
    ensures
        count(n, paired_end_upto(c, rep, v, k)) == 2 * count(k, pair_node_in_group(c, rep, v)),
    decreases k,
{
    if k == 0 {
        assert forall|e: int| 0 <= e < n implies !(#[trigger] paired_end_upto(c, rep, v, 0)(e)) by {
            assert(c.node_of[e] >= 0);
        }
        lemma_count_none(n, paired_end_upto(c, rep, v, 0));
    } else {
        lemma_paired_upto(c, rep, v, n, k - 1);
        lemma_paired_at_node(c, rep, v, n, k - 1);
        let up = paired_end_upto(c, rep, v, k);
        let before = paired_end_upto(c, rep, v, k - 1);
        let at = paired_end_at(c, rep, v, k - 1);
        assert forall|e: int| 0 <= e < n implies #[trigger] up(e) == (before(e) || at(e)) && !(before(e) && at(e)) by {
        }
        lemma_count_split(n, up, before, at);
    }
}

/// A group's paired ends are two for each of its two-end nodes.
proof fn lemma_paired_ends(c: Clusters, rep: Seq<int>, v: int, n: int)
    requires
        clusters_wf(c, n, n),
        pairs_joined(c, rep),
    ensures
        count(n, paired_end_in_group(c, rep, v)) == 2 * count(c.members.len() as int, pair_node_in_group(c, rep, v)),
{
    let k = c.members.len() as int;
    lemma_paired_upto(c, rep, v, n, k);
    assert forall|e: int| 0 <= e < n implies #[trigger] paired_end_in_group(c, rep, v)(e) == paired_end_upto(
        c,
        rep,
        v,
        k,
    )(e) by {
        assert(c.node_of[e] < k);
    }
    lemma_count_congruent(n, paired_end_in_group(c, rep, v), paired_end_upto(c, rep, v, k));
}

// ---------------------------------------------------------------------------
// Joining the wires
// ---------------------------------------------------------------------------

/// After the first `k` nodes joined their wires: representatives are wires,
/// both ends of every joined two-end node are in one group, and a group of
/// `m` wires was joined by at least `m - 1` of those nodes.
pub open spec fn reps_inv(c: Clusters, w: int, k: int) -> bool {
    let r = reps(c, w, k);
    &&& r.len() == w
    &&& forall|x: int| 0 <= x < w ==> 0 <= #[trigger] r[x] < w
    &&& forall|j: int|
        0 <= j < k && (#[trigger] c.members[j]).len() == 2 ==> r[c.members[j][0] / 2] == r[c.members[j][1] / 2]
    &&& forall|v: int|
        #[trigger] count(w, in_group(r, v)) >= 1 ==> count(k, pair_node_in_group(c, r, v)) + 1 >= count(
            w,
            in_group(r, v),
        )
}

proof fn lemma_reps_step(c: Clusters, w: int, k: int)
    requires
        clusters_wf(c, 2 * w, 2 * w),
        0 <= k < c.members.len(),
        reps_inv(c, w, k),
    ensures
        reps_inv(c, w, k + 1),
{
    let r = reps(c, w, k);
    let r2 = reps(c, w, k + 1);
    let m = c.members[k];
    if m.len() != 2 {
        assert(r2 == r);
        assert forall|v: int| #[trigger] count(w, in_group(r2, v)) >= 1 implies count(k + 1, pair_node_in_group(c, r2, v))
            + 1 >= count(w, in_group(r2, v)) by {
            assert(count(w, in_group(r, v)) >= 1);
        }
    } else {
        assert(0 <= m[0] < 2 * w);
        assert(0 <= m[1] < 2 * w);
        let a = m[0] / 2;
        let b = m[1] / 2;
        let ra = r[a];
        let rb = r[b];
        assert(r2 == Seq::new(w as nat, |x: int| if r[x] == r[a] { r[b] } else { r[x] }));
        if ra == rb {
            assert(r2 =~= r);
            assert forall|v: int| #[trigger] count(w, in_group(r2, v)) >= 1 implies count(k + 1, pair_node_in_group(c, r2, v))
                + 1 >= count(w, in_group(r2, v)) by {
                assert(count(w, in_group(r, v)) >= 1);
            }
        } else {
            assert forall|x: int| 0 <= x < w implies 0 <= #[trigger] r2[x] < w by {}
            assert forall|j: int|
                0 <= j < k + 1 && (#[trigger] c.members[j]).len() == 2 implies r2[c.members[j][0] / 2]
                    == r2[c.members[j][1] / 2] by {
                assert(0 <= c.members[j][0] < 2 * w);
                assert(0 <= c.members[j][1] < 2 * w);
            }
            // the group counts after the join
            lemma_count_witness(w, in_group(r, ra), a);
            lemma_count_witness(w, in_group(r, rb), b);
            assert forall|x: int| 0 <= x < w implies #[trigger] in_group(r2, rb)(x) == (in_group(r, ra)(x) || in_group(
                r,
                rb,
            )(x)) && !(in_group(r, ra)(x) && in_group(r, rb)(x)) by {}
            lemma_count_split(w, in_group(r2, rb), in_group(r, ra), in_group(r, rb));
            // the node counts after the join
            assert forall|j: int| 0 <= j < k implies #[trigger] pair_node_in_group(c, r2, rb)(j) == (pair_node_in_group(
                c,
                r,
                ra,
            )(j) || pair_node_in_group(c, r, rb)(j)) && !(pair_node_in_group(c, r, ra)(j) && pair_node_in_group(
                c,
                r,
                rb,
            )(j)) by {
                if c.members[j].len() == 2 {
                    assert(0 <= c.members[j][0] < 2 * w);
                }
            }
            lemma_count_split(k, pair_node_in_group(c, r2, rb), pair_node_in_group(c, r, ra), pair_node_in_group(c, r, rb));
            assert forall|v: int| #[trigger] count(w, in_group(r2, v)) >= 1 implies count(k + 1, pair_node_in_group(c, r2, v))
                + 1 >= count(w, in_group(r2, v)) by {
                if v == rb {
                    assert(pair_node_in_group(c, r2, rb)(k));
                } else if v == ra {
                    assert forall|x: int| 0 <= x < w implies !(#[trigger] in_group(r2, ra)(x)) by {}
                    lemma_count_none(w, in_group(r2, ra));
                } else {
                    assert forall|x: int| 0 <= x < w implies #[trigger] in_group(r2, v)(x) == in_group(r, v)(x) by {}
                    lemma_count_congruent(w, in_group(r2, v), in_group(r, v));
                    assert forall|j: int| 0 <= j < k implies #[trigger] pair_node_in_group(c, r2, v)(j)
                        == pair_node_in_group(c, r, v)(j) by {
                        if c.members[j].len() == 2 {
                            assert(0 <= c.members[j][0] < 2 * w);
                        }
                    }
                    lemma_count_congruent(k, pair_node_in_group(c, r2, v), pair_node_in_group(c, r, v));
                    assert(!pair_node_in_group(c, r2, v)(k));
                }
            }
        }
    }
}

/// The joining keeps its invariant (see [`reps_inv`]).
pub(crate) proof fn lemma_reps_inv(c: Clusters, w: int, k: int)
    requires
        clusters_wf(c, 2 * w, 2 * w),
        0 <= k <= c.members.len(),
        w >= 0,
    ensures
        reps_inv(c, w, k),
    decreases k,
{
    if k == 0 {
        let r = reps(c, w, 0);
        assert forall|v: int| #[trigger] count(w, in_group(r, v)) >= 1 implies count(0, pair_node_in_group(c, r, v)) + 1
            >= count(w, in_group(r, v)) by {
            if 0 <= v < w {
                assert forall|x: int| 0 <= x < w && x != v implies !(#[trigger] in_group(r, v)(x)) by {}
                lemma_count_one(w, in_group(r, v), v);
            } else {
                assert forall|x: int| 0 <= x < w implies !(#[trigger] in_group(r, v)(x)) by {}
                lemma_count_none(w, in_group(r, v));
            }
        }
    } else {
        lemma_reps_inv(c, w, k - 1);
        lemma_reps_step(c, w, k - 1);
    }
}

// ---------------------------------------------------------------------------
// The law
// ---------------------------------------------------------------------------

/// Some group of wires, as the two-end nodes join them, has no free end.
pub open spec fn has_closed_group(c: Clusters, w: int) -> bool {
    let rep = reps(c, w, c.members.len() as int);
    exists|r: int| 0 <= r < w && rep[r] == r && #[trigger] free_ends(c, group(rep, w, r)).len() == 0
}

/// With no node of three or more ends, every group of wires has two free
/// ends or none.
proof fn lemma_free_ends_two_or_none(c: Clusters, w: int, v: int)
    requires
        clusters_wf(c, 2 * w, 2 * w),
        forall|j: int| 0 <= j < c.members.len() ==> (#[trigger] c.members[j]).len() < 3,
        w >= 0,
        0 <= v < w,
        reps(c, w, c.members.len() as int)[v] == v,
    ensures
        free_ends(c, group(reps(c, w, c.members.len() as int), w, v)).len() == 0
            || free_ends(c, group(reps(c, w, c.members.len() as int), w, v)).len() == 2,
{
    let k = c.members.len() as int;
    let rep = reps(c, w, k);
    lemma_reps_inv(c, w, k);
    lemma_count_witness(w, in_group(rep, v), v);
    let m = count(w, in_group(rep, v));
    let e = count(k, pair_node_in_group(c, rep, v));
    assert(e + 1 >= m);
    lemma_free_ends_count(c, rep, v, w);
    lemma_group_ends(rep, v, w);
    lemma_free_or_paired(c, rep, v, 2 * w);
    lemma_paired_ends(c, rep, v, 2 * w);
    let free = count(2 * w, free_end_in_group(c, rep, v));
    assert(free + 2 * e == 2 * m);
}

/// A wire set refused without a T/Y junction has a closed conductor: a
/// wire whose two ends meet, or a group of joined wires with no free end.
/// So a refusal is a high-degree junction or a closed loop, and nothing
/// else.
pub proof fn law_refusal_without_junction_is_a_closed_loop(wires: Seq<(int, int)>, near: Seq<Seq<bool>>)
    requires
        conductor_paths_spec(wires, near) is None,
        !has_high_degree(nodes(near, 2 * (wires.len() as int))),
    ensures
        has_self_joint(nodes(near, 2 * (wires.len() as int))) || has_closed_group(nodes(near, 2 * (wires.len() as int)), wires.len() as int),
{
    let w = wires.len() as int;
    let c = nodes(near, 2 * w);
    lemma_clusters_wf(near, 2 * w, 2 * w);
    assert forall|j: int| 0 <= j < c.members.len() implies (#[trigger] c.members[j]).len() < 3 by {
        if c.members[j].len() >= 3 {
            assert(has_high_degree(c));
        }
    }
    if !has_self_joint(c) {
        let rep = reps(c, w, c.members.len() as int);
        let rs = roots(rep, w);
        let i = choose|i: int| 0 <= i < rs.len() && free_ends(c, group(rep, w, #[trigger] rs[i])).len() != 2;
        lemma_filtered_bound(w, is_root(rep));
        let r = rs[i];
        assert(0 <= r < w && rep[r] == r);
        lemma_free_ends_two_or_none(c, w, r);
        assert(free_ends(c, group(rep, w, r)).len() == 0);
        assert(has_closed_group(c, w));
    }
}

/// Conductor paths are refused exactly for a T/Y junction (a node of three
/// or more ends) or a closed loop (a wire whose two ends meet, or a group of
/// joined wires with no free end); an empty wire set has no paths and is not
/// refused.
pub proof fn law_refused_iff_junction_or_loop(wires: Seq<(int, int)>, near: Seq<Seq<bool>>)
    ensures
        wires.len() == 0 ==> conductor_paths_spec(wires, near) == Some(Seq::<Seq<(int, bool)>>::empty()),
        wires.len() > 0 ==> (conductor_paths_spec(wires, near) is None <==> {
            let c = nodes(near, 2 * (wires.len() as int));
            has_high_degree(c) || has_self_joint(c) || has_closed_group(c, wires.len() as int)
        }),
{
    let w = wires.len() as int;
    if w > 0 {
        let c = nodes(near, 2 * w);
        if conductor_paths_spec(wires, near) is None && !has_high_degree(c) {
            law_refusal_without_junction_is_a_closed_loop(wires, near);
        }
        if !has_high_degree(c) && !has_self_joint(c) && has_closed_group(c, w) {
            let rep = reps(c, w, c.members.len() as int);
            let rs = roots(rep, w);
            let r = choose|r: int| 0 <= r < w && rep[r] == r && #[trigger] free_ends(c, group(rep, w, r)).len() == 0;
            lemma_filtered_prefix(w, r, is_root(rep));
            let i = filtered(r, is_root(rep)).len() as int;
            assert(is_root(rep)(r));
            assert(rs[i] == r);
            assert(0 <= i < rs.len() && free_ends(c, group(rep, w, rs[i])).len() != 2);
        }
    }
}

} // verus!




