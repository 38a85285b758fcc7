//! Why every wire of an accepted wire set lies on exactly one conductor
//! path, once.
//!
//! A path is walked from a free end of its group. Each step leaves a wire by
//! its other end and, at a two-end node, enters the wire on the other side;
//! so the set of wires a walk has seen is closed under the two-end nodes, and
//! a set closed under them holds the whole group of each of its wires. The
//! walk never leaves its group, and never enters a wire twice. When the wires
//! cover the segments one run after the other, the paths therefore list every
//! segment exactly once.

use vstd::prelude::*;
use crate::geometry::{law_wires_are_maximal_runs, wire_runs};
use crate::loops::{clusters_wf, lemma_clusters_wf, lemma_reps_inv, pairs_joined, reps_inv};
use crate::topology::{
    conductor_paths_spec, degree, filtered, free_ends, group, group_path, group_walk, has_high_degree,
    has_self_joint, in_group, is_root, law_walk_enters_each_wire_once, lemma_filtered_bound,
    lemma_filtered_prefix, nodes, partner, path_segs, reps, roots, walk, wire_steps, Clusters,
};
use vstd::set_lib::{lemma_int_range, lemma_len_subset, set_int_range};

verus! {

/// A set of wires that every two-end node either joins to nothing in it or
/// joins wholly to it: both wires of the node in the set, or neither.
pub open spec fn join_closed(c: Clusters, s: Set<int>) -> bool {
    forall|j: int|
        0 <= j < c.members.len() && (#[trigger] c.members[j]).len() == 2 ==> (s.contains(c.members[j][0] / 2)
            <==> s.contains(c.members[j][1] / 2))
}

/// A set closed under the two-end nodes holds the whole group of each of
/// its wires, after the first `k` nodes have joined them.
proof fn lemma_closed_holds_groups(c: Clusters, w: int, s: Set<int>, k: int)
    requires
        clusters_wf(c, 2 * w, 2 * w),
        join_closed(c, s),
        0 <= k <= c.members.len(),
    ensures
        forall|x: int, y: int|
            0 <= x < w && 0 <= y < w && s.contains(x) && #[trigger] reps(c, w, k)[y] == #[trigger] reps(c, w, k)[x]
                ==> s.contains(y),
    decreases k,
{
    if k > 0 {
        lemma_closed_holds_groups(c, w, s, k - 1);
        let r = reps(c, w, k - 1);
        let r2 = reps(c, w, k);
        let m = c.members[k - 1];
        if m.len() == 2 {
            assert(0 <= m[0] < 2 * w);
            assert(0 <= m[1] < 2 * w);
            let a = m[0] / 2;
            let b = m[1] / 2;
            assert(s.contains(a) <==> s.contains(b));
            assert forall|x: int, y: int|
                0 <= x < w && 0 <= y < w && s.contains(x) && #[trigger] r2[y] == #[trigger] r2[x] implies s.contains(y) by {
                assert(r.len() == w) by {
                    reps_len(c, w, k - 1);
                }
                if r[y] != r[x] {
                    if r[x] == r[a] {
                        assert(r[a] == r[x]);
                        assert(s.contains(a));
                        assert(s.contains(b));
                        assert(r[y] == r[b]);
                    } else {
                        assert(r[x] == r[b]);
                        assert(s.contains(b));
                        assert(s.contains(a));
                        assert(r[y] == r[a]);
                    }
                }
            }
        } else {
            assert(r2 == r);
        }
    }
}

proof fn reps_len(c: Clusters, w: int, k: int)
    requires
        w >= 0,
    ensures
        reps(c, w, k).len() == w,
    decreases k,
{
    if k > 0 {
        reps_len(c, w, k - 1);
    }
}

/// The wires a walk enters.
pub open spec fn walk_wires(t: Seq<(int, bool)>) -> Set<int> {
    Set::new(|x: int| exists|i: int| 0 <= i < t.len() && (#[trigger] t[i]).0 == x)
}

/// A walk may enter a wire at end `e`: `e` is free, or the other end on
/// its node is on a wire already seen.
pub open spec fn entry_ok(c: Clusters, e: int, seen: Set<int>) -> bool {
    let ms = c.members[c.node_of[e]];
    ms.len() == 1 || forall|q: int| 0 <= q < ms.len() && (#[trigger] ms[q]) != e ==> seen.contains(ms[q] / 2)
}

/// The seen wires are closed under the two-end nodes, except through the
/// end `e` the walk enters next.
pub open spec fn open_only_at(c: Clusters, seen: Set<int>, e: int) -> bool {
    forall|j: int|
        0 <= j < c.members.len() && (#[trigger] c.members[j]).len() == 2 ==> {
            let a = c.members[j][0];
            let b = c.members[j][1];
            &&& (seen.contains(a / 2) && !seen.contains(b / 2) ==> b == e)
            &&& (seen.contains(b / 2) && !seen.contains(a / 2) ==> a == e)
        }
}

proof fn lemma_partner_facts(ms: Seq<int>, cur: int, visited: Set<int>)
    requires
        forall|q: int| 0 <= q < ms.len() ==> 0 <= #[trigger] ms[q],
    ensures
        partner(ms, cur, visited) matches Some(p) ==> p.0 != cur && !visited.contains(p.0) && 0 <= p.1 < 2
            && exists|q: int| 0 <= q < ms.len() && #[trigger] ms[q] == 2 * p.0 + p.1,
        partner(ms, cur, visited) is None ==> forall|q: int|
            0 <= q < ms.len() ==> (#[trigger] ms[q]) / 2 == cur || visited.contains(ms[q] / 2),
    decreases ms.len(),
{
    if ms.len() > 0 {
        let d = ms.drop_last();
        lemma_partner_facts(d, cur, visited);
        let e = ms.last();
        if e / 2 != cur && !visited.contains(e / 2) {
            assert(ms[ms.len() - 1] == 2 * (e / 2) + e % 2);
        } else {
            if let Some(p) = partner(d, cur, visited) {
                let q = choose|q: int| 0 <= q < d.len() && #[trigger] d[q] == 2 * p.0 + p.1;
                assert(ms[q] == d[q]);
            } else {
                assert forall|q: int| 0 <= q < ms.len() implies (#[trigger] ms[q]) / 2 == cur || visited.contains(
                    ms[q] / 2,
                ) by {
                    if q < d.len() {
                        assert(ms[q] == d[q]);
                    }
                }
            }
        }
    }
}

proof fn lemma_walk_wires_cons(x: (int, bool), t: Seq<(int, bool)>)
    ensures
        walk_wires(seq![x] + t) == walk_wires(t).insert(x.0),
{
    let s = seq![x] + t;
    assert forall|y: int| walk_wires(s).contains(y) <==> walk_wires(t).insert(x.0).contains(y) by {
        if walk_wires(s).contains(y) {
            let i = choose|i: int| 0 <= i < s.len() && (#[trigger] s[i]).0 == y;
            if i > 0 {
                assert(t[i - 1] == s[i]);
            }
        }
        if walk_wires(t).contains(y) {
            let i = choose|i: int| 0 <= i < t.len() && (#[trigger] t[i]).0 == y;
            assert(s[i + 1] == t[i]);
        }
        if y == x.0 {
            assert(s[0] == x);
        }
    }
    assert(walk_wires(s) =~= walk_wires(t).insert(x.0));
}

/// The two ends of a two-end node `j` are `e` and one other.
proof fn lemma_pair_other(c: Clusters, n: int, j: int, e: int, f: int)
    requires
        clusters_wf(c, n, n),
        0 <= j < c.members.len(),
        c.members[j].len() == 2,
        0 <= e < n,
        0 <= f < n,
        c.node_of[e] == j,
        c.node_of[f] == j,
        e != f,
    ensures
        (c.members[j][0] == e && c.members[j][1] == f) || (c.members[j][0] == f && c.members[j][1] == e),
{
    let m = c.members[j];
    assert(m.contains(e));
    assert(m.contains(f));
    let qe = choose|q: int| 0 <= q < m.len() && m[q] == e;
    let qf = choose|q: int| 0 <= q < m.len() && m[q] == f;
}

/// A walk entered properly leaves the seen wires closed under the two-end
/// nodes.
proof fn lemma_walk_closed(c: Clusters, w: int, cur: int, enter: int, seen: Set<int>, fuel: nat)
    requires
        clusters_wf(c, 2 * w, 2 * w),
        forall|j: int| 0 <= j < c.members.len() ==> (#[trigger] c.members[j]).len() < 3,
        0 <= cur < w,
        0 <= enter < 2,
        seen.finite(),
        forall|x: int| #[trigger] seen.contains(x) ==> 0 <= x < w,
        !seen.contains(cur),
        fuel + seen.len() >= w,
        entry_ok(c, 2 * cur + enter, seen),
        open_only_at(c, seen, 2 * cur + enter),
    ensures
        join_closed(c, seen + walk_wires(walk(c, cur, enter, seen, fuel))),
    decreases fuel,
{
    let n = 2 * w;
    let en = 2 * cur + enter;
    let ex = 2 * cur + 1 - enter;
    let seen2 = seen.insert(cur);
    assert(seen2.subset_of(set_int_range(0, w)));
    lemma_int_range(0, w);
    lemma_len_subset(seen2, set_int_range(0, w));
    assert(fuel > 0);
    let t = walk(c, cur, enter, seen, fuel);
    let jx = c.node_of[ex];
    let ms = c.members[jx];
    assert(0 <= jx < c.members.len());
    assert forall|q: int| 0 <= q < ms.len() implies 0 <= #[trigger] ms[q] < n by {}
    lemma_partner_facts(ms, cur, seen2);
    if ms.len() == 1 || partner(ms, cur, seen2) is None {
        assert(t == seq![(cur, enter == 0)]);
        lemma_walk_wires_cons((cur, enter == 0), Seq::empty());
        assert(walk_wires(Seq::<(int, bool)>::empty()) =~= Set::<int>::empty());
        let s = seen + walk_wires(t);
        assert(s =~= seen2);
        assert forall|j: int|
            0 <= j < c.members.len() && (#[trigger] c.members[j]).len() == 2 implies (s.contains(c.members[j][0] / 2)
                <==> s.contains(c.members[j][1] / 2)) by {
            let a = c.members[j][0];
            let b = c.members[j][1];
            assert(0 <= a < n && c.node_of[a] == j);
            assert(0 <= b < n && c.node_of[b] == j);
            assert(a < b);
            if s.contains(a / 2) && !s.contains(b / 2) {
                if !seen.contains(a / 2) {
                    // `a` is an end of the current wire
                    if a == en {
                        assert(c.members[c.node_of[en]][1] == b);
                    } else {
                        assert(a == ex);
                        assert(ms[1] == b);
                    }
                }
            }
            if s.contains(b / 2) && !s.contains(a / 2) {
                if !seen.contains(b / 2) {
                    if b == en {
                        assert(c.members[c.node_of[en]][0] == a);
                    } else {
                        assert(b == ex);
                        assert(ms[0] == a);
                    }
                }
            }
        }
    } else {
        let p = partner(ms, cur, seen2)->Some_0;
        let nw = p.0;
        let ne = p.1;
        let e2 = 2 * nw + ne;
        let q = choose|q: int| 0 <= q < ms.len() && #[trigger] ms[q] == 2 * p.0 + p.1;
        assert(ms.len() == 2);
        assert(0 <= e2 < n);
        assert(c.node_of[e2] == jx);
        assert(c.node_of[ex] == jx);
        assert(e2 != ex);
        lemma_pair_other(c, n, jx, ex, e2);
        let rest = walk(c, nw, ne, seen2, (fuel - 1) as nat);
        assert(t == seq![(cur, enter == 0)] + rest);
        // the next wire is entered properly
        assert(entry_ok(c, e2, seen2)) by {
            assert forall|k: int| 0 <= k < ms.len() && (#[trigger] ms[k]) != e2 implies seen2.contains(ms[k] / 2) by {
                assert(ms[k] == ex);
            }
        }
        assert(open_only_at(c, seen2, e2)) by {
            assert forall|j: int| 0 <= j < c.members.len() && (#[trigger] c.members[j]).len() == 2 implies {
                let a = c.members[j][0];
                let b = c.members[j][1];
                &&& (seen2.contains(a / 2) && !seen2.contains(b / 2) ==> b == e2)
                &&& (seen2.contains(b / 2) && !seen2.contains(a / 2) ==> a == e2)
            } by {
                let a = c.members[j][0];
                let b = c.members[j][1];
                assert(0 <= a < n && c.node_of[a] == j);
                assert(0 <= b < n && c.node_of[b] == j);
                assert(a < b);
                if seen2.contains(a / 2) && !seen2.contains(b / 2) {
                    if !seen.contains(a / 2) {
                        if a == en {
                            assert(c.members[c.node_of[en]][1] == b);
                        } else {
                            assert(a == ex);
                        }
                    }
                }
                if seen2.contains(b / 2) && !seen2.contains(a / 2) {
                    if !seen.contains(b / 2) {
                        if b == en {
                            assert(c.members[c.node_of[en]][0] == a);
                        } else {
                            assert(b == ex);
                        }
                    }
                }
            }
        }
        assert forall|x: int| #[trigger] seen2.contains(x) implies 0 <= x < w by {}
        lemma_walk_closed(c, w, nw, ne, seen2, (fuel - 1) as nat);
        lemma_walk_wires_cons((cur, enter == 0), rest);
        assert(seen + walk_wires(t) =~= seen2 + walk_wires(rest));
    }
}

/// A walk never leaves the group of the wire it starts on.
proof fn lemma_walk_in_group(c: Clusters, w: int, rep: Seq<int>, cur: int, enter: int, seen: Set<int>, fuel: nat)
    requires
        clusters_wf(c, 2 * w, 2 * w),
        pairs_joined(c, rep),
        forall|j: int| 0 <= j < c.members.len() ==> (#[trigger] c.members[j]).len() < 3,
        0 <= cur < w,
        0 <= enter < 2,
    ensures
        forall|i: int|
            0 <= i < walk(c, cur, enter, seen, fuel).len() ==> 0 <= (#[trigger] walk(c, cur, enter, seen, fuel)[i]).0
                < w && rep[walk(c, cur, enter, seen, fuel)[i].0] == rep[cur],
    decreases fuel,
{
    if fuel > 0 {
        let n = 2 * w;
        let ex = 2 * cur + 1 - enter;
        let seen2 = seen.insert(cur);
        let jx = c.node_of[ex];
        let ms = c.members[jx];
        assert forall|q: int| 0 <= q < ms.len() implies 0 <= #[trigger] ms[q] < n by {}
        lemma_partner_facts(ms, cur, seen2);
        let t = walk(c, cur, enter, seen, fuel);
        if ms.len() != 1 {
            if let Some(p) = partner(ms, cur, seen2) {
                let nw = p.0;
                let ne = p.1;
                let e2 = 2 * nw + ne;
                let q = choose|q: int| 0 <= q < ms.len() && #[trigger] ms[q] == 2 * p.0 + p.1;
                assert(ms.len() == 2);
                assert(c.node_of[e2] == jx);
                lemma_pair_other(c, n, jx, ex, e2);
                assert(rep[ms[0] / 2] == rep[ms[1] / 2]);
                assert(rep[nw] == rep[cur]);
                lemma_walk_in_group(c, w, rep, nw, ne, seen2, (fuel - 1) as nat);
                let rest = walk(c, nw, ne, seen2, (fuel - 1) as nat);
                assert(t == seq![(cur, enter == 0)] + rest);
                assert forall|i: int| 0 <= i < t.len() implies 0 <= (#[trigger] t[i]).0 < w && rep[t[i].0] == rep[cur] by {
                    if i > 0 {
                        assert(t[i] == rest[i - 1]);
                    }
                }
            }
        }
    }
}

/// The representatives are fixed points.
proof fn lemma_reps_idempotent(c: Clusters, w: int, k: int)
    requires
        clusters_wf(c, 2 * w, 2 * w),
        0 <= k <= c.members.len(),
        w >= 0,
    ensures
        forall|x: int| 0 <= x < w ==> #[trigger] reps(c, w, k)[reps(c, w, k)[x]] == reps(c, w, k)[x],
    decreases k,
{
    lemma_reps_inv(c, w, k);
    if k > 0 {
        lemma_reps_idempotent(c, w, k - 1);
        lemma_reps_inv(c, w, k - 1);
        let r = reps(c, w, k - 1);
        let m = c.members[k - 1];
        if m.len() == 2 {
            assert(0 <= m[0] < 2 * w);
            assert(0 <= m[1] < 2 * w);
            let a = m[0] / 2;
            let b = m[1] / 2;
            assert(r[r[a]] == r[a]);
            assert(r[r[b]] == r[b]);
        }
    }
}

proof fn lemma_filtered_ascending(n: int, p: spec_fn(int) -> bool)
    ensures
        forall|i: int, j: int| 0 <= i < j < filtered(n, p).len() ==> #[trigger] filtered(n, p)[i] < #[trigger] filtered(n, p)[j],
    decreases n,
{
    if n > 0 {
        lemma_filtered_ascending(n - 1, p);
        lemma_filtered_bound(n - 1, p);
        let f = filtered(n - 1, p);
        if p(n - 1) {
            assert forall|i: int, j: int| 0 <= i < j < f.push(n - 1).len() implies #[trigger] f.push(n - 1)[i] < #[trigger] f.push(n - 1)[j] by {
                assert(f.push(n - 1)[i] == f[i]);
                if j < f.len() {
                    assert(f.push(n - 1)[j] == f[j]);
                }
            }
        }
    }
}

/// Every free end a group lists is a free end of one of its wires.
proof fn lemma_free_ends_facts(c: Clusters, g: Seq<int>)
    ensures
        forall|i: int|
            0 <= i < free_ends(c, g).len() ==> g.contains((#[trigger] free_ends(c, g)[i]).0) && 0 <= free_ends(c, g)[i].1
                < 2 && degree(c, 2 * free_ends(c, g)[i].0 + free_ends(c, g)[i].1) == 1,
    decreases g.len(),
{
    if g.len() > 0 {
        let d = g.drop_last();
        lemma_free_ends_facts(c, d);
        let wi = g.last();
        let prev = free_ends(c, d);
        let st = if degree(c, 2 * wi) == 1 { seq![(wi, 0int)] } else { Seq::empty() };
        let en = if degree(c, 2 * wi + 1) == 1 { seq![(wi, 1int)] } else { Seq::empty() };
        let fe = free_ends(c, g);
        assert(fe == prev + st + en);
        assert forall|i: int| 0 <= i < fe.len() implies g.contains((#[trigger] fe[i]).0) && 0 <= fe[i].1 < 2 && degree(
            c,
            2 * fe[i].0 + fe[i].1,
        ) == 1 by {
            if i < prev.len() {
                assert(fe[i] == prev[i]);
                let k = choose|k: int| 0 <= k < d.len() && d[k] == prev[i].0;
                assert(g[k] == d[k]);
            } else {
                assert(g[g.len() - 1] == wi);
                if i < prev.len() + st.len() {
                    assert(fe[i] == st[i - prev.len()]);
                } else {
                    assert(fe[i] == en[i - prev.len() - st.len()]);
                }
            }
        }
    }
}

/// Wire `x` is entered by the walk of some group.
pub open spec fn walked(c: Clusters, w: int, x: int) -> bool {
    let rep = reps(c, w, c.members.len() as int);
    let rs = roots(rep, w);
    exists|i: int, a: int|
        0 <= i < rs.len() && 0 <= a < group_walk(c, w, rep, rs[i]).len() && (#[trigger] group_walk(
            c,
            w,
            rep,
            rs[i],
        )[a]).0 == x
}

/// Every wire `0..w` is on the walk of exactly one group, once.
pub open spec fn walks_cover_once(c: Clusters, w: int) -> bool {
    let rep = reps(c, w, c.members.len() as int);
    let rs = roots(rep, w);
    &&& forall|x: int| 0 <= x < w ==> #[trigger] walked(c, w, x)
    &&& forall|i1: int, a1: int, i2: int, a2: int|
        0 <= i1 < rs.len() && 0 <= i2 < rs.len() && 0 <= a1 < group_walk(c, w, rep, rs[i1]).len() && 0 <= a2
            < group_walk(c, w, rep, rs[i2]).len() && (#[trigger] group_walk(c, w, rep, rs[i1])[a1]).0 == (
        #[trigger] group_walk(c, w, rep, rs[i2])[a2]).0 ==> i1 == i2 && a1 == a2
}

/// The walk of a group, from a free end of one of its wires: in the group,
/// covering the group, entering no wire twice.
proof fn lemma_group_walk(c: Clusters, w: int, r: int)
    requires
        clusters_wf(c, 2 * w, 2 * w),
        forall|j: int| 0 <= j < c.members.len() ==> (#[trigger] c.members[j]).len() < 3,
        0 <= r < w,
        reps(c, w, c.members.len() as int)[r] == r,
        free_ends(c, group(reps(c, w, c.members.len() as int), w, r)).len() == 2,
    ensures
        ({
            let rep = reps(c, w, c.members.len() as int);
            let t = group_walk(c, w, rep, r);
            &&& forall|i: int| 0 <= i < t.len() ==> 0 <= (#[trigger] t[i]).0 < w && rep[t[i].0] == r
            &&& forall|y: int| 0 <= y < w && rep[y] == r ==> exists|a: int| 0 <= a < t.len() && (#[trigger] t[a]).0 == y
            &&& forall|a1: int, a2: int| 0 <= a1 < a2 < t.len() ==> (#[trigger] t[a1]).0 != (#[trigger] t[a2]).0
        }),
{
    let k = c.members.len() as int;
    let rep = reps(c, w, k);
    lemma_reps_inv(c, w, k);
    let g = group(rep, w, r);
    let fe = free_ends(c, g);
    lemma_free_ends_facts(c, g);
    lemma_filtered_bound(w, in_group(rep, r));
    let s = fe[0].0;
    let en = fe[0].1;
    assert(g.contains(s));
    let gi = choose|gi: int| 0 <= gi < g.len() && g[gi] == s;
    assert(0 <= s < w && rep[s] == r);
    let t = walk(c, s, en, Set::empty(), w as nat);
    assert(t == group_walk(c, w, rep, r));
    // in the group
    lemma_walk_in_group(c, w, rep, s, en, Set::empty(), w as nat);
    // covering it
    assert(entry_ok(c, 2 * s + en, Set::empty()));
    assert(open_only_at(c, Set::empty(), 2 * s + en));
    lemma_walk_closed(c, w, s, en, Set::empty(), w as nat);
    let seen = walk_wires(t);
    assert(Set::<int>::empty() + seen =~= seen);
    lemma_closed_holds_groups(c, w, seen, k);
    assert(t[0] == (s, en == 0));
    assert(seen.contains(s));
    assert forall|y: int| 0 <= y < w && rep[y] == r implies exists|a: int| 0 <= a < t.len() && (#[trigger] t[a]).0 == y by {
        assert(rep[y] == rep[s]);
        assert(seen.contains(y));
    }
    // once
    law_walk_enters_each_wire_once(c, s, en, Set::empty(), w as nat);
}

/// Every wire of an accepted wire set lies on exactly one conductor path,
/// and on it once: the paths are the walks of the groups, each walk covers
/// its group and stays in it, and enters no wire twice.
pub proof fn law_paths_walk_every_wire_once(wires: Seq<(int, int)>, near: Seq<Seq<bool>>)
    requires
        conductor_paths_spec(wires, near) is Some,
    ensures
        walks_cover_once(nodes(near, 2 * (wires.len() as int)), wires.len() as int),
{
    let w = wires.len() as int;
    let c = nodes(near, 2 * w);
    let k = c.members.len() as int;
    let rep = reps(c, w, k);
    let rs = roots(rep, w);
    if w > 0 {
        lemma_clusters_wf(near, 2 * w, 2 * w);
        assert(!has_high_degree(c));
        assert forall|j: int| 0 <= j < c.members.len() implies (#[trigger] c.members[j]).len() < 3 by {
            if c.members[j].len() >= 3 {
                assert(has_high_degree(c));
            }
        }
        lemma_reps_inv(c, w, k);
        lemma_reps_idempotent(c, w, k);
        lemma_filtered_bound(w, is_root(rep));
        lemma_filtered_ascending(w, is_root(rep));
        assert forall|i: int| 0 <= i < rs.len() implies free_ends(c, group(rep, w, #[trigger] rs[i])).len() == 2 by {}
        assert forall|x: int| 0 <= x < w implies #[trigger] walked(c, w, x) by {
            let r = rep[x];
            assert(0 <= r < w);
            assert(rep[r] == r);
            lemma_filtered_prefix(w, r, is_root(rep));
            let i = filtered(r, is_root(rep)).len() as int;
            assert(rs[i] == r);
            assert(free_ends(c, group(rep, w, rs[i])).len() == 2);
            lemma_group_walk(c, w, r);
            let t = group_walk(c, w, rep, r);
            let a = choose|a: int| 0 <= a < t.len() && (#[trigger] t[a]).0 == x;
            assert(group_walk(c, w, rep, rs[i])[a].0 == x);
        }
        assert forall|i1: int, a1: int, i2: int, a2: int|
            0 <= i1 < rs.len() && 0 <= i2 < rs.len() && 0 <= a1 < group_walk(c, w, rep, rs[i1]).len() && 0 <= a2
                < group_walk(c, w, rep, rs[i2]).len() && (#[trigger] group_walk(c, w, rep, rs[i1])[a1]).0 == (
            #[trigger] group_walk(c, w, rep, rs[i2])[a2]).0 implies i1 == i2 && a1 == a2 by {
            let r1 = rs[i1];
            let r2 = rs[i2];
            assert(free_ends(c, group(rep, w, rs[i1])).len() == 2);
            assert(free_ends(c, group(rep, w, rs[i2])).len() == 2);
            lemma_group_walk(c, w, r1);
            lemma_group_walk(c, w, r2);
            let t1 = group_walk(c, w, rep, r1);
            let t2 = group_walk(c, w, rep, r2);
            assert(rep[t1[a1].0] == r1);
            assert(rep[t2[a2].0] == r2);
            assert(r1 == r2);
            if i1 != i2 {
                if i1 < i2 {
                    assert(rs[i1] < rs[i2]);
                } else {
                    assert(rs[i2] < rs[i1]);
                }
            }
            if a1 != a2 {
                if a1 < a2 {
                    assert(t1[a1].0 != t1[a2].0);
                } else {
                    assert(t1[a2].0 != t1[a1].0);
                }
            }
        }
    }
}

// ---------------------------------------------------------------------------
// From wires to segments
// ---------------------------------------------------------------------------

/// Where the segments of the `a`-th visited wire begin in a walk's path.
pub open spec fn visit_start(wires: Seq<(int, int)>, v: Seq<(int, bool)>, a: int) -> int {
    path_segs(wires, v.take(a)).len() as int
}

/// The visit, and the step within it, that position `j` of a walk's path
/// comes from.
pub open spec fn locate(wires: Seq<(int, int)>, v: Seq<(int, bool)>, j: int) -> (int, int)
    decreases v.len(),
{
    if v.len() == 0 {
        (0, 0)
    } else if j < path_segs(wires, v.drop_last()).len() {
        locate(wires, v.drop_last(), j)
    } else {
        (v.len() - 1, j - path_segs(wires, v.drop_last()).len())
    }
}

/// Step `o` of the `a`-th visit of a walk stands in the walk's path where
/// that visit begins, plus `o`.
pub open spec fn step_at(wires: Seq<(int, int)>, v: Seq<(int, bool)>, a: int, o: int) -> bool {
    &&& visit_start(wires, v, a) + o < path_segs(wires, v).len()
    &&& path_segs(wires, v)[visit_start(wires, v, a) + o] == wire_steps(wires[v[a].0], v[a].1)[o]
}

/// The number of segments of a wire.
pub open spec fn wire_len(wire: (int, int)) -> int {
    wire.1 - wire.0 + 1
}

/// Every visit of `v` is to a wire of `wires` that has segments.
pub open spec fn visits_valid(wires: Seq<(int, int)>, v: Seq<(int, bool)>) -> bool {
    forall|a: int|
        0 <= a < v.len() ==> 0 <= (#[trigger] v[a]).0 < wires.len() && wires[v[a].0].0 <= wires[v[a].0].1
}

proof fn lemma_path_segs_index(wires: Seq<(int, int)>, v: Seq<(int, bool)>)
    requires
        visits_valid(wires, v),
    ensures
        forall|a: int, o: int|
            0 <= a < v.len() && 0 <= o < wire_len(wires[v[a].0]) ==> #[trigger] step_at(wires, v, a, o),
        forall|j: int|
            0 <= j < path_segs(wires, v).len() ==> {
                let (a, o) = #[trigger] locate(wires, v, j);
                &&& 0 <= a < v.len()
                &&& 0 <= o < wire_len(wires[v[a].0])
                &&& j == visit_start(wires, v, a) + o
            },
    decreases v.len(),
{
    if v.len() > 0 {
        let d = v.drop_last();
        assert(visits_valid(wires, d)) by {
            assert forall|a: int| 0 <= a < d.len() implies 0 <= (#[trigger] d[a]).0 < wires.len() && wires[d[a].0].0
                <= wires[d[a].0].1 by {
                assert(d[a] == v[a]);
            }
        }
        lemma_path_segs_index(wires, d);
        let prev = path_segs(wires, d);
        let last = v.last();
        let ws = wire_steps(wires[last.0], last.1);
        assert(path_segs(wires, v) == prev + ws);
        assert(v.take(v.len() - 1) =~= d);
        assert forall|a: int| 0 <= a < d.len() implies visit_start(wires, v, a) == visit_start(wires, d, a) by {
            assert(v.take(a) =~= d.take(a));
        }
        assert forall|a: int, o: int|
            0 <= a < v.len() && 0 <= o < wire_len(wires[v[a].0]) implies #[trigger] step_at(wires, v, a, o) by {
            if a < d.len() {
                assert(d[a] == v[a]);
                let idx = visit_start(wires, d, a) + o;
                assert(step_at(wires, d, a, o));
                assert(idx < prev.len());
                assert(visit_start(wires, v, a) == visit_start(wires, d, a));
                assert(path_segs(wires, v)[idx] == prev[idx]);
            } else {
                assert(v.take(a) =~= d);
                assert(visit_start(wires, v, a) == prev.len());
                assert(ws.len() == wire_len(wires[last.0]));
                assert(path_segs(wires, v)[prev.len() + o] == ws[o]);
            }
        }
        assert forall|j: int| 0 <= j < path_segs(wires, v).len() implies {
            let (a, o) = #[trigger] locate(wires, v, j);
            &&& 0 <= a < v.len()
            &&& 0 <= o < wire_len(wires[v[a].0])
            &&& j == visit_start(wires, v, a) + o
        } by {
            if j < prev.len() {
                let (a, o) = locate(wires, d, j);
                assert(locate(wires, v, j) == (a, o));
                assert(d[a] == v[a]);
            }
        }
    }
}

/// A wire list that covers the segments `0..n` one run after the other,
/// each run non-empty, as the wires of a tag list do (see
/// [`crate::geometry::runs_are_maximal`]).
pub open spec fn wires_partition(wires: Seq<(int, int)>, n: int) -> bool {
    &&& forall|x: int| 0 <= x < wires.len() ==> 0 <= (#[trigger] wires[x]).0 <= wires[x].1 < n
    &&& forall|x: int| 0 <= x < wires.len() - 1 ==> (#[trigger] wires[x]).1 + 1 == wires[x + 1].0
    &&& (wires.len() == 0 <==> n <= 0)
    &&& (wires.len() > 0 ==> wires[0].0 == 0 && wires.last().1 == n - 1)
}

proof fn lemma_partition_ordered(wires: Seq<(int, int)>, n: int, x: int, y: int)
    requires
        wires_partition(wires, n),
        0 <= x < y < wires.len(),
    ensures
        wires[x].1 < wires[y].0,
    decreases y - x,
{
    if x + 1 < y {
        lemma_partition_ordered(wires, n, x, y - 1);
        assert(wires[y - 1].1 + 1 == wires[y].0);
    } else {
        assert(wires[x].1 + 1 == wires[x + 1].0);
    }
}

proof fn lemma_partition_find(wires: Seq<(int, int)>, n: int, s: int, k: int)
    requires
        wires_partition(wires, n),
        0 <= k < wires.len(),
        0 <= s <= wires[k].1,
    ensures
        exists|x: int| 0 <= x <= k && (#[trigger] wires[x]).0 <= s <= wires[x].1,
    decreases k,
{
    if s < wires[k].0 {
        assert(k > 0);
        assert(wires[k - 1].1 + 1 == wires[k].0);
        lemma_partition_find(wires, n, s, k - 1);
        let x = choose|x: int| 0 <= x <= k - 1 && (#[trigger] wires[x]).0 <= s <= wires[x].1;
        assert(0 <= x <= k && wires[x].0 <= s <= wires[x].1);
    } else {
        assert(wires[k].0 <= s <= wires[k].1);
    }
}

/// Segment `s` is on some path of `ps`.
pub open spec fn on_some_path(ps: Seq<Seq<(int, bool)>>, s: int) -> bool {
    exists|i: int, j: int| 0 <= i < ps.len() && 0 <= j < ps[i].len() && (#[trigger] ps[i][j]).0 == s
}

/// Every segment of an accepted wire set whose wires cover the segments
/// `0..n` lies on exactly one conductor path, once: the paths together list
/// each segment number below `n` exactly once.
pub proof fn law_paths_cover_each_segment_once(wires: Seq<(int, int)>, near: Seq<Seq<bool>>, n: int)
    requires
        wires_partition(wires, n),
        conductor_paths_spec(wires, near) is Some,
    ensures
        ({
            let ps = conductor_paths_spec(wires, near)->0;
            &&& forall|i: int, j: int|
                0 <= i < ps.len() && 0 <= j < ps[i].len() ==> 0 <= (#[trigger] ps[i][j]).0 < n
            &&& forall|s: int| 0 <= s < n ==> #[trigger] on_some_path(ps, s)
            &&& forall|i1: int, j1: int, i2: int, j2: int|
                0 <= i1 < ps.len() && 0 <= j1 < ps[i1].len() && 0 <= i2 < ps.len() && 0 <= j2 < ps[i2].len()
                    && (#[trigger] ps[i1][j1]).0 == (#[trigger] ps[i2][j2]).0 ==> i1 == i2 && j1 == j2
        }),
{
    let w = wires.len() as int;
    let ps = conductor_paths_spec(wires, near)->0;
    if w > 0 {
        let c = nodes(near, 2 * w);
        let k = c.members.len() as int;
        let rep = reps(c, w, k);
        let rs = roots(rep, w);
        law_paths_walk_every_wire_once(wires, near);
        lemma_clusters_wf(near, 2 * w, 2 * w);
        assert forall|j: int| 0 <= j < c.members.len() implies (#[trigger] c.members[j]).len() < 3 by {
            if c.members[j].len() >= 3 {
                assert(has_high_degree(c));
            }
        }
        lemma_reps_inv(c, w, k);
        lemma_filtered_bound(w, is_root(rep));
        assert(ps == rs.map_values(|r: int| group_path(c, wires, rep, r)));
        assert forall|i: int| 0 <= i < rs.len() implies #[trigger] visits_valid(wires, group_walk(c, w, rep, rs[i]))
            && ps[i] == path_segs(wires, group_walk(c, w, rep, rs[i])) by {
            assert(free_ends(c, group(rep, w, rs[i])).len() == 2);
            lemma_group_walk(c, w, rs[i]);
        }
        // in range
        assert forall|i: int, j: int| 0 <= i < ps.len() && 0 <= j < ps[i].len() implies 0 <= (
        #[trigger] ps[i][j]).0 < n by {
            let t = group_walk(c, w, rep, rs[i]);
            assert(visits_valid(wires, t));
            lemma_path_segs_index(wires, t);
            let (a, o) = locate(wires, t, j);
            assert(step_at(wires, t, a, o));
        }
        // every segment
        assert forall|s: int| 0 <= s < n implies #[trigger] on_some_path(ps, s) by {
            lemma_partition_find(wires, n, s, w - 1);
            let x = choose|x: int| 0 <= x <= w - 1 && (#[trigger] wires[x]).0 <= s <= wires[x].1;
            assert(walked(c, w, x));
            let (i, a) = choose|i: int, a: int|
                0 <= i < rs.len() && 0 <= a < group_walk(c, w, rep, rs[i]).len() && (#[trigger] group_walk(
                    c,
                    w,
                    rep,
                    rs[i],
                )[a]).0 == x;
            let t = group_walk(c, w, rep, rs[i]);
            assert(visits_valid(wires, t));
            lemma_path_segs_index(wires, t);
            let o = if t[a].1 {
                s - wires[x].0
            } else {
                wires[x].1 - s
            };
            let j = visit_start(wires, t, a) + o;
            assert(step_at(wires, t, a, o));
            assert(ps[i][j].0 == s);
        }
        // once
        assert forall|i1: int, j1: int, i2: int, j2: int|
            0 <= i1 < ps.len() && 0 <= j1 < ps[i1].len() && 0 <= i2 < ps.len() && 0 <= j2 < ps[i2].len() && (
            #[trigger] ps[i1][j1]).0 == (#[trigger] ps[i2][j2]).0 implies i1 == i2 && j1 == j2 by {
            let t1 = group_walk(c, w, rep, rs[i1]);
            let t2 = group_walk(c, w, rep, rs[i2]);
            assert(visits_valid(wires, t1));
            assert(visits_valid(wires, t2));
            lemma_path_segs_index(wires, t1);
            lemma_path_segs_index(wires, t2);
            let (a1, o1) = locate(wires, t1, j1);
            let (a2, o2) = locate(wires, t2, j2);
            let x1 = t1[a1].0;
            let x2 = t2[a2].0;
            assert(step_at(wires, t1, a1, o1));
            assert(step_at(wires, t2, a2, o2));
            if x1 < x2 {
                lemma_partition_ordered(wires, n, x1, x2);
            } else if x2 < x1 {
                lemma_partition_ordered(wires, n, x2, x1);
            }
            assert(x1 == x2);
            assert(group_walk(c, w, rep, rs[i1])[a1].0 == group_walk(c, w, rep, rs[i2])[a2].0);
            assert(i1 == i2 && a1 == a2);
        }
    }
}

/// The wires of a tag list, its maximal runs of one tag, cover its segments
/// one run after the other (so [`law_paths_cover_each_segment_once`]
/// applies to them).
pub proof fn law_tag_runs_partition_the_segments(tags: Seq<u32>)
    ensures
        wires_partition(wire_runs(tags), tags.len() as int),
{
    law_wires_are_maximal_runs(tags);
    let runs = wire_runs(tags);
    assert forall|x: int| 0 <= x < runs.len() implies 0 <= (#[trigger] runs[x]).0 <= runs[x].1 < tags.len() by {}
    assert forall|x: int| 0 <= x < runs.len() - 1 implies (#[trigger] runs[x]).1 + 1 == runs[x + 1].0 by {}
}

} // verus!


