//! Conductor topology: how wire ends meet, the junctions between them, the
//! merging of straight continuations, and the open chains of wires a
//! continuous current path runs along.
//!
//! Wire `i` has ends `2i` (its start) and `2i + 1` (its end). Which ends
//! coincide is given as a matrix `near` (two ends closer than the junction
//! tolerance); the geometry itself is floating point and stays with the
//! caller. From it the ends are clustered into nodes: in end order, an end
//! not yet placed opens a node, which takes every later-unplaced end near it.
//! A conductor path exists when no node joins three or more ends, no node
//! joins a wire to itself, and every connected group of wires is an open
//! chain with exactly two free ends; it is walked from the first free end of
//! its group, and the groups come in the order of their union-find roots.

use vstd::prelude::*;
use crate::geometry::UnsupportedTopology;
use crate::solver::{hallen_drive, HallenDrive, HallenRoute};
use crate::loops::{has_closed_group, law_refusal_without_junction_is_a_closed_loop};
use crate::walks::{law_paths_walk_every_wire_once, walks_cover_once};

verus! {

#[verifier::ext_equal]
/// Ends and nodes: the node of every end (`-1` while unplaced), and the
/// ends of every node in the order they were placed.
pub struct Clusters {
    pub node_of: Seq<int>,
    pub members: Seq<Seq<int>>,
}

/// The ends after `id` that are still unplaced and near `id`, among the
/// first `k` ends.
pub open spec fn joined_upto(row: Seq<bool>, node_of: Seq<int>, id: int, k: int) -> Seq<int>
    decreases k,
{
    if k <= 0 {
        Seq::empty()
    } else {
        let p = joined_upto(row, node_of, id, k - 1);
        let j = k - 1;
        if j != id && node_of[j] < 0 && row[j] {
            p.push(j)
        } else {
            p
        }
    }
}

/// End `id` considered: if unplaced, it opens a node with every unplaced
/// end near it.
pub open spec fn cluster_step(c: Clusters, near: Seq<Seq<bool>>, id: int, n: int) -> Clusters {
    if c.node_of[id] >= 0 {
        c
    } else {
        let node = c.members.len() as int;
        Clusters {
            node_of: Seq::new(
                n as nat,
                |j: int|
                    if j == id || (c.node_of[j] < 0 && near[id][j]) {
                        node
                    } else {
                        c.node_of[j]
                    },
            ),
            members: c.members.push(seq![id] + joined_upto(near[id], c.node_of, id, n)),
        }
    }
}

/// The nodes after ends `0..k` of `n` ends have been considered.
pub open spec fn clusters(near: Seq<Seq<bool>>, n: int, k: int) -> Clusters
    decreases k,
{
    if k <= 0 {
        Clusters { node_of: Seq::new(n as nat, |j: int| -1), members: Seq::empty() }
    } else {
        cluster_step(clusters(near, n, k - 1), near, k - 1, n)
    }
}

/// The nodes of all `n` ends.
pub open spec fn nodes(near: Seq<Seq<bool>>, n: int) -> Clusters {
    clusters(near, n, n)
}

/// Some node joins three or more wire ends (a T/Y junction).
pub open spec fn has_high_degree(c: Clusters) -> bool {
    exists|k: int| 0 <= k < c.members.len() && (#[trigger] c.members[k]).len() >= 3
}

/// Some node joins the two ends of one wire (a closed single-wire loop).
pub open spec fn has_self_joint(c: Clusters) -> bool {
    exists|k: int|
        0 <= k < c.members.len() && (#[trigger] c.members[k]).len() == 2 && c.members[k][0] / 2
            == c.members[k][1] / 2
}

/// Union-find representatives of the `w` wires after the degree-2 nodes
/// among the first `k` have joined their two wires (the first wire's group
/// takes the second's representative).
pub open spec fn reps(c: Clusters, w: int, k: int) -> Seq<int>
    decreases k,
{
    if k <= 0 {
        Seq::new(w as nat, |x: int| x)
    } else {
        let r = reps(c, w, k - 1);
        let m = c.members[k - 1];
        if m.len() == 2 {
            let a = m[0] / 2;
            let b = m[1] / 2;
            Seq::new(w as nat, |x: int| if r[x] == r[a] { r[b] } else { r[x] })
        } else {
            r
        }
    }
}

/// `0..n` filtered by `p`, in order.
pub open spec fn filtered(n: int, p: spec_fn(int) -> bool) -> Seq<int>
    decreases n,
{
    if n <= 0 {
        Seq::empty()
    } else if p(n - 1) {
        filtered(n - 1, p).push(n - 1)
    } else {
        filtered(n - 1, p)
    }
}

/// The number of ends at the node of end `e`.
pub open spec fn degree(c: Clusters, e: int) -> int {
    c.members[c.node_of[e]].len() as int
}

/// The free ends `(wire, end)` of the wires of `group`, in order.
pub open spec fn free_ends(c: Clusters, group: Seq<int>) -> Seq<(int, int)>
    decreases group.len(),
{
    if group.len() == 0 {
        Seq::empty()
    } else {
        let prev = free_ends(c, group.drop_last());
        let wi = group.last();
        let s = if degree(c, 2 * wi) == 1 { seq![(wi, 0int)] } else { Seq::empty() };
        let e = if degree(c, 2 * wi + 1) == 1 { seq![(wi, 1int)] } else { Seq::empty() };
        prev + s + e
    }
}

/// The last end of `ms` on a wire other than `cur` and not in `visited`.
pub open spec fn partner(ms: Seq<int>, cur: int, visited: Set<int>) -> Option<(int, int)>
    decreases ms.len(),
{
    if ms.len() == 0 {
        None
    } else {
        let e = ms.last();
        if e / 2 != cur && !visited.contains(e / 2) {
            Some((e / 2, e % 2))
        } else {
            partner(ms.drop_last(), cur, visited)
        }
    }
}

/// The wires of a chain from wire `cur` entered at end `enter`, each with
/// whether it is walked forward (from its start to its end).
pub open spec fn walk(c: Clusters, cur: int, enter: int, visited: Set<int>, fuel: nat) -> Seq<(int, bool)>
    decreases fuel,
{
    if fuel == 0 {
        Seq::empty()
    } else {
        let v2 = visited.insert(cur);
        let here = seq![(cur, enter == 0)];
        let ms = c.members[c.node_of[2 * cur + 1 - enter]];
        if ms.len() == 1 {
            here
        } else {
            match partner(ms, cur, v2) {
                None => here,
                Some((nw, ne)) => here + walk(c, nw, ne, v2, (fuel - 1) as nat),
            }
        }
    }
}

/// The segments of wire `(first, last)` in walking order, each with whether
/// it is walked forward.
pub open spec fn wire_steps(wire: (int, int), forward: bool) -> Seq<(int, bool)> {
    Seq::new(
        (wire.1 - wire.0 + 1) as nat,
        |i: int| (if forward { wire.0 + i } else { wire.1 - i }, forward),
    )
}

/// The segments of a walk, in order, each with its direction.
pub open spec fn path_segs(wires: Seq<(int, int)>, visits: Seq<(int, bool)>) -> Seq<(int, bool)>
    decreases visits.len(),
{
    if visits.len() == 0 {
        Seq::empty()
    } else {
        let last = visits.last();
        path_segs(wires, visits.drop_last()) + wire_steps(wires[last.0], last.1)
    }
}

/// Whether a wire has representative `r`.
pub open spec fn in_group(rep: Seq<int>, r: int) -> spec_fn(int) -> bool {
    |x: int| rep[x] == r
}

/// Whether a wire represents its own group.
pub open spec fn is_root(rep: Seq<int>) -> spec_fn(int) -> bool {
    |x: int| rep[x] == x
}

/// The wires `0..w` whose representative is `r`, in order.
pub open spec fn group(rep: Seq<int>, w: int, r: int) -> Seq<int> {
    filtered(w, in_group(rep, r))
}

/// The wires `0..w` that represent their own group, in order.
pub open spec fn roots(rep: Seq<int>, w: int) -> Seq<int> {
    filtered(w, is_root(rep))
}

/// The walk of the group with representative `r` among `w` wires: from
/// the group's first free end, each wire with its direction.
pub open spec fn group_walk(c: Clusters, w: int, rep: Seq<int>, r: int) -> Seq<(int, bool)> {
    let fe = free_ends(c, group(rep, w, r));
    walk(c, fe[0].0, fe[0].1, Set::empty(), w as nat)
}

/// The conductor path of the group with representative `r`: its segments
/// in walking order with their directions.
pub open spec fn group_path(c: Clusters, wires: Seq<(int, int)>, rep: Seq<int>, r: int) -> Seq<(int, bool)> {
    path_segs(wires, group_walk(c, wires.len() as int, rep, r))
}

/// The conductor paths of a wire set, or `None` when its topology is out of
/// scope (see the module documentation).
pub open spec fn conductor_paths_spec(wires: Seq<(int, int)>, near: Seq<Seq<bool>>) -> Option<Seq<Seq<(int, bool)>>> {
    let w = wires.len() as int;
    if w == 0 {
        Some(Seq::empty())
    } else {
        let c = nodes(near, 2 * w);
        if has_high_degree(c) || has_self_joint(c) {
            None
        } else {
            let rep = reps(c, w, c.members.len() as int);
            let rs = roots(rep, w);
            if exists|i: int| 0 <= i < rs.len() && free_ends(c, group(rep, w, #[trigger] rs[i])).len() != 2 {
                None
            } else {
                Some(rs.map_values(|r: int| group_path(c, wires, rep, r)))
            }
        }
    }
}

} // verus!

verus! {

pub open spec fn bools_view(v: Seq<Vec<bool>>) -> Seq<Seq<bool>> {
    v.map_values(|r: Vec<bool>| r@)
}

pub open spec fn node_of_view(v: Seq<usize>) -> Seq<int> {
    v.map_values(|x: usize| if x == usize::MAX { -1 } else { x as int })
}

pub open spec fn members_view(v: Seq<Vec<usize>>) -> Seq<Seq<int>> {
    v.map_values(|m: Vec<usize>| m@.map_values(|e: usize| e as int))
}

pub open spec fn clusters_view(node_of: Seq<usize>, members: Seq<Vec<usize>>) -> Clusters {
    Clusters { node_of: node_of_view(node_of), members: members_view(members) }
}

/// Cluster the `n` wire ends into nodes (see [`nodes`]).
fn cluster_ends(near: &Vec<Vec<bool>>, n: usize) -> (r: (Vec<usize>, Vec<Vec<usize>>))
    requires
        near.len() == n,
        n < usize::MAX,
        forall|i: int| 0 <= i < n ==> (#[trigger] near@[i]).len() == n,
    ensures
        clusters_view(r.0@, r.1@) == nodes(bools_view(near@), n as int),
        r.0.len() == n,
        r.1.len() <= n,
        forall|j: int| 0 <= j < n ==> #[trigger] r.0@[j] < r.1.len(),
        forall|k: int, q: int| 0 <= k < r.1.len() && 0 <= q < r.1@[k].len() ==> (#[trigger] r.1@[k]@[q]) < n,
{
    let ghost nv = bools_view(near@);
    let mut node_of: Vec<usize> = Vec::new();
    let mut i: usize = 0;
    while i < n
        invariant
            i <= n,
            node_of@.len() == i,
            forall|j: int| 0 <= j < i ==> node_of@[j] == usize::MAX,
        decreases n - i,
    {
        node_of.push(usize::MAX);
        i = i + 1;
    }
    let mut members: Vec<Vec<usize>> = Vec::new();
    proof {
        assert(clusters_view(node_of@, members@) =~= clusters(nv, n as int, 0));
        assert(node_of_view(node_of@) =~= clusters(nv, n as int, 0).node_of);
        assert(members_view(members@) =~= clusters(nv, n as int, 0).members);
    }
    let mut id: usize = 0;
    while id < n
        invariant
            id <= n < usize::MAX,
            near.len() == n,
            nv == bools_view(near@),
            forall|i: int| 0 <= i < n ==> (#[trigger] near@[i]).len() == n,
            node_of.len() == n,
            members.len() <= id,
            forall|j: int| 0 <= j < n ==> #[trigger] node_of@[j] == usize::MAX || node_of@[j] < members.len(),
            forall|j: int| 0 <= j < id ==> #[trigger] node_of@[j] != usize::MAX,
            forall|k: int, q: int| 0 <= k < members.len() && 0 <= q < members@[k].len() ==> (#[trigger] members@[k]@[q]) < n,
            clusters_view(node_of@, members@) == clusters(nv, n as int, id as int),
        decreases n - id,
    {
        let ghost before = clusters_view(node_of@, members@);
        let ghost old_node_of = node_of@;
        if node_of[id] == usize::MAX {
            let node = members.len();
            let mut ms: Vec<usize> = Vec::new();
            ms.push(id);
            node_of.set(id, node);
            let mut j: usize = 0;
            let ghost row = nv[id as int];
            assert(row == near@[id as int]@);
            proof {
                assert(ms@.map_values(|e: usize| e as int) =~= seq![id as int] + joined_upto(row, before.node_of, id as int, 0));
            }
            while j < n
                invariant
                    j <= n < usize::MAX,
                    id < n,
                    near.len() == n,
                    nv == bools_view(near@),
                    row == nv[id as int],
                    near@[id as int]@ == row,
                    row.len() == n,
                    node == members.len(),
                    node_of.len() == n,
                    old_node_of.len() == n,
                    before.node_of == node_of_view(old_node_of),
                    forall|q: int| 0 <= q < ms.len() ==> (#[trigger] ms@[q]) < n,
                    ms@.map_values(|e: usize| e as int) == seq![id as int] + joined_upto(row, before.node_of, id as int, j as int),
                    forall|q: int| 0 <= q < n ==> #[trigger] node_of@[q] == (if q == id || (q < j && old_node_of[q] == usize::MAX && row[q])
                    {
                        node
                    } else {
                        old_node_of[q]
                    }),
                decreases n - j,
            {
                if j != id && node_of[j] == usize::MAX && near[id][j] {
                    let ghost before_ms = ms@;
                    proof {
                        assert(node_of@[j as int] == old_node_of[j as int]);
                        assert(before.node_of[j as int] == -1);
                        assert(row[j as int] == near@[id as int]@[j as int]);
                    }
                    node_of.set(j, node);
                    ms.push(j);
                    proof {
                        assert(ms@ == before_ms.push(j));
                        assert(ms@.map_values(|e: usize| e as int) =~= before_ms.map_values(|e: usize| e as int).push(j as int));
                        assert(ms@.map_values(|e: usize| e as int) =~= seq![id as int] + joined_upto(row, before.node_of, id as int, j + 1));
                    }
                } else {
                    proof {
                        if j != id && row[j as int] {
                            assert(node_of@[j as int] == old_node_of[j as int]);
                            assert(row[j as int] == near@[id as int]@[j as int]);
                        }
                        assert(ms@.map_values(|e: usize| e as int) =~= seq![id as int] + joined_upto(row, before.node_of, id as int, j + 1));
                    }
                }
                j = j + 1;
            }
            let ghost msv = ms@.map_values(|e: usize| e as int);
            members.push(ms);
            proof {
                let after = cluster_step(before, nv, id as int, n as int);
                assert(node_of_view(node_of@) =~= after.node_of);
                assert(members_view(members@) =~= after.members);
            }
        }
        id = id + 1;
    }
    (node_of, members)
}

} // verus!

verus! {

pub open spec fn wires_view(v: Seq<(usize, usize)>) -> Seq<(int, int)> {
    v.map_values(|p: (usize, usize)| (p.0 as int, p.1 as int))
}

pub open spec fn steps_view(v: Seq<(usize, bool)>) -> Seq<(int, bool)> {
    v.map_values(|p: (usize, bool)| (p.0 as int, p.1))
}

pub open spec fn paths_view(v: Seq<Vec<(usize, bool)>>) -> Seq<Seq<(int, bool)>> {
    v.map_values(|p: Vec<(usize, bool)>| steps_view(p@))
}

pub(crate) proof fn lemma_filtered_prefix(n: int, k: int, p: spec_fn(int) -> bool)
    requires
        0 <= k <= n,
    ensures
        filtered(k, p).len() <= filtered(n, p).len(),
        filtered(n, p).take(filtered(k, p).len() as int) == filtered(k, p),
        k < n && p(k) ==> filtered(k, p).len() < filtered(n, p).len() && filtered(n, p)[filtered(k, p).len() as int] == k,
    decreases n - k,
{
    let fk = filtered(k, p);
    let fnn = filtered(n, p);
    if k < n {
        lemma_filtered_prefix(n, k + 1, p);
        let fk1 = filtered(k + 1, p);
        if p(k) {
            assert(fk1 == fk.push(k));
            assert(fnn.take(fk1.len() as int) == fk1);
            assert(fnn.take(fk.len() as int) =~= fk1.take(fk.len() as int));
            assert(fk1.take(fk.len() as int) =~= fk);
            assert(fnn[fk.len() as int] == fnn.take(fk1.len() as int)[fk.len() as int]);
        } else {
            assert(fk1 == fk);
        }
    } else {
        assert(fnn.take(fnn.len() as int) =~= fnn);
    }
}

pub(crate) proof fn lemma_filtered_bound(n: int, p: spec_fn(int) -> bool)
    ensures
        forall|i: int| 0 <= i < filtered(n, p).len() ==> 0 <= #[trigger] filtered(n, p)[i] < n && p(filtered(n, p)[i]),
    decreases n,
{
    if n > 0 {
        lemma_filtered_bound(n - 1, p);
        let f = filtered(n - 1, p);
        if p(n - 1) {
            assert forall|i: int| 0 <= i < f.push(n - 1).len() implies 0 <= #[trigger] f.push(n - 1)[i] < n && p(f.push(n - 1)[i]) by {
                if i < f.len() {
                    assert(f.push(n - 1)[i] == f[i]);
                }
            }
        }
    }
}

pub open spec fn ints(v: Seq<usize>) -> Seq<int> {
    v.map_values(|x: usize| x as int)
}

/// The wires `0..rep.len()` whose representative is `r` (see [`group`]).
fn group_of(rep: &Vec<usize>, r: usize) -> (g: Vec<usize>)
    ensures
        ints(g@) == group(ints(rep@), rep.len() as int, r as int),
        forall|i: int| 0 <= i < g.len() ==> #[trigger] g@[i] < rep.len(),
{
    let ghost repv = ints(rep@);
    let ghost p = in_group(repv, r as int);
    let mut g: Vec<usize> = Vec::new();
    let mut x: usize = 0;
    while x < rep.len()
        invariant
            x <= rep.len(),
            repv == ints(rep@),
            p == in_group(repv, r as int),
            ints(g@) == filtered(x as int, p),
            forall|i: int| 0 <= i < g.len() ==> #[trigger] g@[i] < x,
        decreases rep.len() - x,
    {
        let ghost before = g@;
        if rep[x] == r {
            g.push(x);
            assert(ints(g@) =~= ints(before).push(x as int));
        }
        x = x + 1;
    }
    g
}

/// The free ends of the wires of `group` (see [`free_ends`]).
fn free_ends_of(node_of: &Vec<usize>, members: &Vec<Vec<usize>>, group: &Vec<usize>) -> (r: Vec<(usize, usize)>)
    requires
        forall|i: int| 0 <= i < group.len() ==> 2 * (#[trigger] group@[i]) + 1 < node_of.len(),
        forall|j: int| 0 <= j < node_of.len() ==> #[trigger] node_of@[j] < members.len(),
    ensures
        r@.map_values(|p: (usize, usize)| (p.0 as int, p.1 as int)) == free_ends(
            clusters_view(node_of@, members@),
            group@.map_values(|x: usize| x as int),
        ),
        forall|i: int| 0 <= i < r.len() ==> (#[trigger] r@[i]).1 < 2 && 2 * r@[i].0 + 1 < node_of.len(),
{
    let ghost c = clusters_view(node_of@, members@);
    let ghost gv = group@.map_values(|x: usize| x as int);
    let mut out: Vec<(usize, usize)> = Vec::new();
    let mut i: usize = 0;
    proof {
        assert(gv.take(0) =~= Seq::<int>::empty());
    }
    while i < group.len()
        invariant
            i <= group.len(),
            c == clusters_view(node_of@, members@),
            gv == group@.map_values(|x: usize| x as int),
            forall|i: int| 0 <= i < group.len() ==> 2 * (#[trigger] group@[i]) + 1 < node_of.len(),
            forall|j: int| 0 <= j < node_of.len() ==> #[trigger] node_of@[j] < members.len(),
            out@.map_values(|p: (usize, usize)| (p.0 as int, p.1 as int)) == free_ends(c, gv.take(i as int)),
            forall|q: int| 0 <= q < out.len() ==> (#[trigger] out@[q]).1 < 2 && 2 * out@[q].0 + 1 < node_of.len(),
        decreases group.len() - i,
    {
        let wi = group[i];
        let ghost before = out@;
        proof {
            assert(gv.take(i + 1).drop_last() =~= gv.take(i as int));
            assert(gv.take(i + 1).last() == wi as int);
            assert(c.node_of[2 * wi as int] == node_of@[2 * wi as int] as int);
            assert(c.node_of[2 * wi + 1] == node_of@[2 * wi + 1] as int);
            assert(c.members[node_of@[2 * wi as int] as int].len() == members@[node_of@[2 * wi as int] as int].len());
            assert(c.members[node_of@[2 * wi + 1] as int].len() == members@[node_of@[2 * wi + 1] as int].len());
        }
        if members[node_of[2 * wi]].len() == 1 {
            out.push((wi, 0));
        }
        let ghost mid = out@;
        if members[node_of[2 * wi + 1]].len() == 1 {
            out.push((wi, 1));
        }
        proof {
            assert(out@.map_values(|p: (usize, usize)| (p.0 as int, p.1 as int)) =~= free_ends(c, gv.take(i + 1)));
        }
        i = i + 1;
    }
    proof {
        assert(gv.take(group.len() as int) =~= gv);
    }
    out
}

/// The shape `cluster_ends` leaves its result in: every end placed in a
/// node, every node listing ends of the `n` ends.
pub open spec fn well_clustered(node_of: Seq<usize>, members: Seq<Vec<usize>>, n: int) -> bool {
    &&& node_of.len() == n
    &&& members.len() <= n < usize::MAX
    &&& forall|j: int| 0 <= j < n ==> #[trigger] node_of[j] < members.len()
    &&& forall|k: int, q: int| 0 <= k < members.len() && 0 <= q < members[k].len() ==> (#[trigger] members[k]@[q]) < n
}

/// Join the wires of every two-end node (see [`reps`]); `None` when a node
/// joins the two ends of one wire.
fn union_wires(node_of: &Vec<usize>, members: &Vec<Vec<usize>>, w: usize) -> (r: Option<Vec<usize>>)
    requires
        well_clustered(node_of@, members@, 2 * w),
    ensures
        r is None <==> has_self_joint(clusters_view(node_of@, members@)),
        r matches Some(rep) ==> ints(rep@) == reps(clusters_view(node_of@, members@), w as int, members.len() as int)
            && rep.len() == w && forall|x: int| 0 <= x < w ==> #[trigger] rep@[x] < w,
{
    let ghost c = clusters_view(node_of@, members@);
    let mut rep: Vec<usize> = Vec::new();
    let mut x: usize = 0;
    while x < w
        invariant
            x <= w,
            rep.len() == x,
            forall|y: int| 0 <= y < x ==> #[trigger] rep@[y] == y,
        decreases w - x,
    {
        rep.push(x);
        x = x + 1;
    }
    proof {
        assert(ints(rep@) =~= reps(c, w as int, 0));
    }
    let mut k: usize = 0;
    while k < members.len()
        invariant
            k <= members.len(),
            well_clustered(node_of@, members@, 2 * w),
            c == clusters_view(node_of@, members@),
            rep.len() == w,
            forall|x: int| 0 <= x < w ==> #[trigger] rep@[x] < w,
            ints(rep@) == reps(c, w as int, k as int),
            forall|kk: int| 0 <= kk < k ==> !((#[trigger] c.members[kk]).len() == 2 && c.members[kk][0] / 2 == c.members[kk][1] / 2),
        decreases members.len() - k,
    {
        let ghost old_rep = ints(rep@);
        proof {
            assert(c.members[k as int] == members@[k as int]@.map_values(|e: usize| e as int));
        }
        if members[k].len() == 2 {
            let a = members[k][0] / 2;
            let b = members[k][1] / 2;
            proof {
                assert(members@[k as int]@[0] < 2 * w);
                assert(members@[k as int]@[1] < 2 * w);
            }
            if a == b {
                proof {
                    assert(c.members[k as int][0] == members@[k as int]@[0] as int);
                    assert(c.members[k as int][1] == members@[k as int]@[1] as int);
                    assert(has_self_joint(c));
                }
                return None;
            }
            let ra = rep[a];
            let rb = rep[b];
            let mut y: usize = 0;
            while y < w
                invariant
                    y <= w,
                    rep.len() == w,
                    a < w,
                    b < w,
                    ra == old_rep[a as int],
                    rb == old_rep[b as int],
                    rb < w,
                    old_rep.len() == w,
                    forall|x: int| 0 <= x < w ==> #[trigger] rep@[x] < w,
                    forall|x: int| 0 <= x < y ==> #[trigger] rep@[x] as int == (if old_rep[x] == old_rep[a as int] { old_rep[b as int] } else { old_rep[x] }),
                    forall|x: int| y <= x < w ==> #[trigger] rep@[x] as int == old_rep[x],
                decreases w - y,
            {
                if rep[y] == ra {
                    rep.set(y, rb);
                }
                y = y + 1;
            }
            proof {
                assert(c.members[k as int][0] / 2 == a as int);
                assert(c.members[k as int][1] / 2 == b as int);
                assert(ints(rep@) =~= reps(c, w as int, k + 1));
            }
        } else {
            assert(ints(rep@) =~= reps(c, w as int, k + 1));
        }
        k = k + 1;
    }
    proof {
        if has_self_joint(c) {
            let kk = choose|kk: int| 0 <= kk < c.members.len() && (#[trigger] c.members[kk]).len() == 2 && c.members[kk][0] / 2 == c.members[kk][1] / 2;
            assert(c.members[kk].len() == 2);
        }
    }
    Some(rep)
}

/// The wires marked in a visited table.
pub open spec fn visited_set(v: Seq<bool>) -> Set<int> {
    Set::new(|x: int| 0 <= x < v.len() && v[x])
}

/// The last end of `ms` on a wire other than `cur` and not yet visited, as
/// `(wire, end)` (see [`partner`]).
fn partner_of(ms: &Vec<usize>, cur: usize, visited: &Vec<bool>) -> (r: Option<(usize, usize)>)
    requires
        forall|q: int| 0 <= q < ms.len() ==> (#[trigger] ms@[q]) < 2 * visited.len(),
    ensures
        match r {
            None => partner(ints(ms@), cur as int, visited_set(visited@)) is None,
            Some(p) => partner(ints(ms@), cur as int, visited_set(visited@)) == Some((p.0 as int, p.1 as int))
                && p.0 < visited.len() && p.1 < 2,
        },
{
    let ghost msv = ints(ms@);
    let ghost vs = visited_set(visited@);
    let mut q: usize = ms.len();
    proof {
        assert(msv.take(q as int) =~= msv);
    }
    while q > 0
        invariant
            q <= ms.len(),
            msv == ints(ms@),
            vs == visited_set(visited@),
            forall|q: int| 0 <= q < ms.len() ==> (#[trigger] ms@[q]) < 2 * visited.len(),
            partner(msv, cur as int, vs) == partner(msv.take(q as int), cur as int, vs),
        decreases q,
    {
        let e = ms[q - 1];
        let wi = e / 2;
        proof {
            assert(msv.take(q as int).last() == e as int);
            assert(msv.take(q as int).drop_last() =~= msv.take(q - 1));
        }
        if wi != cur && !visited[wi] {
            return Some((wi, e % 2));
        }
        q = q - 1;
    }
    proof {
        assert(msv.take(0) =~= Seq::<int>::empty());
    }
    None
}

/// The shape of a wire list: every wire a run `first <= last` of segment
/// indices.
pub open spec fn well_formed_wires(wires: Seq<(usize, usize)>) -> bool {
    forall|i: int| 0 <= i < wires.len() ==> (#[trigger] wires[i]).0 <= wires[i].1 < usize::MAX
}

/// Walk the chain of wires from wire `s0` entered at end `e0`, listing its
/// segments in order with their directions (see [`walk`]).
fn walk_path(
    wires: &Vec<(usize, usize)>,
    node_of: &Vec<usize>,
    members: &Vec<Vec<usize>>,
    s0: usize,
    e0: usize,
) -> (path: Vec<(usize, bool)>)
    requires
        well_clustered(node_of@, members@, 2 * wires.len()),
        well_formed_wires(wires@),
        s0 < wires.len(),
        e0 < 2,
    ensures
        steps_view(path@) == path_segs(
            wires_view(wires@),
            walk(clusters_view(node_of@, members@), s0 as int, e0 as int, Set::empty(), wires.len() as nat),
        ),
{
    let ghost c = clusters_view(node_of@, members@);
    let ghost wv = wires_view(wires@);
    let w = wires.len();
    let ghost total = walk(c, s0 as int, e0 as int, Set::empty(), w as nat);
    let mut visited: Vec<bool> = Vec::new();
    let mut x: usize = 0;
    while x < w
        invariant
            x <= w,
            visited.len() == x,
            forall|y: int| 0 <= y < x ==> !(#[trigger] visited@[y]),
        decreases w - x,
    {
        visited.push(false);
        x = x + 1;
    }
    proof {
        assert(visited_set(visited@) =~= Set::<int>::empty());
        assert(Seq::<(int, bool)>::empty() + total =~= total);
    }
    let mut cur = s0;
    let mut enter = e0;
    let mut fuel = w;
    let mut path: Vec<(usize, bool)> = Vec::new();
    let ghost mut acc: Seq<(int, bool)> = Seq::empty();
    while fuel > 0
        invariant
            w == wires.len(),
            c == clusters_view(node_of@, members@),
            wv == wires_view(wires@),
            well_clustered(node_of@, members@, 2 * w),
            well_formed_wires(wires@),
            cur < w,
            enter < 2,
            visited.len() == w,
            acc + walk(c, cur as int, enter as int, visited_set(visited@), fuel as nat) == total,
            steps_view(path@) == path_segs(wv, acc),
        decreases fuel,
    {
        let ghost vs = visited_set(visited@);
        visited.set(cur, true);
        proof {
            assert(visited_set(visited@) =~= vs.insert(cur as int));
        }
        let (first, last) = wires[cur];
        let forward = enter == 0;
        let ghost base = steps_view(path@);
        let ghost steps = wire_steps(wv[cur as int], forward);
        proof {
            assert(wv[cur as int] == (first as int, last as int));
            assert(steps.take(0) =~= Seq::<(int, bool)>::empty());
            assert(base + steps.take(0) =~= base);
        }
        let len = last - first + 1;
        let mut t: usize = 0;
        while t < len
            invariant
                first <= last < usize::MAX,
                len == last - first + 1,
                t <= len,
                steps == wire_steps((first as int, last as int), forward),
                steps_view(path@) == base + steps.take(t as int),
            decreases len - t,
        {
            let m = if forward { first + t } else { last - t };
            let ghost before = path@;
            path.push((m, forward));
            proof {
                assert(steps[t as int] == (m as int, forward));
                assert(steps.take(t + 1) =~= steps.take(t as int).push((m as int, forward)));
                assert(steps_view(path@) =~= steps_view(before).push((m as int, forward)));
            }
            t = t + 1;
        }
        proof {
            assert(steps.take(len as int) =~= steps);
            let acc2 = acc.push((cur as int, forward));
            assert(acc2.drop_last() =~= acc);
            assert(path_segs(wv, acc2) == path_segs(wv, acc) + steps);
        }
        let exit = 2 * cur + 1 - enter;
        let node = node_of[exit];
        let ghost msv = c.members[c.node_of[exit as int]];
        proof {
            assert(c.node_of[exit as int] == node as int);
            assert(msv == ints(members@[node as int]@));
            assert(forall|q: int| 0 <= q < members@[node as int].len() ==> (#[trigger] members@[node as int]@[q]) < 2 * w);
        }
        let ghost rest = walk(c, cur as int, enter as int, vs, fuel as nat);
        proof {
            acc = acc.push((cur as int, forward));
        }
        if members[node].len() == 1 {
            proof {
                assert(rest == seq![(cur as int, forward)]);
                assert(acc + walk(c, cur as int, enter as int, visited_set(visited@), 0) =~= total);
            }
            fuel = 0;
        } else {
            match partner_of(&members[node], cur, &visited) {
                None => {
                    proof {
                        assert(rest == seq![(cur as int, forward)]);
                        assert(acc + walk(c, cur as int, enter as int, visited_set(visited@), 0) =~= total);
                    }
                    fuel = 0;
                },
                Some((nw, ne)) => {
                    proof {
                        let tail = walk(c, nw as int, ne as int, visited_set(visited@), (fuel - 1) as nat);
                        assert(rest == seq![(cur as int, forward)] + tail);
                        assert(acc + tail =~= total);
                    }
                    cur = nw;
                    enter = ne;
                    fuel = fuel - 1;
                },
            }
        }
    }
    proof {
        assert(acc + Seq::<(int, bool)>::empty() =~= acc);
    }
    path
}

/// Decompose a wire set into its conductor paths: each path the segments
/// of one open chain of wires, in walking order, each with whether the walk
/// runs along the segment's own direction (see [`conductor_paths_spec`]).
/// `wires` are the `(first, last)` segment runs of the wires; `near[i][j]`
/// says whether wire ends `i` and `j` coincide. `None` when a node joins
/// three or more ends, or a conductor closes on itself. When the paths
/// exist, every wire lies on exactly one of them, once.
pub fn conductor_paths(wires: &Vec<(usize, usize)>, near: &Vec<Vec<bool>>) -> (r: Option<Vec<Vec<(usize, bool)>>>)
    requires
        near.len() == 2 * wires.len(),
        2 * wires.len() < usize::MAX,
        forall|i: int| 0 <= i < near.len() ==> (#[trigger] near@[i]).len() == near.len(),
        well_formed_wires(wires@),
    ensures
        match r {
            Some(p) => conductor_paths_spec(wires_view(wires@), bools_view(near@)) == Some(paths_view(p@)),
            None => conductor_paths_spec(wires_view(wires@), bools_view(near@)) is None,
        },
        r is Some ==> walks_cover_once(nodes(bools_view(near@), near.len() as int), wires.len() as int),
{
    let r = conductor_paths_of(wires, near);
    proof {
        if r is Some {
            law_paths_walk_every_wire_once(wires_view(wires@), bools_view(near@));
        }
    }
    r
}

fn conductor_paths_of(wires: &Vec<(usize, usize)>, near: &Vec<Vec<bool>>) -> (r: Option<Vec<Vec<(usize, bool)>>>)
    requires
        near.len() == 2 * wires.len(),
        2 * wires.len() < usize::MAX,
        forall|i: int| 0 <= i < near.len() ==> (#[trigger] near@[i]).len() == near.len(),
        well_formed_wires(wires@),
    ensures
        match r {
            Some(p) => conductor_paths_spec(wires_view(wires@), bools_view(near@)) == Some(paths_view(p@)),
            None => conductor_paths_spec(wires_view(wires@), bools_view(near@)) is None,
        },
{
    let w = wires.len();
    if w == 0 {
        let out: Vec<Vec<(usize, bool)>> = Vec::new();
        assert(paths_view(out@) =~= Seq::<Seq<(int, bool)>>::empty());
        return Some(out);
    }
    let n = 2 * w;
    let (node_of, members) = cluster_ends(near, n);
    let ghost c = clusters_view(node_of@, members@);
    let ghost wv = wires_view(wires@);
    proof {
        assert(c == nodes(bools_view(near@), 2 * w));
        assert(wv.len() == w);
    }
    let mut k: usize = 0;
    while k < members.len()
        invariant
            k <= members.len(),
            c == clusters_view(node_of@, members@),
            c == nodes(bools_view(near@), 2 * w),
            wv == wires_view(wires@),
            wv.len() == w > 0,
            forall|kk: int| 0 <= kk < k ==> (#[trigger] c.members[kk]).len() < 3,
        decreases members.len() - k,
    {
        assert(c.members[k as int].len() == members@[k as int].len());
        if members[k].len() >= 3 {
            proof {
                assert(has_high_degree(c));
                assert(conductor_paths_spec(wv, bools_view(near@)) is None);
            }
            return None;
        }
        k = k + 1;
    }
    let rep = match union_wires(&node_of, &members, w) {
        None => {
            proof {
                assert(conductor_paths_spec(wv, bools_view(near@)) is None);
            }
            return None;
        },
        Some(rep) => rep,
    };
    let ghost repv = ints(rep@);
    proof {
        assert(!has_high_degree(c));
        assert(repv == reps(c, w as int, c.members.len() as int));
        lemma_filtered_bound(w as int, is_root(repv));
    }
    let ghost rs = roots(repv, w as int);
    let mut out: Vec<Vec<(usize, bool)>> = Vec::new();
    let mut r: usize = 0;
    proof {
        assert(paths_view(out@) =~= filtered(0, is_root(repv)).map_values(|r: int| group_path(c, wv, repv, r)));
    }
    while r < w
        invariant
            r <= w,
            w == wires.len(),
            rep.len() == w,
            forall|x: int| 0 <= x < w ==> #[trigger] rep@[x] < w,
            repv == ints(rep@),
            c == clusters_view(node_of@, members@),
            wv == wires_view(wires@),
            well_clustered(node_of@, members@, 2 * w),
            well_formed_wires(wires@),
            rs == roots(repv, w as int),
            c == nodes(bools_view(near@), 2 * w),
            wv.len() == w > 0,
            !has_high_degree(c),
            !has_self_joint(c),
            repv == reps(c, w as int, c.members.len() as int),
            paths_view(out@) == filtered(r as int, is_root(repv)).map_values(|r: int| group_path(c, wv, repv, r)),
            forall|i: int| 0 <= i < filtered(r as int, is_root(repv)).len() ==>
                free_ends(c, group(repv, w as int, #[trigger] filtered(r as int, is_root(repv))[i])).len() == 2,
        decreases w - r,
    {
        let ghost done = filtered(r as int, is_root(repv));
        proof {
            lemma_filtered_prefix(r + 1, r as int, is_root(repv));
            assert(repv[r as int] == rep@[r as int] as int);
        }
        if rep[r] == r {
            let g = group_of(&rep, r);
            proof {
                assert forall|i: int| 0 <= i < g.len() implies 2 * (#[trigger] g@[i]) + 1 < node_of.len() by {
                    assert(g@[i] < w);
                }
            }
            let fe = free_ends_of(&node_of, &members, &g);
            let ghost gv = group(repv, w as int, r as int);
            proof {
                assert(ints(g@) == gv);
                assert(g@.map_values(|x: usize| x as int) == ints(g@));
            }
            if fe.len() != 2 {
                proof {
                    lemma_filtered_prefix(w as int, r as int, is_root(repv));
                    let i = done.len() as int;
                    assert(rs[i] == r as int);
                    assert(free_ends(c, group(repv, w as int, rs[i])).len() != 2);
                    assert(!has_high_degree(c) && !has_self_joint(c));
                    assert(conductor_paths_spec(wv, bools_view(near@)) is None);
                }
                return None;
            }
            let (s0, e0) = fe[0];
            proof {
                assert(fe@[0].1 < 2);
                assert(2 * fe@[0].0 + 1 < node_of.len());
            }
            let path = walk_path(wires, &node_of, &members, s0, e0);
            proof {
                let fes = free_ends(c, gv);
                assert(fes[0] == (s0 as int, e0 as int));
                assert(steps_view(path@) == group_path(c, wv, repv, r as int));
            }
            let ghost before = out@;
            out.push(path);
            proof {
                let nd = filtered(r + 1, is_root(repv));
                assert(nd == done.push(r as int));
                assert(paths_view(out@) =~= paths_view(before).push(steps_view(path@)));
                assert(paths_view(out@) =~= nd.map_values(|r: int| group_path(c, wv, repv, r)));
                assert forall|i: int| 0 <= i < nd.len() implies
                    free_ends(c, group(repv, w as int, #[trigger] nd[i])).len() == 2 by {
                    if i < done.len() {
                        assert(nd[i] == done[i]);
                    }
                }
            }
        } else {
            proof {
                assert(filtered(r + 1, is_root(repv)) == done);
            }
        }
        r = r + 1;
    }
    Some(out)
}

/// Whether some node joins three or more wire ends (a T/Y junction), by the
/// same clustering of ends as [`conductor_paths`].
pub fn has_high_degree_node(near: &Vec<Vec<bool>>) -> (r: bool)
    requires
        near.len() < usize::MAX,
        forall|i: int| 0 <= i < near.len() ==> (#[trigger] near@[i]).len() == near.len(),
    ensures
        r == has_high_degree(nodes(bools_view(near@), near.len() as int)),
{
    let (node_of, members) = cluster_ends(near, near.len());
    let ghost c = clusters_view(node_of@, members@);
    let mut k: usize = 0;
    while k < members.len()
        invariant
            k <= members.len(),
            c == clusters_view(node_of@, members@),
            c == nodes(bools_view(near@), near.len() as int),
            forall|kk: int| 0 <= kk < k ==> (#[trigger] c.members[kk]).len() < 3,
        decreases members.len() - k,
    {
        assert(c.members[k as int].len() == members@[k as int].len());
        if members[k].len() >= 3 {
            assert(has_high_degree(c));
            return true;
        }
        k = k + 1;
    }
    false
}

/// Why [`conductor_paths`] rejects a wire set: `None` exactly when it is
/// accepted; otherwise a high-degree junction when some node joins three or
/// more ends, else a closed loop — and then there is one: a wire whose ends
/// meet, or a group of wires with no free end.
pub fn classify_unsupported_topology(wires: &Vec<(usize, usize)>, near: &Vec<Vec<bool>>) -> (r: Option<UnsupportedTopology>)
    requires
        near.len() == 2 * wires.len(),
        2 * wires.len() < usize::MAX,
        forall|i: int| 0 <= i < near.len() ==> (#[trigger] near@[i]).len() == near.len(),
        well_formed_wires(wires@),
    ensures
        r == (if conductor_paths_spec(wires_view(wires@), bools_view(near@)) is Some {
            None
        } else if has_high_degree(nodes(bools_view(near@), near.len() as int)) {
            Some(UnsupportedTopology::HighDegreeJunction)
        } else {
            Some(UnsupportedTopology::ClosedLoop)
        }),
        r == Some(UnsupportedTopology::ClosedLoop) ==> has_self_joint(nodes(bools_view(near@), near.len() as int))
            || has_closed_group(nodes(bools_view(near@), near.len() as int), wires.len() as int),
{
    if conductor_paths(wires, near).is_some() {
        return None;
    }
    if has_high_degree_node(near) {
        Some(UnsupportedTopology::HighDegreeJunction)
    } else {
        proof {
            assert(wires_view(wires@).len() == wires.len());
            law_refusal_without_junction_is_a_closed_loop(wires_view(wires@), bools_view(near@));
        }
        Some(UnsupportedTopology::ClosedLoop)
    }
}

/// A path that is a plain single wire or a collinear end-to-start chain:
/// every segment walked forward, in contiguous ascending index order.
pub open spec fn trivial_spec(p: Seq<(int, bool)>) -> bool {
    &&& forall|i: int| 0 <= i < p.len() ==> (#[trigger] p[i]).1
    &&& forall|i: int, j: int| 0 <= i && j == i + 1 && j < p.len() ==> (#[trigger] p[j]).0 == (#[trigger] p[i]).0 + 1
}

/// Whether a conductor path is trivial (see [`trivial_spec`]); such a path
/// is handled exactly by the plain per-wire basis.
pub fn path_is_trivial(path: &Vec<(usize, bool)>) -> (r: bool)
    ensures
        r == trivial_spec(steps_view(path@)),
{
    let ghost pv = steps_view(path@);
    let mut i: usize = 0;
    while i < path.len()
        invariant
            i <= path.len(),
            pv == steps_view(path@),
            forall|k: int| 0 <= k < i ==> (#[trigger] pv[k]).1,
        decreases path.len() - i,
    {
        assert(pv[i as int] == (path@[i as int].0 as int, path@[i as int].1));
        if !path[i].1 {
            return false;
        }
        i = i + 1;
    }
    let mut i: usize = 1;
    while i < path.len()
        invariant
            1 <= i,
            pv == steps_view(path@),
            forall|k: int| 0 <= k < path.len() ==> (#[trigger] pv[k]).1,
            forall|a: int, b: int| 0 <= a && b == a + 1 && b < i && b < path.len() ==> (#[trigger] pv[b]).0 == (#[trigger] pv[a]).0 + 1,
        decreases path.len() - i,
    {
        assert(pv[i as int] == (path@[i as int].0 as int, path@[i as int].1));
        assert(pv[i - 1] == (path@[i - 1].0 as int, path@[i - 1].1));
        if !(path[i].0 > 0 && path[i].0 - 1 == path[i - 1].0) {
            return false;
        }
        i = i + 1;
    }
    true
}

/// How a geometry is routed to a basis.
pub enum PathRoute {
    /// At least one path is not trivial: the path basis is required.
    NonTrivial(Vec<Vec<(usize, bool)>>),
    /// The decomposition succeeded and every path is trivial; the plain
    /// basis handles it exactly.
    Reducible,
    /// The decomposition was refused: a T/Y junction or a closed loop.
    Unsupported,
}

/// Classify a geometry for routing (see [`PathRoute`]).
pub fn classify_paths(wires: &Vec<(usize, usize)>, near: &Vec<Vec<bool>>) -> (r: PathRoute)
    requires
        near.len() == 2 * wires.len(),
        2 * wires.len() < usize::MAX,
        forall|i: int| 0 <= i < near.len() ==> (#[trigger] near@[i]).len() == near.len(),
        well_formed_wires(wires@),
    ensures
        match conductor_paths_spec(wires_view(wires@), bools_view(near@)) {
            None => r is Unsupported,
            Some(ps) => if exists|i: int| 0 <= i < ps.len() && !trivial_spec(#[trigger] ps[i]) {
                r matches PathRoute::NonTrivial(p) && paths_view(p@) == ps
            } else {
                r is Reducible
            },
        },
{
    match conductor_paths(wires, near) {
        None => PathRoute::Unsupported,
        Some(ps) => {
            let ghost pv = paths_view(ps@);
            let mut i: usize = 0;
            while i < ps.len()
                invariant
                    i <= ps.len(),
                    pv == paths_view(ps@),
                    conductor_paths_spec(wires_view(wires@), bools_view(near@)) == Some(pv),
                    forall|k: int| 0 <= k < i ==> trivial_spec(#[trigger] pv[k]),
                decreases ps.len() - i,
            {
                assert(pv[i as int] == steps_view(ps@[i as int]@));
                if !path_is_trivial(&ps[i]) {
                    proof {
                        assert(!trivial_spec(pv[i as int]));
                        assert(exists|k: int| 0 <= k < pv.len() && !trivial_spec(#[trigger] pv[k]));
                    }
                    return PathRoute::NonTrivial(ps);
                }
                i = i + 1;
            }
            PathRoute::Reducible
        },
    }
}

/// Decide which Hallén solve a deck needs: its drive (see
/// [`hallen_drive`]), and whether its geometry needs the conductor-path
/// basis (some path is not trivial).
pub fn hallen_route(
    has_plane_wave: bool,
    has_current_source: bool,
    wires: &Vec<(usize, usize)>,
    near: &Vec<Vec<bool>>,
) -> (r: HallenRoute)
    requires
        near.len() == 2 * wires.len(),
        2 * wires.len() < usize::MAX,
        forall|i: int| 0 <= i < near.len() ==> (#[trigger] near@[i]).len() == near.len(),
        well_formed_wires(wires@),
    ensures
        r.drive == (if has_plane_wave {
            HallenDrive::PlaneWave
        } else if has_current_source {
            HallenDrive::CurrentSource
        } else {
            HallenDrive::DeltaGap
        }),
        r.paths == match conductor_paths_spec(wires_view(wires@), bools_view(near@)) {
            None => false,
            Some(ps) => exists|i: int| 0 <= i < ps.len() && !trivial_spec(#[trigger] ps[i]),
        },
{
    let drive = hallen_drive(has_plane_wave, has_current_source);
    let paths = match classify_paths(wires, near) {
        PathRoute::NonTrivial(_) => true,
        _ => false,
    };
    HallenRoute { drive, paths }
}

/// A single straight wire whose two ends do not meet is one conductor path:
/// its segments in index order, every one walked forward, so the path is
/// trivial.
pub proof fn law_single_wire_is_one_forward_path(wire: (int, int), near: Seq<Seq<bool>>)
    requires
        wire.0 <= wire.1,
        near.len() == 2,
        near[0].len() == 2,
        near[1].len() == 2,
        !near[0][1],
    ensures
        conductor_paths_spec(seq![wire], near) == Some(seq![wire_steps(wire, true)]),
        trivial_spec(wire_steps(wire, true)),
{
    let wires = seq![wire];
    let c0 = clusters(near, 2, 0);
    let c1 = clusters(near, 2, 1);
    let c = clusters(near, 2, 2);
    assert(joined_upto(near[0], c0.node_of, 0, 2) =~= Seq::<int>::empty()) by {
        assert(joined_upto(near[0], c0.node_of, 0, 0) =~= Seq::<int>::empty());
        assert(joined_upto(near[0], c0.node_of, 0, 1) =~= Seq::<int>::empty());
    }
    assert(c1.node_of =~= seq![0int, -1int]);
    assert(c1.members =~= seq![seq![0int]]);
    assert(joined_upto(near[1], c1.node_of, 1, 2) =~= Seq::<int>::empty()) by {
        assert(joined_upto(near[1], c1.node_of, 1, 0) =~= Seq::<int>::empty());
        assert(joined_upto(near[1], c1.node_of, 1, 1) =~= Seq::<int>::empty());
    }
    assert(c.node_of =~= seq![0int, 1int]);
    assert(c.members =~= seq![seq![0int], seq![1int]]);
    assert(c == nodes(near, 2));
    assert(!has_high_degree(c));
    assert(!has_self_joint(c));
    let rep = reps(c, 1, 2);
    assert(reps(c, 1, 0) =~= seq![0int]);
    assert(reps(c, 1, 1) =~= seq![0int]);
    assert(rep =~= seq![0int]);
    let rs = roots(rep, 1);
    assert(filtered(0, is_root(rep)) =~= Seq::<int>::empty());
    assert(rs =~= seq![0int]);
    let g = group(rep, 1, 0);
    assert(filtered(0, in_group(rep, 0)) =~= Seq::<int>::empty());
    assert(g =~= seq![0int]);
    let fe = free_ends(c, g);
    assert(free_ends(c, g.drop_last()) =~= Seq::<(int, int)>::empty());
    assert(fe =~= seq![(0int, 0int), (0int, 1int)]);
    let wk = walk(c, 0, 0, Set::empty(), 1);
    assert(wk =~= seq![(0int, true)]);
    assert(path_segs(wires, seq![(0int, true)]) =~= wire_steps(wire, true)) by {
        let v = seq![(0int, true)];
        assert(v.drop_last() =~= Seq::<(int, bool)>::empty());
        assert(v.last() == (0int, true));
        assert(wires[0] == wire);
        assert(path_segs(wires, v.drop_last()) =~= Seq::<(int, bool)>::empty());
        assert(path_segs(wires, v) == path_segs(wires, v.drop_last()) + wire_steps(wires[0], true));
    }
    assert(group_path(c, wires, rep, 0) == wire_steps(wire, true));
    assert(rs.map_values(|r: int| group_path(c, wires, rep, r)) =~= seq![wire_steps(wire, true)]);
    assert(!(exists|i: int| 0 <= i < rs.len() && free_ends(c, group(rep, 1, #[trigger] rs[i])).len() != 2));
}

proof fn lemma_partner_is_fresh(ms: Seq<int>, cur: int, visited: Set<int>)
    ensures
        partner(ms, cur, visited) matches Some(p) ==> p.0 != cur && !visited.contains(p.0),
    decreases ms.len(),
{
    if ms.len() > 0 {
        lemma_partner_is_fresh(ms.drop_last(), cur, visited);
    }
}

/// A conductor-path walk enters each wire at most once, and never a wire
/// it started out counting as visited: the chain it follows is open.
pub proof fn law_walk_enters_each_wire_once(c: Clusters, cur: int, enter: int, visited: Set<int>, fuel: nat)
    requires
        !visited.contains(cur),
    ensures
        forall|i: int, j: int| 0 <= i < j < walk(c, cur, enter, visited, fuel).len()
            ==> (#[trigger] walk(c, cur, enter, visited, fuel)[i]).0 != (#[trigger] walk(c, cur, enter, visited, fuel)[j]).0,
        forall|i: int| 0 <= i < walk(c, cur, enter, visited, fuel).len()
            ==> !visited.contains((#[trigger] walk(c, cur, enter, visited, fuel)[i]).0),
    decreases fuel,
{
    if fuel > 0 {
        let v2 = visited.insert(cur);
        let here = seq![(cur, enter == 0)];
        let ms = c.members[c.node_of[2 * cur + 1 - enter]];
        if ms.len() != 1 {
            lemma_partner_is_fresh(ms, cur, v2);
            if let Some((nw, ne)) = partner(ms, cur, v2) {
                let rest = walk(c, nw, ne, v2, (fuel - 1) as nat);
                law_walk_enters_each_wire_once(c, nw, ne, v2, (fuel - 1) as nat);
                let all = walk(c, cur, enter, visited, fuel);
                assert(all == here + rest);
                assert forall|i: int| 0 <= i < all.len() implies !visited.contains((#[trigger] all[i]).0) by {
                    if i > 0 {
                        assert(all[i] == rest[i - 1]);
                    }
                }
                assert forall|i: int, j: int| 0 <= i < j < all.len() implies (#[trigger] all[i]).0 != (#[trigger] all[j]).0 by {
                    assert(all[j] == rest[j - 1]);
                    if i > 0 {
                        assert(all[i] == rest[i - 1]);
                    } else {
                        assert(!v2.contains(rest[j - 1].0));
                    }
                }
            }
        }
    }
}

// ---------------------------------------------------------------------------
// Collinear merging of consecutive wire runs
// ---------------------------------------------------------------------------

/// Consecutive wire runs merged where they continue one another: run `k + 1`
/// joins the current block when it starts right after the block's last
/// segment and `joins[k]` says the two segments meet end to start, collinear
/// and of equal radius.
pub open spec fn merged_runs(base: Seq<(int, int)>, joins: Seq<bool>) -> Seq<(int, int)>
    decreases base.len(),
{
    if base.len() <= 1 {
        base
    } else {
        let prev = merged_runs(base.drop_last(), joins);
        let k = base.len() - 1;
        let cur = prev.last();
        if cur.1 + 1 == base[k].0 && joins[k - 1] {
            prev.update(prev.len() - 1, (cur.0, base[k].1))
        } else {
            prev.push(base[k])
        }
    }
}

/// Merging keeps the span of the wires: the merged runs of a non-empty
/// list start where the first wire starts, end where the last wire ends,
/// and are no more than the wires. In particular the block a wire is merged
/// into always ends at the previous wire's last segment, so the test between
/// consecutive wires is the test between the block and the next wire.
pub proof fn law_merge_keeps_the_span(base: Seq<(int, int)>, joins: Seq<bool>)
    requires
        base.len() > 0,
    ensures
        merged_runs(base, joins).len() > 0,
        merged_runs(base, joins)[0].0 == base[0].0,
        merged_runs(base, joins).last().1 == base.last().1,
        merged_runs(base, joins).len() <= base.len(),
    decreases base.len(),
{
    if base.len() > 1 {
        law_merge_keeps_the_span(base.drop_last(), joins);
    }
}

/// Merge collinear end-to-start continuations of consecutive wire runs into
/// single logical wires (see [`merged_runs`]). `joins[k]` is the physical
/// test between the last segment of run `k` and the first of run `k + 1`.
pub fn merge_collinear_wire_endpoints(base: &Vec<(usize, usize)>, joins: &Vec<bool>) -> (r: Vec<(usize, usize)>)
    requires
        joins.len() + 1 >= base.len(),
        well_formed_wires(base@),
    ensures
        wires_view(r@) == merged_runs(wires_view(base@), joins@),
{
    let ghost bv = wires_view(base@);
    if base.len() == 0 {
        let none: Vec<(usize, usize)> = Vec::new();
        assert(wires_view(none@) =~= bv);
        return none;
    }
    if base.len() == 1 {
        let one: Vec<(usize, usize)> = vec![base[0]];
        assert(wires_view(one@) =~= bv);
        return one;
    }
    let mut merged: Vec<(usize, usize)> = Vec::new();
    let mut cur = base[0];
    let mut k: usize = 1;
    proof {
        assert(bv.take(1).len() == 1);
        assert(merged_runs(bv.take(1), joins@) == bv.take(1));
        assert(wires_view(merged@).push((cur.0 as int, cur.1 as int)) =~= merged_runs(bv.take(1), joins@));
    }
    while k < base.len()
        invariant
            1 <= k <= base.len(),
            joins.len() + 1 >= base.len(),
            well_formed_wires(base@),
            bv == wires_view(base@),
            cur.1 < usize::MAX,
            wires_view(merged@).push((cur.0 as int, cur.1 as int)) == merged_runs(bv.take(k as int), joins@),
        decreases base.len() - k,
    {
        let next = base[k];
        let ghost pre = bv.take(k as int);
        let ghost prev = merged_runs(pre, joins@);
        proof {
            assert(bv.take(k + 1).drop_last() =~= pre);
            assert(bv.take(k + 1)[k as int] == (next.0 as int, next.1 as int));
            assert(prev.last() == (cur.0 as int, cur.1 as int));
        }
        if cur.1 + 1 == next.0 && joins[k - 1] {
            cur = (cur.0, next.1);
            proof {
                assert(wires_view(merged@).push((cur.0 as int, cur.1 as int)) =~= prev.update(prev.len() - 1, (prev.last().0, next.1 as int)));
            }
        } else {
            let ghost before = merged@;
            merged.push(cur);
            cur = next;
            proof {
                assert(wires_view(merged@) =~= wires_view(before).push((prev.last().0, prev.last().1)));
                assert(wires_view(merged@) =~= prev);
            }
        }
        k = k + 1;
    }
    let ghost before = merged@;
    merged.push(cur);
    proof {
        assert(bv.take(base.len() as int) =~= bv);
        assert(wires_view(merged@) =~= wires_view(before).push((cur.0 as int, cur.1 as int)));
    }
    merged
}

/// Without a joining boundary the merge is the identity: single wires,
/// parallel arrays, bends and junctions keep their runs exactly.
pub proof fn law_merge_without_joins_is_identity(base: Seq<(int, int)>, joins: Seq<bool>)
    requires
        forall|k: int| 0 <= k < joins.len() ==> !(#[trigger] joins[k]),
        joins.len() + 1 >= base.len(),
    ensures
        merged_runs(base, joins) == base,
    decreases base.len(),
{
    if base.len() > 1 {
        law_merge_without_joins_is_identity(base.drop_last(), joins);
        assert(base.drop_last().push(base.last()) =~= base);
    }
}

// ---------------------------------------------------------------------------
// Junctions between wire ends
// ---------------------------------------------------------------------------

/// The segment at wire end `k`: the first segment of wire `k / 2` for an
/// even `k` (its start), else the last (its end).
pub open spec fn end_seg(wires: Seq<(int, int)>, k: int) -> int {
    if k % 2 == 0 {
        wires[k / 2].0
    } else {
        wires[k / 2].1
    }
}

/// The junctions of wire end `i` with the ends `i < j < upto`: the two
/// segments, and whether the ends are of one kind (start-to-start or
/// end-to-end, where the current reverses).
pub open spec fn junction_row(wires: Seq<(int, int)>, near: Seq<Seq<bool>>, i: int, upto: int) -> Seq<(int, int, bool)>
    decreases upto - i,
{
    if upto <= i + 1 {
        Seq::empty()
    } else {
        let j = upto - 1;
        let prev = junction_row(wires, near, i, j);
        if end_seg(wires, i) != end_seg(wires, j) && near[i][j] {
            prev.push((end_seg(wires, i), end_seg(wires, j), i % 2 == j % 2))
        } else {
            prev
        }
    }
}

/// The junctions among the wire ends, pair by pair in order of the first end
/// and then the second, of the first `upto` ends.
pub open spec fn junctions_upto(wires: Seq<(int, int)>, near: Seq<Seq<bool>>, upto: int) -> Seq<(int, int, bool)>
    decreases upto,
{
    if upto <= 0 {
        Seq::empty()
    } else {
        junctions_upto(wires, near, upto - 1) + junction_row(wires, near, upto - 1, 2 * (wires.len() as int))
    }
}

pub open spec fn junctions_view(v: Seq<(usize, usize, bool)>) -> Seq<(int, int, bool)> {
    v.map_values(|t: (usize, usize, bool)| (t.0 as int, t.1 as int, t.2))
}

/// Detect the junctions between wire ends (see [`junctions_upto`]): two
/// ends on different segments that `near` says coincide. Each junction
/// gives the two segments and whether the ends are of one kind; ends of
/// different kinds are a continuation, where the current flows on.
pub fn detect_wire_junctions(wire_endpoints: &Vec<(usize, usize)>, near: &Vec<Vec<bool>>) -> (r: Vec<(usize, usize, bool)>)
    requires
        near.len() == 2 * wire_endpoints.len(),
        2 * wire_endpoints.len() < usize::MAX,
        forall|i: int| 0 <= i < near.len() ==> (#[trigger] near@[i]).len() == near.len(),
    ensures
        junctions_view(r@) == junctions_upto(wires_view(wire_endpoints@), bools_view(near@), near.len() as int),
        forall|k: int| 0 <= k < r.len() ==> (#[trigger] r@[k]).0 != r@[k].1,
{
    let ghost wv = wires_view(wire_endpoints@);
    let ghost nv = bools_view(near@);
    let n = near.len();
    let mut out: Vec<(usize, usize, bool)> = Vec::new();
    let mut i: usize = 0;
    while i < n
        invariant
            i <= n,
            n == near.len() == 2 * wire_endpoints.len(),
            2 * wire_endpoints.len() < usize::MAX,
            forall|i: int| 0 <= i < near.len() ==> (#[trigger] near@[i]).len() == near.len(),
            wv == wires_view(wire_endpoints@),
            nv == bools_view(near@),
            junctions_view(out@) == junctions_upto(wv, nv, i as int),
            forall|k: int| 0 <= k < out.len() ==> (#[trigger] out@[k]).0 != out@[k].1,
        decreases n - i,
    {
        let si = if i % 2 == 0 { wire_endpoints[i / 2].0 } else { wire_endpoints[i / 2].1 };
        let ghost base = junctions_view(out@);
        proof {
            assert(si as int == end_seg(wv, i as int));
            assert(base + junction_row(wv, nv, i as int, i + 1) =~= base);
        }
        let mut j: usize = i + 1;
        while j < n
            invariant
                i < j <= n,
                n == near.len() == 2 * wire_endpoints.len(),
                forall|i: int| 0 <= i < near.len() ==> (#[trigger] near@[i]).len() == near.len(),
                wv == wires_view(wire_endpoints@),
                nv == bools_view(near@),
                si as int == end_seg(wv, i as int),
                junctions_view(out@) == base + junction_row(wv, nv, i as int, j as int),
                forall|k: int| 0 <= k < out.len() ==> (#[trigger] out@[k]).0 != out@[k].1,
            decreases n - j,
        {
            let sj = if j % 2 == 0 { wire_endpoints[j / 2].0 } else { wire_endpoints[j / 2].1 };
            proof {
                assert(sj as int == end_seg(wv, j as int));
                assert(nv[i as int][j as int] == near@[i as int]@[j as int]);
            }
            if si != sj && near[i][j] {
                let ghost before = out@;
                out.push((si, sj, i % 2 == j % 2));
                proof {
                    assert(junctions_view(out@) =~= junctions_view(before).push((si as int, sj as int, i % 2 == j % 2)));
                }
            }
            proof {
                assert(base + junction_row(wv, nv, i as int, j + 1) =~= junctions_view(out@));
            }
            j = j + 1;
        }
        proof {
            assert(wv.len() == wire_endpoints.len());
            assert(junctions_upto(wv, nv, i + 1) == base + junction_row(wv, nv, i as int, 2 * (wv.len() as int)));
        }
        i = i + 1;
    }
    out
}

/// Junction `a` orders before junction `b`: by first segment, then second.
pub open spec fn junction_before(a: (int, int, bool), b: (int, int, bool)) -> bool {
    a.0 < b.0 || (a.0 == b.0 && a.1 < b.1)
}

proof fn lemma_end_seg_ascending(wires: Seq<(int, int)>, i: int, j: int)
    requires
        forall|k: int| 0 <= k < wires.len() ==> (#[trigger] wires[k]).0 < wires[k].1,
        forall|k: int| 0 <= k < wires.len() - 1 ==> (#[trigger] wires[k]).1 < wires[k + 1].0,
        0 <= i < j < 2 * wires.len(),
    ensures
        end_seg(wires, i) < end_seg(wires, j),
    decreases j - i,
{
    if j > i + 1 {
        lemma_end_seg_ascending(wires, i, j - 1);
        lemma_end_seg_ascending(wires, j - 1, j);
    } else {
        if i % 2 == 0 {
            assert((i + 1) / 2 == i / 2);
        } else {
            assert((i + 1) / 2 == i / 2 + 1);
        }
    }
}

proof fn lemma_junction_row_ordered(wires: Seq<(int, int)>, near: Seq<Seq<bool>>, i: int, upto: int)
    requires
        forall|k: int| 0 <= k < wires.len() ==> (#[trigger] wires[k]).0 < wires[k].1,
        forall|k: int| 0 <= k < wires.len() - 1 ==> (#[trigger] wires[k]).1 < wires[k + 1].0,
        0 <= i < upto <= 2 * wires.len(),
    ensures
        forall|a: int|
            0 <= a < junction_row(wires, near, i, upto).len() ==> (#[trigger] junction_row(wires, near, i, upto)[a]).0
                == end_seg(wires, i) && junction_row(wires, near, i, upto)[a].1 <= end_seg(wires, upto - 1),
        forall|a: int, b: int|
            0 <= a < b < junction_row(wires, near, i, upto).len() ==> (#[trigger] junction_row(wires, near, i, upto)[a]).1
                < (#[trigger] junction_row(wires, near, i, upto)[b]).1,
    decreases upto - i,
{
    if upto > i + 1 {
        lemma_junction_row_ordered(wires, near, i, upto - 1);
        let prev = junction_row(wires, near, i, upto - 1);
        let r = junction_row(wires, near, i, upto);
        let j = upto - 1;
        lemma_end_seg_ascending(wires, j - 1, j);
        if end_seg(wires, i) != end_seg(wires, j) && near[i][j] {
            assert(r == prev.push((end_seg(wires, i), end_seg(wires, j), i % 2 == j % 2)));
            assert forall|a: int, b: int| 0 <= a < b < r.len() implies (#[trigger] r[a]).1 < (#[trigger] r[b]).1 by {
                assert(r[a] == prev[a]);
                if b < prev.len() {
                    assert(r[b] == prev[b]);
                }
            }
            assert forall|a: int| 0 <= a < r.len() implies (#[trigger] r[a]).0 == end_seg(wires, i) && r[a].1 <= end_seg(
                wires,
                upto - 1,
            ) by {
                if a < prev.len() {
                    assert(r[a] == prev[a]);
                }
            }
        }
    }
}

/// Each pair of segments is joined by at most one junction, in ascending
/// order of the pairs, when every wire has at least two segments and the
/// wires are disjoint runs in segment order (as runs of equal tags are).
/// A one-segment wire breaks it: both its ends are on one segment, and a
/// third end near both gives that segment pair twice.
pub proof fn law_junction_pairs_are_distinct(wires: Seq<(int, int)>, near: Seq<Seq<bool>>)
    requires
        forall|k: int| 0 <= k < wires.len() ==> (#[trigger] wires[k]).0 < wires[k].1,
        forall|k: int| 0 <= k < wires.len() - 1 ==> (#[trigger] wires[k]).1 < wires[k + 1].0,
    ensures
        forall|a: int, b: int|
            0 <= a < b < junctions_upto(wires, near, 2 * (wires.len() as int)).len() ==> junction_before(
                #[trigger] junctions_upto(wires, near, 2 * (wires.len() as int))[a],
                #[trigger] junctions_upto(wires, near, 2 * (wires.len() as int))[b],
            ),
{
    lemma_junctions_ordered(wires, near, 2 * (wires.len() as int));
}

proof fn lemma_junctions_ordered(wires: Seq<(int, int)>, near: Seq<Seq<bool>>, k: int)
    requires
        forall|k: int| 0 <= k < wires.len() ==> (#[trigger] wires[k]).0 < wires[k].1,
        forall|k: int| 0 <= k < wires.len() - 1 ==> (#[trigger] wires[k]).1 < wires[k + 1].0,
        0 <= k <= 2 * wires.len(),
    ensures
        forall|a: int, b: int|
            0 <= a < b < junctions_upto(wires, near, k).len() ==> junction_before(
                #[trigger] junctions_upto(wires, near, k)[a],
                #[trigger] junctions_upto(wires, near, k)[b],
            ),
        k > 0 ==> forall|a: int|
            0 <= a < junctions_upto(wires, near, k).len() ==> (#[trigger] junctions_upto(wires, near, k)[a]).0
                <= end_seg(wires, k - 1),
    decreases k,
{
    if k > 0 {
        lemma_junctions_ordered(wires, near, k - 1);
        let n = 2 * (wires.len() as int);
        let prev = junctions_upto(wires, near, k - 1);
        let row = junction_row(wires, near, k - 1, n);
        let all = junctions_upto(wires, near, k);
        assert(all == prev + row);
        if k - 1 + 1 <= n && k - 1 < n {
            if row.len() > 0 {
                lemma_junction_row_ordered(wires, near, k - 1, n);
            }
        }
        if k > 1 {
            lemma_end_seg_ascending(wires, k - 2, k - 1);
        }
        assert forall|a: int, b: int| 0 <= a < b < all.len() implies junction_before(#[trigger] all[a], #[trigger] all[b]) by {
            if b < prev.len() {
                assert(all[a] == prev[a]);
                assert(all[b] == prev[b]);
            } else if a < prev.len() {
                assert(all[a] == prev[a]);
                assert(all[b] == row[b - prev.len()]);
            } else {
                assert(all[a] == row[a - prev.len()]);
                assert(all[b] == row[b - prev.len()]);
            }
        }
        assert forall|a: int| 0 <= a < all.len() implies (#[trigger] all[a]).0 <= end_seg(wires, k - 1) by {
            if a < prev.len() {
                assert(all[a] == prev[a]);
            } else {
                assert(all[a] == row[a - prev.len()]);
            }
        }
    }
}

} // verus!









