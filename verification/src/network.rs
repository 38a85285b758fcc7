//! The ports of two-port networks (`TL`, `NT`): the segments their port
//! gaps sit on. One port voltage per segment, however many networks share
//! it. The admittances are complex numbers and stay with the caller.

use vstd::prelude::*;

verus! {

/// Every segment that is a port of one of the two-ports `ends`.
pub open spec fn port_set(ends: Seq<(usize, usize)>) -> Set<int> {
    Set::new(|s: int| exists|k: int| 0 <= k < ends.len() && ((#[trigger] ends[k]).0 == s || ends[k].1 == s))
}

/// Strictly ascending.
pub open spec fn ascending(v: Seq<usize>) -> bool {
    forall|i: int, j: int| 0 <= i < j < v.len() ==> v[i] < v[j]
}

pub open spec fn elems(v: Seq<usize>) -> Set<int> {
    Set::new(|s: int| exists|i: int| 0 <= i < v.len() && (#[trigger] v[i]) == s)
}

/// Insert `x` into an ascending vector unless it is already there.
fn insert_ascending(v: &mut Vec<usize>, x: usize)
    requires
        ascending(old(v)@),
    ensures
        ascending(final(v)@),
        elems(final(v)@) == elems(old(v)@).insert(x as int),
{
    let ghost o = v@;
    let mut i: usize = 0;
    while i < v.len() && v[i] < x
        invariant
            i <= v.len(),
            v@ == o,
            ascending(o),
            forall|k: int| 0 <= k < i ==> #[trigger] o[k] < x,
        decreases v.len() - i,
    {
        i = i + 1;
    }
    if i < v.len() && v[i] == x {
        assert(elems(v@) =~= elems(o).insert(x as int));
        return;
    }
    v.insert(i, x);
    proof {
        let n = v@;
        assert(n == o.insert(i as int, x));
        assert forall|a: int, b: int| 0 <= a < b < n.len() implies n[a] < n[b] by {
            if b < i {
            } else if b == i {
                assert(n[a] == o[a]);
            } else if a < i {
                assert(n[b] == o[b - 1]);
                assert(o[a] < x);
                assert(x < o[i as int] || i == o.len());
                if a < b - 1 {
                    assert(o[a] < o[b - 1]);
                }
            } else if a == i {
                assert(n[b] == o[b - 1]);
                assert(o[i as int] > x);
                if i < b - 1 {
                    assert(o[i as int] < o[b - 1]);
                }
            } else {
                assert(n[a] == o[a - 1]);
                assert(n[b] == o[b - 1]);
            }
        }
        assert forall|s: int| elems(n).contains(s) <==> elems(o).insert(x as int).contains(s) by {
            if elems(n).contains(s) {
                let k = choose|k: int| 0 <= k < n.len() && n[k] == s;
                if k < i {
                    assert(o[k] == s);
                } else if k > i {
                    assert(o[k - 1] == s);
                }
            }
            if elems(o).contains(s) {
                let k = choose|k: int| 0 <= k < o.len() && o[k] == s;
                if k < i {
                    assert(n[k] == s);
                } else {
                    assert(n[k + 1] == s);
                }
            }
            if s == x {
                assert(n[i as int] == x);
            }
        }
        assert(elems(n) =~= elems(o).insert(x as int));
    }
}

/// The distinct port segments of the two-ports `ends`, ascending.
pub fn network_ports(ends: &Vec<(usize, usize)>) -> (p: Vec<usize>)
    ensures
        ascending(p@),
        elems(p@) == port_set(ends@),
{
    let mut p: Vec<usize> = Vec::new();
    let mut k: usize = 0;
    proof {
        assert(elems(p@) =~= port_set(ends@.take(0)));
    }
    while k < ends.len()
        invariant
            k <= ends.len(),
            ascending(p@),
            elems(p@) == port_set(ends@.take(k as int)),
        decreases ends.len() - k,
    {
        let (a, b) = ends[k];
        insert_ascending(&mut p, a);
        insert_ascending(&mut p, b);
        proof {
            let t0 = ends@.take(k as int);
            let t1 = ends@.take(k + 1);
            assert forall|s: int| port_set(t1).contains(s) <==> port_set(t0).insert(a as int).insert(b as int).contains(s) by {
                if port_set(t1).contains(s) {
                    let j = choose|j: int| 0 <= j < t1.len() && ((#[trigger] t1[j]).0 == s || t1[j].1 == s);
                    if j < k {
                        assert(t0[j] == t1[j]);
                    }
                }
                if port_set(t0).contains(s) {
                    let j = choose|j: int| 0 <= j < t0.len() && ((#[trigger] t0[j]).0 == s || t0[j].1 == s);
                    assert(t1[j] == t0[j]);
                }
                assert(t1[k as int] == (a, b));
            }
            assert(port_set(t1) =~= port_set(t0).insert(a as int).insert(b as int));
        }
        k = k + 1;
    }
    proof {
        assert(ends@.take(ends.len() as int) =~= ends@);
    }
    p
}

} // verus!
