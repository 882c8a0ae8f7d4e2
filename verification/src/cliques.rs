//! Maximal-clique enumeration over the compatibility graph: the recursive
//! set-based Bron-Kerbosch algorithm.
//!
//! The enumerator walks candidates in ascending node order, reports a clique
//! only when both the candidate set and the excluded set are empty and the
//! clique reaches the caller's floor, and stops once the cap is reached.
//! `bk_spec` pins the exact stream of reported cliques, so enumeration is
//! deterministic by construction.

use vstd::prelude::*;
use crate::graph::{adj_edge, adj_wf};

verus! {

/// The first `k` elements of the stream, or the whole stream when it is
/// shorter.
pub open spec fn take_at_most(s: Seq<Seq<usize>>, k: int) -> Seq<Seq<usize>> {
    if k <= 0 {
        Seq::empty()
    } else if k >= s.len() {
        s
    } else {
        s.take(k)
    }
}

pub proof fn lemma_take_at_most_concat(a: Seq<Seq<usize>>, b: Seq<Seq<usize>>, k: int)
    ensures
        take_at_most(a + b, k) == take_at_most(a, k) + take_at_most(b, k - take_at_most(
            a,
            k,
        ).len()),
{
    if k <= 0 {
        assert(take_at_most(a + b, k) =~= take_at_most(a, k) + take_at_most(
            b,
            k - take_at_most(a, k).len(),
        ));
    } else if k >= a.len() + b.len() {
        assert(take_at_most(a + b, k) =~= take_at_most(a, k) + take_at_most(
            b,
            k - take_at_most(a, k).len(),
        ));
    } else if k >= a.len() {
        assert(take_at_most(a + b, k) =~= take_at_most(a, k) + take_at_most(
            b,
            k - take_at_most(a, k).len(),
        ));
    } else {
        assert(take_at_most(a + b, k) =~= take_at_most(a, k) + take_at_most(
            b,
            k - take_at_most(a, k).len(),
        ));
    }
}

/// The stream of cliques Bron-Kerbosch reports from the state `(r, p, x)`:
/// `r` the clique under construction, `p` the candidates still open, `x` the
/// vertices already processed.
pub open spec fn bk_spec(
    adj: Seq<Seq<bool>>,
    floor: int,
    r: Seq<usize>,
    p: Seq<usize>,
    x: Seq<usize>,
) -> Seq<Seq<usize>>
    decreases p.len(),
    via bk_spec_decreases
{
    if p.len() == 0 {
        if x.len() == 0 && r.len() >= floor {
            seq![r]
        } else {
            Seq::empty()
        }
    } else {
        let v = p[0];
        let rest = p.drop_first();
        bk_spec(
            adj,
            floor,
            r.push(v),
            rest.filter(|u: usize| adj_edge(adj, u, v)),
            x.filter(|u: usize| adj_edge(adj, u, v)),
        ) + bk_spec(adj, floor, r, rest, x.push(v))
    }
}

#[via_fn]
proof fn bk_spec_decreases(
    adj: Seq<Seq<bool>>,
    floor: int,
    r: Seq<usize>,
    p: Seq<usize>,
    x: Seq<usize>,
) {
    if p.len() > 0 {
        let v = p[0];
        p.drop_first().lemma_filter_len(|u: usize| adj_edge(adj, u, v));
    }
}

/// Every element of the sequence is a node of the graph.
pub open spec fn nodes_in_bounds(adj: Seq<Seq<bool>>, s: Seq<usize>) -> bool {
    forall|k: int| 0 <= k < s.len() ==> (#[trigger] s[k]) < adj.len()
}

fn copy_from(v: &Vec<usize>, from: usize) -> (r: Vec<usize>)
    requires
        from <= v@.len(),
    ensures
        r@ == v@.skip(from as int),
{
    let mut r: Vec<usize> = Vec::new();
    let mut i: usize = from;
    while i < v.len()
        invariant
            from <= i <= v@.len(),
            r@ =~= v@.subrange(from as int, i as int),
        decreases v@.len() - i,
    {
        r.push(v[i]);
        i = i + 1;
    }
    proof {
        assert(r@ =~= v@.skip(from as int));
    }
    r
}

proof fn lemma_filter_one(e: usize, pred: spec_fn(usize) -> bool)
    ensures
        seq![e].filter(pred) == if pred(e) {
            seq![e]
        } else {
            Seq::<usize>::empty()
        },
{
    let s = seq![e];
    assert(s.drop_last() =~= Seq::<usize>::empty());
    reveal_with_fuel(Seq::filter, 2);
    assert(Seq::<usize>::empty().filter(pred) =~= Seq::<usize>::empty());
}

/// Keeps, from position `from` on, the elements adjacent to `v`.
fn filter_adjacent(adj: &Vec<Vec<bool>>, set: &Vec<usize>, from: usize, v: usize) -> (r: Vec<
    usize,
>)
    requires
        adj_wf(adj.deep_view()),
        nodes_in_bounds(adj.deep_view(), set@),
        v < adj@.len(),
        from <= set@.len(),
    ensures
        r@ == set@.skip(from as int).filter(|u: usize| adj_edge(adj.deep_view(), u, v)),
        nodes_in_bounds(adj.deep_view(), r@),
{
    let ghost pred = |u: usize| adj_edge(adj.deep_view(), u, v);
    let mut r: Vec<usize> = Vec::new();
    let mut i: usize = from;
    while i < set.len()
        invariant
            from <= i <= set@.len(),
            adj_wf(adj.deep_view()),
            nodes_in_bounds(adj.deep_view(), set@),
            v < adj@.len(),
            pred == (|u: usize| adj_edge(adj.deep_view(), u, v)),
            r@ == set@.subrange(from as int, i as int).filter(pred),
            nodes_in_bounds(adj.deep_view(), r@),
        decreases set@.len() - i,
    {
        let u = set[i];
        proof {
            assert(set@.subrange(from as int, i as int + 1) =~= set@.subrange(
                from as int,
                i as int,
            ) + seq![u]);
            Seq::filter_distributes_over_add(
                set@.subrange(from as int, i as int),
                seq![u],
                pred,
            );
            lemma_filter_one(u, pred);
        }
        if adj[u][v] {
            r.push(u);
            proof {
                assert(adj_edge(adj.deep_view(), u, v));
                assert(r@ =~= set@.subrange(from as int, i as int + 1).filter(pred));
            }
        } else {
            proof {
                assert(!adj_edge(adj.deep_view(), u, v));
                assert(r@ =~= set@.subrange(from as int, i as int + 1).filter(pred));
            }
        }
        i = i + 1;
    }
    proof {
        assert(set@.subrange(from as int, set@.len() as int) =~= set@.skip(from as int));
    }
    r
}

/// The recursive Bron-Kerbosch step.  Appends to `cliques` exactly the
/// stream `bk_spec` names from this state, cut off at the cap.
pub fn bron_kerbosch(
    adj: &Vec<Vec<bool>>,
    r: &Vec<usize>,
    p: &Vec<usize>,
    x: &Vec<usize>,
    floor: usize,
    cap: usize,
    cliques: &mut Vec<Vec<usize>>,
)
    requires
        adj_wf(adj.deep_view()),
        nodes_in_bounds(adj.deep_view(), r@),
        nodes_in_bounds(adj.deep_view(), p@),
        nodes_in_bounds(adj.deep_view(), x@),
        old(cliques)@.len() <= cap,
    ensures
        final(cliques).deep_view() == old(cliques).deep_view() + take_at_most(
            bk_spec(adj.deep_view(), floor as int, r@, p@, x@),
            cap - old(cliques)@.len(),
        ),
        final(cliques)@.len() <= cap,
    decreases p@.len(),
{
    let ghost adv = adj.deep_view();
    if cliques.len() >= cap {
        proof {
            assert(cliques.deep_view() =~= old(cliques).deep_view() + take_at_most(
                bk_spec(adv, floor as int, r@, p@, x@),
                cap - old(cliques)@.len(),
            ));
        }
        return ;
    }
    if p.len() == 0 {
        if x.len() == 0 && r.len() >= floor {
            let rc = copy_from(r, 0);
            proof {
                assert(rc@ =~= r@);
            }
            let ghost prev = cliques.deep_view();
            proof {
                assert(rc.deep_view() =~= rc@);
            }
            cliques.push(rc);
            proof {
                assert(cliques.deep_view() =~= prev + seq![r@]);
                assert(bk_spec(adv, floor as int, r@, p@, x@) == seq![r@]);
                assert(take_at_most(seq![r@], cap - prev.len()) =~= seq![r@]);
            }
        } else {
            proof {
                assert(bk_spec(adv, floor as int, r@, p@, x@) =~= Seq::<Seq<usize>>::empty());
                assert(cliques.deep_view() =~= old(cliques).deep_view() + take_at_most(
                    bk_spec(adv, floor as int, r@, p@, x@),
                    cap - old(cliques)@.len(),
                ));
            }
        }
        return ;
    }
    let v = p[0];
    let ghost pred = |u: usize| adj_edge(adv, u, v);
    let new_p = filter_adjacent(adj, p, 1, v);
    let new_x = filter_adjacent(adj, x, 0, v);
    let mut new_r = copy_from(r, 0);
    new_r.push(v);
    proof {
        assert(p@.skip(1) =~= p@.drop_first());
        assert(x@.skip(0) =~= x@);
        assert(new_r@ =~= r@.push(v));
        p@.drop_first().lemma_filter_len(pred);
    }
    let ghost bk1 = bk_spec(adv, floor as int, new_r@, new_p@, new_x@);
    let ghost bk2 = bk_spec(adv, floor as int, r@, p@.drop_first(), x@.push(v));
    let ghost room = cap - cliques@.len();
    bron_kerbosch(adj, &new_r, &new_p, &new_x, floor, cap, cliques);
    let rest = copy_from(p, 1);
    let mut x2 = copy_from(x, 0);
    x2.push(v);
    proof {
        assert(rest@ =~= p@.drop_first());
        assert(x2@ =~= x@.push(v));
    }
    bron_kerbosch(adj, r, &rest, &x2, floor, cap, cliques);
    proof {
        lemma_take_at_most_concat(bk1, bk2, room);
        assert(bk_spec(adv, floor as int, r@, p@, x@) == bk1 + bk2);
        assert(cliques.deep_view() =~= old(cliques).deep_view() + take_at_most(
            bk1 + bk2,
            room,
        ));
    }
}

/// `c` is a clique: its vertices are pairwise adjacent.
pub open spec fn is_clique(adj: Seq<Seq<bool>>, c: Seq<usize>) -> bool {
    forall|i: int, j: int| 0 <= i < j < c.len() ==> adj_edge(adj, c[i], c[j])
}

/// `v` is adjacent to every vertex of `c`.
pub open spec fn connected_to_all(adj: Seq<Seq<bool>>, c: Seq<usize>, v: usize) -> bool {
    forall|i: int| 0 <= i < c.len() ==> adj_edge(adj, #[trigger] c[i], v)
}

/// No vertex of the graph is adjacent to all of `c`: nothing can be added
/// without breaking the clique property.  (A vertex of `c` itself is never
/// adjacent to all of `c`, the graph being irreflexive.)
pub open spec fn is_maximal(adj: Seq<Seq<bool>>, c: Seq<usize>) -> bool {
    forall|v: usize| (v as int) < adj.len() ==> !connected_to_all(adj, c, v)
}

/// The Bron-Kerbosch state invariant: `r` is a clique, every open or
/// excluded vertex extends it, and every vertex that could extend it is
/// still open or excluded.
pub open spec fn bk_inv(adj: Seq<Seq<bool>>, r: Seq<usize>, p: Seq<usize>, x: Seq<usize>) -> bool {
    &&& adj_wf(adj)
    &&& nodes_in_bounds(adj, r)
    &&& nodes_in_bounds(adj, p)
    &&& nodes_in_bounds(adj, x)
    &&& is_clique(adj, r)
    &&& forall|k: int| 0 <= k < p.len() ==> connected_to_all(adj, r, #[trigger] p[k])
    &&& forall|k: int| 0 <= k < x.len() ==> connected_to_all(adj, r, #[trigger] x[k])
    &&& forall|v: usize|
        (v as int) < adj.len() && connected_to_all(adj, r, v) ==> p.contains(v) || x.contains(v)
}

/// Everything `bk_spec` reports from an invariant state is a maximal clique
/// of at least `floor` vertices.
pub proof fn lemma_bk_spec_cliques(
    adj: Seq<Seq<bool>>,
    floor: int,
    r: Seq<usize>,
    p: Seq<usize>,
    x: Seq<usize>,
)
    requires
        bk_inv(adj, r, p, x),
    ensures
        forall|k: int|
            0 <= k < bk_spec(adj, floor, r, p, x).len() ==> {
                let c = #[trigger] bk_spec(adj, floor, r, p, x)[k];
                &&& is_clique(adj, c)
                &&& nodes_in_bounds(adj, c)
                &&& c.len() >= floor
                &&& is_maximal(adj, c)
            },
    decreases p.len(),
{
    if p.len() == 0 {
        if x.len() == 0 && r.len() >= floor {
            assert forall|v: usize| (v as int) < adj.len() implies !connected_to_all(
                adj,
                r,
                v,
            ) by {
                if connected_to_all(adj, r, v) {
                    assert(p.contains(v) || x.contains(v));
                }
            }
        }
    } else {
        let v = p[0];
        let rest = p.drop_first();
        let pred = |u: usize| adj_edge(adj, u, v);
        let r1 = r.push(v);
        let p1 = rest.filter(pred);
        let x1 = x.filter(pred);
        assert(connected_to_all(adj, r, v));

        // The deeper state keeps the invariant.
        assert(nodes_in_bounds(adj, r1)) by {
            assert(forall|k: int| 0 <= k < r.len() ==> r1[k] == r[k]);
        }
        assert(is_clique(adj, r1)) by {
            assert forall|i: int, j: int| 0 <= i < j < r1.len() implies adj_edge(
                adj,
                r1[i],
                r1[j],
            ) by {
                if j < r.len() {
                    assert(adj_edge(adj, r[i], r[j]));
                } else {
                    assert(adj_edge(adj, r[i], v));
                }
            }
        }
        assert forall|k: int| 0 <= k < p1.len() implies (#[trigger] p1[k]) < adj.len()
            && connected_to_all(adj, r1, p1[k]) by {
            rest.lemma_filter_pred(pred, k);
            let u = p1[k];
            assert(p1.contains(u)) by {
                assert(p1[k] == u);
            }
            rest.lemma_filter_contains_rev(pred, u);
            let ki = choose|ki: int| 0 <= ki < rest.len() && rest[ki] == u;
            assert(p[ki + 1] == u);
            assert(connected_to_all(adj, r, u));
            assert(adj_edge(adj, u, v));
            assert forall|i: int| 0 <= i < r1.len() implies adj_edge(
                adj,
                #[trigger] r1[i],
                u,
            ) by {
                if i < r.len() {
                    assert(adj_edge(adj, r[i], u));
                } else {
                    assert(r1[i] == v);
                    assert(adj_edge(adj, v, u));
                }
            }
        }
        assert forall|k: int| 0 <= k < x1.len() implies (#[trigger] x1[k]) < adj.len()
            && connected_to_all(adj, r1, x1[k]) by {
            x.lemma_filter_pred(pred, k);
            let u = x1[k];
            assert(x1.contains(u)) by {
                assert(x1[k] == u);
            }
            x.lemma_filter_contains_rev(pred, u);
            let ki = choose|ki: int| 0 <= ki < x.len() && x[ki] == u;
            assert(connected_to_all(adj, r, u));
            assert(adj_edge(adj, u, v));
            assert forall|i: int| 0 <= i < r1.len() implies adj_edge(
                adj,
                #[trigger] r1[i],
                u,
            ) by {
                if i < r.len() {
                    assert(adj_edge(adj, r[i], u));
                } else {
                    assert(adj_edge(adj, v, u));
                }
            }
        }
        assert forall|w: usize| (w as int) < adj.len() && connected_to_all(adj, r1, w) implies
            p1.contains(w) || x1.contains(w) by {
            assert(connected_to_all(adj, r, w)) by {
                assert(forall|i: int| 0 <= i < r.len() ==> r1[i] == #[trigger] r[i]);
            }
            assert(adj_edge(adj, v, w)) by {
                assert(adj_edge(adj, r1[r.len() as int], w));
            }
            assert(adj_edge(adj, w, v));
            assert(p.contains(w) || x.contains(w));
            if p.contains(w) {
                let k = choose|k: int| 0 <= k < p.len() && p[k] == w;
                if k == 0 {
                    assert(w == v);
                    assert(!adj_edge(adj, v, v));
                    assert(false);
                } else {
                    assert(rest[k - 1] == w);
                    rest.lemma_filter_contains(pred, k - 1);
                    assert(p1.contains(w));
                }
            } else {
                let k = choose|k: int| 0 <= k < x.len() && x[k] == w;
                x.lemma_filter_contains(pred, k);
                assert(x1.contains(w));
            }
        }
        lemma_bk_spec_cliques(adj, floor, r1, p1, x1);

        // The sibling state keeps the invariant.
        let x2 = x.push(v);
        assert forall|k: int| 0 <= k < rest.len() implies (#[trigger] rest[k]) < adj.len()
            && connected_to_all(adj, r, rest[k]) by {
            assert(rest[k] == p[k + 1]);
        }
        assert forall|k: int| 0 <= k < x2.len() implies (#[trigger] x2[k]) < adj.len()
            && connected_to_all(adj, r, x2[k]) by {
            if k < x.len() {
                assert(x2[k] == x[k]);
            } else {
                assert(x2[k] == v);
            }
        }
        assert forall|w: usize| (w as int) < adj.len() && connected_to_all(adj, r, w) implies
            rest.contains(w) || x2.contains(w) by {
            assert(p.contains(w) || x.contains(w));
            if p.contains(w) {
                let k = choose|k: int| 0 <= k < p.len() && p[k] == w;
                if k == 0 {
                    assert(x2[x.len() as int] == v);
                    assert(x2.contains(w));
                } else {
                    assert(rest[k - 1] == w);
                    assert(rest.contains(w));
                }
            } else {
                let k = choose|k: int| 0 <= k < x.len() && x[k] == w;
                assert(x2[k] == w);
                assert(x2.contains(w));
            }
        }
        lemma_bk_spec_cliques(adj, floor, r, rest, x2);

        let bk1 = bk_spec(adj, floor, r1, p1, x1);
        let bk2 = bk_spec(adj, floor, r, rest, x2);
        assert(bk_spec(adj, floor, r, p, x) == bk1 + bk2);
        assert forall|k: int| 0 <= k < bk_spec(adj, floor, r, p, x).len() implies {
            let c = #[trigger] bk_spec(adj, floor, r, p, x)[k];
            &&& is_clique(adj, c)
            &&& nodes_in_bounds(adj, c)
            &&& c.len() >= floor
            &&& is_maximal(adj, c)
        } by {
            if k < bk1.len() {
                assert(bk_spec(adj, floor, r, p, x)[k] == bk1[k]);
            } else {
                assert(bk_spec(adj, floor, r, p, x)[k] == bk2[k - bk1.len()]);
            }
        }
    }
}

/// Every clique `find_cliques` reports is a maximal clique of the graph with
/// at least `floor` vertices.
pub proof fn lemma_find_cliques_properties(adj: Seq<Seq<bool>>, floor: int, cap: int)
    requires
        adj_wf(adj),
    ensures
        forall|k: int|
            0 <= k < find_cliques_spec(adj, floor, cap).len() ==> {
                let c = #[trigger] find_cliques_spec(adj, floor, cap)[k];
                &&& is_clique(adj, c)
                &&& nodes_in_bounds(adj, c)
                &&& c.len() >= floor
                &&& is_maximal(adj, c)
            },
        find_cliques_spec(adj, floor, cap).len() <= cap || cap < 0,
{
    let p0 = all_indices(adj.len() as int);
    assert(nodes_in_bounds(adj, p0));
    assert forall|v: usize| (v as int) < adj.len() && connected_to_all(
        adj,
        Seq::<usize>::empty(),
        v,
    ) implies p0.contains(v) || Seq::<usize>::empty().contains(v) by {
        assert(p0[v as int] == v);
    }
    lemma_bk_spec_cliques(adj, floor, Seq::empty(), p0, Seq::empty());
    let full = bk_spec(adj, floor, Seq::empty(), p0, Seq::empty());
    assert forall|k: int| 0 <= k < find_cliques_spec(adj, floor, cap).len() implies {
        let c = #[trigger] find_cliques_spec(adj, floor, cap)[k];
        &&& is_clique(adj, c)
        &&& nodes_in_bounds(adj, c)
        &&& c.len() >= floor
        &&& is_maximal(adj, c)
    } by {
        assert(find_cliques_spec(adj, floor, cap)[k] == full[k]);
    }
}

/// The node indices are strictly increasing.
pub open spec fn ascending(s: Seq<usize>) -> bool {
    forall|i: int, j: int| 0 <= i < j < s.len() ==> (#[trigger] s[i]) < (#[trigger] s[j])
}

/// Every element of `r` comes before every element of `p`.
pub open spec fn below_all(r: Seq<usize>, p: Seq<usize>) -> bool {
    forall|i: int, j: int|
        0 <= i < r.len() && 0 <= j < p.len() ==> (#[trigger] r[i]) < (#[trigger] p[j])
}

proof fn lemma_filter_keeps_ascending(s: Seq<usize>, pred: spec_fn(usize) -> bool)
    requires
        ascending(s),
    ensures
        ascending(s.filter(pred)),
    decreases s.len(),
{
    reveal(Seq::filter);
    if s.len() > 0 {
        let d = s.drop_last();
        assert(ascending(d)) by {
            assert(forall|i: int, j: int|
                0 <= i < j < d.len() ==> (#[trigger] d[i]) < (#[trigger] d[j]));
        }
        lemma_filter_keeps_ascending(d, pred);
        if pred(s.last()) {
            let out = d.filter(pred).push(s.last());
            assert forall|i: int, j: int|
                0 <= i < j < out.len() implies (#[trigger] out[i]) < (#[trigger] out[j]) by {
                if j == out.len() - 1 {
                    assert(d.filter(pred).contains(out[i])) by {
                        assert(d.filter(pred)[i] == out[i]);
                    }
                    d.lemma_filter_contains_rev(pred, out[i]);
                    let t = choose|t: int| 0 <= t < d.len() && d[t] == out[i];
                    assert(s[t] < s.last());
                }
            }
        }
    }
}

/// From an ascending state, every reported clique lists its nodes in
/// ascending order: the enumerator walks candidates in node order and only
/// ever extends the clique upward.
proof fn lemma_bk_spec_ascending(
    adj: Seq<Seq<bool>>,
    floor: int,
    r: Seq<usize>,
    p: Seq<usize>,
    x: Seq<usize>,
)
    requires
        ascending(r),
        ascending(p),
        below_all(r, p),
    ensures
        forall|k: int|
            0 <= k < bk_spec(adj, floor, r, p, x).len() ==> ascending(
                #[trigger] bk_spec(adj, floor, r, p, x)[k],
            ),
    decreases p.len(),
{
    if p.len() == 0 {
    } else {
        let v = p[0];
        let rest = p.drop_first();
        let pred = |u: usize| adj_edge(adj, u, v);
        let r1 = r.push(v);
        let p1 = rest.filter(pred);
        let x1 = x.filter(pred);

        assert(ascending(rest)) by {
            assert(forall|i: int, j: int|
                0 <= i < j < rest.len() ==> (#[trigger] rest[i]) < (#[trigger] rest[j]));
        }
        assert(ascending(r1)) by {
            assert forall|i: int, j: int|
                0 <= i < j < r1.len() implies (#[trigger] r1[i]) < (#[trigger] r1[j]) by {
                if j == r.len() {
                    assert(r[i] < p[0]);
                }
            }
        }
        lemma_filter_keeps_ascending(rest, pred);
        assert(below_all(r1, p1)) by {
            assert forall|i: int, j: int|
                0 <= i < r1.len() && 0 <= j < p1.len() implies (#[trigger] r1[i]) < (
                #[trigger] p1[j]) by {
                assert(rest.filter(pred).contains(p1[j])) by {
                    assert(rest.filter(pred)[j] == p1[j]);
                }
                rest.lemma_filter_contains_rev(pred, p1[j]);
                let t = choose|t: int| 0 <= t < rest.len() && rest[t] == p1[j];
                assert(rest[t] == p[t + 1]);
                assert(p[0] < p[t + 1]);
                if i < r.len() {
                    assert(r[i] < p[t + 1]);
                }
            }
        }
        lemma_bk_spec_ascending(adj, floor, r1, p1, x1);

        assert(below_all(r, rest)) by {
            assert forall|i: int, j: int|
                0 <= i < r.len() && 0 <= j < rest.len() implies (#[trigger] r[i]) < (
                #[trigger] rest[j]) by {
                assert(rest[j] == p[j + 1]);
            }
        }
        lemma_bk_spec_ascending(adj, floor, r, rest, x.push(v));

        let bk1 = bk_spec(adj, floor, r1, p1, x1);
        let bk2 = bk_spec(adj, floor, r, rest, x.push(v));
        assert(bk_spec(adj, floor, r, p, x) == bk1 + bk2);
        assert forall|k: int| 0 <= k < bk_spec(adj, floor, r, p, x).len() implies ascending(
            #[trigger] bk_spec(adj, floor, r, p, x)[k],
        ) by {
            if k < bk1.len() {
                assert(bk_spec(adj, floor, r, p, x)[k] == bk1[k]);
            } else {
                assert(bk_spec(adj, floor, r, p, x)[k] == bk2[k - bk1.len()]);
            }
        }
    }
}

/// Every clique `find_cliques` reports lists its nodes in ascending order.
pub proof fn lemma_find_cliques_ascending(adj: Seq<Seq<bool>>, floor: int, cap: int)
    requires
        adj.len() <= usize::MAX,
    ensures
        forall|k: int|
            0 <= k < find_cliques_spec(adj, floor, cap).len() ==> ascending(
                #[trigger] find_cliques_spec(adj, floor, cap)[k],
            ),
{
    let p0 = all_indices(adj.len() as int);
    assert(ascending(p0)) by {
        assert forall|i: int, j: int|
            0 <= i < j < p0.len() implies (#[trigger] p0[i]) < (#[trigger] p0[j]) by {
            assert(p0[i] == i as usize);
            assert(p0[j] == j as usize);
        }
    }
    lemma_bk_spec_ascending(adj, floor, Seq::empty(), p0, Seq::empty());
    let full = bk_spec(adj, floor, Seq::empty(), p0, Seq::empty());
    assert forall|k: int| 0 <= k < find_cliques_spec(adj, floor, cap).len() implies ascending(
        #[trigger] find_cliques_spec(adj, floor, cap)[k],
    ) by {
        assert(find_cliques_spec(adj, floor, cap)[k] == full[k]);
    }
}

/// All node indices of the graph, ascending.
pub open spec fn all_indices(n: int) -> Seq<usize> {
    Seq::new(n as nat, |i: int| i as usize)
}

/// What `find_cliques` returns: the Bron-Kerbosch stream started from the
/// whole node set, cut off at the cap.
pub open spec fn find_cliques_spec(adj: Seq<Seq<bool>>, floor: int, cap: int) -> Seq<Seq<usize>> {
    take_at_most(
        bk_spec(adj, floor, Seq::empty(), all_indices(adj.len() as int), Seq::empty()),
        cap,
    )
}

/// Enumerates the maximal cliques of the graph with at least `floor`
/// vertices, in deterministic order, at most `cap` of them.
pub fn find_cliques(adj: &Vec<Vec<bool>>, floor: usize, cap: usize) -> (r: Vec<Vec<usize>>)
    requires
        adj_wf(adj.deep_view()),
    ensures
        r.deep_view() == find_cliques_spec(adj.deep_view(), floor as int, cap as int),
        r@.len() <= cap,
{
    let n = adj.len();
    let mut p: Vec<usize> = Vec::new();
    let mut i: usize = 0;
    while i < n
        invariant
            0 <= i <= n,
            n == adj@.len(),
            p@ =~= all_indices(i as int),
        decreases n - i,
    {
        p.push(i);
        proof {
            assert(p@ =~= all_indices(i as int + 1));
        }
        i = i + 1;
    }
    let r: Vec<usize> = Vec::new();
    let x: Vec<usize> = Vec::new();
    let mut cliques: Vec<Vec<usize>> = Vec::new();
    bron_kerbosch(adj, &r, &p, &x, floor, cap, &mut cliques);
    proof {
        assert(cliques.deep_view() =~= find_cliques_spec(adj.deep_view(), floor as int, cap as int));
    }
    cliques
}

} // verus!
