//! Compatibility graph over candidate offerings.
//!
//! Nodes are the candidates, by position; an edge joins two candidates iff
//! they belong to different subjects and no pair of their weekly slots
//! overlaps.  The graph is kept as a dense adjacency matrix.

use vstd::prelude::*;
use crate::model::{Offering, OfferingV, offerings_conflict, courses_overlap};
use crate::model::lemma_offerings_conflict_symmetric;

verus! {

/// Edge rule: distinct candidates, different subject ids, no slot overlap.
pub open spec fn edge_spec(cands: Seq<OfferingV>, u: int, v: int) -> bool {
    &&& 0 <= u < cands.len()
    &&& 0 <= v < cands.len()
    &&& u != v
    &&& cands[u].subject.id != cands[v].subject.id
    &&& !offerings_conflict(cands[u], cands[v])
}

pub proof fn lemma_edge_spec_symmetric(cands: Seq<OfferingV>, u: int, v: int)
    ensures
        edge_spec(cands, u, v) == edge_spec(cands, v, u),
{
    if 0 <= u < cands.len() && 0 <= v < cands.len() {
        lemma_offerings_conflict_symmetric(cands[u], cands[v]);
    }
}

/// A well-formed adjacency matrix: square, irreflexive, symmetric.
pub open spec fn adj_wf(adj: Seq<Seq<bool>>) -> bool {
    &&& forall|i: int| 0 <= i < adj.len() ==> (#[trigger] adj[i]).len() == adj.len()
    &&& forall|i: int| 0 <= i < adj.len() ==> !(#[trigger] adj[i][i])
    &&& forall|i: int, j: int|
        0 <= i < adj.len() && 0 <= j < adj.len() ==> #[trigger] adj[i][j] == #[trigger] adj[j][i]
}

/// The edge relation an adjacency matrix encodes.
pub open spec fn adj_edge(adj: Seq<Seq<bool>>, u: usize, v: usize) -> bool {
    (u as int) < adj.len() && (v as int) < adj.len() && adj[u as int][v as int]
}

/// The matrix whose entries follow the edge rule over the candidates.
pub open spec fn adj_matches(adj: Seq<Seq<bool>>, cands: Seq<OfferingV>) -> bool {
    &&& adj.len() == cands.len()
    &&& forall|i: int| 0 <= i < adj.len() ==> (#[trigger] adj[i]).len() == adj.len()
    &&& forall|i: int, j: int|
        0 <= i < adj.len() && 0 <= j < adj.len() ==> #[trigger] adj[i][j] == edge_spec(
            cands,
            i,
            j,
        )
}

pub proof fn lemma_adj_matches_wf(adj: Seq<Seq<bool>>, cands: Seq<OfferingV>)
    requires
        adj_matches(adj, cands),
    ensures
        adj_wf(adj),
{
    assert forall|i: int, j: int|
        0 <= i < adj.len() && 0 <= j < adj.len() implies #[trigger] adj[i][j]
        == #[trigger] adj[j][i] by {
        lemma_edge_spec_symmetric(cands, i, j);
    }
}

/// The adjacency matrix of the candidate pool, as a value.
pub open spec fn adjacency_spec(cands: Seq<OfferingV>) -> Seq<Seq<bool>> {
    Seq::new(cands.len(), |i: int| Seq::new(cands.len(), |j: int| edge_spec(cands, i, j)))
}

pub proof fn lemma_adjacency_spec_matches(cands: Seq<OfferingV>)
    ensures
        adj_matches(adjacency_spec(cands), cands),
{
}

pub proof fn lemma_adj_matches_is_adjacency(adj: Seq<Seq<bool>>, cands: Seq<OfferingV>)
    requires
        adj_matches(adj, cands),
    ensures
        adj == adjacency_spec(cands),
{
    assert(adj =~~= adjacency_spec(cands));
}

/// Builds the compatibility graph of the candidate pool as an adjacency
/// matrix.
pub fn build_adjacency(cands: &Vec<Offering>) -> (adj: Vec<Vec<bool>>)
    ensures
        adj_matches(adj.deep_view(), cands.deep_view()),
{
    let n = cands.len();
    let mut adj: Vec<Vec<bool>> = Vec::new();
    let mut i: usize = 0;
    while i < n
        invariant
            0 <= i <= n,
            n == cands@.len(),
            adj@.len() == i,
            forall|a: int| 0 <= a < i ==> (#[trigger] adj.deep_view()[a]).len() == n,
            forall|a: int, b: int|
                0 <= a < i && 0 <= b < n ==> #[trigger] adj.deep_view()[a][b] == edge_spec(
                    cands.deep_view(),
                    a,
                    b,
                ),
        decreases n - i,
    {
        let mut row: Vec<bool> = Vec::new();
        let mut j: usize = 0;
        while j < n
            invariant
                0 <= j <= n,
                0 <= i < n,
                n == cands@.len(),
                row@.len() == j,
                forall|b: int|
                    0 <= b < j ==> row@[b] == edge_spec(cands.deep_view(), i as int, b),
            decreases n - j,
        {
            let connected: bool = if i == j {
                false
            } else if cands[i].subject.id == cands[j].subject.id {
                false
            } else {
                !courses_overlap(&cands[i], &cands[j])
            };
            proof {
                assert(cands.deep_view()[i as int] == cands@[i as int]@);
                assert(cands.deep_view()[j as int] == cands@[j as int]@);
            }
            row.push(connected);
            j = j + 1;
        }
        let ghost prev_dv = adj.deep_view();
        adj.push(row);
        proof {
            assert forall|a: int| 0 <= a < i implies #[trigger] adj.deep_view()[a]
                == prev_dv[a] by {
                assert(adj@[a] == adj@.drop_last()[a]);
            }
            assert(adj.deep_view()[i as int] =~= row@);
            assert forall|b: int| 0 <= b < n implies #[trigger] adj.deep_view()[i as int][b]
                == edge_spec(cands.deep_view(), i as int, b) by {
                assert(row@[b] == edge_spec(cands.deep_view(), i as int, b));
            }
        }
        i = i + 1;
    }
    adj
}

} // verus!
