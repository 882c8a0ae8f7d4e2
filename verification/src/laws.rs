//! The engine's quantified guarantees, proved over the response
//! specification: every returned schedule is feasible, one offering per
//! subject, at least `max(minimum, 1)` strong, maximal among the
//! candidates, closed over a professor filter, and the response is capped
//! and a pure function of its inputs.

use vstd::prelude::*;
use crate::model::{
    OfferingV, offerings_conflict, lemma_offerings_conflict_symmetric, professor_key,
};
use crate::text::{trim_spec, dedup_spec};
use crate::grouper::{
    candidates_spec, requested_keys_spec, missing_professors_spec, trimmed, cand_le, sorted_cands,
    lemma_candidates_sorted,
};
use crate::graph::{
    adjacency_spec, adj_edge, edge_spec, lemma_adjacency_spec_matches, lemma_adj_matches_wf,
};
use crate::cliques::{
    find_cliques_spec, is_clique, is_maximal, connected_to_all, nodes_in_bounds, ascending,
    lemma_find_cliques_properties, lemma_find_cliques_ascending,
};
use crate::assembler::{
    sched_of, keeps, professors_covered, lemma_assemble_len, lemma_assemble_from_clique,
    fallback_spec,
};
use crate::controller::{
    compatible_schedules_spec, assembled_spec, response_spec, floor_spec, profs_keys_spec,
    RequestV, ResponseDataV,
};
use crate::grouper::professor_present_spec;

verus! {

/// No two offerings of the schedule conflict.
pub open spec fn schedule_feasible(s: Seq<OfferingV>) -> bool {
    forall|i: int, j: int|
        0 <= i < s.len() && 0 <= j < s.len() && i != j ==> !offerings_conflict(
            #[trigger] s[i],
            #[trigger] s[j],
        )
}

/// The offerings of the schedule carry pairwise distinct subject ids.
pub open spec fn schedule_subjects_unique(s: Seq<OfferingV>) -> bool {
    forall|i: int, j: int|
        0 <= i < s.len() && 0 <= j < s.len() && i != j ==> (#[trigger] s[i]).subject.id != (
        #[trigger] s[j]).subject.id
}

/// The schedule blocks an offering from joining it: the offering already
/// stands in it, or repeats the subject of a member, or conflicts with
/// one.
pub open spec fn blocked(s: Seq<OfferingV>, o: OfferingV) -> bool {
    exists|i: int|
        0 <= i < s.len() && ((#[trigger] s[i]) == o || s[i].subject.id == o.subject.id
            || offerings_conflict(o, s[i]))
}

/// No candidate can join the schedule: each either already stands in it,
/// or repeats a subject, or conflicts with a member.
pub open spec fn schedule_maximal(cands: Seq<OfferingV>, s: Seq<OfferingV>) -> bool {
    forall|v: int| 0 <= v < cands.len() ==> blocked(s, #[trigger] cands[v])
}

/// Each listed professor name, trimmed, is the primary professor of some
/// offering of the schedule.
pub open spec fn schedule_covers_professors(s: Seq<OfferingV>, ps: Seq<Seq<char>>) -> bool {
    forall|p: int|
        0 <= p < ps.len() ==> professor_present_spec(s, trim_spec(#[trigger] ps[p]))
}

proof fn lemma_dedup_membership(s: Seq<Seq<char>>, e: Seq<char>)
    ensures
        dedup_spec(s).contains(e) == s.contains(e),
    decreases s.len(),
{
    if s.len() == 0 {
    } else {
        let d = dedup_spec(s.drop_last());
        lemma_dedup_membership(s.drop_last(), e);
        if dedup_spec(s).contains(e) {
            let k = choose|k: int|
                0 <= k < dedup_spec(s).len() && dedup_spec(s)[k] == e;
            if d.contains(s.last()) {
                assert(d[k] == e);
                assert(d.contains(e));
            } else {
                if k < d.len() {
                    assert(d[k] == e);
                    assert(d.contains(e));
                } else {
                    assert(e == s.last());
                    assert(s[s.len() - 1] == e);
                }
            }
            if d.contains(e) {
                let j = choose|j: int| 0 <= j < d.len() && d[j] == e;
                assert(s.drop_last().contains(e));
                let j2 = choose|j2: int|
                    0 <= j2 < s.drop_last().len() && s.drop_last()[j2] == e;
                assert(s[j2] == e);
            }
            assert(s.contains(e));
        }
        if s.contains(e) {
            let k = choose|k: int| 0 <= k < s.len() && s[k] == e;
            if k < s.len() - 1 {
                assert(s.drop_last()[k] == e);
                assert(s.drop_last().contains(e));
                assert(d.contains(e));
                let j = choose|j: int| 0 <= j < d.len() && d[j] == e;
                if d.contains(s.last()) {
                    assert(dedup_spec(s)[j] == e);
                } else {
                    assert(dedup_spec(s)[j] == e);
                }
                assert(dedup_spec(s).contains(e));
            } else {
                assert(e == s.last());
                if d.contains(s.last()) {
                    let j = choose|j: int| 0 <= j < d.len() && d[j] == s.last();
                    assert(s.drop_last().contains(e)) by {
                        assert(d.contains(e));
                    }
                    assert(dedup_spec(s).contains(e)) by {
                        assert(dedup_spec(s)[j] == e);
                    }
                } else {
                    assert(dedup_spec(s)[d.len() as int] == e);
                    assert(dedup_spec(s).contains(e));
                }
            }
        }
    }
}

/// Every schedule the assembler yields is a maximal clique's image: its
/// offerings are candidates, pairwise compatible and subject-distinct, it
/// reaches the floor, nothing can join it, and it passed the coverage
/// checks.
proof fn lemma_assembled_schedule_props(
    catalog: Seq<OfferingV>,
    names: Seq<Seq<char>>,
    profs: Option<Seq<Seq<char>>>,
    m: int,
    cap: int,
    k: int,
)
    requires
        0 <= k < assembled_spec(catalog, names, profs, m, cap).len(),
    ensures
        ({
            let s = assembled_spec(catalog, names, profs, m, cap)[k];
            &&& s.len() >= floor_spec(m)
            &&& schedule_feasible(s)
            &&& schedule_subjects_unique(s)
            &&& (profs matches Some(ps) ==> professors_covered(s, dedup_spec(trimmed(ps))))
        }),
{
    let cands = candidates_spec(catalog, names);
    let adj = adjacency_spec(cands);
    let floor = floor_spec(m);
    lemma_adjacency_spec_matches(cands);
    lemma_adj_matches_wf(adj, cands);
    let cliques = find_cliques_spec(adj, floor, cap);
    lemma_find_cliques_properties(adj, floor, cap);
    lemma_assemble_from_clique(
        cliques,
        cands,
        requested_keys_spec(names),
        profs_keys_spec(profs),
        m,
        names.len() as int,
        k,
    );
    let s = assembled_spec(catalog, names, profs, m, cap)[k];
    let t = choose|t: int|
        0 <= t < cliques.len() && s == sched_of(cands, #[trigger] cliques[t]) && keeps(
            sched_of(cands, cliques[t]),
            requested_keys_spec(names),
            profs_keys_spec(profs),
            m,
            names.len() as int,
        );
    let c = cliques[t];
    assert(is_clique(adj, c));
    assert(nodes_in_bounds(adj, c));
    assert(c.len() >= floor);
    assert(is_maximal(adj, c));
    assert(s.len() == c.len());

    assert forall|i: int, j: int|
        0 <= i < s.len() && 0 <= j < s.len() && i != j implies !offerings_conflict(
        #[trigger] s[i],
        #[trigger] s[j],
    ) && s[i].subject.id != s[j].subject.id by {
        let (a, b): (int, int) = if i < j {
            (i, j)
        } else {
            (j, i)
        };
        assert(adj_edge(adj, c[a], c[b]));
        assert(edge_spec(cands, c[a] as int, c[b] as int));
        assert(s[a] == cands[c[a] as int]);
        assert(s[b] == cands[c[b] as int]);
        lemma_offerings_conflict_symmetric(s[a], s[b]);
    }

}

/// Every schedule the assembler yields is maximal: no candidate can join
/// it without breaking feasibility or subject uniqueness.
proof fn lemma_assembled_schedule_maximal(
    catalog: Seq<OfferingV>,
    names: Seq<Seq<char>>,
    profs: Option<Seq<Seq<char>>>,
    m: int,
    cap: int,
    k: int,
)
    requires
        0 <= k < assembled_spec(catalog, names, profs, m, cap).len(),
        candidates_spec(catalog, names).len() <= usize::MAX,
    ensures
        schedule_maximal(
            candidates_spec(catalog, names),
            assembled_spec(catalog, names, profs, m, cap)[k],
        ),
{
    let cands = candidates_spec(catalog, names);
    let adj = adjacency_spec(cands);
    let floor = floor_spec(m);
    lemma_adjacency_spec_matches(cands);
    lemma_adj_matches_wf(adj, cands);
    let cliques = find_cliques_spec(adj, floor, cap);
    lemma_find_cliques_properties(adj, floor, cap);
    lemma_assemble_from_clique(
        cliques,
        cands,
        requested_keys_spec(names),
        profs_keys_spec(profs),
        m,
        names.len() as int,
        k,
    );
    let s = assembled_spec(catalog, names, profs, m, cap)[k];
    let t = choose|t: int|
        0 <= t < cliques.len() && s == sched_of(cands, #[trigger] cliques[t]) && keeps(
            sched_of(cands, cliques[t]),
            requested_keys_spec(names),
            profs_keys_spec(profs),
            m,
            names.len() as int,
        );
    let c = cliques[t];
    assert(nodes_in_bounds(adj, c));
    assert(is_maximal(adj, c));
    assert(s.len() == c.len());

    assert forall|v: int| 0 <= v < cands.len() implies blocked(s, #[trigger] cands[v]) by {
        let u = v as usize;
        assert(u as int == v);
        assert((u as int) < adj.len());
        assert(!connected_to_all(adj, c, u));
        let i = choose|i: int| 0 <= i < c.len() && !adj_edge(adj, #[trigger] c[i], u);
        assert(!adj[c[i] as int][u as int]);
        assert(!edge_spec(cands, c[i] as int, v));
        assert(s[i] == cands[c[i] as int]);
        if c[i] as int == v {
            assert(0 <= i < s.len() && s[i] == cands[v]);
        } else if cands[c[i] as int].subject.id == cands[v].subject.id {
            assert(0 <= i < s.len() && s[i].subject.id == cands[v].subject.id);
        } else {
            assert(offerings_conflict(cands[c[i] as int], cands[v]));
            lemma_offerings_conflict_symmetric(cands[v], s[i]);
            assert(0 <= i < s.len() && offerings_conflict(cands[v], s[i]));
        }
        assert(blocked(s, cands[v]));
    }
}

/// Feasibility, subject uniqueness, the size floor and the cap: every
/// schedule of the response is conflict-free with one offering per subject
/// and at least `max(minimum, 1)` offerings, and at most `cap` schedules
/// are returned.
pub proof fn lemma_response_schedules_sound(req: RequestV, catalog: Seq<OfferingV>, cap: int)
    requires
        cap >= 0,
    ensures
        response_spec(req, catalog, cap).compatible_schedules.len() <= cap,
        forall|k: int|
            0 <= k < response_spec(req, catalog, cap).compatible_schedules.len() ==> {
                let s = #[trigger] response_spec(req, catalog, cap).compatible_schedules[k];
                &&& s.len() >= floor_spec(req.minimum)
                &&& schedule_feasible(s)
                &&& schedule_subjects_unique(s)
            },
{
    if req.minimum > req.courses.len() {
    } else {
        let schedules = compatible_schedules_spec(
            catalog,
            req.courses,
            req.professors,
            req.minimum,
            cap,
        );
        let cands = candidates_spec(catalog, req.courses);
        let missing_p = match req.professors {
            Some(ps) => missing_professors_spec(cands, ps),
            None => Seq::<Seq<char>>::empty(),
        };
        if missing_p.len() > 0 {
        } else {
            let assembled = assembled_spec(catalog, req.courses, req.professors, req.minimum, cap);
            if assembled.len() == 0 && req.minimum <= 1 {
                assert(schedules == fallback_spec(cands, cap));
                assert(schedules.len() <= cap);
                assert forall|k: int| 0 <= k < schedules.len() implies {
                    let s = #[trigger] schedules[k];
                    &&& s.len() >= floor_spec(req.minimum)
                    &&& schedule_feasible(s)
                    &&& schedule_subjects_unique(s)
                } by {
                    assert(schedules[k] == seq![cands[k]]);
                    assert(schedules[k].len() == 1);
                }
            } else {
                let adj = adjacency_spec(cands);
                lemma_adjacency_spec_matches(cands);
                lemma_adj_matches_wf(adj, cands);
                lemma_find_cliques_properties(adj, floor_spec(req.minimum), cap);
                lemma_assemble_len(
                    find_cliques_spec(adj, floor_spec(req.minimum), cap),
                    cands,
                    requested_keys_spec(req.courses),
                    profs_keys_spec(req.professors),
                    req.minimum,
                    req.courses.len() as int,
                );
                assert(schedules.len() <= cap);
                assert forall|k: int| 0 <= k < schedules.len() implies {
                    let s = #[trigger] schedules[k];
                    &&& s.len() >= floor_spec(req.minimum)
                    &&& schedule_feasible(s)
                    &&& schedule_subjects_unique(s)
                } by {
                    lemma_assembled_schedule_props(
                        catalog,
                        req.courses,
                        req.professors,
                        req.minimum,
                        cap,
                        k,
                    );
                }
            }
        }
    }
}

/// The fallback of one schedule per offering did not engage: either the
/// assembler yielded something, or the floor forbids singletons, or there
/// was nothing to fall back to, or the professor gate already failed.
pub open spec fn no_fallback(req: RequestV, catalog: Seq<OfferingV>, cap: int) -> bool {
    ||| assembled_spec(catalog, req.courses, req.professors, req.minimum, cap).len() > 0
    ||| req.minimum > 1
    ||| candidates_spec(catalog, req.courses).len() == 0
    ||| (match req.professors {
        Some(ps) => missing_professors_spec(candidates_spec(catalog, req.courses), ps).len() > 0,
        None => false,
    })
}

/// Maximality: unless the single-offering fallback engaged, no candidate
/// offering can be added to a returned schedule without breaking
/// feasibility or subject uniqueness.
pub proof fn lemma_response_schedules_maximal(req: RequestV, catalog: Seq<OfferingV>, cap: int)
    requires
        cap >= 0,
        no_fallback(req, catalog, cap),
        candidates_spec(catalog, req.courses).len() <= usize::MAX,
    ensures
        forall|k: int|
            0 <= k < response_spec(req, catalog, cap).compatible_schedules.len()
                ==> schedule_maximal(
                candidates_spec(catalog, req.courses),
                #[trigger] response_spec(req, catalog, cap).compatible_schedules[k],
            ),
{
    if req.minimum > req.courses.len() {
    } else {
        let schedules = compatible_schedules_spec(
            catalog,
            req.courses,
            req.professors,
            req.minimum,
            cap,
        );
        let cands = candidates_spec(catalog, req.courses);
        let missing_p = match req.professors {
            Some(ps) => missing_professors_spec(cands, ps),
            None => Seq::<Seq<char>>::empty(),
        };
        if missing_p.len() > 0 {
        } else {
            let assembled = assembled_spec(catalog, req.courses, req.professors, req.minimum, cap);
            if assembled.len() == 0 && req.minimum <= 1 {
                assert(cands.len() == 0);
                assert(fallback_spec(cands, cap) =~= Seq::<Seq<OfferingV>>::empty());
            } else {
                assert forall|k: int| 0 <= k < schedules.len() implies schedule_maximal(
                    cands,
                    #[trigger] schedules[k],
                ) by {
                    lemma_assembled_schedule_maximal(
                        catalog,
                        req.courses,
                        req.professors,
                        req.minimum,
                        cap,
                        k,
                    );
                }
            }
        }
    }
}

/// Professor closure: when a filter is set and the fallback did not
/// engage, every returned schedule includes, for each requested professor
/// name, an offering whose primary professor carries that trimmed name.
pub proof fn lemma_response_professor_closure(req: RequestV, catalog: Seq<OfferingV>, cap: int)
    requires
        cap >= 0,
        req.professors is Some,
        no_fallback(req, catalog, cap),
    ensures
        forall|k: int|
            0 <= k < response_spec(req, catalog, cap).compatible_schedules.len() ==> (match req
                .professors {
                Some(ps) => schedule_covers_professors(
                    #[trigger] response_spec(req, catalog, cap).compatible_schedules[k],
                    ps,
                ),
                None => true,
            }),
{
    if req.minimum > req.courses.len() {
    } else {
        let schedules = compatible_schedules_spec(
            catalog,
            req.courses,
            req.professors,
            req.minimum,
            cap,
        );
        let cands = candidates_spec(catalog, req.courses);
        let ps = match req.professors {
            Some(ps) => ps,
            None => Seq::<Seq<char>>::empty(),
        };
        let missing_p = missing_professors_spec(cands, ps);
        if missing_p.len() > 0 {
        } else {
            let assembled = assembled_spec(catalog, req.courses, req.professors, req.minimum, cap);
            if assembled.len() == 0 && req.minimum <= 1 {
                assert(cands.len() == 0);
                assert(fallback_spec(cands, cap) =~= Seq::<Seq<OfferingV>>::empty());
            } else {
                assert forall|k: int| 0 <= k < schedules.len() implies schedule_covers_professors(
                    #[trigger] schedules[k],
                    ps,
                ) by {
                    lemma_assembled_schedule_props(
                        catalog,
                        req.courses,
                        req.professors,
                        req.minimum,
                        cap,
                        k,
                    );
                    let s = schedules[k];
                    let pkeys = dedup_spec(trimmed(ps));
                    assert(professors_covered(s, pkeys));
                    assert forall|p: int| 0 <= p < ps.len() implies professor_present_spec(
                        s,
                        trim_spec(#[trigger] ps[p]),
                    ) by {
                        assert(trimmed(ps)[p] == trim_spec(ps[p]));
                        assert(trimmed(ps).contains(trim_spec(ps[p])));
                        lemma_dedup_membership(trimmed(ps), trim_spec(ps[p]));
                        let j = choose|j: int| 0 <= j < pkeys.len() && pkeys[j] == trim_spec(ps[p]);
                        assert(professor_present_spec(s, pkeys[j]));
                    }
                }
            }
        }
    }
}

/// Every schedule the assembler yields lists its offerings in candidate
/// order.
proof fn lemma_assembled_schedule_ordered(
    catalog: Seq<OfferingV>,
    names: Seq<Seq<char>>,
    profs: Option<Seq<Seq<char>>>,
    m: int,
    cap: int,
    k: int,
)
    requires
        0 <= k < assembled_spec(catalog, names, profs, m, cap).len(),
        candidates_spec(catalog, names).len() <= usize::MAX,
    ensures
        sorted_cands(assembled_spec(catalog, names, profs, m, cap)[k]),
{
    let cands = candidates_spec(catalog, names);
    let adj = adjacency_spec(cands);
    let floor = floor_spec(m);
    lemma_adjacency_spec_matches(cands);
    lemma_adj_matches_wf(adj, cands);
    let cliques = find_cliques_spec(adj, floor, cap);
    lemma_find_cliques_properties(adj, floor, cap);
    lemma_find_cliques_ascending(adj, floor, cap);
    lemma_candidates_sorted(catalog, names);
    lemma_assemble_from_clique(
        cliques,
        cands,
        requested_keys_spec(names),
        profs_keys_spec(profs),
        m,
        names.len() as int,
        k,
    );
    let s = assembled_spec(catalog, names, profs, m, cap)[k];
    let t = choose|t: int|
        0 <= t < cliques.len() && s == sched_of(cands, #[trigger] cliques[t]) && keeps(
            sched_of(cands, cliques[t]),
            requested_keys_spec(names),
            profs_keys_spec(profs),
            m,
            names.len() as int,
        );
    let c = cliques[t];
    assert(ascending(c));
    assert(nodes_in_bounds(adj, c));
    assert forall|i: int, j: int|
        0 <= i < j < s.len() implies cand_le(#[trigger] s[i], #[trigger] s[j]) by {
        assert(c[i] < c[j]);
        assert(s[i] == cands[c[i] as int]);
        assert(s[j] == cands[c[j] as int]);
    }
}

/// Ordering: every returned schedule lists its offerings by trimmed
/// subject name ascending, then offering id.
pub proof fn lemma_response_schedules_ordered(req: RequestV, catalog: Seq<OfferingV>, cap: int)
    requires
        cap >= 0,
        candidates_spec(catalog, req.courses).len() <= usize::MAX,
    ensures
        forall|k: int|
            0 <= k < response_spec(req, catalog, cap).compatible_schedules.len() ==> sorted_cands(
                #[trigger] response_spec(req, catalog, cap).compatible_schedules[k],
            ),
{
    if req.minimum > req.courses.len() {
    } else {
        let schedules = compatible_schedules_spec(
            catalog,
            req.courses,
            req.professors,
            req.minimum,
            cap,
        );
        let cands = candidates_spec(catalog, req.courses);
        let missing_p = match req.professors {
            Some(ps) => missing_professors_spec(cands, ps),
            None => Seq::<Seq<char>>::empty(),
        };
        if missing_p.len() > 0 {
        } else {
            let assembled = assembled_spec(catalog, req.courses, req.professors, req.minimum, cap);
            if assembled.len() == 0 && req.minimum <= 1 {
                assert forall|k: int| 0 <= k < schedules.len() implies sorted_cands(
                    #[trigger] schedules[k],
                ) by {
                    assert(schedules[k] == seq![cands[k]]);
                    assert(schedules[k].len() == 1);
                }
            } else {
                assert forall|k: int| 0 <= k < schedules.len() implies sorted_cands(
                    #[trigger] schedules[k],
                ) by {
                    lemma_assembled_schedule_ordered(
                        catalog,
                        req.courses,
                        req.professors,
                        req.minimum,
                        cap,
                        k,
                    );
                }
            }
        }
    }
}

/// Determinism: the response is a pure function of the request and the
/// catalog, so two runs on identical input return identical detailed and
/// simplified schedules and messages.
pub proof fn lemma_response_deterministic(
    req: RequestV,
    catalog: Seq<OfferingV>,
    cap: int,
    r1: ResponseDataV,
    r2: ResponseDataV,
)
    requires
        r1 == response_spec(req, catalog, cap),
        r2 == response_spec(req, catalog, cap),
    ensures
        r1 == r2,
        r1.compatible_schedules == r2.compatible_schedules,
        r1.simplified_schedules == r2.simplified_schedules,
        r1.messages == r2.messages,
{
}

} // verus!
