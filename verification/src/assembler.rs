//! Schedule assembly: resolves each maximal clique back to its offerings,
//! applies the subject-coverage and professor-coverage requirements,
//! deduplicates by the tuple of offering ids, and provides the fallback of
//! one schedule per candidate offering.

use vstd::prelude::*;
use crate::model::{Offering, OfferingV};
use crate::grouper::{subject_present_spec, professor_present_spec, subject_present,
    professor_present};

verus! {

/// The schedule a clique names: its offerings, in clique order.
pub open spec fn sched_of(cands: Seq<OfferingV>, c: Seq<usize>) -> Seq<OfferingV> {
    Seq::new(c.len(), |i: int| cands[c[i] as int])
}

/// Every requested subject key appears on some offering of the schedule.
pub open spec fn covers_subjects(sched: Seq<OfferingV>, keys: Seq<Seq<char>>) -> bool {
    forall|k: int| 0 <= k < keys.len() ==> subject_present_spec(sched, #[trigger] keys[k])
}

/// Every requested professor is the primary professor of some offering of
/// the schedule.
pub open spec fn professors_covered(sched: Seq<OfferingV>, ps: Seq<Seq<char>>) -> bool {
    forall|k: int| 0 <= k < ps.len() ==> professor_present_spec(sched, #[trigger] ps[k])
}

/// The tuple of offering ids a schedule is deduplicated by.
pub open spec fn ids_of(s: Seq<OfferingV>) -> Seq<int> {
    Seq::new(s.len(), |i: int| s[i].id)
}

/// Some earlier schedule carries the same id tuple.
pub open spec fn dup_in(prev: Seq<Seq<OfferingV>>, sched: Seq<OfferingV>) -> bool {
    exists|k: int| 0 <= k < prev.len() && ids_of(#[trigger] prev[k]) == ids_of(sched)
}

/// Whether the assembler keeps a schedule: subject coverage is required
/// exactly when the floor equals the number of requested subjects, and
/// professor coverage exactly when a filter was given.
pub open spec fn keeps(
    sched: Seq<OfferingV>,
    keys: Seq<Seq<char>>,
    pkeys: Option<Seq<Seq<char>>>,
    m: int,
    ncourses: int,
) -> bool {
    &&& (m == ncourses ==> covers_subjects(sched, keys))
    &&& (pkeys matches Some(ps) ==> professors_covered(sched, ps))
}

/// The schedules assembled from the cliques, in clique order.
pub open spec fn assemble_spec(
    cliques: Seq<Seq<usize>>,
    cands: Seq<OfferingV>,
    keys: Seq<Seq<char>>,
    pkeys: Option<Seq<Seq<char>>>,
    m: int,
    ncourses: int,
) -> Seq<Seq<OfferingV>>
    decreases cliques.len(),
{
    if cliques.len() == 0 {
        Seq::empty()
    } else {
        let prev = assemble_spec(cliques.drop_last(), cands, keys, pkeys, m, ncourses);
        let sched = sched_of(cands, cliques.last());
        if keeps(sched, keys, pkeys, m, ncourses) && !dup_in(prev, sched) {
            prev.push(sched)
        } else {
            prev
        }
    }
}

pub proof fn lemma_assemble_len(
    cliques: Seq<Seq<usize>>,
    cands: Seq<OfferingV>,
    keys: Seq<Seq<char>>,
    pkeys: Option<Seq<Seq<char>>>,
    m: int,
    ncourses: int,
)
    ensures
        assemble_spec(cliques, cands, keys, pkeys, m, ncourses).len() <= cliques.len(),
    decreases cliques.len(),
{
    if cliques.len() > 0 {
        lemma_assemble_len(cliques.drop_last(), cands, keys, pkeys, m, ncourses);
    }
}

/// Every assembled schedule is one of the cliques, kept and not a
/// duplicate; the witness clique resolves to it.
pub proof fn lemma_assemble_from_clique(
    cliques: Seq<Seq<usize>>,
    cands: Seq<OfferingV>,
    keys: Seq<Seq<char>>,
    pkeys: Option<Seq<Seq<char>>>,
    m: int,
    ncourses: int,
    k: int,
)
    requires
        0 <= k < assemble_spec(cliques, cands, keys, pkeys, m, ncourses).len(),
    ensures
        exists|t: int|
            0 <= t < cliques.len() && assemble_spec(cliques, cands, keys, pkeys, m, ncourses)[k]
                == sched_of(cands, #[trigger] cliques[t]) && keeps(
                sched_of(cands, cliques[t]),
                keys,
                pkeys,
                m,
                ncourses,
            ),
    decreases cliques.len(),
{
    let out = assemble_spec(cliques, cands, keys, pkeys, m, ncourses);
    let prev = assemble_spec(cliques.drop_last(), cands, keys, pkeys, m, ncourses);
    if k < prev.len() {
        lemma_assemble_from_clique(cliques.drop_last(), cands, keys, pkeys, m, ncourses, k);
        let t = choose|t: int|
            0 <= t < cliques.drop_last().len() && prev[k] == sched_of(
                cands,
                #[trigger] cliques.drop_last()[t],
            ) && keeps(sched_of(cands, cliques.drop_last()[t]), keys, pkeys, m, ncourses);
        assert(cliques[t] == cliques.drop_last()[t]);
        assert(out[k] == sched_of(cands, cliques[t]));
    } else {
        let t = cliques.len() - 1;
        assert(out[k] == sched_of(cands, cliques[t]));
    }
}

fn vec_of_sched(cands: &Vec<Offering>, c: &Vec<usize>) -> (r: Vec<Offering>)
    requires
        forall|k: int| 0 <= k < c@.len() ==> (#[trigger] c@[k]) < cands@.len(),
    ensures
        r.deep_view() == sched_of(cands.deep_view(), c@),
{
    let mut r: Vec<Offering> = Vec::new();
    let mut i: usize = 0;
    while i < c.len()
        invariant
            0 <= i <= c@.len(),
            forall|k: int| 0 <= k < c@.len() ==> (#[trigger] c@[k]) < cands@.len(),
            r.deep_view() =~= sched_of(cands.deep_view(), c@.take(i as int)),
        decreases c@.len() - i,
    {
        let ghost prev = r.deep_view();
        r.push(cands[c[i]].clone());
        proof {
            assert(r.deep_view() =~= prev.push(cands.deep_view()[c@[i as int] as int]));
            assert(r.deep_view() =~= sched_of(cands.deep_view(), c@.take(i as int + 1)));
        }
        i = i + 1;
    }
    proof {
        assert(c@.take(c@.len() as int) =~= c@);
    }
    r
}

fn covers_subjects_exec(sched: &Vec<Offering>, keys: &Vec<String>) -> (r: bool)
    ensures
        r == covers_subjects(sched.deep_view(), keys.deep_view()),
{
    let mut i: usize = 0;
    while i < keys.len()
        invariant
            0 <= i <= keys@.len(),
            forall|k: int|
                0 <= k < i ==> subject_present_spec(
                    sched.deep_view(),
                    #[trigger] keys.deep_view()[k],
                ),
        decreases keys@.len() - i,
    {
        if !subject_present(sched, keys[i].as_str()) {
            proof {
                assert(!subject_present_spec(sched.deep_view(), keys.deep_view()[i as int]));
            }
            return false;
        }
        i = i + 1;
    }
    true
}

fn professors_covered_exec(sched: &Vec<Offering>, ps: &Vec<String>) -> (r: bool)
    ensures
        r == professors_covered(sched.deep_view(), ps.deep_view()),
{
    let mut i: usize = 0;
    while i < ps.len()
        invariant
            0 <= i <= ps@.len(),
            forall|k: int|
                0 <= k < i ==> professor_present_spec(
                    sched.deep_view(),
                    #[trigger] ps.deep_view()[k],
                ),
        decreases ps@.len() - i,
    {
        if !professor_present(sched, ps[i].as_str()) {
            proof {
                assert(!professor_present_spec(sched.deep_view(), ps.deep_view()[i as int]));
            }
            return false;
        }
        i = i + 1;
    }
    true
}

fn ids_equal(a: &Vec<Offering>, b: &Vec<Offering>) -> (r: bool)
    ensures
        r == (ids_of(a.deep_view()) == ids_of(b.deep_view())),
{
    if a.len() != b.len() {
        proof {
            assert(ids_of(a.deep_view()).len() != ids_of(b.deep_view()).len());
        }
        return false;
    }
    let mut i: usize = 0;
    while i < a.len()
        invariant
            0 <= i <= a@.len(),
            a@.len() == b@.len(),
            forall|k: int| 0 <= k < i ==> ids_of(a.deep_view())[k] == ids_of(b.deep_view())[k],
        decreases a@.len() - i,
    {
        if a[i].id != b[i].id {
            proof {
                assert(ids_of(a.deep_view())[i as int] != ids_of(b.deep_view())[i as int]);
            }
            return false;
        }
        proof {
            assert(ids_of(a.deep_view())[i as int] == ids_of(b.deep_view())[i as int]);
        }
        i = i + 1;
    }
    proof {
        assert(ids_of(a.deep_view()) =~= ids_of(b.deep_view()));
    }
    true
}

fn is_dup(results: &Vec<Vec<Offering>>, sched: &Vec<Offering>) -> (r: bool)
    ensures
        r == dup_in(results.deep_view(), sched.deep_view()),
{
    let mut i: usize = 0;
    while i < results.len()
        invariant
            0 <= i <= results@.len(),
            forall|k: int|
                0 <= k < i ==> ids_of(#[trigger] results.deep_view()[k]) != ids_of(
                    sched.deep_view(),
                ),
        decreases results@.len() - i,
    {
        if ids_equal(&results[i], sched) {
            proof {
                assert(ids_of(results.deep_view()[i as int]) == ids_of(sched.deep_view()));
            }
            return true;
        }
        i = i + 1;
    }
    proof {
        if dup_in(results.deep_view(), sched.deep_view()) {
            let k = choose|k: int|
                0 <= k < results.deep_view().len() && ids_of(#[trigger] results.deep_view()[k])
                    == ids_of(sched.deep_view());
            assert(ids_of(results.deep_view()[k]) != ids_of(sched.deep_view()));
        }
    }
    false
}

/// The professor filter, trimmed and deduplicated, when one was given.
pub open spec fn opt_keys_view(o: Option<Vec<String>>) -> Option<Seq<Seq<char>>> {
    match o {
        Some(v) => Some(v.deep_view()),
        None => None,
    }
}

/// Turns the enumerated cliques into schedules: resolves offerings, applies
/// the coverage requirements, and deduplicates by the id tuple.
pub fn assemble(
    cliques: &Vec<Vec<usize>>,
    cands: &Vec<Offering>,
    keys: &Vec<String>,
    pkeys: &Option<Vec<String>>,
    m: usize,
    ncourses: usize,
) -> (r: Vec<Vec<Offering>>)
    requires
        forall|t: int, k: int|
            0 <= t < cliques@.len() && 0 <= k < (#[trigger] cliques@[t])@.len() ==> (#[trigger] cliques@[t]@[k]) < cands@.len(),
    ensures
        r.deep_view() == assemble_spec(
            cliques.deep_view(),
            cands.deep_view(),
            keys.deep_view(),
            opt_keys_view(*pkeys),
            m as int,
            ncourses as int,
        ),
{
    let ghost qdv = cliques.deep_view();
    let ghost pk = opt_keys_view(*pkeys);
    let mut results: Vec<Vec<Offering>> = Vec::new();
    let mut t: usize = 0;
    while t < cliques.len()
        invariant
            0 <= t <= cliques@.len(),
            qdv == cliques.deep_view(),
            pk == opt_keys_view(*pkeys),
            forall|a: int, k: int|
                0 <= a < cliques@.len() && 0 <= k < (#[trigger] cliques@[a])@.len() ==> (#[trigger] cliques@[a]@[k]) < cands@.len(),
            results.deep_view() == assemble_spec(
                qdv.take(t as int),
                cands.deep_view(),
                keys.deep_view(),
                pk,
                m as int,
                ncourses as int,
            ),
        decreases cliques@.len() - t,
    {
        proof {
            assert(qdv.take(t as int + 1).drop_last() =~= qdv.take(t as int));
            assert(qdv.take(t as int + 1).last() == qdv[t as int]);
            assert(qdv[t as int] == cliques@[t as int]@);
        }
        let sched = vec_of_sched(cands, &cliques[t]);
        let mut keep: bool = true;
        if m == ncourses {
            keep = covers_subjects_exec(&sched, keys);
        }
        if keep {
            match pkeys {
                Some(ps) => {
                    keep = professors_covered_exec(&sched, ps);
                },
                None => {},
            }
        }
        if keep {
            if !is_dup(&results, &sched) {
                let ghost prev = results.deep_view();
                results.push(sched);
                proof {
                    assert(results.deep_view() =~= prev.push(
                        sched_of(cands.deep_view(), qdv[t as int]),
                    ));
                }
            }
        }
        t = t + 1;
    }
    proof {
        assert(qdv.take(cliques@.len() as int) =~= qdv);
    }
    results
}

/// The fallback: one schedule per candidate offering, in candidate order,
/// at most `cap` of them.
pub open spec fn fallback_spec(cands: Seq<OfferingV>, cap: int) -> Seq<Seq<OfferingV>> {
    let n = if cands.len() <= cap {
        cands.len() as int
    } else {
        cap
    };
    if n <= 0 {
        Seq::empty()
    } else {
        Seq::new(n as nat, |i: int| seq![cands[i]])
    }
}

/// One single-offering schedule per candidate, capped.
pub fn fallback_schedules(cands: &Vec<Offering>, cap: usize) -> (r: Vec<Vec<Offering>>)
    ensures
        r.deep_view() == fallback_spec(cands.deep_view(), cap as int),
{
    let n = if cands.len() <= cap {
        cands.len()
    } else {
        cap
    };
    let mut r: Vec<Vec<Offering>> = Vec::new();
    let mut i: usize = 0;
    while i < n
        invariant
            0 <= i <= n,
            n <= cands@.len(),
            n == if cands@.len() <= cap {
                cands@.len() as int
            } else {
                cap as int
            },
            r.deep_view() =~= fallback_spec(cands.deep_view(), cap as int).take(i as int),
        decreases n - i,
    {
        let mut one: Vec<Offering> = Vec::new();
        one.push(cands[i].clone());
        let ghost prev = r.deep_view();
        proof {
            assert(one.deep_view() =~= seq![cands.deep_view()[i as int]]);
        }
        r.push(one);
        proof {
            assert(r.deep_view() =~= prev.push(seq![cands.deep_view()[i as int]]));
            assert(r.deep_view() =~= fallback_spec(cands.deep_view(), cap as int).take(
                i as int + 1,
            ));
        }
        i = i + 1;
    }
    proof {
        assert(fallback_spec(cands.deep_view(), cap as int).take(n as int) =~= fallback_spec(
            cands.deep_view(),
            cap as int,
        ));
    }
    r
}

} // verus!
