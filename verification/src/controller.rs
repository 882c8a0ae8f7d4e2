//! The request controller: validates the request, runs the engine over the
//! fetched catalog, accumulates diagnostic messages in event order, and
//! shapes the response.
//!
//! Stages: validate the minimum, report requested subjects missing from the
//! catalog, report requested-subject offerings dropped as malformed, group
//! candidates, gate on the professor filter, build the compatibility graph,
//! enumerate maximal cliques, assemble schedules (with the single-offering
//! fallback), project the simplified view, and mirror the status.

use vstd::prelude::*;
use crate::model::{Offering, OfferingV};
use crate::text::{trim_all, dedup_spec, dedup_names, join_comma, join_comma_spec};
use crate::grouper::{
    requested_keys_spec, requested_keys, missing_subjects_spec, missing_subjects,
    missing_professors_spec, missing_professors, candidates_spec, dropped_spec, trimmed,
    select_candidates,
};
use crate::graph::{adjacency_spec, build_adjacency, lemma_adj_matches_wf,
    lemma_adj_matches_is_adjacency};
use crate::cliques::{find_cliques_spec, find_cliques, nodes_in_bounds,
    lemma_find_cliques_properties};
use crate::assembler::{
    assemble_spec, assemble, opt_keys_view, fallback_spec, fallback_schedules,
};
use crate::projector::{ScheduleGroup, ScheduleGroupV, project_spec, simplify_schedules};
use crate::numfmt::{dec_spec, int_dec_spec, usize_string, i32_string};

verus! {

/// The most schedules a response carries.
pub const MAX_SCHEDULES: usize = 100;

/// The request body: desired subjects, a floor on schedule size, and an
/// optional professor filter.
#[derive(Debug, PartialEq, Eq)]
pub struct GenerateScheduleRequest {
    pub courses: Vec<String>,
    pub minimum: usize,
    pub professors: Option<Vec<String>>,
}

#[verifier::ext_equal]
pub struct RequestV {
    pub courses: Seq<Seq<char>>,
    pub minimum: int,
    pub professors: Option<Seq<Seq<char>>>,
}

impl View for GenerateScheduleRequest {
    type V = RequestV;

    open spec fn view(&self) -> RequestV {
        RequestV {
            courses: self.courses.deep_view(),
            minimum: self.minimum as int,
            professors: match self.professors {
                Some(ref ps) => Some(ps.deep_view()),
                None => None,
            },
        }
    }
}

/// The response body: a mirrored status, the detailed schedules, the
/// simplified view, and the accumulated messages.
#[derive(Debug, PartialEq, Eq)]
pub struct ResponseData {
    pub status: u16,
    pub compatible_schedules: Vec<Vec<Offering>>,
    pub simplified_schedules: Vec<ScheduleGroup>,
    pub messages: Vec<String>,
}

#[verifier::ext_equal]
pub struct ResponseDataV {
    pub status: int,
    pub compatible_schedules: Seq<Seq<OfferingV>>,
    pub simplified_schedules: Seq<ScheduleGroupV>,
    pub messages: Seq<Seq<char>>,
}

impl View for ResponseData {
    type V = ResponseDataV;

    open spec fn view(&self) -> ResponseDataV {
        ResponseDataV {
            status: self.status as int,
            compatible_schedules: self.compatible_schedules.deep_view(),
            simplified_schedules: self.simplified_schedules.deep_view(),
            messages: self.messages.deep_view(),
        }
    }
}

/// The floor on reported clique size: at least one, at least the minimum.
pub open spec fn floor_spec(m: int) -> int {
    if m <= 1 {
        1
    } else {
        m
    }
}

/// The professor filter normalized to its distinct trimmed names.
pub open spec fn profs_keys_spec(profs: Option<Seq<Seq<char>>>) -> Option<Seq<Seq<char>>> {
    match profs {
        Some(ps) => Some(dedup_spec(trimmed(ps))),
        None => None,
    }
}

/// The schedules the assembler yields before any fallback.
pub open spec fn assembled_spec(
    catalog: Seq<OfferingV>,
    names: Seq<Seq<char>>,
    profs: Option<Seq<Seq<char>>>,
    m: int,
    cap: int,
) -> Seq<Seq<OfferingV>> {
    let cands = candidates_spec(catalog, names);
    assemble_spec(
        find_cliques_spec(adjacency_spec(cands), floor_spec(m), cap),
        cands,
        requested_keys_spec(names),
        profs_keys_spec(profs),
        m,
        names.len() as int,
    )
}

/// What `create_compatible_schedules` returns: nothing when a requested
/// professor teaches no candidate; otherwise the assembled schedules, or
/// the single-offering fallback when none were assembled and the floor
/// allows size one.
pub open spec fn compatible_schedules_spec(
    catalog: Seq<OfferingV>,
    names: Seq<Seq<char>>,
    profs: Option<Seq<Seq<char>>>,
    m: int,
    cap: int,
) -> Seq<Seq<OfferingV>> {
    let cands = candidates_spec(catalog, names);
    let missing_p = match profs {
        Some(ps) => missing_professors_spec(cands, ps),
        None => Seq::empty(),
    };
    if missing_p.len() > 0 {
        Seq::empty()
    } else {
        let assembled = assembled_spec(catalog, names, profs, m, cap);
        if assembled.len() == 0 && m <= 1 {
            fallback_spec(cands, cap)
        } else {
            assembled
        }
    }
}

/// Enumerates the sets of offerings that can be taken together, under a
/// caller-supplied cap: candidates of the requested subjects, pairwise
/// non-conflicting, one per subject, maximal, at least `max(minimum, 1)`
/// strong, with the fallback and the professor-filter gate described by
/// `compatible_schedules_spec`.
pub fn create_compatible_schedules_capped(
    all_courses: &Vec<Offering>,
    course_names: &Vec<String>,
    professors: &Option<Vec<String>>,
    minimum: usize,
    cap: usize,
) -> (r: Vec<Vec<Offering>>)
    ensures
        r.deep_view() == compatible_schedules_spec(
            all_courses.deep_view(),
            course_names.deep_view(),
            opt_keys_view(*professors),
            minimum as int,
            cap as int,
        ),
{
    let ghost cdv = all_courses.deep_view();
    let ghost ndv = course_names.deep_view();
    let (cands, _dropped) = select_candidates(all_courses, course_names);
    let keys = requested_keys(course_names);
    let missing_p_empty: bool = match professors {
        Some(ps) => {
            let mp = missing_professors(&cands, ps);
            mp.len() == 0
        },
        None => true,
    };
    if !missing_p_empty {
        let r: Vec<Vec<Offering>> = Vec::new();
        proof {
            assert(r.deep_view() =~= compatible_schedules_spec(
                cdv,
                ndv,
                opt_keys_view(*professors),
                minimum as int,
                cap as int,
            ));
        }
        return r;
    }
    let pkeys: Option<Vec<String>> = match professors {
        Some(ps) => {
            let t = trim_all(ps);
            Some(dedup_names(&t))
        },
        None => None,
    };
    proof {
        assert(opt_keys_view(pkeys) == profs_keys_spec(opt_keys_view(*professors)));
    }
    let adj = build_adjacency(&cands);
    proof {
        lemma_adj_matches_wf(adj.deep_view(), cands.deep_view());
        lemma_adj_matches_is_adjacency(adj.deep_view(), cands.deep_view());
    }
    let floor: usize = if minimum <= 1 {
        1
    } else {
        minimum
    };
    let cliques = find_cliques(&adj, floor, cap);
    proof {
        lemma_find_cliques_properties(adj.deep_view(), floor as int, cap as int);
        assert forall|t: int, k: int|
            0 <= t < cliques@.len() && 0 <= k < (#[trigger] cliques@[t])@.len() implies (#[trigger] cliques@[t]@[k]) < cands@.len() by {
            assert(cliques.deep_view()[t] == cliques@[t]@);
            assert(nodes_in_bounds(adj.deep_view(), cliques.deep_view()[t]));
            assert(cliques@[t]@[k] < adj.deep_view().len());
        }
    }
    let assembled = assemble(&cliques, &cands, &keys, &pkeys, minimum, course_names.len());
    if assembled.len() == 0 && minimum <= 1 {
        fallback_schedules(&cands, cap)
    } else {
        assembled
    }
}

/// Enumerates the compatible schedules with the default cap.
pub fn create_compatible_schedules(
    all_courses: &Vec<Offering>,
    course_names: &Vec<String>,
    professors: &Option<Vec<String>>,
    minimum: usize,
) -> (r: Vec<Vec<Offering>>)
    ensures
        r.deep_view() == compatible_schedules_spec(
            all_courses.deep_view(),
            course_names.deep_view(),
            opt_keys_view(*professors),
            minimum as int,
            MAX_SCHEDULES as int,
        ),
{
    create_compatible_schedules_capped(all_courses, course_names, professors, minimum, MAX_SCHEDULES)
}

/// The message mirrored with status 400 when the floor exceeds the number
/// of requested subjects.
pub open spec fn invalid_minimum_message(m: int, n: int) -> Seq<char> {
    "Minimum number of courses ("@ + dec_spec(m)
        + ") cannot be greater than the number of requested courses ("@ + dec_spec(n) + ")."@
}

fn invalid_minimum_string(m: usize, n: usize) -> (r: String)
    ensures
        r@ == invalid_minimum_message(m as int, n as int),
{
    let mut r = String::new();
    r.append("Minimum number of courses (");
    let ms = usize_string(m);
    r.append(ms.as_str());
    r.append(") cannot be greater than the number of requested courses (");
    let ns = usize_string(n);
    r.append(ns.as_str());
    r.append(").");
    proof {
        assert(r@ =~= invalid_minimum_message(m as int, n as int));
    }
    r
}

pub open spec fn subjects_not_found_message(missing: Seq<Seq<char>>) -> Seq<char> {
    "Subjects not found: "@ + join_comma_spec(missing)
}

fn subjects_not_found_string(missing: &Vec<String>) -> (r: String)
    ensures
        r@ == subjects_not_found_message(missing.deep_view()),
{
    let mut r = String::new();
    r.append("Subjects not found: ");
    let j = join_comma(missing);
    r.append(j.as_str());
    proof {
        assert(r@ =~= subjects_not_found_message(missing.deep_view()));
    }
    r
}

/// The diagnostic recorded for a requested-subject offering whose meeting
/// times do not parse or overlap each other.
pub open spec fn dropped_message(id: int) -> Seq<char> {
    "Offering "@ + int_dec_spec(id) + " skipped: invalid meeting times."@
}

fn dropped_string(id: i32) -> (r: String)
    ensures
        r@ == dropped_message(id as int),
{
    let mut r = String::new();
    r.append("Offering ");
    let ids = i32_string(id);
    r.append(ids.as_str());
    r.append(" skipped: invalid meeting times.");
    proof {
        assert(r@ =~= dropped_message(id as int));
    }
    r
}

pub open spec fn professors_not_found_message(missing: Seq<Seq<char>>) -> Seq<char> {
    "Professors not found teaching the selected courses: "@ + join_comma_spec(missing)
}

fn professors_not_found_string(missing: &Vec<String>) -> (r: String)
    ensures
        r@ == professors_not_found_message(missing.deep_view()),
{
    let mut r = String::new();
    r.append("Professors not found teaching the selected courses: ");
    let j = join_comma(missing);
    r.append(j.as_str());
    proof {
        assert(r@ =~= professors_not_found_message(missing.deep_view()));
    }
    r
}

pub open spec fn truncated_message(cap: int) -> Seq<char> {
    "Results truncated to "@ + dec_spec(cap) + " schedules."@
}

fn truncated_string(cap: usize) -> (r: String)
    ensures
        r@ == truncated_message(cap as int),
{
    let mut r = String::new();
    r.append("Results truncated to ");
    let cs = usize_string(cap);
    r.append(cs.as_str());
    r.append(" schedules.");
    proof {
        assert(r@ =~= truncated_message(cap as int));
    }
    r
}

/// One diagnostic per dropped offering, in catalog order.
pub open spec fn dropped_messages(dropped: Seq<OfferingV>) -> Seq<Seq<char>> {
    Seq::new(dropped.len(), |i: int| dropped_message(dropped[i].id))
}

/// The messages of a successful response, in event order: missing subjects,
/// dropped offerings, then the professor gate or the outcome, then
/// truncation.
pub open spec fn messages_spec(req: RequestV, catalog: Seq<OfferingV>, cap: int) -> Seq<
    Seq<char>,
> {
    let missing_s = missing_subjects_spec(catalog, req.courses);
    let keys = requested_keys_spec(req.courses);
    let cands = candidates_spec(catalog, req.courses);
    let dropped = dropped_spec(catalog, keys);
    let missing_p = match req.professors {
        Some(ps) => missing_professors_spec(cands, ps),
        None => Seq::empty(),
    };
    let assembled = assembled_spec(catalog, req.courses, req.professors, req.minimum, cap);
    let schedules = compatible_schedules_spec(
        catalog,
        req.courses,
        req.professors,
        req.minimum,
        cap,
    );
    let base = (if missing_s.len() > 0 {
        seq![subjects_not_found_message(missing_s)]
    } else {
        Seq::empty()
    }) + dropped_messages(dropped);
    let with_outcome = if missing_p.len() > 0 {
        base.push(professors_not_found_message(missing_p))
    } else if assembled.len() == 0 && req.minimum <= 1 && cands.len() > 0 {
        base.push("No combinations possible, showing individual courses."@)
    } else if schedules.len() == 0 {
        base.push("No combinations possible with the given criteria."@)
    } else {
        base
    };
    if schedules.len() == cap {
        with_outcome.push(truncated_message(cap))
    } else {
        with_outcome
    }
}

/// The whole response, a pure function of the request and the catalog.
pub open spec fn response_spec(req: RequestV, catalog: Seq<OfferingV>, cap: int) -> ResponseDataV {
    if req.minimum > req.courses.len() {
        ResponseDataV {
            status: 400,
            compatible_schedules: Seq::empty(),
            simplified_schedules: Seq::empty(),
            messages: seq![invalid_minimum_message(req.minimum, req.courses.len() as int)],
        }
    } else {
        let schedules = compatible_schedules_spec(
            catalog,
            req.courses,
            req.professors,
            req.minimum,
            cap,
        );
        ResponseDataV {
            status: 200,
            compatible_schedules: schedules,
            simplified_schedules: project_spec(schedules),
            messages: messages_spec(req, catalog, cap),
        }
    }
}

/// Runs a request against a fetched catalog under a caller-supplied cap:
/// the compute part of the endpoint, between the catalog fetch and the
/// transport reply.
pub fn generate_schedule_capped(req: &GenerateScheduleRequest, catalog: &Vec<Offering>, cap: usize) -> (r:
    ResponseData)
    ensures
        r@ == response_spec(req@, catalog.deep_view(), cap as int),
{
    let ghost cdv = catalog.deep_view();
    if req.minimum > req.courses.len() {
        let mut messages: Vec<String> = Vec::new();
        messages.push(invalid_minimum_string(req.minimum, req.courses.len()));
        let r = ResponseData {
            status: 400,
            compatible_schedules: Vec::new(),
            simplified_schedules: Vec::new(),
            messages,
        };
        proof {
            assert(r@ =~= response_spec(req@, cdv, cap as int));
        }
        return r;
    }
    let missing_s = missing_subjects(catalog, &req.courses);
    let keys = requested_keys(&req.courses);
    let (cands, dropped_ids) = select_candidates(catalog, &req.courses);
    let ghost dropped = dropped_spec(cdv, requested_keys_spec(req@.courses));

    let ghost part1_spec = if missing_subjects_spec(cdv, req@.courses).len() > 0 {
        seq![subjects_not_found_message(missing_subjects_spec(cdv, req@.courses))]
    } else {
        Seq::<Seq<char>>::empty()
    };
    let mut messages: Vec<String> = Vec::new();
    if missing_s.len() > 0 {
        let ghost prev = messages.deep_view();
        messages.push(subjects_not_found_string(&missing_s));
        proof {
            assert(messages.deep_view() =~= part1_spec);
        }
    } else {
        proof {
            assert(messages.deep_view() =~= part1_spec);
        }
    }
    let ghost part1 = messages.deep_view();
    let mut di: usize = 0;
    while di < dropped_ids.len()
        invariant
            0 <= di <= dropped_ids@.len(),
            dropped_ids@.len() == dropped.len(),
            forall|k: int|
                0 <= k < dropped_ids@.len() ==> dropped_ids@[k] as int == dropped[k].id,
            messages.deep_view() =~= part1 + dropped_messages(dropped).take(di as int),
        decreases dropped_ids@.len() - di,
    {
        let ghost prev = messages.deep_view();
        messages.push(dropped_string(dropped_ids[di]));
        proof {
            assert(messages.deep_view() =~= prev.push(dropped_message(dropped[di as int].id)));
            assert(messages.deep_view() =~= part1 + dropped_messages(dropped).take(di as int + 1));
        }
        di = di + 1;
    }
    let ghost base = part1_spec + dropped_messages(dropped);
    proof {
        assert(dropped_messages(dropped).take(dropped.len() as int) =~= dropped_messages(dropped));
        assert(messages.deep_view() =~= base);
    }

    let missing_p: Vec<String> = match &req.professors {
        Some(ps) => missing_professors(&cands, ps),
        None => Vec::new(),
    };
    proof {
        match req@.professors {
            Some(ps) => {
                assert(missing_p.deep_view() == missing_professors_spec(cands.deep_view(), ps));
            },
            None => {
                assert(missing_p.deep_view() =~= Seq::<Seq<char>>::empty());
            },
        }
    }

    let schedules: Vec<Vec<Offering>>;
    if missing_p.len() > 0 {
        let ghost prev = messages.deep_view();
        messages.push(professors_not_found_string(&missing_p));
        schedules = Vec::new();
        proof {
            assert(messages.deep_view() =~= prev.push(
                professors_not_found_message(missing_p.deep_view()),
            ));
            assert(schedules.deep_view() =~= compatible_schedules_spec(
                cdv,
                req@.courses,
                req@.professors,
                req@.minimum,
                cap as int,
            ));
        }
    } else {
        let pkeys: Option<Vec<String>> = match &req.professors {
            Some(ps) => {
                let t = trim_all(ps);
                Some(dedup_names(&t))
            },
            None => None,
        };
        proof {
            assert(opt_keys_view(pkeys) == profs_keys_spec(req@.professors));
        }
        let adj = build_adjacency(&cands);
        proof {
            lemma_adj_matches_wf(adj.deep_view(), cands.deep_view());
            lemma_adj_matches_is_adjacency(adj.deep_view(), cands.deep_view());
        }
        let floor: usize = if req.minimum <= 1 {
            1
        } else {
            req.minimum
        };
        let cliques = find_cliques(&adj, floor, cap);
        proof {
            lemma_find_cliques_properties(adj.deep_view(), floor as int, cap as int);
            assert forall|t: int, k: int|
                0 <= t < cliques@.len() && 0 <= k < (#[trigger] cliques@[t])@.len() implies (#[trigger] cliques@[t]@[k]) < cands@.len() by {
                assert(cliques.deep_view()[t] == cliques@[t]@);
                assert(nodes_in_bounds(adj.deep_view(), cliques.deep_view()[t]));
                assert(cliques@[t]@[k] < adj.deep_view().len());
            }
        }
        let assembled = assemble(&cliques, &cands, &keys, &pkeys, req.minimum, req.courses.len());
        proof {
            assert(assembled.deep_view() == assembled_spec(
                cdv,
                req@.courses,
                req@.professors,
                req@.minimum,
                cap as int,
            ));
        }
        if assembled.len() == 0 && req.minimum <= 1 && cands.len() > 0 {
            let ghost prev = messages.deep_view();
            messages.push({
                let fb = "No combinations possible, showing individual courses.";
                fb.to_owned()
            });
            proof {
                assert(messages.deep_view() =~= prev.push(
                    "No combinations possible, showing individual courses."@,
                ));
            }
            schedules = fallback_schedules(&cands, cap);
        } else if assembled.len() == 0 {
            let ghost prev = messages.deep_view();
            messages.push({
                let nc = "No combinations possible with the given criteria.";
                nc.to_owned()
            });
            proof {
                assert(messages.deep_view() =~= prev.push(
                    "No combinations possible with the given criteria."@,
                ));
            }
            schedules = assembled;
            proof {
                if req@.minimum <= 1 {
                    assert(cands.deep_view().len() == 0);
                    assert(fallback_spec(cands.deep_view(), cap as int) =~= Seq::<
                        Seq<OfferingV>,
                    >::empty());
                }
            }
        } else {
            schedules = assembled;
        }
    }

    if schedules.len() == cap {
        let ghost prev = messages.deep_view();
        messages.push(truncated_string(cap));
        proof {
            assert(messages.deep_view() =~= prev.push(truncated_message(cap as int)));
        }
    }

    let simplified = simplify_schedules(&schedules);
    let r = ResponseData {
        status: 200,
        compatible_schedules: schedules,
        simplified_schedules: simplified,
        messages,
    };
    proof {
        assert(r@.messages =~= messages_spec(req@, cdv, cap as int));
        assert(r@ =~= response_spec(req@, cdv, cap as int));
    }
    r
}

/// Runs a request against a fetched catalog with the default cap.
pub fn generate_schedule(req: &GenerateScheduleRequest, catalog: &Vec<Offering>) -> (r:
    ResponseData)
    ensures
        r@ == response_spec(req@, catalog.deep_view(), MAX_SCHEDULES as int),
{
    generate_schedule_capped(req, catalog, MAX_SCHEDULES)
}

/// Shapes the error reply used when the catalog cannot be fetched or
/// parsed, or the time budget is exceeded: empty lists and one message.
pub fn error_response(status: u16, message: String) -> (r: ResponseData)
    ensures
        r@.status == status as int,
        r@.compatible_schedules == Seq::<Seq<OfferingV>>::empty(),
        r@.simplified_schedules == Seq::<ScheduleGroupV>::empty(),
        r@.messages == seq![message@],
{
    let mut messages: Vec<String> = Vec::new();
    let ghost mv = message@;
    messages.push(message);
    let r = ResponseData {
        status,
        compatible_schedules: Vec::new(),
        simplified_schedules: Vec::new(),
        messages,
    };
    proof {
        assert(r@.compatible_schedules =~= Seq::<Seq<OfferingV>>::empty());
        assert(r@.simplified_schedules =~= Seq::<ScheduleGroupV>::empty());
        assert(r@.messages =~= seq![mv]);
    }
    r
}

} // verus!
