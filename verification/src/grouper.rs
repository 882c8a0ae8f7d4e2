//! Candidate selection: filters the catalog to the requested subjects,
//! drops malformed offerings, deduplicates by offering id, and orders the
//! pool by trimmed subject name and then offering id.  Also reports the
//! requested subjects missing from the catalog and, when a professor filter
//! is given, the requested professors that teach no candidate offering.

use vstd::prelude::*;
use crate::model::{
    Offering, OfferingV, subject_key, professor_key, offering_valid, offering_is_valid,
};
use crate::text::{
    trim, trim_spec, trim_all, dedup_spec, dedup_names, names_contain, str_eq, str_lex_le,
    lex_lt,
};

verus! {

/// Every name trimmed, order and multiplicity kept.
pub open spec fn trimmed(names: Seq<Seq<char>>) -> Seq<Seq<char>> {
    names.map_values(|n: Seq<char>| trim_spec(n))
}

/// The distinct requested subject keys: trimmed names, first occurrences.
pub open spec fn requested_keys_spec(names: Seq<Seq<char>>) -> Seq<Seq<char>> {
    dedup_spec(trimmed(names))
}

/// The distinct requested subject keys, in request order.
pub fn requested_keys(names: &Vec<String>) -> (r: Vec<String>)
    ensures
        r.deep_view() == requested_keys_spec(names.deep_view()),
{
    let t = trim_all(names);
    dedup_names(&t)
}

/// Some catalog offering carries this subject key.
pub open spec fn subject_present_spec(catalog: Seq<OfferingV>, key: Seq<char>) -> bool {
    exists|i: int| 0 <= i < catalog.len() && subject_key(#[trigger] catalog[i]) == key
}

pub(crate) fn subject_present(catalog: &Vec<Offering>, key: &str) -> (r: bool)
    ensures
        r == subject_present_spec(catalog.deep_view(), key@),
{
    let mut i: usize = 0;
    while i < catalog.len()
        invariant
            0 <= i <= catalog@.len(),
            forall|k: int| 0 <= k < i ==> subject_key(#[trigger] catalog.deep_view()[k]) != key@,
        decreases catalog@.len() - i,
    {
        let t = trim(catalog[i].subject.name.as_str());
        if str_eq(t, key) {
            proof {
                assert(subject_key(catalog.deep_view()[i as int]) == key@);
            }
            return true;
        }
        i = i + 1;
    }
    proof {
        if subject_present_spec(catalog.deep_view(), key@) {
            let k = choose|k: int|
                0 <= k < catalog.deep_view().len() && subject_key(
                    #[trigger] catalog.deep_view()[k],
                ) == key@;
            assert(subject_key(catalog.deep_view()[k]) != key@);
        }
    }
    false
}

/// The keys among `keys` that no catalog offering carries, in order.
pub open spec fn missing_from(keys: Seq<Seq<char>>, catalog: Seq<OfferingV>) -> Seq<Seq<char>>
    decreases keys.len(),
{
    if keys.len() == 0 {
        Seq::empty()
    } else {
        let d = missing_from(keys.drop_last(), catalog);
        if !subject_present_spec(catalog, keys.last()) {
            d.push(keys.last())
        } else {
            d
        }
    }
}

/// The requested subjects absent from the catalog.
pub open spec fn missing_subjects_spec(catalog: Seq<OfferingV>, names: Seq<Seq<char>>) -> Seq<
    Seq<char>,
> {
    missing_from(requested_keys_spec(names), catalog)
}

/// The requested subject names (trimmed, first occurrences) that appear on
/// no catalog offering.
pub fn missing_subjects(catalog: &Vec<Offering>, names: &Vec<String>) -> (r: Vec<String>)
    ensures
        r.deep_view() == missing_subjects_spec(catalog.deep_view(), names.deep_view()),
{
    let keys = requested_keys(names);
    let mut r: Vec<String> = Vec::new();
    let mut i: usize = 0;
    while i < keys.len()
        invariant
            0 <= i <= keys@.len(),
            keys.deep_view() == requested_keys_spec(names.deep_view()),
            r.deep_view() == missing_from(keys.deep_view().take(i as int), catalog.deep_view()),
        decreases keys@.len() - i,
    {
        proof {
            assert(keys.deep_view().take(i as int + 1).drop_last() =~= keys.deep_view().take(
                i as int,
            ));
            assert(keys.deep_view().take(i as int + 1).last() == keys@[i as int]@);
        }
        if !subject_present(catalog, keys[i].as_str()) {
            let ghost prev = r.deep_view();
            r.push(keys[i].clone());
            proof {
                assert(r.deep_view() =~= prev.push(keys@[i as int]@));
            }
        }
        i = i + 1;
    }
    proof {
        assert(keys.deep_view().take(keys@.len() as int) =~= keys.deep_view());
    }
    r
}

/// Some offering of the pool already carries this id.
pub open spec fn has_id(s: Seq<OfferingV>, id: int) -> bool {
    exists|i: int| 0 <= i < s.len() && (#[trigger] s[i]).id == id
}

fn vec_has_id(v: &Vec<Offering>, id: i32) -> (r: bool)
    ensures
        r == has_id(v.deep_view(), id as int),
{
    let mut i: usize = 0;
    while i < v.len()
        invariant
            0 <= i <= v@.len(),
            forall|k: int| 0 <= k < i ==> (#[trigger] v.deep_view()[k]).id != id as int,
        decreases v@.len() - i,
    {
        if v[i].id == id {
            proof {
                assert(v.deep_view()[i as int].id == id as int);
            }
            return true;
        }
        i = i + 1;
    }
    proof {
        if has_id(v.deep_view(), id as int) {
            let k = choose|k: int|
                0 <= k < v.deep_view().len() && (#[trigger] v.deep_view()[k]).id == id as int;
            assert(v.deep_view()[k].id != id as int);
        }
    }
    false
}

/// The candidate pool before ordering: offerings of requested subjects,
/// well formed, first occurrence of each offering id.
pub open spec fn candidates_unsorted_spec(
    catalog: Seq<OfferingV>,
    keys: Seq<Seq<char>>,
) -> Seq<OfferingV>
    decreases catalog.len(),
{
    if catalog.len() == 0 {
        Seq::empty()
    } else {
        let d = candidates_unsorted_spec(catalog.drop_last(), keys);
        let x = catalog.last();
        if keys.contains(subject_key(x)) && offering_valid(x) && !has_id(d, x.id) {
            d.push(x)
        } else {
            d
        }
    }
}

/// The offerings of requested subjects that were dropped as malformed.
pub open spec fn dropped_spec(catalog: Seq<OfferingV>, keys: Seq<Seq<char>>) -> Seq<OfferingV>
    decreases catalog.len(),
{
    if catalog.len() == 0 {
        Seq::empty()
    } else {
        let d = dropped_spec(catalog.drop_last(), keys);
        let x = catalog.last();
        if keys.contains(subject_key(x)) && !offering_valid(x) {
            d.push(x)
        } else {
            d
        }
    }
}

/// Candidate order: trimmed subject name ascending, then offering id.
pub open spec fn cand_lt(a: OfferingV, b: OfferingV) -> bool {
    lex_lt(subject_key(a), subject_key(b)) || (subject_key(a) == subject_key(b) && a.id < b.id)
}

fn cand_lt_exec(a: &Offering, b: &Offering) -> (r: bool)
    ensures
        r == cand_lt(a@, b@),
{
    let ka = trim(a.subject.name.as_str());
    let kb = trim(b.subject.name.as_str());
    if str_eq(ka, kb) {
        a.id < b.id
    } else {
        str_lex_le(ka, kb)
    }
}

/// `x` inserted before the first element it does not come after.
pub open spec fn insert_sorted_spec(x: OfferingV, s: Seq<OfferingV>) -> Seq<OfferingV>
    decreases s.len(),
{
    if s.len() > 0 && cand_lt(s[0], x) {
        seq![s[0]] + insert_sorted_spec(x, s.drop_first())
    } else {
        seq![x] + s
    }
}

proof fn lemma_insert_at(x: OfferingV, s: Seq<OfferingV>, k: int)
    requires
        0 <= k <= s.len(),
        forall|j: int| 0 <= j < k ==> cand_lt(#[trigger] s[j], x),
        k < s.len() ==> !cand_lt(s[k], x),
    ensures
        insert_sorted_spec(x, s) == s.take(k) + seq![x] + s.skip(k),
    decreases k,
{
    if k == 0 {
        assert(insert_sorted_spec(x, s) =~= s.take(0) + seq![x] + s.skip(0));
    } else {
        assert(cand_lt(s[0], x));
        let d = s.drop_first();
        lemma_insert_at(x, d, k - 1);
        assert(insert_sorted_spec(x, s) == seq![s[0]] + (d.take(k - 1) + seq![x] + d.skip(k - 1)));
        assert(seq![s[0]] + (d.take(k - 1) + seq![x] + d.skip(k - 1)) =~= s.take(k) + seq![x]
            + s.skip(k));
    }
}

fn insert_cand(sorted: &Vec<Offering>, x: &Offering) -> (r: Vec<Offering>)
    ensures
        r.deep_view() == insert_sorted_spec(x@, sorted.deep_view()),
{
    let mut r: Vec<Offering> = Vec::new();
    let mut k: usize = 0;
    while k < sorted.len() && cand_lt_exec(&sorted[k], x)
        invariant
            0 <= k <= sorted@.len(),
            r.deep_view() =~= sorted.deep_view().take(k as int),
            forall|j: int| 0 <= j < k ==> cand_lt(#[trigger] sorted.deep_view()[j], x@),
        decreases sorted@.len() - k,
    {
        let ghost prev = r.deep_view();
        r.push(sorted[k].clone());
        proof {
            assert(r.deep_view() =~= prev.push(sorted.deep_view()[k as int]));
            assert(r.deep_view() =~= sorted.deep_view().take(k as int + 1));
        }
        k = k + 1;
    }
    let ghost k0 = k as int;
    let ghost prev = r.deep_view();
    r.push(x.clone());
    proof {
        assert(r.deep_view() =~= sorted.deep_view().take(k0) + seq![x@]);
    }
    let mut j: usize = k;
    while j < sorted.len()
        invariant
            0 <= k0 <= j <= sorted@.len(),
            forall|a: int| 0 <= a < k0 ==> cand_lt(#[trigger] sorted.deep_view()[a], x@),
            k0 < sorted@.len() ==> !cand_lt(sorted.deep_view()[k0], x@),
            r.deep_view() =~= sorted.deep_view().take(k0) + seq![x@] + sorted.deep_view().subrange(
                k0,
                j as int,
            ),
        decreases sorted@.len() - j,
    {
        let ghost prev2 = r.deep_view();
        r.push(sorted[j].clone());
        proof {
            assert(r.deep_view() =~= prev2.push(sorted.deep_view()[j as int]));
            assert(r.deep_view() =~= sorted.deep_view().take(k0) + seq![x@]
                + sorted.deep_view().subrange(k0, j as int + 1));
        }
        j = j + 1;
    }
    proof {
        lemma_insert_at(x@, sorted.deep_view(), k0);
        assert(sorted.deep_view().subrange(k0, sorted@.len() as int) =~= sorted.deep_view().skip(
            k0,
        ));
        assert(r.deep_view() =~= insert_sorted_spec(x@, sorted.deep_view()));
    }
    r
}

/// The pool in candidate order, by repeated insertion.
pub open spec fn sort_spec(s: Seq<OfferingV>) -> Seq<OfferingV>
    decreases s.len(),
{
    if s.len() == 0 {
        Seq::empty()
    } else {
        insert_sorted_spec(s.last(), sort_spec(s.drop_last()))
    }
}

/// The ordered candidate pool the engine works on.
pub open spec fn candidates_spec(catalog: Seq<OfferingV>, names: Seq<Seq<char>>) -> Seq<
    OfferingV,
> {
    sort_spec(candidates_unsorted_spec(catalog, requested_keys_spec(names)))
}

/// Selects and orders the candidate pool, and reports the ids of the
/// requested-subject offerings dropped as malformed, in catalog order.
pub fn select_candidates(catalog: &Vec<Offering>, names: &Vec<String>) -> (r: (
    Vec<Offering>,
    Vec<i32>,
))
    ensures
        r.0.deep_view() == candidates_spec(catalog.deep_view(), names.deep_view()),
        r.1@.len() == dropped_spec(
            catalog.deep_view(),
            requested_keys_spec(names.deep_view()),
        ).len(),
        forall|k: int|
            0 <= k < r.1@.len() ==> r.1@[k] as int == dropped_spec(
                catalog.deep_view(),
                requested_keys_spec(names.deep_view()),
            )[k].id,
{
    let keys = requested_keys(names);
    let ghost keys_dv = keys.deep_view();
    let ghost cdv = catalog.deep_view();
    let mut pool: Vec<Offering> = Vec::new();
    let mut dropped: Vec<i32> = Vec::new();
    let mut i: usize = 0;
    while i < catalog.len()
        invariant
            0 <= i <= catalog@.len(),
            cdv == catalog.deep_view(),
            keys_dv == keys.deep_view(),
            keys_dv == requested_keys_spec(names.deep_view()),
            pool.deep_view() == candidates_unsorted_spec(cdv.take(i as int), keys_dv),
            dropped@.len() == dropped_spec(cdv.take(i as int), keys_dv).len(),
            forall|k: int|
                0 <= k < dropped@.len() ==> dropped@[k] as int == dropped_spec(
                    cdv.take(i as int),
                    keys_dv,
                )[k].id,
        decreases catalog@.len() - i,
    {
        proof {
            assert(cdv.take(i as int + 1).drop_last() =~= cdv.take(i as int));
            assert(cdv.take(i as int + 1).last() == cdv[i as int]);
        }
        let sk = trim(catalog[i].subject.name.as_str());
        if names_contain(&keys, sk) {
            proof {
                assert(keys_dv.contains(subject_key(cdv[i as int])));
            }
            if offering_is_valid(&catalog[i]) {
                if !vec_has_id(&pool, catalog[i].id) {
                    let ghost prev = pool.deep_view();
                    pool.push(catalog[i].clone());
                    proof {
                        assert(pool.deep_view() =~= prev.push(cdv[i as int]));
                    }
                }
            } else {
                dropped.push(catalog[i].id);
            }
        } else {
            proof {
                assert(!keys_dv.contains(subject_key(cdv[i as int])));
            }
        }
        i = i + 1;
    }
    proof {
        assert(cdv.take(catalog@.len() as int) =~= cdv);
    }
    let mut sorted: Vec<Offering> = Vec::new();
    let ghost pdv = pool.deep_view();
    let mut j: usize = 0;
    while j < pool.len()
        invariant
            0 <= j <= pool@.len(),
            pdv == pool.deep_view(),
            sorted.deep_view() == sort_spec(pdv.take(j as int)),
        decreases pool@.len() - j,
    {
        proof {
            assert(pdv.take(j as int + 1).drop_last() =~= pdv.take(j as int));
            assert(pdv.take(j as int + 1).last() == pdv[j as int]);
        }
        sorted = insert_cand(&sorted, &pool[j]);
        j = j + 1;
    }
    proof {
        assert(pdv.take(pool@.len() as int) =~= pdv);
    }
    (sorted, dropped)
}

/// Candidate order, non-strict: equal key or strictly before.
pub open spec fn cand_le(a: OfferingV, b: OfferingV) -> bool {
    cand_lt(a, b) || (subject_key(a) == subject_key(b) && a.id == b.id)
}

/// The pool stands in candidate order.
pub open spec fn sorted_cands(s: Seq<OfferingV>) -> bool {
    forall|i: int, j: int|
        0 <= i < j < s.len() ==> cand_le(#[trigger] s[i], #[trigger] s[j])
}

proof fn lemma_cand_le_total(a: OfferingV, b: OfferingV)
    ensures
        cand_le(a, b) || cand_le(b, a),
{
    crate::text::lemma_lex_le_total(subject_key(a), subject_key(b));
}

proof fn lemma_cand_le_trans(a: OfferingV, b: OfferingV, c: OfferingV)
    requires
        cand_le(a, b),
        cand_le(b, c),
    ensures
        cand_le(a, c),
{
    let ka = subject_key(a);
    let kb = subject_key(b);
    let kc = subject_key(c);
    if lex_lt(ka, kb) && lex_lt(kb, kc) {
        crate::text::lemma_lex_le_trans(ka, kb, kc);
        if ka == kc {
            crate::text::lemma_lex_le_antisymmetric(ka, kb);
        }
    }
}

proof fn lemma_insert_elements(x: OfferingV, s: Seq<OfferingV>, k: int)
    requires
        0 <= k < insert_sorted_spec(x, s).len(),
    ensures
        insert_sorted_spec(x, s)[k] == x || s.contains(insert_sorted_spec(x, s)[k]),
    decreases s.len(),
{
    if s.len() > 0 && cand_lt(s[0], x) {
        if k == 0 {
            assert(s.contains(s[0]));
        } else {
            lemma_insert_elements(x, s.drop_first(), k - 1);
            let e = insert_sorted_spec(x, s)[k];
            if s.drop_first().contains(e) {
                let j = choose|j: int|
                    0 <= j < s.drop_first().len() && s.drop_first()[j] == e;
                assert(s[j + 1] == e);
                assert(s.contains(e));
            }
        }
    } else {
        if k > 0 {
            assert(s.contains(s[k - 1]));
        }
    }
}

proof fn lemma_insert_sorted_keeps_order(x: OfferingV, s: Seq<OfferingV>)
    requires
        sorted_cands(s),
    ensures
        sorted_cands(insert_sorted_spec(x, s)),
    decreases s.len(),
{
    let out = insert_sorted_spec(x, s);
    if s.len() > 0 && cand_lt(s[0], x) {
        let d = s.drop_first();
        assert(sorted_cands(d)) by {
            assert(forall|i: int, j: int|
                0 <= i < j < d.len() ==> cand_le(#[trigger] d[i], #[trigger] d[j]));
        }
        lemma_insert_sorted_keeps_order(x, d);
        let rest = insert_sorted_spec(x, d);
        assert forall|i: int, j: int|
            0 <= i < j < out.len() implies cand_le(#[trigger] out[i], #[trigger] out[j]) by {
            if i == 0 {
                assert(out[j] == rest[j - 1]);
                lemma_insert_elements(x, d, j - 1);
                if rest[j - 1] == x {
                    assert(cand_le(s[0], out[j]));
                } else {
                    let t = choose|t: int| 0 <= t < d.len() && d[t] == rest[j - 1];
                    assert(s[t + 1] == rest[j - 1]);
                    assert(cand_le(s[0], s[t + 1]));
                }
            } else {
                assert(out[i] == rest[i - 1]);
                assert(out[j] == rest[j - 1]);
            }
        }
    } else {
        assert forall|i: int, j: int|
            0 <= i < j < out.len() implies cand_le(#[trigger] out[i], #[trigger] out[j]) by {
            if i == 0 {
                assert(out[0] == x);
                assert(s.len() > 0);
                assert(!cand_lt(s[0], x));
                lemma_cand_le_total(x, s[0]);
                assert(cand_le(x, s[0]));
                assert(out[j] == s[j - 1]);
                if j > 1 {
                    assert(cand_le(s[0], s[j - 1]));
                    lemma_cand_le_trans(x, s[0], s[j - 1]);
                }
            } else {
                assert(out[i] == s[i - 1]);
                assert(out[j] == s[j - 1]);
            }
        }
    }
}

proof fn lemma_sort_spec_sorted(s: Seq<OfferingV>)
    ensures
        sorted_cands(sort_spec(s)),
    decreases s.len(),
{
    if s.len() > 0 {
        lemma_sort_spec_sorted(s.drop_last());
        lemma_insert_sorted_keeps_order(s.last(), sort_spec(s.drop_last()));
    }
}

/// The candidate pool comes out ordered by trimmed subject name, then
/// offering id.
pub proof fn lemma_candidates_sorted(catalog: Seq<OfferingV>, names: Seq<Seq<char>>)
    ensures
        sorted_cands(candidates_spec(catalog, names)),
{
    lemma_sort_spec_sorted(
        candidates_unsorted_spec(catalog, requested_keys_spec(names)),
    );
}

/// Some candidate's primary professor carries this trimmed name.
pub open spec fn professor_present_spec(cands: Seq<OfferingV>, p: Seq<char>) -> bool {
    exists|i: int| 0 <= i < cands.len() && professor_key(#[trigger] cands[i]) == Some(p)
}

pub(crate) fn professor_present(cands: &Vec<Offering>, p: &str) -> (r: bool)
    ensures
        r == professor_present_spec(cands.deep_view(), p@),
{
    let mut i: usize = 0;
    while i < cands.len()
        invariant
            0 <= i <= cands@.len(),
            forall|k: int|
                0 <= k < i ==> professor_key(#[trigger] cands.deep_view()[k]) != Some(p@),
        decreases cands@.len() - i,
    {
        let found: bool = match &cands[i].professor {
            Some(prof) => match &prof.name {
                Some(nm) => str_eq(trim(nm.as_str()), p),
                None => false,
            },
            None => false,
        };
        if found {
            proof {
                assert(professor_key(cands.deep_view()[i as int]) == Some(p@));
            }
            return true;
        }
        proof {
            assert(professor_key(cands.deep_view()[i as int]) != Some(p@));
        }
        i = i + 1;
    }
    proof {
        if professor_present_spec(cands.deep_view(), p@) {
            let k = choose|k: int|
                0 <= k < cands.deep_view().len() && professor_key(
                    #[trigger] cands.deep_view()[k],
                ) == Some(p@);
            assert(professor_key(cands.deep_view()[k]) != Some(p@));
        }
    }
    false
}

/// The names among `pkeys` that no candidate's primary professor carries.
pub open spec fn missing_profs_from(pkeys: Seq<Seq<char>>, cands: Seq<OfferingV>) -> Seq<
    Seq<char>,
>
    decreases pkeys.len(),
{
    if pkeys.len() == 0 {
        Seq::empty()
    } else {
        let d = missing_profs_from(pkeys.drop_last(), cands);
        if !professor_present_spec(cands, pkeys.last()) {
            d.push(pkeys.last())
        } else {
            d
        }
    }
}

/// The requested professors that teach no candidate offering.
pub open spec fn missing_professors_spec(cands: Seq<OfferingV>, profs: Seq<Seq<char>>) -> Seq<
    Seq<char>,
> {
    missing_profs_from(dedup_spec(trimmed(profs)), cands)
}

/// The requested professor names (trimmed, first occurrences) that are the
/// primary professor of no candidate offering.
pub fn missing_professors(cands: &Vec<Offering>, profs: &Vec<String>) -> (r: Vec<String>)
    ensures
        r.deep_view() == missing_professors_spec(cands.deep_view(), profs.deep_view()),
{
    let t = trim_all(profs);
    let pkeys = dedup_names(&t);
    let mut r: Vec<String> = Vec::new();
    let mut i: usize = 0;
    while i < pkeys.len()
        invariant
            0 <= i <= pkeys@.len(),
            pkeys.deep_view() == dedup_spec(trimmed(profs.deep_view())),
            r.deep_view() == missing_profs_from(
                pkeys.deep_view().take(i as int),
                cands.deep_view(),
            ),
        decreases pkeys@.len() - i,
    {
        proof {
            assert(pkeys.deep_view().take(i as int + 1).drop_last() =~= pkeys.deep_view().take(
                i as int,
            ));
            assert(pkeys.deep_view().take(i as int + 1).last() == pkeys@[i as int]@);
        }
        if !professor_present(cands, pkeys[i].as_str()) {
            let ghost prev = r.deep_view();
            r.push(pkeys[i].clone());
            proof {
                assert(r.deep_view() =~= prev.push(pkeys@[i as int]@));
            }
        }
        i = i + 1;
    }
    proof {
        assert(pkeys.deep_view().take(pkeys@.len() as int) =~= pkeys.deep_view());
    }
    r
}

} // verus!
