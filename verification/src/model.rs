//! Data model of the engine: subjects, professors, rooms, weekly meeting
//! slots and course offerings, together with their mathematical views and
//! the conflict predicates over them.
//!
//! Entities are immutable once built.  Times inside a slot are kept as their
//! source strings; the conflict predicates parse them, and the grouper drops
//! offerings whose times do not parse (see `grouper`).

use vstd::prelude::*;
use crate::text::norm_token;
use crate::time_overlap::{intervals_overlap, parse_time_spec, parse_time, times_overlap};
use crate::text::token_matches;

verus! {

#[derive(Debug, PartialEq, Eq)]
pub struct Room {
    pub id: i32,
    pub name: String,
    pub capacity: Option<i32>,
}

pub struct RoomV {
    pub id: int,
    pub name: Seq<char>,
    pub capacity: Option<int>,
}

impl View for Room {
    type V = RoomV;

    open spec fn view(&self) -> RoomV {
        RoomV {
            id: self.id as int,
            name: self.name@,
            capacity: match self.capacity {
                Some(c) => Some(c as int),
                None => None,
            },
        }
    }
}

impl DeepView for Room {
    type V = RoomV;

    open spec fn deep_view(&self) -> RoomV {
        self.view()
    }
}

impl Clone for Room {
    fn clone(&self) -> (res: Self)
        ensures
            res == *self,
    {
        Room { id: self.id, name: self.name.clone(), capacity: self.capacity }
    }
}

/// One weekly meeting: a weekday token and a half-open wall-clock interval
/// `[start, end)` in a room.  The source strings are preserved.
#[derive(Debug, PartialEq, Eq)]
pub struct MeetingSlot {
    pub id: i32,
    pub day: String,
    pub start: String,
    pub end: String,
    pub room: Room,
}

pub struct SlotV {
    pub id: int,
    pub day: Seq<char>,
    pub start: Seq<char>,
    pub end: Seq<char>,
    pub room: RoomV,
}

impl View for MeetingSlot {
    type V = SlotV;

    open spec fn view(&self) -> SlotV {
        SlotV {
            id: self.id as int,
            day: self.day@,
            start: self.start@,
            end: self.end@,
            room: self.room@,
        }
    }
}

impl DeepView for MeetingSlot {
    type V = SlotV;

    open spec fn deep_view(&self) -> SlotV {
        self.view()
    }
}

impl Clone for MeetingSlot {
    fn clone(&self) -> (res: Self)
        ensures
            res == *self,
    {
        MeetingSlot {
            id: self.id,
            day: self.day.clone(),
            start: self.start.clone(),
            end: self.end.clone(),
            room: self.room.clone(),
        }
    }
}

#[derive(Debug, PartialEq, Eq)]
pub struct Subject {
    pub id: i32,
    pub name: String,
}

pub struct SubjectV {
    pub id: int,
    pub name: Seq<char>,
}

impl View for Subject {
    type V = SubjectV;

    open spec fn view(&self) -> SubjectV {
        SubjectV { id: self.id as int, name: self.name@ }
    }
}

impl DeepView for Subject {
    type V = SubjectV;

    open spec fn deep_view(&self) -> SubjectV {
        self.view()
    }
}

impl Clone for Subject {
    fn clone(&self) -> (res: Self)
        ensures
            res == *self,
    {
        Subject { id: self.id, name: self.name.clone() }
    }
}

#[derive(Debug, PartialEq, Eq)]
pub struct Professor {
    pub id: i32,
    pub name: Option<String>,
}

pub struct ProfessorV {
    pub id: int,
    pub name: Option<Seq<char>>,
}

impl View for Professor {
    type V = ProfessorV;

    open spec fn view(&self) -> ProfessorV {
        ProfessorV {
            id: self.id as int,
            name: match self.name {
                Some(ref n) => Some(n@),
                None => None,
            },
        }
    }
}

impl DeepView for Professor {
    type V = ProfessorV;

    open spec fn deep_view(&self) -> ProfessorV {
        self.view()
    }
}

impl Clone for Professor {
    fn clone(&self) -> (res: Self)
        ensures
            res == *self,
    {
        Professor {
            id: self.id,
            name: match &self.name {
                Some(n) => Some(n.clone()),
                None => None,
            },
        }
    }
}

/// One scheduled instance of a subject: its weekly meeting slots, the primary
/// professor, an optional assistant, and an opaque pass-through blob that the
/// engine never reads.
#[derive(Debug, PartialEq, Eq)]
pub struct Offering {
    pub id: i32,
    pub subject: Subject,
    pub professor: Option<Professor>,
    pub assistant: Option<Professor>,
    pub slots: Vec<MeetingSlot>,
    pub metadata: String,
}

pub struct OfferingV {
    pub id: int,
    pub subject: SubjectV,
    pub professor: Option<ProfessorV>,
    pub assistant: Option<ProfessorV>,
    pub slots: Seq<SlotV>,
    pub metadata: Seq<char>,
}

impl View for Offering {
    type V = OfferingV;

    open spec fn view(&self) -> OfferingV {
        OfferingV {
            id: self.id as int,
            subject: self.subject@,
            professor: match self.professor {
                Some(ref p) => Some(p@),
                None => None,
            },
            assistant: match self.assistant {
                Some(ref p) => Some(p@),
                None => None,
            },
            slots: self.slots.deep_view(),
            metadata: self.metadata@,
        }
    }
}

impl DeepView for Offering {
    type V = OfferingV;

    open spec fn deep_view(&self) -> OfferingV {
        self.view()
    }
}

impl Clone for Offering {
    fn clone(&self) -> (res: Self)
        ensures
            res@ == self@,
    {
        let mut slots: Vec<MeetingSlot> = Vec::new();
        let mut i: usize = 0;
        while i < self.slots.len()
            invariant
                0 <= i <= self.slots.len(),
                slots@ =~= self.slots@.take(i as int),
            decreases self.slots.len() - i,
        {
            slots.push(self.slots[i].clone());
            i = i + 1;
        }
        proof {
            assert(slots@ =~= self.slots@);
        }
        Offering {
            id: self.id,
            subject: self.subject.clone(),
            professor: match &self.professor {
                Some(p) => Some(p.clone()),
                None => None,
            },
            assistant: match &self.assistant {
                Some(p) => Some(p.clone()),
                None => None,
            },
            slots,
            metadata: self.metadata.clone(),
        }
    }
}

/// The trimmed subject name an offering is grouped and matched under.
pub open spec fn subject_key(x: OfferingV) -> Seq<char> {
    crate::text::trim_spec(x.subject.name)
}

/// The trimmed primary professor name of an offering, when one is present.
pub open spec fn professor_key(x: OfferingV) -> Option<Seq<char>> {
    match x.professor {
        Some(p) => match p.name {
            Some(n) => Some(crate::text::trim_spec(n)),
            None => None,
        },
        None => None,
    }
}

/// The time a well-formed time string denotes; zero elsewhere.
pub open spec fn time_of(s: Seq<char>) -> int {
    match parse_time_spec(s) {
        Some(t) => t,
        None => 0,
    }
}

/// Both time strings of the slot parse.
pub open spec fn slot_times_parse(s: SlotV) -> bool {
    parse_time_spec(s.start) is Some && parse_time_spec(s.end) is Some
}

/// The slot's times parse and its interval is non-empty and does not wrap.
pub open spec fn slot_valid(s: SlotV) -> bool {
    slot_times_parse(s) && time_of(s.start) < time_of(s.end)
}

/// Two slots overlap: same weekday token (trimmed, case folded) and
/// intersecting half-open intervals.  Slots whose times do not parse
/// overlap nothing.
pub open spec fn slots_overlap_spec(a: SlotV, b: SlotV) -> bool {
    &&& norm_token(a.day) == norm_token(b.day)
    &&& slot_times_parse(a)
    &&& slot_times_parse(b)
    &&& intervals_overlap(time_of(a.start), time_of(a.end), time_of(b.start), time_of(b.end))
}

/// Some slot of the first list overlaps some slot of the second.
pub open spec fn slot_lists_overlap(a: Seq<SlotV>, b: Seq<SlotV>) -> bool {
    exists|i: int, j: int|
        0 <= i < a.len() && 0 <= j < b.len() && slots_overlap_spec(a[i], b[j])
}

/// Two offerings conflict: some pair of their slots overlaps.
pub open spec fn offerings_conflict(x: OfferingV, y: OfferingV) -> bool {
    slot_lists_overlap(x.slots, y.slots)
}

pub proof fn lemma_offerings_conflict_symmetric(x: OfferingV, y: OfferingV)
    ensures
        offerings_conflict(x, y) == offerings_conflict(y, x),
{
    if slot_lists_overlap(x.slots, y.slots) {
        let (i, j): (int, int) = choose|i: int, j: int|
            0 <= i < x.slots.len() && 0 <= j < y.slots.len() && slots_overlap_spec(
                x.slots[i],
                y.slots[j],
            );
        assert(slots_overlap_spec(y.slots[j], x.slots[i]));
    }
    if slot_lists_overlap(y.slots, x.slots) {
        let (i, j): (int, int) = choose|i: int, j: int|
            0 <= i < y.slots.len() && 0 <= j < x.slots.len() && slots_overlap_spec(
                y.slots[i],
                x.slots[j],
            );
        assert(slots_overlap_spec(x.slots[j], y.slots[i]));
    }
}

/// Two of the offering's own distinct slots overlap.
pub open spec fn offering_self_conflict(x: OfferingV) -> bool {
    exists|i: int, j: int|
        0 <= i < j < x.slots.len() && slots_overlap_spec(x.slots[i], x.slots[j])
}

/// Every slot is well formed and no two of them overlap.
pub open spec fn offering_valid(x: OfferingV) -> bool {
    (forall|i: int| 0 <= i < x.slots.len() ==> slot_valid(#[trigger] x.slots[i]))
        && !offering_self_conflict(x)
}

/// Whether two meeting slots overlap.
pub fn slots_overlap(a: &MeetingSlot, b: &MeetingSlot) -> (r: bool)
    ensures
        r == slots_overlap_spec(a@, b@),
{
    if !token_matches(a.day.as_str(), b.day.as_str()) {
        return false;
    }
    let sa = parse_time(a.start.as_str());
    let ea = parse_time(a.end.as_str());
    let sb = parse_time(b.start.as_str());
    let eb = parse_time(b.end.as_str());
    match (sa, ea, sb, eb) {
        (Some(sa), Some(ea), Some(sb), Some(eb)) => times_overlap(sa, ea, sb, eb),
        _ => false,
    }
}

/// Whether some slot of one list overlaps some slot of the other.
pub fn schedules_overlap(a: &Vec<MeetingSlot>, b: &Vec<MeetingSlot>) -> (r: bool)
    ensures
        r == slot_lists_overlap(a.deep_view(), b.deep_view()),
{
    let mut i: usize = 0;
    while i < a.len()
        invariant
            0 <= i <= a@.len(),
            forall|p: int, q: int|
                0 <= p < i && 0 <= q < b@.len() ==> !slots_overlap_spec(
                    a.deep_view()[p],
                    b.deep_view()[q],
                ),
        decreases a@.len() - i,
    {
        let mut j: usize = 0;
        while j < b.len()
            invariant
                0 <= i < a@.len(),
                0 <= j <= b@.len(),
                forall|p: int, q: int|
                    0 <= p < i && 0 <= q < b@.len() ==> !slots_overlap_spec(
                        a.deep_view()[p],
                        b.deep_view()[q],
                    ),
                forall|q: int|
                    0 <= q < j ==> !slots_overlap_spec(
                        a.deep_view()[i as int],
                        b.deep_view()[q],
                    ),
            decreases b@.len() - j,
        {
            if slots_overlap(&a[i], &b[j]) {
                proof {
                    assert(slots_overlap_spec(a.deep_view()[i as int], b.deep_view()[j as int]));
                }
                return true;
            }
            j = j + 1;
        }
        i = i + 1;
    }
    proof {
        assert(!slot_lists_overlap(a.deep_view(), b.deep_view())) by {
            if slot_lists_overlap(a.deep_view(), b.deep_view()) {
                let (p, q): (int, int) = choose|p: int, q: int|
                    0 <= p < a.deep_view().len() && 0 <= q < b.deep_view().len()
                        && slots_overlap_spec(a.deep_view()[p], b.deep_view()[q]);
                assert(!slots_overlap_spec(a.deep_view()[p], b.deep_view()[q]));
            }
        }
    }
    false
}

/// Whether two offerings conflict: some pair of their weekly slots overlaps.
pub fn courses_overlap(x: &Offering, y: &Offering) -> (r: bool)
    ensures
        r == offerings_conflict(x@, y@),
{
    schedules_overlap(&x.slots, &y.slots)
}

/// Whether every slot of the offering is well formed and no two of its own
/// slots overlap.
pub fn offering_is_valid(x: &Offering) -> (r: bool)
    ensures
        r == offering_valid(x@),
{
    let n = x.slots.len();
    let mut i: usize = 0;
    while i < n
        invariant
            0 <= i <= n,
            n == x.slots@.len(),
            forall|k: int| 0 <= k < i ==> slot_valid(#[trigger] x@.slots[k]),
        decreases n - i,
    {
        let s = &x.slots[i];
        let st = parse_time(s.start.as_str());
        let en = parse_time(s.end.as_str());
        let ok = match (st, en) {
            (Some(st), Some(en)) => st < en,
            _ => false,
        };
        if !ok {
            proof {
                assert(!slot_valid(x@.slots[i as int]));
            }
            return false;
        }
        i = i + 1;
    }
    let mut i: usize = 0;
    while i < n
        invariant
            0 <= i <= n,
            n == x.slots@.len(),
            forall|k: int| 0 <= k < n ==> slot_valid(#[trigger] x@.slots[k]),
            forall|p: int, q: int|
                0 <= p < i && p < q < n ==> !slots_overlap_spec(x@.slots[p], x@.slots[q]),
        decreases n - i,
    {
        let mut j: usize = i + 1;
        while j < n
            invariant
                0 <= i < n,
                i < j <= n,
                n == x.slots@.len(),
                forall|k: int| 0 <= k < n ==> slot_valid(#[trigger] x@.slots[k]),
                forall|p: int, q: int|
                    0 <= p < i && p < q < n ==> !slots_overlap_spec(x@.slots[p], x@.slots[q]),
                forall|q: int|
                    i < q < j ==> !slots_overlap_spec(x@.slots[i as int], x@.slots[q]),
            decreases n - j,
        {
            if slots_overlap(&x.slots[i], &x.slots[j]) {
                proof {
                    assert(slots_overlap_spec(x@.slots[i as int], x@.slots[j as int]));
                }
                return false;
            }
            j = j + 1;
        }
        i = i + 1;
    }
    proof {
        assert(!offering_self_conflict(x@)) by {
            if offering_self_conflict(x@) {
                let (p, q): (int, int) = choose|p: int, q: int|
                    0 <= p < q < x@.slots.len() && slots_overlap_spec(x@.slots[p], x@.slots[q]);
                assert(!slots_overlap_spec(x@.slots[p], x@.slots[q]));
            }
        }
    }
    true
}

} // verus!
