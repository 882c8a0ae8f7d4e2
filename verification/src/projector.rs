//! The simplified, frontend-facing view of the assembled schedules: one
//! numbered group per schedule, each offering reduced to its subject name,
//! primary professor name (or `Unknown`), and its slots as weekday, start,
//! end and room name, with times normalized to `HH:MM:SS` where they parse.

use vstd::prelude::*;
use crate::model::{Offering, OfferingV, SlotV};
use crate::time_overlap::{parse_time_spec, parse_time, format_time_spec, format_time,
    lemma_parse_time_in_range, lemma_time_round_trip};

verus! {

#[derive(Debug, PartialEq, Eq)]
pub struct ScheduleInfo {
    pub dia: String,
    pub hora_inicio: String,
    pub hora_fin: String,
    pub salon: String,
}

#[verifier::ext_equal]
pub struct ScheduleInfoV {
    pub dia: Seq<char>,
    pub hora_inicio: Seq<char>,
    pub hora_fin: Seq<char>,
    pub salon: Seq<char>,
}

impl View for ScheduleInfo {
    type V = ScheduleInfoV;

    open spec fn view(&self) -> ScheduleInfoV {
        ScheduleInfoV {
            dia: self.dia@,
            hora_inicio: self.hora_inicio@,
            hora_fin: self.hora_fin@,
            salon: self.salon@,
        }
    }
}

impl DeepView for ScheduleInfo {
    type V = ScheduleInfoV;

    open spec fn deep_view(&self) -> ScheduleInfoV {
        self.view()
    }
}

#[derive(Debug, PartialEq, Eq)]
pub struct CourseInfo {
    pub materia: String,
    pub profesor: String,
    pub schedules: Vec<ScheduleInfo>,
}

#[verifier::ext_equal]
pub struct CourseInfoV {
    pub materia: Seq<char>,
    pub profesor: Seq<char>,
    pub schedules: Seq<ScheduleInfoV>,
}

impl View for CourseInfo {
    type V = CourseInfoV;

    open spec fn view(&self) -> CourseInfoV {
        CourseInfoV {
            materia: self.materia@,
            profesor: self.profesor@,
            schedules: self.schedules.deep_view(),
        }
    }
}

impl DeepView for CourseInfo {
    type V = CourseInfoV;

    open spec fn deep_view(&self) -> CourseInfoV {
        self.view()
    }
}

/// One simplified schedule: its 1-based number and its courses.
#[derive(Debug, PartialEq, Eq)]
pub struct ScheduleGroup {
    pub schedule_number: usize,
    pub courses: Vec<CourseInfo>,
}

#[verifier::ext_equal]
pub struct ScheduleGroupV {
    pub schedule_number: int,
    pub courses: Seq<CourseInfoV>,
}

impl View for ScheduleGroup {
    type V = ScheduleGroupV;

    open spec fn view(&self) -> ScheduleGroupV {
        ScheduleGroupV {
            schedule_number: self.schedule_number as int,
            courses: self.courses.deep_view(),
        }
    }
}

impl DeepView for ScheduleGroup {
    type V = ScheduleGroupV;

    open spec fn deep_view(&self) -> ScheduleGroupV {
        self.view()
    }
}

/// A time string normalized to `HH:MM:SS` when it parses, else unchanged.
pub open spec fn normal_time(s: Seq<char>) -> Seq<char> {
    match parse_time_spec(s) {
        Some(t) => format_time_spec(t),
        None => s,
    }
}

/// The simplified view of one meeting slot.
pub open spec fn project_slot(s: SlotV) -> ScheduleInfoV {
    ScheduleInfoV {
        dia: s.day,
        hora_inicio: normal_time(s.start),
        hora_fin: normal_time(s.end),
        salon: s.room.name,
    }
}

/// The professor name shown for an offering: the primary professor's name,
/// or `Unknown` when absent.
pub open spec fn shown_professor(x: OfferingV) -> Seq<char> {
    match x.professor {
        Some(p) => match p.name {
            Some(n) => n,
            None => "Unknown"@,
        },
        None => "Unknown"@,
    }
}

/// The simplified view of one offering.
pub open spec fn project_course(x: OfferingV) -> CourseInfoV {
    CourseInfoV {
        materia: x.subject.name,
        profesor: shown_professor(x),
        schedules: Seq::new(x.slots.len(), |i: int| project_slot(x.slots[i])),
    }
}

/// The simplified view of one schedule, numbered from one.
pub open spec fn project_group(i: int, sched: Seq<OfferingV>) -> ScheduleGroupV {
    ScheduleGroupV {
        schedule_number: i + 1,
        courses: Seq::new(sched.len(), |j: int| project_course(sched[j])),
    }
}

/// The simplified view of all schedules, a pure function of them.
pub open spec fn project_spec(schedules: Seq<Seq<OfferingV>>) -> Seq<ScheduleGroupV> {
    Seq::new(schedules.len(), |i: int| project_group(i, schedules[i]))
}

fn normal_time_exec(s: &String) -> (r: String)
    ensures
        r@ == normal_time(s@),
{
    match parse_time(s.as_str()) {
        Some(t) => {
            proof {
                lemma_parse_time_in_range(s@);
            }
            format_time(t)
        },
        None => s.clone(),
    }
}

fn project_slot_exec(s: &crate::model::MeetingSlot) -> (r: ScheduleInfo)
    ensures
        r@ == project_slot(s@),
{
    ScheduleInfo {
        dia: s.day.clone(),
        hora_inicio: normal_time_exec(&s.start),
        hora_fin: normal_time_exec(&s.end),
        salon: s.room.name.clone(),
    }
}

fn project_course_exec(x: &Offering) -> (r: CourseInfo)
    ensures
        r@ == project_course(x@),
{
    let profesor: String = match &x.professor {
        Some(p) => match &p.name {
            Some(n) => n.clone(),
            None => {
                let u = "Unknown";
                u.to_owned()
            },
        },
        None => {
            let u = "Unknown";
            u.to_owned()
        },
    };
    let mut schedules: Vec<ScheduleInfo> = Vec::new();
    let mut i: usize = 0;
    while i < x.slots.len()
        invariant
            0 <= i <= x.slots@.len(),
            schedules.deep_view() =~= Seq::new(i as nat, |j: int| project_slot(x@.slots[j])),
        decreases x.slots@.len() - i,
    {
        let ghost prev = schedules.deep_view();
        schedules.push(project_slot_exec(&x.slots[i]));
        proof {
            assert(schedules.deep_view() =~= prev.push(project_slot(x@.slots[i as int])));
            assert(schedules.deep_view() =~= Seq::new(
                i as nat + 1,
                |j: int| project_slot(x@.slots[j]),
            ));
        }
        i = i + 1;
    }
    let r = CourseInfo { materia: x.subject.name.clone(), profesor, schedules };
    proof {
        assert(r@.schedules =~= project_course(x@).schedules);
        assert(r@ =~= project_course(x@));
    }
    r
}

/// Produces the simplified view: one numbered group per schedule.
pub fn simplify_schedules(schedules: &Vec<Vec<Offering>>) -> (r: Vec<ScheduleGroup>)
    ensures
        r.deep_view() == project_spec(schedules.deep_view()),
{
    let mut r: Vec<ScheduleGroup> = Vec::new();
    let mut i: usize = 0;
    while i < schedules.len()
        invariant
            0 <= i <= schedules@.len(),
            r.deep_view() =~= project_spec(schedules.deep_view()).take(i as int),
        decreases schedules@.len() - i,
    {
        let group = &schedules[i];
        let mut courses: Vec<CourseInfo> = Vec::new();
        let mut j: usize = 0;
        while j < group.len()
            invariant
                0 <= j <= group@.len(),
                0 <= i < schedules@.len(),
                group@ == schedules@[i as int]@,
                courses.deep_view() =~= Seq::new(
                    j as nat,
                    |k: int| project_course(schedules.deep_view()[i as int][k]),
                ),
            decreases group@.len() - j,
        {
            let ghost prev = courses.deep_view();
            courses.push(project_course_exec(&group[j]));
            proof {
                assert(courses.deep_view() =~= prev.push(
                    project_course(schedules.deep_view()[i as int][j as int]),
                ));
                assert(courses.deep_view() =~= Seq::new(
                    j as nat + 1,
                    |k: int| project_course(schedules.deep_view()[i as int][k]),
                ));
            }
            j = j + 1;
        }
        let g = ScheduleGroup { schedule_number: i + 1, courses };
        proof {
            assert(g@.courses =~= project_group(i as int, schedules.deep_view()[i as int]).courses);
            assert(g@ =~= project_group(i as int, schedules.deep_view()[i as int]));
        }
        let ghost prevr = r.deep_view();
        r.push(g);
        proof {
            assert(r.deep_view() =~= prevr.push(
                project_group(i as int, schedules.deep_view()[i as int]),
            ));
            assert(r.deep_view() =~= project_spec(schedules.deep_view()).take(i as int + 1));
        }
        i = i + 1;
    }
    proof {
        assert(project_spec(schedules.deep_view()).take(schedules@.len() as int) =~= project_spec(
            schedules.deep_view(),
        ));
    }
    r
}

/// A detailed schedule that projects to a given simplified group: subject
/// and professor names and the printed slots carried back into offerings.
/// It is one right inverse of projection, used to state idempotence.
pub open spec fn embed_slot(si: ScheduleInfoV) -> SlotV {
    SlotV {
        id: 0,
        day: si.dia,
        start: si.hora_inicio,
        end: si.hora_fin,
        room: crate::model::RoomV { id: 0, name: si.salon, capacity: None },
    }
}

pub open spec fn embed_course(c: CourseInfoV) -> OfferingV {
    OfferingV {
        id: 0,
        subject: crate::model::SubjectV { id: 0, name: c.materia },
        professor: Some(crate::model::ProfessorV { id: 0, name: Some(c.profesor) }),
        assistant: None,
        slots: Seq::new(c.schedules.len(), |i: int| embed_slot(c.schedules[i])),
        metadata: Seq::empty(),
    }
}

pub open spec fn embed_group(g: ScheduleGroupV) -> Seq<OfferingV> {
    Seq::new(g.courses.len(), |j: int| embed_course(g.courses[j]))
}

/// All simplified groups carried back into detailed schedules.
pub open spec fn embed_spec(groups: Seq<ScheduleGroupV>) -> Seq<Seq<OfferingV>> {
    Seq::new(groups.len(), |i: int| embed_group(groups[i]))
}

proof fn lemma_normal_time_stable(s: Seq<char>)
    ensures
        normal_time(normal_time(s)) == normal_time(s),
{
    match parse_time_spec(s) {
        Some(t) => {
            lemma_parse_time_in_range(s);
            lemma_time_round_trip(t);
        },
        None => {},
    }
}

/// Projection is idempotent: carrying the simplified view back into
/// detailed schedules and projecting again changes nothing.
pub proof fn lemma_projection_idempotent(schedules: Seq<Seq<OfferingV>>)
    ensures
        project_spec(embed_spec(project_spec(schedules))) == project_spec(schedules),
{
    let once = project_spec(schedules);
    let twice = project_spec(embed_spec(once));
    assert forall|i: int| 0 <= i < once.len() implies twice[i] == once[i] by {
        let g = once[i];
        let back = embed_group(g);
        assert forall|j: int| 0 <= j < g.courses.len() implies project_course(back[j])
            == g.courses[j] by {
            let c = g.courses[j];
            let x = embed_course(c);
            assert forall|k: int| 0 <= k < c.schedules.len() implies project_slot(x.slots[k])
                == c.schedules[k] by {
                let orig = schedules[i][j];
                assert(c.schedules[k] == project_slot(orig.slots[k]));
                lemma_normal_time_stable(orig.slots[k].start);
                lemma_normal_time_stable(orig.slots[k].end);
                assert(project_slot(x.slots[k]) =~= c.schedules[k]);
            }
            assert(project_course(back[j]).schedules =~= c.schedules);
            assert(project_course(back[j]) =~= c);
        }
        assert(twice[i].courses =~= g.courses);
        assert(twice[i] =~= g);
    }
    assert(twice =~= once);
}

} // verus!
