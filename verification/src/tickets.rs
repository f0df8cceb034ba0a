use vstd::prelude::*;

verus! {

/// A teacher on a ticket, as the ticket form sends it.
pub struct TeacherEntry {
    pub name: String,
    pub level: String,
    pub course: String,
}

/// A school visited on a ticket, with its coordinator and its teachers, as
/// the ticket form sends it.
pub struct SchoolEntry {
    pub school: String,
    pub coordinator: String,
    pub teachers: Vec<TeacherEntry>,
}

/// A row of `ticket_schools`: a school that a ticket visits. Its expense is
/// taken from the school entry at the same position.
pub struct SchoolRow {
    pub ticket_id: i64,
    pub school: String,
    pub coordinator: String,
}

/// A row of `ticket_teachers` or of the `teachers` history: a teacher of a
/// school on a ticket.
pub struct TeacherRow {
    pub ticket_id: i64,
    pub school: String,
    pub name: String,
    pub level: String,
    pub course: String,
}

/// A teacher as read back from `ticket_teachers`: school, name, level, course.
pub struct RosterRecord {
    pub school: String,
    pub name: String,
    pub level: String,
    pub course: String,
}

/// The rows that a ticket's schools and teachers occupy.
pub struct TicketRows {
    pub schools: Vec<SchoolRow>,
    pub teachers: Vec<TeacherRow>,
}

pub struct SchoolRowView {
    pub ticket_id: int,
    pub school: Seq<char>,
    pub coordinator: Seq<char>,
}

pub struct TeacherRowView {
    pub ticket_id: int,
    pub school: Seq<char>,
    pub name: Seq<char>,
    pub level: Seq<char>,
    pub course: Seq<char>,
}

pub struct RosterView {
    pub school: Seq<char>,
    pub name: Seq<char>,
    pub level: Seq<char>,
    pub course: Seq<char>,
}

impl View for SchoolRow {
    type V = SchoolRowView;

    open spec fn view(&self) -> SchoolRowView {
        SchoolRowView {
            ticket_id: self.ticket_id as int,
            school: self.school@,
            coordinator: self.coordinator@,
        }
    }
}

impl View for TeacherRow {
    type V = TeacherRowView;

    open spec fn view(&self) -> TeacherRowView {
        TeacherRowView {
            ticket_id: self.ticket_id as int,
            school: self.school@,
            name: self.name@,
            level: self.level@,
            course: self.course@,
        }
    }
}

impl View for RosterRecord {
    type V = RosterView;

    open spec fn view(&self) -> RosterView {
        RosterView { school: self.school@, name: self.name@, level: self.level@, course: self.course@ }
    }
}

/// The `ticket_schools` row of a school on ticket `id`.
pub open spec fn school_row_of(id: int, s: SchoolEntry) -> SchoolRowView {
    SchoolRowView { ticket_id: id, school: s.school@, coordinator: s.coordinator@ }
}

/// The `ticket_schools` rows of ticket `id`: one per school, in form order.
pub open spec fn school_rows_of(id: int, schools: Seq<SchoolEntry>) -> Seq<SchoolRowView> {
    schools.map_values(|s: SchoolEntry| school_row_of(id, s))
}

/// The row of a teacher of `school` on ticket `id`.
pub open spec fn teacher_row_of(id: int, school: Seq<char>, t: TeacherEntry) -> TeacherRowView {
    TeacherRowView { ticket_id: id, school, name: t.name@, level: t.level@, course: t.course@ }
}

/// The teacher rows of one school on ticket `id`, in form order.
pub open spec fn school_roster(id: int, s: SchoolEntry) -> Seq<TeacherRowView> {
    s.teachers@.map_values(|t: TeacherEntry| teacher_row_of(id, s.school@, t))
}

/// The `ticket_teachers` rows of ticket `id`: the teachers of its first
/// school, then those of its second, and so on, each with its school.
pub open spec fn roster_of(id: int, schools: Seq<SchoolEntry>) -> Seq<TeacherRowView>
    decreases schools.len(),
{
    if schools.len() == 0 {
        Seq::empty()
    } else {
        roster_of(id, schools.drop_last()) + school_roster(id, schools.last())
    }
}

/// The views of a vector of rows.
pub open spec fn school_row_views(v: Seq<SchoolRow>) -> Seq<SchoolRowView> {
    v.map_values(|r: SchoolRow| r@)
}

/// The views of a vector of rows.
pub open spec fn teacher_row_views(v: Seq<TeacherRow>) -> Seq<TeacherRowView> {
    v.map_values(|r: TeacherRow| r@)
}

fn teacher_row(id: i64, school: &String, t: &TeacherEntry) -> (r: TeacherRow)
    ensures
        r@ == teacher_row_of(id as int, school@, *t),
{
    TeacherRow {
        ticket_id: id,
        school: school.clone(),
        name: t.name.clone(),
        level: t.level.clone(),
        course: t.course.clone(),
    }
}

/// The rows that ticket `ticket_id` writes for its schools and teachers:
/// one `ticket_schools` row per school and one `ticket_teachers` row per
/// teacher of each school, all in the order of the form.
pub fn ticket_rows(ticket_id: i64, schools: &Vec<SchoolEntry>) -> (r: TicketRows)
    ensures
        school_row_views(r.schools@) == school_rows_of(ticket_id as int, schools@),
        teacher_row_views(r.teachers@) == roster_of(ticket_id as int, schools@),
        r.schools@.len() == schools@.len(),
        forall|k: int| 0 <= k < schools@.len() ==> {
            &&& (#[trigger] r.schools@[k]).ticket_id == ticket_id
            &&& r.schools@[k].school@ == schools@[k].school@
            &&& r.schools@[k].coordinator@ == schools@[k].coordinator@
        },
        r.teachers@.len() == teacher_total(schools@),
        forall|i: int, j: int| 0 <= i < schools@.len() && 0 <= j < schools@[i].teachers@.len() ==>
            #[trigger] r.teachers@[teacher_total(schools@.take(i)) + j]@
                == teacher_row_of(ticket_id as int, schools@[i].school@, #[trigger] schools@[i].teachers@[j]),
{
    let ghost id = ticket_id as int;
    let mut srows: Vec<SchoolRow> = Vec::new();
    let mut trows: Vec<TeacherRow> = Vec::new();
    let mut i: usize = 0;
    while i < schools.len()
        invariant
            id == ticket_id as int,
            i <= schools@.len(),
            srows@.len() == i,
            school_row_views(srows@) == school_rows_of(id, schools@.take(i as int)),
            teacher_row_views(trows@) == roster_of(id, schools@.take(i as int)),
        decreases schools.len() - i,
    {
        let s = &schools[i];
        assert(schools@.take(i + 1).drop_last() =~= schools@.take(i as int));
        let ghost sbefore = srows@;
        let row = SchoolRow { ticket_id, school: s.school.clone(), coordinator: s.coordinator.clone() };
        assert(row@ == school_row_of(id, *s));
        srows.push(row);
        assert(school_row_views(srows@) =~= school_row_views(sbefore).push(row@));
        assert(school_rows_of(id, schools@.take(i + 1)) =~= school_rows_of(id, schools@.take(i as int)).push(school_row_of(id, *s)));
        let ghost before = teacher_row_views(trows@);
        assert(before.len() == trows@.len());
        let mut j: usize = 0;
        while j < s.teachers.len()
            invariant
                id == ticket_id as int,
                j <= s.teachers@.len(),
                trows@.len() == before.len() + j,
                teacher_row_views(trows@) == before + school_roster(id, *s).take(j as int),
            decreases s.teachers.len() - j,
        {
            let ghost tbefore = trows@;
            let row = teacher_row(ticket_id, &s.school, &s.teachers[j]);
            assert(row@ == school_roster(id, *s)[j as int]);
            trows.push(row);
            assert(teacher_row_views(trows@) =~= teacher_row_views(tbefore).push(row@));
            assert(school_roster(id, *s).take(j + 1) =~= school_roster(id, *s).take(j as int).push(row@));
            assert(teacher_row_views(trows@) =~= before + school_roster(id, *s).take(j + 1));
            j = j + 1;
        }
        assert(school_roster(id, *s).take(j as int) =~= school_roster(id, *s));
        assert(schools@.take(i + 1).last() == *s);
        i = i + 1;
    }
    assert(schools@.take(i as int) =~= schools@);
    proof {
        lemma_school_rows_positions(id, schools@);
        lemma_roster_positions(id, schools@);
        assert forall|k: int| 0 <= k < schools@.len() implies {
            &&& (#[trigger] srows@[k]).ticket_id == ticket_id
            &&& srows@[k].school@ == schools@[k].school@
            &&& srows@[k].coordinator@ == schools@[k].coordinator@
        } by {
            assert(school_row_views(srows@)[k] == srows@[k]@);
        }
        assert forall|a: int, b: int| 0 <= a < schools@.len() && 0 <= b < schools@[a].teachers@.len() implies
            #[trigger] trows@[teacher_total(schools@.take(a)) + b]@
                == teacher_row_of(id, schools@[a].school@, #[trigger] schools@[a].teachers@[b]) by {
            let n = teacher_total(schools@.take(a)) + b;
            lemma_teacher_total_prefix(schools@, a);
            assert(roster_of(id, schools@)[n] == teacher_row_of(id, schools@[a].school@, schools@[a].teachers@[b]));
            assert(teacher_row_views(trows@)[n] == trows@[n]@);
        }
    }
    TicketRows { schools: srows, teachers: trows }
}

/// The history row of a rostered teacher on ticket `id`.
pub open spec fn history_row_of(id: int, r: RosterView) -> TeacherRowView {
    TeacherRowView { ticket_id: id, school: r.school, name: r.name, level: r.level, course: r.course }
}

/// The `teachers` history rows that a completed ticket `id` records: one per
/// teacher of its roster, in roster order.
pub open spec fn history_of(id: int, roster: Seq<RosterView>) -> Seq<TeacherRowView> {
    roster.map_values(|r: RosterView| history_row_of(id, r))
}

/// The history rows for the roster of ticket `ticket_id`, which the desk
/// writes to the `teachers` table once the ticket is done.
pub fn history_rows(ticket_id: i64, roster: Vec<RosterRecord>) -> (r: Vec<TeacherRow>)
    ensures
        teacher_row_views(r@) == history_of(ticket_id as int, roster@.map_values(|x: RosterRecord| x@)),
        r@.len() == roster@.len(),
        forall|k: int| 0 <= k < roster@.len() ==> {
            &&& (#[trigger] r@[k]).ticket_id == ticket_id
            &&& r@[k].school@ == roster@[k].school@
            &&& r@[k].name@ == roster@[k].name@
            &&& r@[k].level@ == roster@[k].level@
            &&& r@[k].course@ == roster@[k].course@
        },
{
    let ghost all = roster@;
    let ghost id = ticket_id as int;
    let mut rows: Vec<TeacherRow> = Vec::new();
    for rec in it: roster
        invariant
            it.seq() == all,
            id == ticket_id as int,
            teacher_row_views(rows@) == history_of(id, it.seq().take(it.index() as int).map_values(|x: RosterRecord| x@)),
    {
        let ghost seen = it.seq().take(it.index() as int);
        let ghost rv = rec@;
        let ghost rbefore = rows@;
        let row = TeacherRow {
            ticket_id,
            school: rec.school,
            name: rec.name,
            level: rec.level,
            course: rec.course,
        };
        assert(row@ == history_row_of(id, rv));
        rows.push(row);
        assert(teacher_row_views(rows@) =~= teacher_row_views(rbefore).push(row@));
        assert(it.seq().take(it.index() + 1) =~= seen.push(rec));
        assert(it.seq().take(it.index() + 1).map_values(|x: RosterRecord| x@) =~= seen.map_values(|x: RosterRecord| x@).push(rv));
        assert(teacher_row_views(rows@) =~= history_of(id, it.seq().take(it.index() + 1).map_values(|x: RosterRecord| x@)));
    }
    assert(all.take(all.len() as int) =~= all);
    proof {
        let rv = all.map_values(|x: RosterRecord| x@);
        lemma_history_positions(id, rv);
        assert forall|k: int| 0 <= k < all.len() implies {
            &&& (#[trigger] rows@[k]).ticket_id == ticket_id
            &&& rows@[k].school@ == all[k].school@
            &&& rows@[k].name@ == all[k].name@
            &&& rows@[k].level@ == all[k].level@
            &&& rows@[k].course@ == all[k].course@
        } by {
            assert(teacher_row_views(rows@)[k] == rows@[k]@);
            assert(rv[k] == all[k]@);
        }
    }
    rows
}

/// Whether a ticket counts as done: its `done` column holds 1. A missing
/// or unreadable value counts as 0.
pub fn is_completed(done: Option<i32>) -> (r: bool)
    ensures
        r == (done == Some(1i32)),
{
    match done {
        Some(d) => d == 1,
        None => false,
    }
}

} // verus!

verus! {

/// What reading a teacher row back from `ticket_teachers` gives: its school,
/// name, level and course.
pub open spec fn roster_record_of(r: TeacherRowView) -> RosterView {
    RosterView { school: r.school, name: r.name, level: r.level, course: r.course }
}

/// How many teachers the schools of a ticket list in all.
pub open spec fn teacher_total(schools: Seq<SchoolEntry>) -> nat
    decreases schools.len(),
{
    if schools.len() == 0 {
        0
    } else {
        teacher_total(schools.drop_last()) + schools.last().teachers@.len()
    }
}

/// Every teacher that a ticket lists gets exactly one `ticket_teachers` row,
/// every such row carries the ticket's id, and a row's school is one of the
/// ticket's schools.
pub proof fn lemma_roster_rows(id: int, schools: Seq<SchoolEntry>)
    ensures
        roster_of(id, schools).len() == teacher_total(schools),
        forall|k: int| 0 <= k < roster_of(id, schools).len() ==> #[trigger] roster_of(id, schools)[k].ticket_id == id,
        forall|k: int| 0 <= k < roster_of(id, schools).len() ==> exists|i: int| 0 <= i < schools.len()
            && #[trigger] roster_of(id, schools)[k].school == schools[i].school@,
    decreases schools.len(),
{
    if schools.len() > 0 {
        let front = schools.drop_last();
        let last = schools.last();
        lemma_roster_rows(id, front);
        let r = roster_of(id, schools);
        let fr = roster_of(id, front);
        assert forall|k: int| 0 <= k < r.len() implies exists|i: int| 0 <= i < schools.len()
            && #[trigger] r[k].school == schools[i].school@ by {
            if k < fr.len() {
                let i = choose|i: int| 0 <= i < front.len() && fr[k].school == front[i].school@;
                assert(schools[i] == front[i]);
            } else {
                assert(r[k] == school_roster(id, last)[k - fr.len()]);
                assert(schools[schools.len() - 1] == last);
            }
        }
    }
}

/// Once a ticket is done its history repeats its roster: the history rows
/// made from the roster as read back from `ticket_teachers` are the very rows
/// that the ticket wrote there.
pub proof fn lemma_history_repeats_roster(id: int, schools: Seq<SchoolEntry>)
    ensures
        history_of(id, roster_of(id, schools).map_values(|r: TeacherRowView| roster_record_of(r)))
            == roster_of(id, schools),
{
    lemma_roster_rows(id, schools);
    let r = roster_of(id, schools);
    let h = history_of(id, r.map_values(|x: TeacherRowView| roster_record_of(x)));
    assert forall|k: int| 0 <= k < r.len() implies h[k] == r[k] by {
        assert(roster_of(id, schools)[k].ticket_id == id);
    }
    assert(h =~= r);
}

} // verus!

verus! {

/// The school rows of a ticket follow the form position by position: the
/// `k`-th row is the `k`-th school with the ticket's id, and there is one row
/// per school.
pub proof fn lemma_school_rows_positions(id: int, schools: Seq<SchoolEntry>)
    ensures
        school_rows_of(id, schools).len() == schools.len(),
        forall|k: int| 0 <= k < schools.len() ==> {
            &&& (#[trigger] school_rows_of(id, schools)[k]).ticket_id == id
            &&& school_rows_of(id, schools)[k].school == schools[k].school@
            &&& school_rows_of(id, schools)[k].coordinator == schools[k].coordinator@
        },
{
}

/// The teachers of the schools before school `i` come before it, and all of
/// them together are no more than the ticket's teachers.
proof fn lemma_teacher_total_prefix(schools: Seq<SchoolEntry>, i: int)
    requires
        0 <= i < schools.len(),
    ensures
        teacher_total(schools.take(i)) + schools[i].teachers@.len() <= teacher_total(schools),
    decreases schools.len(),
{
    let front = schools.drop_last();
    if i == schools.len() - 1 {
        assert(schools.take(i) =~= front);
    } else {
        assert(schools.take(i) =~= front.take(i));
        assert(front[i] == schools[i]);
        lemma_teacher_total_prefix(front, i);
    }
}

/// Teacher rows follow the form: the rows of school `i` come right after the
/// rows of the schools before it, teacher `j` of school `i` at position
/// (teachers of the earlier schools) + `j`, carrying the ticket id and
/// school `i`'s name.
pub proof fn lemma_roster_positions(id: int, schools: Seq<SchoolEntry>)
    ensures
        roster_of(id, schools).len() == teacher_total(schools),
        forall|i: int, j: int| 0 <= i < schools.len() && 0 <= j < schools[i].teachers@.len() ==>
            #[trigger] roster_of(id, schools)[teacher_total(schools.take(i)) + j]
                == teacher_row_of(id, schools[i].school@, #[trigger] schools[i].teachers@[j]),
    decreases schools.len(),
{
    lemma_roster_rows(id, schools);
    if schools.len() > 0 {
        let front = schools.drop_last();
        let last = schools.last();
        lemma_roster_positions(id, front);
        assert forall|i: int, j: int| 0 <= i < schools.len() && 0 <= j < schools[i].teachers@.len() implies
            #[trigger] roster_of(id, schools)[teacher_total(schools.take(i)) + j]
                == teacher_row_of(id, schools[i].school@, #[trigger] schools[i].teachers@[j]) by {
            if i == schools.len() - 1 {
                assert(schools.take(i) =~= front);
                assert(schools[i] == last);
            } else {
                assert(schools.take(i) =~= front.take(i));
                assert(front[i] == schools[i]);
                lemma_teacher_total_prefix(front, i);
                lemma_roster_rows(id, front);
                assert(roster_of(id, schools)[teacher_total(front.take(i)) + j]
                    == roster_of(id, front)[teacher_total(front.take(i)) + j]);
            }
        }
    }
}

/// The history of a done ticket holds one row per rostered teacher, in
/// roster order, each with the ticket's id and that teacher's school, name,
/// level and course.
pub proof fn lemma_history_positions(id: int, roster: Seq<RosterView>)
    ensures
        history_of(id, roster).len() == roster.len(),
        forall|k: int| 0 <= k < roster.len() ==> {
            &&& (#[trigger] history_of(id, roster)[k]).ticket_id == id
            &&& history_of(id, roster)[k].school == roster[k].school
            &&& history_of(id, roster)[k].name == roster[k].name
            &&& history_of(id, roster)[k].level == roster[k].level
            &&& history_of(id, roster)[k].course == roster[k].course
        },
{
}

} // verus!
