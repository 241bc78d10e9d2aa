//! Courses by instructor, and the rows in which courses and curricula are listed.

use crate::text::{
    is_text_less, lemma_text_less_total, lemma_text_less_transitive, text_less,
};
use crate::types::{
    chapter_views, course_views, Chapter, ChapterView, Course, CourseView,
};
use vstd::prelude::*;

verus! {

// ---------------------------------------------------------------------- groups

/// The courses of one instructor.
#[derive(Debug)]
pub struct CourseGroup {
    pub instructor: String,
    pub courses: Vec<Course>,
    /// Whether the courses are shown.
    pub expanded: bool,
}

/// What a [`CourseGroup`] holds.
#[verifier::ext_equal]
pub struct GroupView {
    pub instructor: Seq<char>,
    pub courses: Seq<CourseView>,
    pub expanded: bool,
}

impl View for CourseGroup {
    type V = GroupView;

    open spec fn view(&self) -> GroupView {
        GroupView {
            instructor: self.instructor@,
            courses: course_views(self.courses@),
            expanded: self.expanded,
        }
    }
}

/// What `groups` hold.
pub open spec fn group_views(groups: Seq<CourseGroup>) -> Seq<GroupView> {
    groups.map_values(|g: CourseGroup| g@)
}

/// Whether a course is by `instructor`.
pub open spec fn is_by(instructor: Seq<char>) -> spec_fn(CourseView) -> bool {
    |c: CourseView| c.instructor == instructor
}

/// The courses by `instructor`, in order.
pub open spec fn courses_by(courses: Seq<CourseView>, instructor: Seq<char>) -> Seq<CourseView> {
    courses.filter(is_by(instructor))
}

/// Whether a group with the name `instructor` is among `groups`.
pub open spec fn has_group(groups: Seq<GroupView>, instructor: Seq<char>) -> bool {
    exists|i: int| 0 <= i < groups.len() && (#[trigger] groups[i]).instructor == instructor
}

/// Whether the names of the groups ascend.
pub open spec fn names_ascend(groups: Seq<GroupView>) -> bool {
    forall|i: int, j: int|
        0 <= i < j < groups.len() ==> text_less(
            (#[trigger] groups[i]).instructor,
            (#[trigger] groups[j]).instructor,
        )
}

/// Whether `groups` are `courses` by instructor: the groups are in alphabetical order,
/// no two have the same name, each holds all the courses by its instructor in the order
/// in which they came, every course is in a group, and every group is collapsed.
pub open spec fn is_grouping(groups: Seq<GroupView>, courses: Seq<CourseView>) -> bool {
    &&& names_ascend(groups)
    &&& forall|i: int|
        0 <= i < groups.len() ==> is_group_of(#[trigger] groups[i], courses)
    &&& forall|k: int|
        0 <= k < courses.len() ==> has_group(groups, (#[trigger] courses[k]).instructor)
}

/// Whether `group` holds what `courses` have of its instructor, and that is not nothing.
pub open spec fn is_group_of(group: GroupView, courses: Seq<CourseView>) -> bool {
    &&& group.courses == courses_by(courses, group.instructor)
    &&& group.courses.len() > 0
    &&& !group.expanded
}

proof fn lemma_courses_by_push(courses: Seq<CourseView>, c: CourseView, instructor: Seq<char>)
    ensures
        courses_by(courses.push(c), instructor) == if c.instructor == instructor {
            courses_by(courses, instructor).push(c)
        } else {
            courses_by(courses, instructor)
        },
{
    reveal(Seq::filter);
    assert(courses.push(c).drop_last() =~= courses);
}

proof fn lemma_no_courses_by(courses: Seq<CourseView>, instructor: Seq<char>)
    requires
        forall|k: int| 0 <= k < courses.len() ==> (#[trigger] courses[k]).instructor != instructor,
    ensures
        courses_by(courses, instructor).len() == 0,
    decreases courses.len(),
{
    reveal(Seq::filter);
    if courses.len() > 0 {
        let before = courses.drop_last();
        assert forall|k: int| 0 <= k < before.len() implies (#[trigger] before[k]).instructor
            != instructor by {
            assert(before[k] == courses[k]);
        }
        lemma_no_courses_by(before, instructor);
        assert(courses.last().instructor != instructor);
    }
}

/// The position of the first group whose name does not come before `instructor`.
fn group_position(groups: &Vec<CourseGroup>, instructor: &String) -> (p: usize)
    requires
        names_ascend(group_views(groups@)),
    ensures
        p <= groups.len(),
        forall|i: int|
            0 <= i < p ==> text_less((#[trigger] groups@[i]).instructor@, instructor@),
        p < groups.len() ==> !text_less(groups@[p as int].instructor@, instructor@),
{
    let mut p: usize = 0;
    while p < groups.len()
        invariant
            p <= groups.len(),
            forall|i: int|
                0 <= i < p ==> text_less((#[trigger] groups@[i]).instructor@, instructor@),
        decreases groups.len() - p,
    {
        if !is_text_less(groups[p].instructor.as_str(), instructor.as_str()) {
            return p;
        }
        p += 1;
    }
    p
}

proof fn lemma_grown_grouping(
    before: Seq<GroupView>,
    after: Seq<GroupView>,
    courses: Seq<CourseView>,
    c: CourseView,
    p: int,
)
    requires
        is_grouping(before, courses),
        0 <= p < before.len(),
        before[p].instructor == c.instructor,
        after == before.update(
            p,
            GroupView {
                instructor: c.instructor,
                courses: before[p].courses.push(c),
                expanded: before[p].expanded,
            },
        ),
    ensures
        is_grouping(after, courses.push(c)),
{
    let more = courses.push(c);
    assert(names_ascend(after)) by {
        assert forall|i: int, j: int| 0 <= i < j < after.len() implies text_less(
            (#[trigger] after[i]).instructor,
            (#[trigger] after[j]).instructor,
        ) by {
            assert(text_less(before[i].instructor, before[j].instructor));
        }
    }
    assert forall|i: int| 0 <= i < after.len() implies is_group_of(#[trigger] after[i], more) by {
        assert(is_group_of(before[i], courses));
        lemma_courses_by_push(courses, c, after[i].instructor);
        if i != p {
            if i < p {
                assert(text_less(before[i].instructor, before[p].instructor));
                lemma_text_less_total(before[i].instructor, before[p].instructor);
            } else {
                assert(text_less(before[p].instructor, before[i].instructor));
                lemma_text_less_total(before[p].instructor, before[i].instructor);
            }
        }
    }
    assert forall|k: int| 0 <= k < more.len() implies has_group(
        after,
        (#[trigger] more[k]).instructor,
    ) by {
        if k < courses.len() {
            assert(has_group(before, courses[k].instructor));
            let i = choose|i: int|
                0 <= i < before.len() && (#[trigger] before[i]).instructor
                    == courses[k].instructor;
            assert(after[i].instructor == courses[k].instructor);
        } else {
            assert(after[p].instructor == c.instructor);
        }
    }
}

proof fn lemma_extended_grouping(
    before: Seq<GroupView>,
    after: Seq<GroupView>,
    courses: Seq<CourseView>,
    c: CourseView,
    p: int,
)
    requires
        is_grouping(before, courses),
        0 <= p <= before.len(),
        forall|i: int|
            0 <= i < p ==> text_less((#[trigger] before[i]).instructor, c.instructor),
        p < before.len() ==> !text_less(before[p].instructor, c.instructor)
            && before[p].instructor != c.instructor,
        after == before.insert(
            p,
            GroupView { instructor: c.instructor, courses: seq![c], expanded: false },
        ),
    ensures
        is_grouping(after, courses.push(c)),
{
    let more = courses.push(c);
    let name = c.instructor;
    assert forall|i: int| p <= i < before.len() implies text_less(
        name,
        (#[trigger] before[i]).instructor,
    ) by {
        lemma_text_less_total(before[p].instructor, name);
        assert(text_less(name, before[p].instructor));
        if p < i {
            assert(text_less(before[p].instructor, before[i].instructor));
            lemma_text_less_transitive(name, before[p].instructor, before[i].instructor);
        }
    }
    assert forall|i: int| 0 <= i < before.len() implies (#[trigger] before[i]).instructor
        != name by {
        if i < p {
            lemma_text_less_total(before[i].instructor, name);
        } else {
            lemma_text_less_total(name, before[i].instructor);
        }
    }
    assert forall|i: int| 0 <= i < after.len() implies after[i] == if i < p {
        before[i]
    } else if i == p {
        GroupView { instructor: name, courses: seq![c], expanded: false }
    } else {
        before[i - 1]
    } by {}
    assert(names_ascend(after)) by {
        assert forall|i: int, j: int| 0 <= i < j < after.len() implies text_less(
            (#[trigger] after[i]).instructor,
            (#[trigger] after[j]).instructor,
        ) by {
            let a = if i < p { i } else { i - 1 };
            let b = if j < p { j } else { j - 1 };
            if i != p && j != p {
                assert(text_less(before[a].instructor, before[b].instructor));
            } else if j == p {
                assert(text_less(before[a].instructor, name));
            } else {
                assert(text_less(name, before[b].instructor));
            }
        }
    }
    assert forall|k: int| 0 <= k < courses.len() implies (#[trigger] courses[k]).instructor
        != name by {
        assert(has_group(before, courses[k].instructor));
    }
    lemma_no_courses_by(courses, name);
    lemma_courses_by_push(courses, c, name);
    assert(courses_by(courses, name).push(c) =~= seq![c]);
    assert forall|i: int| 0 <= i < after.len() implies is_group_of(#[trigger] after[i], more) by {
        if i != p {
            let a = if i < p { i } else { i - 1 };
            assert(is_group_of(before[a], courses));
            lemma_courses_by_push(courses, c, before[a].instructor);
        }
    }
    assert forall|k: int| 0 <= k < more.len() implies has_group(
        after,
        (#[trigger] more[k]).instructor,
    ) by {
        if k < courses.len() {
            assert(has_group(before, courses[k].instructor));
            let a = choose|a: int|
                0 <= a < before.len() && (#[trigger] before[a]).instructor
                    == courses[k].instructor;
            let i = if a < p { a } else { a + 1 };
            assert(after[i].instructor == courses[k].instructor);
        } else {
            assert(after[p].instructor == name);
        }
    }
}

fn group_course(groups: &mut Vec<CourseGroup>, course: Course, Ghost(courses): Ghost<
    Seq<CourseView>,
>)
    requires
        is_grouping(group_views(old(groups)@), courses),
    ensures
        is_grouping(group_views(final(groups)@), courses.push(course@)),
{
    let ghost before = group_views(groups@);
    let ghost c = course@;
    let p: usize = group_position(groups, &course.instructor);
    assert forall|i: int| 0 <= i < p implies text_less(
        (#[trigger] before[i]).instructor,
        c.instructor,
    ) by {
        assert(before[i] == groups@[i]@);
    }
    if p < groups.len() && groups[p].instructor == course.instructor {
        let mut group = groups.remove(p);
        let ghost held = course_views(group.courses@);
        group.courses.push(course);
        proof {
            assert(course_views(group.courses@) =~= held.push(c));
        }
        let ghost grown = group@;
        groups.insert(p, group);
        proof {
            assert(group_views(groups@) =~= before.update(p as int, grown));
            assert(before[p as int].courses == held);
            lemma_grown_grouping(before, group_views(groups@), courses, c, p as int);
        }
    } else {
        let instructor = course.instructor.clone();
        let mut list: Vec<Course> = Vec::new();
        list.push(course);
        assert(course_views(list@) =~= seq![c]);
        let group = CourseGroup { instructor, courses: list, expanded: false };
        let ghost shown = group@;
        groups.insert(p, group);
        proof {
            assert(group_views(groups@) =~= before.insert(p as int, shown));
            lemma_extended_grouping(before, group_views(groups@), courses, c, p as int);
        }
    }
}

/// Groups courses by instructor, in alphabetical order.
pub fn build_course_groups(courses: Vec<Course>) -> (groups: Vec<CourseGroup>)
    ensures
        is_grouping(group_views(groups@), course_views(courses@)),
{
    let ghost all = course_views(courses@);
    let mut groups: Vec<CourseGroup> = Vec::new();
    let mut i: usize = 0;
    assert(is_grouping(group_views(groups@), all.take(0)));
    while i < courses.len()
        invariant
            i <= courses.len(),
            all == course_views(courses@),
            is_grouping(group_views(groups@), all.take(i as int)),
        decreases courses.len() - i,
    {
        assert(all.take(i + 1) =~= all.take(i as int).push(courses@[i as int]@));
        group_course(&mut groups, courses[i].clone(), Ghost(all.take(i as int)));
        i += 1;
    }
    assert(all.take(i as int) =~= all);
    groups
}

/// A group of one grouping has a counterpart in another.
proof fn lemma_has_counterpart(
    groups: Seq<GroupView>,
    other: Seq<GroupView>,
    courses: Seq<CourseView>,
    i: int,
)
    requires
        is_grouping(groups, courses),
        is_grouping(other, courses),
        0 <= i < groups.len(),
    ensures
        has_group(other, groups[i].instructor),
{
    let name = groups[i].instructor;
    assert(is_group_of(groups[i], courses));
    if forall|k: int| 0 <= k < courses.len() ==> (#[trigger] courses[k]).instructor != name {
        lemma_no_courses_by(courses, name);
    } else {
        let k = choose|k: int| 0 <= k < courses.len() && (#[trigger] courses[k]).instructor == name;
        assert(has_group(other, courses[k].instructor));
    }
}

proof fn lemma_same_groups(
    groups: Seq<GroupView>,
    other: Seq<GroupView>,
    courses: Seq<CourseView>,
    k: int,
)
    requires
        is_grouping(groups, courses),
        is_grouping(other, courses),
        0 <= k <= groups.len(),
    ensures
        k <= other.len(),
        groups.take(k) == other.take(k),
    decreases k,
{
    if k > 0 {
        let m = k - 1;
        lemma_same_groups(groups, other, courses, m);
        assert forall|i: int| 0 <= i < m implies groups[i] == other[i] by {
            assert(groups.take(m)[i] == other.take(m)[i]);
        }
        let name = groups[m].instructor;
        lemma_has_counterpart(groups, other, courses, m);
        let j = choose|j: int| 0 <= j < other.len() && (#[trigger] other[j]).instructor == name;
        if j < m {
            assert(text_less(groups[j].instructor, groups[m].instructor));
            lemma_text_less_total(groups[j].instructor, groups[m].instructor);
        } else if j > m {
            let early = other[m].instructor;
            assert(text_less(other[m].instructor, other[j].instructor));
            lemma_text_less_total(early, name);
            lemma_has_counterpart(other, groups, courses, m);
            let i = choose|i: int| 0 <= i < groups.len() && (#[trigger] groups[i]).instructor
                == early;
            if i < m {
                assert(text_less(other[i].instructor, other[m].instructor));
                lemma_text_less_total(other[i].instructor, other[m].instructor);
            } else if i > m {
                assert(text_less(groups[m].instructor, groups[i].instructor));
                lemma_text_less_total(name, early);
            }
            assert(false);
        }
        assert(is_group_of(groups[m], courses));
        assert(is_group_of(other[m], courses));
        assert(groups[m] =~= other[m]);
        assert(groups.take(k) =~= groups.take(m).push(groups[m]));
        assert(other.take(k) =~= other.take(m).push(other[m]));
    }
}

/// Courses can be grouped in one way only.
pub proof fn law_grouping_is_unique(
    groups: Seq<GroupView>,
    other: Seq<GroupView>,
    courses: Seq<CourseView>,
)
    requires
        is_grouping(groups, courses),
        is_grouping(other, courses),
    ensures
        groups == other,
{
    lemma_same_groups(groups, other, courses, groups.len() as int);
    lemma_same_groups(other, groups, courses, other.len() as int);
    assert(groups.take(groups.len() as int) =~= groups);
    assert(other.take(other.len() as int) =~= other);
}

// ------------------------------------------------------------------------ rows

/// A row in the list of courses.
#[derive(Clone, Copy, Debug, PartialEq, Eq, Structural)]
pub enum CourseRow {
    /// The group with this index.
    Group(usize),
    /// A group's index, and the index of a course in it.
    Course(usize, usize),
}

/// A row in the list of chapters and lectures.
#[derive(Clone, Copy, Debug, PartialEq, Eq, Structural)]
pub enum CurriculumRow {
    /// The chapter with this index.
    Chapter(usize),
    /// A chapter's index, and the index of a lecture in it.
    Lecture(usize, usize),
}

/// The rows of group `gi`: its heading and, if it is expanded, its courses.
pub open spec fn group_rows(gi: int, group: GroupView) -> Seq<CourseRow> {
    let heading = seq![CourseRow::Group(gi as usize)];
    if group.expanded {
        heading + Seq::new(
            group.courses.len(),
            |ci: int| CourseRow::Course(gi as usize, ci as usize),
        )
    } else {
        heading
    }
}

/// The rows of `groups`, in order.
pub open spec fn course_rows_of(groups: Seq<GroupView>) -> Seq<CourseRow>
    decreases groups.len(),
{
    if groups.len() == 0 {
        seq![]
    } else {
        course_rows_of(groups.drop_last()) + group_rows(groups.len() - 1, groups.last())
    }
}

/// The rows of chapter `ci`: its heading and, if it is expanded, its lectures.
pub open spec fn chapter_rows(ci: int, chapter: ChapterView) -> Seq<CurriculumRow> {
    let heading = seq![CurriculumRow::Chapter(ci as usize)];
    if chapter.expanded {
        heading + Seq::new(
            chapter.lectures.len(),
            |li: int| CurriculumRow::Lecture(ci as usize, li as usize),
        )
    } else {
        heading
    }
}

/// The rows of `chapters`, in order.
pub open spec fn curriculum_rows_of(chapters: Seq<ChapterView>) -> Seq<CurriculumRow>
    decreases chapters.len(),
{
    if chapters.len() == 0 {
        seq![]
    } else {
        curriculum_rows_of(chapters.drop_last()) + chapter_rows(
            chapters.len() - 1,
            chapters.last(),
        )
    }
}

fn push_group_rows(rows: &mut Vec<CourseRow>, gi: usize, group: &CourseGroup)
    ensures
        final(rows)@ == old(rows)@ + group_rows(gi as int, group@),
{
    let ghost before = rows@;
    let ghost heading = seq![CourseRow::Group(gi)];
    rows.push(CourseRow::Group(gi));
    if group.expanded {
        let mut ci: usize = 0;
        while ci < group.courses.len()
            invariant
                ci <= group.courses.len(),
                heading == seq![CourseRow::Group(gi)],
                rows@ == before + (heading + Seq::new(
                    ci as nat,
                    |ci: int| CourseRow::Course(gi, ci as usize),
                )),
            decreases group.courses.len() - ci,
        {
            rows.push(CourseRow::Course(gi, ci));
            ci += 1;
            assert(rows@ =~= before + (heading + Seq::new(
                ci as nat,
                |ci: int| CourseRow::Course(gi, ci as usize),
            )));
        }
    }
    assert(rows@ =~= before + group_rows(gi as int, group@));
}

/// Gives the rows of `groups`.
pub fn list_course_rows(groups: &Vec<CourseGroup>) -> (rows: Vec<CourseRow>)
    ensures
        rows@ == course_rows_of(group_views(groups@)),
{
    let ghost all = group_views(groups@);
    let mut rows: Vec<CourseRow> = Vec::new();
    let mut gi: usize = 0;
    assert(rows@ =~= course_rows_of(all.take(0)));
    while gi < groups.len()
        invariant
            gi <= groups.len(),
            all == group_views(groups@),
            rows@ == course_rows_of(all.take(gi as int)),
        decreases groups.len() - gi,
    {
        assert(all.take(gi + 1).drop_last() =~= all.take(gi as int));
        assert(all.take(gi + 1).last() == groups@[gi as int]@);
        push_group_rows(&mut rows, gi, &groups[gi]);
        gi += 1;
    }
    assert(all.take(gi as int) =~= all);
    rows
}

fn push_chapter_rows(rows: &mut Vec<CurriculumRow>, ci: usize, chapter: &Chapter)
    ensures
        final(rows)@ == old(rows)@ + chapter_rows(ci as int, chapter@),
{
    let ghost before = rows@;
    let ghost heading = seq![CurriculumRow::Chapter(ci)];
    rows.push(CurriculumRow::Chapter(ci));
    if chapter.expanded {
        let mut li: usize = 0;
        while li < chapter.lectures.len()
            invariant
                li <= chapter.lectures.len(),
                heading == seq![CurriculumRow::Chapter(ci)],
                rows@ == before + (heading + Seq::new(
                    li as nat,
                    |li: int| CurriculumRow::Lecture(ci, li as usize),
                )),
            decreases chapter.lectures.len() - li,
        {
            rows.push(CurriculumRow::Lecture(ci, li));
            li += 1;
            assert(rows@ =~= before + (heading + Seq::new(
                li as nat,
                |li: int| CurriculumRow::Lecture(ci, li as usize),
            )));
        }
    }
    assert(rows@ =~= before + chapter_rows(ci as int, chapter@));
}

/// Gives the rows of `chapters`.
pub fn list_curriculum_rows(chapters: &Vec<Chapter>) -> (rows: Vec<CurriculumRow>)
    ensures
        rows@ == curriculum_rows_of(chapter_views(chapters@)),
{
    let ghost all = chapter_views(chapters@);
    let mut rows: Vec<CurriculumRow> = Vec::new();
    let mut ci: usize = 0;
    assert(rows@ =~= curriculum_rows_of(all.take(0)));
    while ci < chapters.len()
        invariant
            ci <= chapters.len(),
            all == chapter_views(chapters@),
            rows@ == curriculum_rows_of(all.take(ci as int)),
        decreases chapters.len() - ci,
    {
        assert(all.take(ci + 1).drop_last() =~= all.take(ci as int));
        assert(all.take(ci + 1).last() == chapters@[ci as int]@);
        push_chapter_rows(&mut rows, ci, &chapters[ci]);
        ci += 1;
    }
    assert(all.take(ci as int) =~= all);
    rows
}

/// Whether a row stands for something among `groups` that is to be seen.
pub open spec fn is_course_row(groups: Seq<GroupView>, row: CourseRow) -> bool {
    match row {
        CourseRow::Group(gi) => gi < groups.len(),
        CourseRow::Course(gi, ci) => gi < groups.len() && groups[gi as int].expanded && ci
            < groups[gi as int].courses.len(),
    }
}

/// Every row stands for something that is to be seen.
pub proof fn law_course_rows_are_shown(groups: Seq<GroupView>, k: int)
    requires
        groups.len() <= usize::MAX,
        forall|i: int| 0 <= i < groups.len() ==> (#[trigger] groups[i]).courses.len() <= usize::MAX,
        0 <= k < course_rows_of(groups).len(),
    ensures
        is_course_row(groups, course_rows_of(groups)[k]),
    decreases groups.len(),
{
    if groups.len() > 0 {
        let before = groups.drop_last();
        let n = course_rows_of(before).len();
        let gi = groups.len() - 1;
        if k < n {
            assert forall|i: int| 0 <= i < before.len() implies (#[trigger] before[i]).courses.len()
                <= usize::MAX by {
                assert(before[i] == groups[i]);
            }
            law_course_rows_are_shown(before, k);
            assert(course_rows_of(groups)[k] == course_rows_of(before)[k]);
        } else {
            assert(groups[gi].courses.len() <= usize::MAX);
            assert(course_rows_of(groups)[k] == group_rows(gi, groups[gi])[k - n]);
        }
    }
}

/// Whether a row stands for something among `chapters` that is to be seen.
pub open spec fn is_curriculum_row(chapters: Seq<ChapterView>, row: CurriculumRow) -> bool {
    match row {
        CurriculumRow::Chapter(ci) => ci < chapters.len(),
        CurriculumRow::Lecture(ci, li) => ci < chapters.len() && chapters[ci as int].expanded && li
            < chapters[ci as int].lectures.len(),
    }
}

/// Every row stands for something that is to be seen.
pub proof fn law_curriculum_rows_are_shown(chapters: Seq<ChapterView>, k: int)
    requires
        chapters.len() <= usize::MAX,
        forall|i: int|
            0 <= i < chapters.len() ==> (#[trigger] chapters[i]).lectures.len() <= usize::MAX,
        0 <= k < curriculum_rows_of(chapters).len(),
    ensures
        is_curriculum_row(chapters, curriculum_rows_of(chapters)[k]),
    decreases chapters.len(),
{
    if chapters.len() > 0 {
        let before = chapters.drop_last();
        let n = curriculum_rows_of(before).len();
        let ci = chapters.len() - 1;
        if k < n {
            assert forall|i: int|
                0 <= i < before.len() implies (#[trigger] before[i]).lectures.len()
                <= usize::MAX by {
                assert(before[i] == chapters[i]);
            }
            law_curriculum_rows_are_shown(before, k);
            assert(curriculum_rows_of(chapters)[k] == curriculum_rows_of(before)[k]);
        } else {
            assert(chapters[ci].lectures.len() <= usize::MAX);
            assert(curriculum_rows_of(chapters)[k] == chapter_rows(ci, chapters[ci])[k - n]);
        }
    }
}

/// `groups` with group `gi` expanded if it was collapsed, and collapsed if it was
/// expanded.
pub open spec fn group_toggled(groups: Seq<GroupView>, gi: int) -> Seq<GroupView> {
    groups.update(gi, GroupView { expanded: !groups[gi].expanded, ..groups[gi] })
}

/// `chapters` with chapter `ci` expanded if it was collapsed, and collapsed if it was
/// expanded.
pub open spec fn chapter_toggled(chapters: Seq<ChapterView>, ci: int) -> Seq<ChapterView> {
    chapters.update(ci, ChapterView { expanded: !chapters[ci].expanded, ..chapters[ci] })
}

/// Toggling a group leaves its heading, and the rows before it, where they are.
pub proof fn law_toggling_keeps_the_heading_of_a_group(groups: Seq<GroupView>, gi: int, k: int)
    requires
        0 <= gi < groups.len() <= usize::MAX,
        forall|i: int| 0 <= i < groups.len() ==> (#[trigger] groups[i]).courses.len() <= usize::MAX,
        0 <= k < course_rows_of(groups).len(),
        course_rows_of(groups)[k] == CourseRow::Group(gi as usize),
    ensures
        k < course_rows_of(group_toggled(groups, gi)).len(),
        course_rows_of(group_toggled(groups, gi)).take(k + 1) == course_rows_of(groups).take(k + 1),
    decreases groups.len(),
{
    let after = group_toggled(groups, gi);
    let before = groups.drop_last();
    let n = course_rows_of(before).len();
    let last = groups.len() - 1;
    if k < n {
        assert forall|i: int| 0 <= i < before.len() implies (#[trigger] before[i]).courses.len()
            <= usize::MAX by {
            assert(before[i] == groups[i]);
        }
        assert(course_rows_of(before)[k] == CourseRow::Group(gi as usize));
        law_course_rows_are_shown(before, k);
        law_toggling_keeps_the_heading_of_a_group(before, gi, k);
        assert(after.drop_last() =~= group_toggled(before, gi));
        assert(course_rows_of(after).take(k + 1) =~= course_rows_of(group_toggled(before, gi)).take(
            k + 1,
        ));
        assert(course_rows_of(groups).take(k + 1) =~= course_rows_of(before).take(k + 1));
    } else {
        assert(groups[last].courses.len() <= usize::MAX);
        assert(course_rows_of(groups)[k] == group_rows(last, groups[last])[k - n]);
        assert(gi == last && k == n);
        assert(after.drop_last() =~= before);
        assert(course_rows_of(after).take(k + 1) =~= course_rows_of(groups).take(k + 1));
    }
}

/// Toggling a chapter leaves its heading, and the rows before it, where they are.
pub proof fn law_toggling_keeps_the_heading_of_a_chapter(
    chapters: Seq<ChapterView>,
    ci: int,
    k: int,
)
    requires
        0 <= ci < chapters.len() <= usize::MAX,
        forall|i: int|
            0 <= i < chapters.len() ==> (#[trigger] chapters[i]).lectures.len() <= usize::MAX,
        0 <= k < curriculum_rows_of(chapters).len(),
        curriculum_rows_of(chapters)[k] == CurriculumRow::Chapter(ci as usize),
    ensures
        k < curriculum_rows_of(chapter_toggled(chapters, ci)).len(),
        curriculum_rows_of(chapter_toggled(chapters, ci)).take(k + 1) == curriculum_rows_of(
            chapters,
        ).take(k + 1),
    decreases chapters.len(),
{
    let after = chapter_toggled(chapters, ci);
    let before = chapters.drop_last();
    let n = curriculum_rows_of(before).len();
    let last = chapters.len() - 1;
    if k < n {
        assert forall|i: int| 0 <= i < before.len() implies (#[trigger] before[i]).lectures.len()
            <= usize::MAX by {
            assert(before[i] == chapters[i]);
        }
        assert(curriculum_rows_of(before)[k] == CurriculumRow::Chapter(ci as usize));
        law_curriculum_rows_are_shown(before, k);
        law_toggling_keeps_the_heading_of_a_chapter(before, ci, k);
        assert(after.drop_last() =~= chapter_toggled(before, ci));
        assert(curriculum_rows_of(after).take(k + 1) =~= curriculum_rows_of(
            chapter_toggled(before, ci),
        ).take(k + 1));
        assert(curriculum_rows_of(chapters).take(k + 1) =~= curriculum_rows_of(before).take(k + 1));
    } else {
        assert(chapters[last].lectures.len() <= usize::MAX);
        assert(curriculum_rows_of(chapters)[k] == chapter_rows(last, chapters[last])[k - n]);
        assert(ci == last && k == n);
        assert(after.drop_last() =~= before);
        assert(curriculum_rows_of(after).take(k + 1) =~= curriculum_rows_of(chapters).take(k + 1));
    }
}

// ------------------------------------------------------------------------ laws

/// A group holds courses of its instructor only, each of them, and in the order in which
/// they came; it is collapsed.
pub proof fn law_groups_hold_the_courses_of_an_instructor(
    groups: Seq<GroupView>,
    courses: Seq<CourseView>,
    i: int,
    k: int,
)
    requires
        is_grouping(groups, courses),
        0 <= i < groups.len(),
    ensures
        !groups[i].expanded,
        groups[i].courses.len() > 0,
        0 <= k < groups[i].courses.len() ==> groups[i].courses[k].instructor
            == groups[i].instructor && courses.contains(groups[i].courses[k]),
        0 <= k < courses.len() && courses[k].instructor == groups[i].instructor
            ==> groups[i].courses.contains(courses[k]),
        groups[i].courses == courses.filter(is_by(groups[i].instructor)),
{
    let name = groups[i].instructor;
    assert(is_group_of(groups[i], courses));
    if 0 <= k < groups[i].courses.len() {
        lemma_courses_by_member(courses, name, k);
    }
    if 0 <= k < courses.len() && courses[k].instructor == name {
        courses.lemma_filter_contains(is_by(name), k);
    }
}

proof fn lemma_courses_by_member(courses: Seq<CourseView>, name: Seq<char>, k: int)
    requires
        0 <= k < courses_by(courses, name).len(),
    ensures
        courses_by(courses, name)[k].instructor == name,
        courses.contains(courses_by(courses, name)[k]),
    decreases courses.len(),
{
    if courses.len() == 0 {
        lemma_no_courses_by(courses, name);
    } else {
        let before = courses.drop_last();
        let c = courses.last();
        lemma_courses_by_push(before, c, name);
        assert(before.push(c) =~= courses);
        if k < courses_by(before, name).len() {
            lemma_courses_by_member(before, name, k);
            let x = courses_by(before, name)[k];
            let j = choose|j: int| 0 <= j < before.len() && before[j] == x;
            assert(courses[j] == x);
        } else {
            assert(courses[courses.len() - 1] == c);
        }
    }
}

/// Every course is in a group: that of its instructor.
pub proof fn law_every_course_is_in_a_group(
    groups: Seq<GroupView>,
    courses: Seq<CourseView>,
    k: int,
) -> (i: int)
    requires
        is_grouping(groups, courses),
        0 <= k < courses.len(),
    ensures
        0 <= i < groups.len(),
        groups[i].instructor == courses[k].instructor,
        groups[i].courses.contains(courses[k]),
{
    assert(has_group(groups, courses[k].instructor));
    let i = choose|i: int|
        0 <= i < groups.len() && (#[trigger] groups[i]).instructor == courses[k].instructor;
    law_groups_hold_the_courses_of_an_instructor(groups, courses, i, k);
    i
}

/// The groups are in alphabetical order, so that no two have the same name.
pub proof fn law_groups_are_in_order(
    groups: Seq<GroupView>,
    courses: Seq<CourseView>,
    i: int,
    j: int,
)
    requires
        is_grouping(groups, courses),
        0 <= i < j < groups.len(),
    ensures
        text_less(groups[i].instructor, groups[j].instructor),
        groups[i].instructor != groups[j].instructor,
{
    assert(groups[i] == groups[i] && groups[j] == groups[j]);
    lemma_text_less_total(groups[i].instructor, groups[j].instructor);
}

/// Courses in the order in which they came make up a group in that order: those of a first
/// part of the list come before those of the rest.
pub proof fn law_courses_keep_their_order(
    a: Seq<CourseView>,
    b: Seq<CourseView>,
    c: CourseView,
    name: Seq<char>,
)
    ensures
        courses_by(a + b, name) == courses_by(a, name) + courses_by(b, name),
        c.instructor == name ==> courses_by(seq![c], name) == seq![c],
        c.instructor != name ==> courses_by(seq![c], name).len() == 0,
    decreases b.len(),
{
    lemma_no_courses_by(seq![], name);
    lemma_courses_by_push(seq![], c, name);
    assert(Seq::<CourseView>::empty().push(c) =~= seq![c]);
    assert(courses_by(seq![], name) =~= seq![]);
    assert(Seq::<CourseView>::empty().push(c) =~= courses_by(seq![], name).push(c));
    if b.len() == 0 {
        assert(a + b =~= a);
        assert(courses_by(b, name) =~= seq![]);
        assert(courses_by(a, name) + courses_by(b, name) =~= courses_by(a, name));
    } else {
        let fewer = b.drop_last();
        law_courses_keep_their_order(a, fewer, c, name);
        lemma_courses_by_push(a + fewer, b.last(), name);
        lemma_courses_by_push(fewer, b.last(), name);
        assert((a + fewer).push(b.last()) =~= a + b);
        assert(fewer.push(b.last()) =~= b);
        assert(courses_by(a + b, name) =~= courses_by(a, name) + courses_by(b, name));
    }
}

/// A group has one row, and one for each of its courses where it is expanded, behind the
/// rows of the groups before it.
pub proof fn law_expanded_groups_show_their_courses(
    groups: Seq<GroupView>,
    group: GroupView,
    k: int,
)
    requires
        groups.len() <= usize::MAX,
        group.courses.len() <= usize::MAX,
    ensures
        ({
            let before = course_rows_of(groups);
            let rows = course_rows_of(groups.push(group));
            let n = before.len() as int;
            &&& rows.take(n) == before
            &&& rows.len() == n + 1 + if group.expanded {
                group.courses.len()
            } else {
                0
            }
            &&& rows[n] == CourseRow::Group(groups.len() as usize)
            &&& group.expanded && 0 <= k < group.courses.len() ==> rows[n + 1 + k]
                == CourseRow::Course(groups.len() as usize, k as usize)
        }),
        course_rows_of(seq![]).len() == 0,
{
    let before = course_rows_of(groups);
    assert(groups.push(group).drop_last() =~= groups);
    assert(course_rows_of(groups.push(group)).take(before.len() as int) =~= before);
}

/// A chapter has one row, and one for each of its lectures where it is expanded, behind the
/// rows of the chapters before it.
pub proof fn law_expanded_chapters_show_their_lectures(
    chapters: Seq<ChapterView>,
    chapter: ChapterView,
    k: int,
)
    requires
        chapters.len() <= usize::MAX,
        chapter.lectures.len() <= usize::MAX,
    ensures
        ({
            let before = curriculum_rows_of(chapters);
            let rows = curriculum_rows_of(chapters.push(chapter));
            let n = before.len() as int;
            &&& rows.take(n) == before
            &&& rows.len() == n + 1 + if chapter.expanded {
                chapter.lectures.len()
            } else {
                0
            }
            &&& rows[n] == CurriculumRow::Chapter(chapters.len() as usize)
            &&& chapter.expanded && 0 <= k < chapter.lectures.len() ==> rows[n + 1 + k]
                == CurriculumRow::Lecture(chapters.len() as usize, k as usize)
        }),
        curriculum_rows_of(seq![]).len() == 0,
{
    let before = curriculum_rows_of(chapters);
    assert(chapters.push(chapter).drop_last() =~= chapters);
    assert(curriculum_rows_of(chapters.push(chapter)).take(before.len() as int) =~= before);
}

/// Toggling changes whether one group or one chapter is expanded, and nothing else; toggling
/// again undoes it.
pub proof fn law_toggling_changes_one_heading(
    groups: Seq<GroupView>,
    chapters: Seq<ChapterView>,
    i: int,
    j: int,
)
    ensures
        0 <= i < groups.len() ==> {
            let toggled = group_toggled(groups, i);
            &&& toggled.len() == groups.len()
            &&& toggled[i].expanded != groups[i].expanded
            &&& toggled[i].courses == groups[i].courses
            &&& toggled[i].instructor == groups[i].instructor
            &&& 0 <= j < groups.len() && j != i ==> toggled[j] == groups[j]
            &&& group_toggled(toggled, i) == groups
        },
        0 <= i < chapters.len() ==> {
            let toggled = chapter_toggled(chapters, i);
            &&& toggled.len() == chapters.len()
            &&& toggled[i].expanded != chapters[i].expanded
            &&& toggled[i].lectures == chapters[i].lectures
            &&& toggled[i].title == chapters[i].title
            &&& toggled[i].object_index == chapters[i].object_index
            &&& toggled[i].id == chapters[i].id
            &&& 0 <= j < chapters.len() && j != i ==> toggled[j] == chapters[j]
            &&& chapter_toggled(toggled, i) == chapters
        },
{
    if 0 <= i < groups.len() {
        assert(group_toggled(group_toggled(groups, i), i) =~= groups);
    }
    if 0 <= i < chapters.len() {
        assert(chapter_toggled(chapter_toggled(chapters, i), i) =~= chapters);
    }
}

} // verus!
