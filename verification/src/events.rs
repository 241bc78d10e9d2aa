//! What messages from the background do.

use crate::app::{opt_course, App, AppView};
use crate::groups::{
    build_course_groups, course_rows_of, group_views, is_grouping, CourseGroup, GroupView,
};
use crate::text::{contains_text, decimal, has_text, push_decimal, push_wide_decimal, stands_at};
use crate::types::{
    chapter_views, course_views, item_views, AppEvent, AppScreen, Chapter, ChapterView, Course,
    CourseView, DownloadItem, DownloadStatus, EventView, ItemView, Progress, StatusView,
};
use vstd::prelude::*;
use vstd::string::*;

verus! {

/// What is sent when the courses could not be fetched.
pub open spec fn courses_failure(login: bool, error: Seq<char>) -> EventView {
    if login {
        EventView::AuthFailed(error)
    } else {
        EventView::Error(error)
    }
}

/// What is sent when the curriculum of a course that is to be downloaded could not be
/// fetched.
pub open spec fn course_failure(error: Seq<char>) -> EventView {
    EventView::Error("curriculum: "@ + error)
}

/// The message when the courses could not be fetched. `login` says whether this was to
/// check a new cookie.
pub fn courses_failed(login: bool, error: String) -> (event: AppEvent)
    ensures
        event@ == if login {
            EventView::AuthFailed(error@)
        } else {
            EventView::Error(error@)
        },
        event@ == courses_failure(login, error@),
{
    if login {
        AppEvent::AuthFailed(error)
    } else {
        AppEvent::Error(error)
    }
}

/// The message when the curriculum of a course that is to be downloaded could not be
/// fetched.
pub fn course_failed(error: &str) -> (event: AppEvent)
    ensures
        event@ == EventView::Error("curriculum: "@ + error@),
        event@ == course_failure(error@),
{
    let mut msg = "curriculum: ".to_owned();
    msg.append(error);
    AppEvent::Error(msg)
}

// -------------------------------------------------------------------- messages

/// The position of the first download with the number `id`, or the number of items.
pub open spec fn first_with_id(items: Seq<ItemView>, id: u64) -> int
    decreases items.len(),
{
    if items.len() == 0 || items[0].id == id {
        0
    } else {
        1 + first_with_id(items.skip(1), id)
    }
}

/// `items` with another state of the first download with the number `id`, if there is
/// one.
pub open spec fn with_item(
    items: Seq<ItemView>,
    id: u64,
    percent: Option<Progress>,
    status: StatusView,
) -> Seq<ItemView> {
    let i = first_with_id(items, id);
    if i < items.len() {
        items.update(
            i,
            ItemView {
                percent: match percent {
                    Some(p) => p,
                    None => items[i].percent,
                },
                status,
                ..items[i]
            },
        )
    } else {
        items
    }
}

/// `chapters` with the first one expanded.
pub open spec fn first_expanded(chapters: Seq<ChapterView>) -> Seq<ChapterView> {
    if chapters.len() > 0 {
        chapters.update(0, ChapterView { expanded: true, ..chapters[0] })
    } else {
        chapters
    }
}

/// The first course with the number `id`.
pub open spec fn course_with_id(courses: Seq<CourseView>, id: u64) -> Option<CourseView>
    decreases courses.len(),
{
    if courses.len() == 0 {
        None
    } else if courses[0].id == id {
        Some(courses[0])
    } else {
        course_with_id(courses.skip(1), id)
    }
}

/// The first course with the number `id` in any of the groups.
pub open spec fn listed_course(groups: Seq<GroupView>, id: u64) -> Option<CourseView>
    decreases groups.len(),
{
    if groups.len() == 0 {
        None
    } else {
        match course_with_id(groups[0].courses, id) {
            Some(c) => Some(c),
            None => listed_course(groups.skip(1), id),
        }
    }
}

/// How many lectures `chapters` have.
pub open spec fn lecture_count(chapters: Seq<ChapterView>) -> nat
    decreases chapters.len(),
{
    if chapters.len() == 0 {
        0
    } else {
        lecture_count(chapters.drop_last()) + chapters.last().lectures.len()
    }
}

/// The status line when courses were loaded.
pub open spec fn courses_status(courses: nat, instructors: nat) -> Seq<char> {
    decimal(courses) + " courses by "@ + decimal(instructors)
        + " instructors \u{2014} Enter expand/open \u{b7} d download \u{b7} r refresh"@
}

/// The status line when a curriculum was loaded.
pub open spec fn curriculum_status(chapters: nat, lectures: nat) -> Seq<char> {
    decimal(chapters) + " chapters \u{b7} "@ + decimal(lectures)
        + " lectures \u{2014} Enter expand \u{b7} d lecture \u{b7} a all \u{b7} b back"@
}

/// What a failure with this error makes of a download.
pub open spec fn failed_status(error: Seq<char>) -> StatusView {
    if has_text(error, "cancel"@) {
        StatusView::Cancelled
    } else {
        StatusView::Failed(error)
    }
}

impl AppView {
    /// With courses listed in `groups`.
    pub open spec fn courses_loaded(self, count: nat, groups: Seq<GroupView>) -> AppView {
        AppView {
            loading: false,
            groups,
            course_selected: if course_rows_of(groups).len() > 0 {
                Some(0)
            } else {
                self.course_selected
            },
            screen: AppScreen::Courses,
            status_msg: Some(courses_status(count, groups.len())),
            ..self
        }
    }

    /// With the curriculum of a course shown.
    pub open spec fn curriculum_loaded(self, course_id: u64, chapters: Seq<ChapterView>) -> AppView {
        AppView {
            loading: false,
            curriculum: first_expanded(chapters),
            curriculum_selected: Some(0),
            current_course: listed_course(self.groups, course_id),
            screen: AppScreen::Curriculum,
            status_msg: Some(curriculum_status(chapters.len(), lecture_count(chapters))),
            ..self
        }
    }

    /// With one more download.
    pub open spec fn download_queued(self, item: ItemView) -> AppView {
        AppView {
            downloads: self.downloads.push(item),
            download_selected: if self.download_selected is None {
                Some(0)
            } else {
                self.download_selected
            },
            ..self
        }
    }

    /// Whether `after` is the state after a message.
    pub open spec fn takes_event(self, event: EventView, after: AppView) -> bool {
        match event {
            EventView::AuthFailed(msg) => after == (AppView {
                loading: false,
                login_error: Some(msg),
                screen: AppScreen::Login,
                ..self
            }),
            EventView::CoursesLoaded(courses) => is_grouping(after.groups, courses) && after
                == self.courses_loaded(courses.len(), after.groups),
            EventView::CurriculumLoaded { course_id, chapters } => after == self.curriculum_loaded(
                course_id,
                chapters,
            ),
            EventView::QueueDownload {
                id,
                course_title,
                chapter_title,
                lecture_title,
                output_path,
            } => after == self.download_queued(
                ItemView {
                    id,
                    course_title,
                    chapter_title,
                    lecture_title,
                    percent: Progress { started: false, whole: 0 },
                    status: StatusView::Queued,
                    output_path,
                },
            ),
            EventView::DownloadProgress { id, percent } => after == (AppView {
                downloads: with_item(
                    self.downloads,
                    id,
                    Some(percent),
                    if percent.started {
                        StatusView::Downloading
                    } else {
                        StatusView::Fetching
                    },
                ),
                ..self
            }),
            EventView::DownloadDone { id } => after == (AppView {
                downloads: with_item(
                    self.downloads,
                    id,
                    Some(Progress { started: true, whole: 100 }),
                    StatusView::Done,
                ),
                ..self
            }),
            EventView::DownloadFailed { id, error } => after == (AppView {
                downloads: with_item(self.downloads, id, None, failed_status(error)),
                ..self
            }),
            EventView::StatusMsg(msg) => after == (AppView { status_msg: Some(msg), ..self }),
            EventView::Error(msg) => after == (AppView {
                loading: false,
                error_msg: Some(msg),
                ..self
            }),
        }
    }
}

fn find_item(items: &Vec<DownloadItem>, id: u64) -> (i: usize)
    ensures
        i == first_with_id(item_views(items@), id),
        i <= items.len(),
{
    let ghost all = item_views(items@);
    let mut i: usize = 0;
    assert(all.skip(0) =~= all);
    while i < items.len()
        invariant
            i <= items.len(),
            all == item_views(items@),
            first_with_id(all, id) == i + first_with_id(all.skip(i as int), id),
        decreases items.len() - i,
    {
        assert(all.skip(i as int)[0] == items@[i as int]@);
        assert(all.skip(i as int).skip(1) =~= all.skip(i + 1));
        if items[i].id == id {
            return i;
        }
        i += 1;
    }
    i
}

fn set_item(items: &mut Vec<DownloadItem>, id: u64, percent: Option<Progress>, status: DownloadStatus)
    ensures
        item_views(final(items)@) == with_item(item_views(old(items)@), id, percent, status@),
        final(items)@.len() == old(items)@.len(),
{
    let ghost before = item_views(items@);
    let i: usize = find_item(items, id);
    if i < items.len() {
        if let Some(p) = percent {
            items[i].percent = p;
        }
        items[i].status = status;
        assert(item_views(items@) =~= with_item(before, id, percent, status@));
    }
}

fn find_course(groups: &Vec<CourseGroup>, id: u64) -> (course: Option<Course>)
    ensures
        opt_course(course) == listed_course(group_views(groups@), id),
{
    let ghost all = group_views(groups@);
    let mut gi: usize = 0;
    assert(all.skip(0) =~= all);
    while gi < groups.len()
        invariant
            gi <= groups.len(),
            all == group_views(groups@),
            listed_course(all, id) == listed_course(all.skip(gi as int), id),
        decreases groups.len() - gi,
    {
        assert(all.skip(gi as int)[0] == groups@[gi as int]@);
        assert(all.skip(gi as int).skip(1) =~= all.skip(gi + 1));
        if let Some(course) = find_in_list(&groups[gi].courses, id) {
            return Some(course);
        }
        gi += 1;
    }
    None
}

fn find_in_list(courses: &Vec<Course>, id: u64) -> (course: Option<Course>)
    ensures
        opt_course(course) == course_with_id(course_views(courses@), id),
{
    let ghost all = course_views(courses@);
    let mut ci: usize = 0;
    assert(all.skip(0) =~= all);
    while ci < courses.len()
        invariant
            ci <= courses.len(),
            all == course_views(courses@),
            course_with_id(all, id) == course_with_id(all.skip(ci as int), id),
        decreases courses.len() - ci,
    {
        assert(all.skip(ci as int)[0] == courses@[ci as int]@);
        assert(all.skip(ci as int).skip(1) =~= all.skip(ci + 1));
        if courses[ci].id == id {
            return Some(courses[ci].clone());
        }
        ci += 1;
    }
    None
}

/// Counts the lectures of `chapters`.
pub fn count_lectures(chapters: &Vec<Chapter>) -> (count: u128)
    ensures
        count == lecture_count(chapter_views(chapters@)),
{
    let ghost all = chapter_views(chapters@);
    let mut count: u128 = 0;
    let mut ci: usize = 0;
    while ci < chapters.len()
        invariant
            ci <= chapters.len(),
            all == chapter_views(chapters@),
            count == lecture_count(all.take(ci as int)),
            count <= ci * 0xffff_ffff_ffff_ffff,
        decreases chapters.len() - ci,
    {
        assert(all.take(ci + 1).drop_last() =~= all.take(ci as int));
        assert(all.take(ci + 1).last() == chapters@[ci as int]@);
        let n: usize = chapters[ci].lectures.len();
        assert(n <= 0xffff_ffff_ffff_ffff);
        count = count + n as u128;
        ci += 1;
    }
    assert(all.take(ci as int) =~= all);
    count
}

proof fn lemma_expanding_keeps_count(chapters: Seq<ChapterView>)
    ensures
        lecture_count(first_expanded(chapters)) == lecture_count(chapters),
    decreases chapters.len(),
{
    if chapters.len() > 0 {
        let before = chapters.drop_last();
        let after = first_expanded(chapters);
        lemma_expanding_keeps_count(before);
        if chapters.len() > 1 {
            assert(after.drop_last() =~= first_expanded(before));
        } else {
            assert(after.drop_last() =~= before);
        }
    }
}

impl App {
    fn load_courses(&mut self, courses: Vec<Course>)
        requires
            old(self).wf(),
        ensures
            final(self).wf(),
            is_grouping(final(self)@.groups, course_views(courses@)),
            final(self)@ == old(self)@.courses_loaded(courses@.len(), final(self)@.groups),
    {
        self.loading = false;
        let total: usize = courses.len();
        self.course_groups = build_course_groups(courses);
        self.rebuild_course_rows();
        if self.course_rows.len() > 0 {
            self.course_selected = Some(0);
        }
        self.screen = AppScreen::Courses;
        let mut msg = String::new();
        push_decimal(&mut msg, total as u64);
        msg.append(" courses by ");
        push_decimal(&mut msg, self.course_groups.len() as u64);
        msg.append(" instructors \u{2014} Enter expand/open \u{b7} d download \u{b7} r refresh");
        assert(msg@ =~= courses_status(total as nat, self@.groups.len()));
        self.status_msg = Some(msg);
    }

    fn load_curriculum(&mut self, course_id: u64, chapters: Vec<Chapter>)
        requires
            old(self).wf(),
        ensures
            final(self).wf(),
            final(self)@ == old(self)@.curriculum_loaded(course_id, chapter_views(chapters@)),
    {
        let ghost shown = chapter_views(chapters@);
        let mut chapters = chapters;
        if chapters.len() > 0 {
            chapters[0].expanded = true;
        }
        proof {
            assert(chapter_views(chapters@) =~= first_expanded(shown));
            lemma_expanding_keeps_count(shown);
        }
        self.loading = false;
        self.curriculum = chapters;
        self.rebuild_visible_rows();
        self.curriculum_selected = Some(0);
        self.current_course = find_course(&self.course_groups, course_id);
        self.screen = AppScreen::Curriculum;
        let mut msg = String::new();
        push_decimal(&mut msg, self.curriculum.len() as u64);
        msg.append(" chapters \u{b7} ");
        push_wide_decimal(&mut msg, count_lectures(&self.curriculum));
        msg.append(" lectures \u{2014} Enter expand \u{b7} d lecture \u{b7} a all \u{b7} b back");
        assert(msg@ =~= curriculum_status(shown.len(), lecture_count(shown)));
        self.status_msg = Some(msg);
    }

    fn queue_download(&mut self, item: DownloadItem)
        requires
            old(self).wf(),
        ensures
            final(self).wf(),
            final(self)@ == old(self)@.download_queued(item@),
    {
        let ghost before = self@.downloads;
        let ghost shown = item@;
        self.downloads.push(item);
        assert(item_views(self.downloads@) =~= before.push(shown));
        if self.download_selected.is_none() {
            self.download_selected = Some(0);
        }
    }

    /// Takes in a message from the background.
    pub fn handle_event(&mut self, event: AppEvent)
        requires
            old(self).wf(),
        ensures
            final(self).wf(),
            old(self)@.takes_event(event@, final(self)@),
    {
        match event {
            AppEvent::AuthFailed(msg) => {
                self.loading = false;
                self.login_error = Some(msg);
                self.screen = AppScreen::Login;
            },
            AppEvent::CoursesLoaded(courses) => self.load_courses(courses),
            AppEvent::CurriculumLoaded { course_id, chapters } => self.load_curriculum(
                course_id,
                chapters,
            ),
            AppEvent::QueueDownload {
                id,
                course_title,
                chapter_title,
                lecture_title,
                output_path,
            } => self.queue_download(
                DownloadItem {
                    id,
                    course_title,
                    chapter_title,
                    lecture_title,
                    percent: Progress { started: false, whole: 0 },
                    status: DownloadStatus::Queued,
                    output_path,
                },
            ),
            AppEvent::DownloadProgress { id, percent } => {
                let status = if percent.started {
                    DownloadStatus::Downloading
                } else {
                    DownloadStatus::Fetching
                };
                set_item(&mut self.downloads, id, Some(percent), status);
            },
            AppEvent::DownloadDone { id } => {
                let all = Progress { started: true, whole: 100 };
                set_item(&mut self.downloads, id, Some(all), DownloadStatus::Done);
            },
            AppEvent::DownloadFailed { id, error } => {
                let status = if contains_text(error.as_str(), "cancel") {
                    DownloadStatus::Cancelled
                } else {
                    DownloadStatus::Failed(error)
                };
                set_item(&mut self.downloads, id, None, status);
            },
            AppEvent::StatusMsg(msg) => {
                self.status_msg = Some(msg);
            },
            AppEvent::Error(msg) => {
                self.loading = false;
                self.error_msg = Some(msg);
            },
        }
    }
}

// ------------------------------------------------------------------------ laws

/// Whether two items are the same download.
pub open spec fn same_download(a: ItemView, b: ItemView) -> bool {
    &&& a.id == b.id
    &&& a.course_title == b.course_title
    &&& a.chapter_title == b.chapter_title
    &&& a.lecture_title == b.lecture_title
    &&& a.output_path == b.output_path
}

/// No message takes a download off the list or moves it.
pub proof fn law_messages_keep_the_downloads(v: AppView, event: EventView, after: AppView, i: int)
    requires
        v.takes_event(event, after),
        0 <= i < v.downloads.len(),
    ensures
        i < after.downloads.len(),
        same_download(v.downloads[i], after.downloads[i]),
{
    match event {
        EventView::DownloadProgress { id, .. } => lemma_first_with_id(v.downloads, id),
        EventView::DownloadDone { id } => lemma_first_with_id(v.downloads, id),
        EventView::DownloadFailed { id, .. } => lemma_first_with_id(v.downloads, id),
        _ => {},
    }
}

proof fn lemma_first_with_id(items: Seq<ItemView>, id: u64)
    ensures
        0 <= first_with_id(items, id) <= items.len(),
    decreases items.len(),
{
    if items.len() > 0 {
        lemma_first_with_id(items.skip(1), id);
    }
}

/// An error that speaks of cancelling makes a download a cancelled one, whatever else it
/// says.
pub proof fn law_cancellation_is_recognised(before: Seq<char>, after: Seq<char>)
    ensures
        failed_status(before + "cancel"@ + after) == StatusView::Cancelled,
{
    let error = before + "cancel"@ + after;
    let i = before.len() as int;
    assert(error.subrange(i, i + "cancel"@.len()) =~= "cancel"@);
    assert(stands_at(error, "cancel"@, i));
}

/// A new cookie that fails leads back to the setup screen, and any other failure is shown
/// where the user is.
pub proof fn law_failures_are_sent(error: Seq<char>)
    ensures
        courses_failure(true, error) == EventView::AuthFailed(error),
        courses_failure(false, error) == EventView::Error(error),
        course_failure(error) == EventView::Error("curriculum: "@ + error),
{
}

/// A cookie that was refused leads to the setup screen with the reason; nothing else of the
/// state changes.
pub proof fn law_refused_cookies_lead_to_the_setup_screen(
    v: AppView,
    msg: Seq<char>,
    after: AppView,
)
    requires
        v.takes_event(EventView::AuthFailed(msg), after),
    ensures
        after.screen == AppScreen::Login,
        after.login_error == Some(msg),
        !after.loading,
        after == (AppView {
            screen: after.screen,
            login_error: after.login_error,
            loading: after.loading,
            ..v
        }),
{
}

/// A status line or an error is shown as it is; an error also ends the loading. Nothing else
/// of the state changes.
pub proof fn law_lines_are_shown(v: AppView, msg: Seq<char>, after: AppView)
    ensures
        v.takes_event(EventView::StatusMsg(msg), after) ==> after.status_msg == Some(msg) && after
            == (AppView { status_msg: after.status_msg, ..v }),
        v.takes_event(EventView::Error(msg), after) ==> after.error_msg == Some(msg)
            && !after.loading && after == (AppView {
            error_msg: after.error_msg,
            loading: after.loading,
            ..v
        }),
{
}

/// Courses that were loaded are listed by instructor on the screen of courses, with the
/// first row selected, and the status line counts them and their instructors.
pub proof fn law_loaded_courses_are_listed(v: AppView, courses: Seq<CourseView>, after: AppView)
    requires
        v.takes_event(EventView::CoursesLoaded(courses), after),
    ensures
        is_grouping(after.groups, courses),
        after.screen == AppScreen::Courses,
        !after.loading,
        after.groups.len() > 0 ==> after.course_selected == Some(0usize),
        after.status_msg == Some(
            decimal(courses.len()) + " courses by "@ + decimal(after.groups.len())
                + " instructors \u{2014} Enter expand/open \u{b7} d download \u{b7} r refresh"@,
        ),
        after == (AppView {
            groups: after.groups,
            screen: after.screen,
            loading: after.loading,
            course_selected: after.course_selected,
            status_msg: after.status_msg,
            ..v
        }),
{
    if after.groups.len() > 0 {
        assert(course_rows_of(after.groups).len() > 0);
    }
}

/// A curriculum that was loaded is shown with its first chapter expanded and its first row
/// selected, as that of the course with its number; the status line counts chapters and
/// lectures.
pub proof fn law_loaded_curricula_are_shown(
    v: AppView,
    course_id: u64,
    chapters: Seq<ChapterView>,
    after: AppView,
    i: int,
)
    requires
        v.takes_event(EventView::CurriculumLoaded { course_id, chapters }, after),
    ensures
        after.screen == AppScreen::Curriculum,
        !after.loading,
        after.curriculum_selected == Some(0usize),
        after.curriculum.len() == chapters.len(),
        chapters.len() > 0 ==> after.curriculum[0].expanded && after.curriculum[0].title
            == chapters[0].title && after.curriculum[0].lectures == chapters[0].lectures
            && after.curriculum[0].id == chapters[0].id && after.curriculum[0].object_index
            == chapters[0].object_index,
        0 < i < chapters.len() ==> after.curriculum[i] == chapters[i],
        after.current_course == listed_course(v.groups, course_id),
        after.status_msg == Some(
            decimal(chapters.len()) + " chapters \u{b7} "@ + decimal(lecture_count(chapters))
                + " lectures \u{2014} Enter expand \u{b7} d lecture \u{b7} a all \u{b7} b back"@,
        ),
        after == (AppView {
            curriculum: after.curriculum,
            screen: after.screen,
            loading: after.loading,
            current_course: after.current_course,
            curriculum_selected: after.curriculum_selected,
            status_msg: after.status_msg,
            ..v
        }),
{
}

/// All lectures of all chapters are counted.
pub proof fn law_all_lectures_are_counted(a: Seq<ChapterView>, b: Seq<ChapterView>, c: ChapterView)
    ensures
        lecture_count(a + b) == lecture_count(a) + lecture_count(b),
        lecture_count(seq![c]) == c.lectures.len(),
    decreases b.len(),
{
    assert(seq![c].drop_last() =~= seq![]);
    assert(lecture_count(seq![c].drop_last()) == 0);
    if b.len() == 0 {
        assert(a + b =~= a);
    } else {
        assert((a + b).drop_last() =~= a + b.drop_last());
        law_all_lectures_are_counted(a, b.drop_last(), c);
    }
}

/// A course is found by its number: the first one with it, in the first group that has one.
pub proof fn law_courses_are_found_by_number(
    groups: Seq<GroupView>,
    group: GroupView,
    rest: Seq<GroupView>,
    before: Seq<CourseView>,
    course: CourseView,
    after: Seq<CourseView>,
)
    requires
        forall|g: int, k: int|
            0 <= g < groups.len() && 0 <= k < groups[g].courses.len()
                ==> #[trigger] groups[g].courses[k].id != course.id,
        group.courses == before + seq![course] + after,
        forall|k: int| 0 <= k < before.len() ==> (#[trigger] before[k]).id != course.id,
    ensures
        listed_course(groups + seq![group] + rest, course.id) == Some(course),
        listed_course(groups, course.id) is None,
    decreases groups.len(),
{
    let all = groups + seq![group] + rest;
    if groups.len() == 0 {
        assert(all[0] == group);
        lemma_course_with_id(before, course, after);
    } else {
        let fewer = groups.skip(1);
        assert(all[0] == groups[0]);
        assert forall|k: int| 0 <= k < groups[0].courses.len() implies (
        #[trigger] groups[0].courses[k]).id != course.id by {}
        lemma_no_course_with_id(groups[0].courses, course.id);
        assert forall|g: int, k: int|
            0 <= g < fewer.len() && 0 <= k < fewer[g].courses.len() implies
            #[trigger] fewer[g].courses[k].id != course.id by {
            assert(fewer[g] == groups[g + 1]);
            assert(groups[g + 1].courses[k].id != course.id);
        }
        law_courses_are_found_by_number(fewer, group, rest, before, course, after);
        assert(all.skip(1) =~= fewer + seq![group] + rest);
    }
}

proof fn lemma_course_with_id(before: Seq<CourseView>, course: CourseView, after: Seq<CourseView>)
    requires
        forall|k: int| 0 <= k < before.len() ==> (#[trigger] before[k]).id != course.id,
    ensures
        course_with_id(before + seq![course] + after, course.id) == Some(course),
    decreases before.len(),
{
    let all = before + seq![course] + after;
    if before.len() == 0 {
        assert(all[0] == course);
    } else {
        let fewer = before.skip(1);
        assert(all[0] == before[0]);
        assert forall|k: int| 0 <= k < fewer.len() implies (#[trigger] fewer[k]).id != course.id by {
            assert(fewer[k] == before[k + 1]);
        }
        lemma_course_with_id(fewer, course, after);
        assert(all.skip(1) =~= fewer + seq![course] + after);
    }
}

proof fn lemma_no_course_with_id(courses: Seq<CourseView>, id: u64)
    requires
        forall|k: int| 0 <= k < courses.len() ==> (#[trigger] courses[k]).id != id,
    ensures
        course_with_id(courses, id) is None,
    decreases courses.len(),
{
    if courses.len() > 0 {
        let fewer = courses.skip(1);
        assert forall|k: int| 0 <= k < fewer.len() implies (#[trigger] fewer[k]).id != id by {
            assert(fewer[k] == courses[k + 1]);
        }
        lemma_no_course_with_id(fewer, id);
    }
}

/// A download that is queued goes to the end of the list, with nothing done of it yet. It
/// is selected where no other was.
pub proof fn law_queued_downloads_are_listed_last(
    v: AppView,
    id: u64,
    course_title: Seq<char>,
    chapter_title: Seq<char>,
    lecture_title: Seq<char>,
    output_path: Seq<char>,
    after: AppView,
)
    requires
        v.takes_event(
            EventView::QueueDownload {
                id,
                course_title,
                chapter_title,
                lecture_title,
                output_path,
            },
            after,
        ),
    ensures
        after.downloads == v.downloads + seq![
            ItemView {
                id,
                course_title,
                chapter_title,
                lecture_title,
                percent: Progress { started: false, whole: 0 },
                status: StatusView::Queued,
                output_path,
            },
        ],
        after.download_selected == if v.download_selected is Some {
            v.download_selected
        } else {
            Some(0usize)
        },
        after == (AppView {
            downloads: after.downloads,
            download_selected: after.download_selected,
            ..v
        }),
{
    assert(after.downloads =~= v.downloads + seq![after.downloads.last()]);
}

proof fn lemma_with_item(
    before: Seq<ItemView>,
    item: ItemView,
    rest: Seq<ItemView>,
    percent: Option<Progress>,
    status: StatusView,
)
    requires
        forall|k: int| 0 <= k < before.len() ==> (#[trigger] before[k]).id != item.id,
    ensures
        with_item(before + seq![item] + rest, item.id, percent, status) == before + seq![
            ItemView {
                percent: match percent {
                    Some(p) => p,
                    None => item.percent,
                },
                status,
                ..item
            },
        ] + rest,
        with_item(before, item.id, percent, status) == before,
{
    let items = before + seq![item] + rest;
    lemma_first_is(before, item, rest);
    assert(with_item(items, item.id, percent, status) =~= before + seq![
        ItemView {
            percent: match percent {
                Some(p) => p,
                None => item.percent,
            },
            status,
            ..item
        },
    ] + rest);
}

proof fn lemma_first_is(before: Seq<ItemView>, item: ItemView, rest: Seq<ItemView>)
    requires
        forall|k: int| 0 <= k < before.len() ==> (#[trigger] before[k]).id != item.id,
    ensures
        first_with_id(before + seq![item] + rest, item.id) == before.len(),
        first_with_id(before, item.id) == before.len(),
    decreases before.len(),
{
    let items = before + seq![item] + rest;
    if before.len() == 0 {
        assert(items[0] == item);
    } else {
        let fewer = before.skip(1);
        assert(items[0] == before[0]);
        assert forall|k: int| 0 <= k < fewer.len() implies (#[trigger] fewer[k]).id != item.id by {
            assert(fewer[k] == before[k + 1]);
        }
        lemma_first_is(fewer, item, rest);
        assert(items.skip(1) =~= fewer + seq![item] + rest);
    }
}

/// A message about a download changes that download alone: its share and its status while
/// it is under way, all of it when it is done, and its status alone when it failed.
pub proof fn law_messages_change_their_download(
    v: AppView,
    before: Seq<ItemView>,
    item: ItemView,
    rest: Seq<ItemView>,
    percent: Progress,
    error: Seq<char>,
    after: AppView,
)
    requires
        v.downloads == before + seq![item] + rest,
        forall|k: int| 0 <= k < before.len() ==> (#[trigger] before[k]).id != item.id,
    ensures
        v.takes_event(EventView::DownloadProgress { id: item.id, percent }, after) ==> after == (
        AppView {
            downloads: before + seq![
                ItemView {
                    percent,
                    status: if percent.started {
                        StatusView::Downloading
                    } else {
                        StatusView::Fetching
                    },
                    ..item
                },
            ] + rest,
            ..v
        }),
        v.takes_event(EventView::DownloadDone { id: item.id }, after) ==> after == (AppView {
            downloads: before + seq![
                ItemView {
                    percent: Progress { started: true, whole: 100 },
                    status: StatusView::Done,
                    ..item
                },
            ] + rest,
            ..v
        }),
        v.takes_event(EventView::DownloadFailed { id: item.id, error }, after) ==> after == (
        AppView {
            downloads: before + seq![
                ItemView {
                    status: if has_text(error, "cancel"@) {
                        StatusView::Cancelled
                    } else {
                        StatusView::Failed(error)
                    },
                    ..item
                },
            ] + rest,
            ..v
        }),
{
    lemma_with_item(
        before,
        item,
        rest,
        Some(percent),
        if percent.started {
            StatusView::Downloading
        } else {
            StatusView::Fetching
        },
    );
    lemma_with_item(
        before,
        item,
        rest,
        Some(Progress { started: true, whole: 100 }),
        StatusView::Done,
    );
    lemma_with_item(before, item, rest, None, failed_status(error));
}

/// A message about a download that is not in the list changes nothing.
pub proof fn law_messages_about_unknown_downloads_change_nothing(
    v: AppView,
    id: u64,
    percent: Progress,
    error: Seq<char>,
    after: AppView,
)
    requires
        forall|k: int| 0 <= k < v.downloads.len() ==> (#[trigger] v.downloads[k]).id != id,
    ensures
        v.takes_event(EventView::DownloadProgress { id, percent }, after) ==> after == v,
        v.takes_event(EventView::DownloadDone { id }, after) ==> after == v,
        v.takes_event(EventView::DownloadFailed { id, error }, after) ==> after == v,
{
    let item = ItemView {
        id,
        course_title: seq![],
        chapter_title: seq![],
        lecture_title: seq![],
        percent,
        status: StatusView::Done,
        output_path: seq![],
    };
    lemma_first_is(v.downloads, item, seq![]);
}

} // verus!
