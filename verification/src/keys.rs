//! What keys do.

use crate::app::{
    active_items, clamp_row, clamped, down, law_lists_fit, only, opt_action, row_of, selected_row, step_down,
    step_up, up, Action, ActionView, App, AppView, Effect,
};
use crate::config::output_path;
use crate::groups::{
    chapter_toggled, course_rows_of, curriculum_rows_of, group_toggled, group_views,
    law_course_rows_are_shown, law_curriculum_rows_are_shown,
    law_toggling_keeps_the_heading_of_a_chapter, law_toggling_keeps_the_heading_of_a_group,
    CourseRow, CurriculumRow, GroupView,
};
use crate::plan::{
    download_for, download_views, downloads_of, id_after, is_video, is_video_lecture, plan_download,
    plan_downloads, videos, Download, Target, TargetView,
};
use crate::types::{
    chapter_views, item_views, ActiveTab, AppScreen, CourseView, DownloadItem, ItemView,
};
use vstd::prelude::*;
use vstd::string::*;

verus! {

// ------------------------------------------------------------------------ keys

/// A key.
#[derive(Clone, Copy, Debug, PartialEq, Eq, Structural)]
pub enum KeyCode {
    Char(char),
    Tab,
    Enter,
    Esc,
    Up,
    Down,
    Delete,
    Other,
}

/// A key that was pressed.
#[derive(Clone, Copy, Debug, PartialEq, Eq, Structural)]
pub struct Key {
    pub code: KeyCode,
    /// Whether the control key, and no other modifier, was held.
    pub control: bool,
}

impl AppView {
    /// With the other tab shown.
    pub open spec fn tab_switched(self) -> AppView {
        AppView {
            active_tab: match self.active_tab {
                ActiveTab::Courses => ActiveTab::Downloads,
                ActiveTab::Downloads => ActiveTab::Courses,
            },
            ..self
        }
    }

    /// On the way out.
    pub open spec fn quitting(self) -> AppView {
        AppView { should_quit: true, ..self }
    }

    /// With another status line.
    pub open spec fn with_status(self, msg: Seq<char>) -> AppView {
        AppView { status_msg: Some(msg), ..self }
    }

    // On the setup screen.

    /// What a key does on the setup screen.
    pub open spec fn setup_key(self, code: KeyCode) -> Effect {
        match code {
            KeyCode::Tab => only(self.tab_switched()),
            KeyCode::Char(c) => if (c == 'r' || c == 'R') && !self.loading {
                Effect { state: self, action: Some(ActionView::ReadCookie) }
            } else if c == 'q' || c == 'Q' {
                only(self.quitting())
            } else {
                only(self)
            },
            _ => only(self),
        }
    }

    // In the list of courses.

    /// The selected row, if there is one.
    pub open spec fn course_row(self) -> Option<CourseRow> {
        let k = selected_row(self.course_selected);
        if k < self.course_rows().len() {
            Some(self.course_rows()[k])
        } else {
            None
        }
    }

    /// With a group expanded or collapsed.
    pub open spec fn with_group_toggled(self, gi: int) -> AppView {
        let groups = group_toggled(self.groups, gi);
        AppView {
            groups,
            course_selected: clamped(self.course_selected, course_rows_of(groups).len()),
            ..self
        }
    }

    /// What Enter does: a heading expands or collapses its group, a course is opened.
    pub open spec fn course_entered(self) -> Effect {
        match self.course_row() {
            Some(CourseRow::Group(gi)) => only(self.with_group_toggled(gi as int)),
            Some(CourseRow::Course(gi, ci)) => {
                let course = self.groups[gi as int].courses[ci as int];
                Effect {
                    state: AppView {
                        loading: true,
                        status_msg: Some("Loading \""@ + course.title + "\"\u{2026}"@),
                        ..self
                    },
                    action: Some(
                        ActionView::FetchCurriculum { cookie: self.cookie, course_id: course.id },
                    ),
                }
            },
            None => only(self),
        }
    }

    /// What asking for the download of the selected course does.
    pub open spec fn course_downloaded(self) -> Effect {
        match self.course_row() {
            Some(CourseRow::Group(gi)) => only(
                self.with_status(
                    "Press Enter to expand '"@ + self.groups[gi as int].instructor
                        + "', then select a course"@,
                ),
            ),
            Some(CourseRow::Course(gi, ci)) => Effect {
                state: self,
                action: Some(
                    ActionView::FetchCourse {
                        cookie: self.cookie,
                        output_dir: self.output_dir,
                        course: self.groups[gi as int].courses[ci as int],
                    },
                ),
            },
            None => only(self),
        }
    }

    /// After logging out: the cookie and the courses are forgotten.
    pub open spec fn logged_out(self) -> AppView {
        AppView {
            cookie: seq![],
            groups: seq![],
            login_error: None,
            screen: AppScreen::Login,
            ..self
        }
    }

    /// What a key does in the list of courses.
    pub open spec fn courses_key(self, code: KeyCode) -> Effect {
        match code {
            KeyCode::Tab => only(self.tab_switched()),
            KeyCode::Up => only(
                AppView { course_selected: step_up(self.course_selected), ..self },
            ),
            KeyCode::Down => only(
                AppView {
                    course_selected: step_down(self.course_selected, self.course_rows().len()),
                    ..self
                },
            ),
            KeyCode::Enter => self.course_entered(),
            KeyCode::Char(c) => if c == 'q' || c == 'Q' {
                only(self.quitting())
            } else if c == 'k' {
                only(AppView { course_selected: step_up(self.course_selected), ..self })
            } else if c == 'j' {
                only(
                    AppView {
                        course_selected: step_down(self.course_selected, self.course_rows().len()),
                        ..self
                    },
                )
            } else if c == 'd' {
                self.course_downloaded()
            } else if c == 'r' {
                Effect {
                    state: AppView { loading: true, ..self },
                    action: Some(ActionView::FetchCourses { cookie: self.cookie, login: false }),
                }
            } else if c == 'L' {
                only(self.logged_out())
            } else {
                only(self)
            },
            _ => only(self),
        }
    }

    // In the curriculum.

    /// The selected row, if there is one.
    pub open spec fn curriculum_row(self) -> Option<CurriculumRow> {
        let k = selected_row(self.curriculum_selected);
        if k < self.curriculum_rows().len() {
            Some(self.curriculum_rows()[k])
        } else {
            None
        }
    }

    /// With a chapter expanded or collapsed.
    pub open spec fn with_chapter_toggled(self, ci: int) -> AppView {
        let curriculum = chapter_toggled(self.curriculum, ci);
        AppView {
            curriculum,
            curriculum_selected: clamped(
                self.curriculum_selected,
                curriculum_rows_of(curriculum).len(),
            ),
            ..self
        }
    }

    /// What Enter does: a heading expands or collapses its chapter.
    pub open spec fn chapter_entered(self) -> AppView {
        match self.curriculum_row() {
            Some(CurriculumRow::Chapter(ci)) => self.with_chapter_toggled(ci as int),
            _ => self,
        }
    }

    /// Where the downloads of `course` go.
    pub open spec fn target(self, course: CourseView) -> TargetView {
        TargetView {
            style: self.path_style,
            output_dir: self.output_dir,
            cookie: self.cookie,
            course,
        }
    }

    /// What asking for the download of the selected lecture does.
    pub open spec fn lecture_downloaded(self) -> Effect {
        match self.curriculum_row() {
            None => only(self),
            Some(CurriculumRow::Chapter(_)) => only(
                self.with_status("Select a lecture (not a chapter heading)"@),
            ),
            Some(CurriculumRow::Lecture(ci, li)) => {
                let chapter = self.curriculum[ci as int];
                let lecture = chapter.lectures[li as int];
                if !is_video(lecture) {
                    only(
                        self.with_status(
                            "'"@ + lecture.title + "' is not a video ("@ + lecture.asset_type
                                + ")"@,
                        ),
                    )
                } else {
                    Effect {
                        state: AppView { next_id: id_after(self.next_id, 1), ..self },
                        action: Some(
                            ActionView::StartDownloads(
                                seq![
                                    download_for(
                                        self.target(self.current_course->0),
                                        self.next_id,
                                        chapter,
                                        lecture,
                                    ),
                                ],
                            ),
                        ),
                    }
                }
            },
        }
    }

    /// What asking for the download of all lectures does.
    pub open spec fn all_downloaded(self) -> Effect {
        match self.current_course {
            None => only(self),
            Some(course) => {
                let list = videos(self.curriculum);
                Effect {
                    state: AppView {
                        next_id: id_after(self.next_id, list.len() as int),
                        status_msg: Some(
                            "Queued all video lectures for \""@ + course.title + "\""@,
                        ),
                        active_tab: ActiveTab::Downloads,
                        ..self
                    },
                    action: Some(
                        ActionView::StartDownloads(
                            downloads_of(self.target(course), self.next_id, list),
                        ),
                    ),
                }
            },
        }
    }

    /// Back in the list of courses.
    pub open spec fn left_curriculum(self) -> AppView {
        AppView {
            screen: AppScreen::Courses,
            curriculum: seq![],
            current_course: None,
            ..self
        }
    }

    /// What a key does in the curriculum.
    pub open spec fn curriculum_key(self, code: KeyCode) -> Effect {
        match code {
            KeyCode::Tab => only(self.tab_switched()),
            KeyCode::Up => only(
                AppView { curriculum_selected: step_up(self.curriculum_selected), ..self },
            ),
            KeyCode::Down => only(
                AppView {
                    curriculum_selected: step_down(
                        self.curriculum_selected,
                        self.curriculum_rows().len(),
                    ),
                    ..self
                },
            ),
            KeyCode::Enter => only(self.chapter_entered()),
            KeyCode::Esc => only(self.left_curriculum()),
            KeyCode::Char(c) => if c == 'q' || c == 'Q' {
                only(self.quitting())
            } else if c == 'k' {
                only(AppView { curriculum_selected: step_up(self.curriculum_selected), ..self })
            } else if c == 'j' {
                only(
                    AppView {
                        curriculum_selected: step_down(
                            self.curriculum_selected,
                            self.curriculum_rows().len(),
                        ),
                        ..self
                    },
                )
            } else if c == ' ' {
                only(self.chapter_entered())
            } else if c == 'd' {
                self.lecture_downloaded()
            } else if c == 'a' {
                self.all_downloaded()
            } else if c == 'b' {
                only(self.left_curriculum())
            } else {
                only(self)
            },
            _ => only(self),
        }
    }

    // In the list of downloads.

    /// What cancelling the selected download does.
    pub open spec fn download_cancelled(self) -> Effect {
        let k = selected_row(self.download_selected);
        Effect {
            state: self,
            action: if k < self.downloads.len() {
                Some(ActionView::CancelDownload(self.downloads[k].id))
            } else {
                None
            },
        }
    }

    /// Without the downloads that have come to an end.
    pub open spec fn finished_cleared(self) -> AppView {
        let downloads = active_items(self.downloads);
        AppView {
            downloads,
            download_selected: if downloads.len() == 0 {
                None
            } else {
                clamped(self.download_selected, downloads.len())
            },
            ..self
        }
    }

    /// What a key does in the list of downloads.
    pub open spec fn downloads_key(self, code: KeyCode) -> Effect {
        match code {
            KeyCode::Tab => only(self.tab_switched()),
            KeyCode::Up => only(
                AppView { download_selected: step_up(self.download_selected), ..self },
            ),
            KeyCode::Down => only(
                AppView {
                    download_selected: step_down(self.download_selected, self.downloads.len()),
                    ..self
                },
            ),
            KeyCode::Delete => self.download_cancelled(),
            KeyCode::Char(c) => if c == 'q' || c == 'Q' {
                only(self.quitting())
            } else if c == 'k' {
                only(AppView { download_selected: step_up(self.download_selected), ..self })
            } else if c == 'j' {
                only(
                    AppView {
                        download_selected: step_down(self.download_selected, self.downloads.len()),
                        ..self
                    },
                )
            } else if c == 'c' {
                self.download_cancelled()
            } else if c == 'x' {
                only(self.finished_cleared())
            } else {
                only(self)
            },
            _ => only(self),
        }
    }

    /// What a key does, unless it is the one that ends the program.
    pub open spec fn key_effect(self, code: KeyCode) -> Effect {
        if self.screen == AppScreen::Login {
            self.setup_key(code)
        } else if self.active_tab == ActiveTab::Downloads {
            self.downloads_key(code)
        } else if self.screen == AppScreen::Courses {
            self.courses_key(code)
        } else {
            self.curriculum_key(code)
        }
    }

    /// What a key does.
    pub open spec fn after_key(self, key: Key) -> Effect {
        if ends_program(key) {
            only(self)
        } else {
            self.key_effect(key.code)
        }
    }

    /// Whether a key has something to work on: a lecture is downloaded as part of a
    /// course.
    pub open spec fn takes_key(self, key: Key) -> bool {
        self.screen == AppScreen::Curriculum && self.active_tab == ActiveTab::Courses && key.code
            == KeyCode::Char('d') && !ends_program(key) && self.lecture_is_video()
            ==> self.current_course is Some
    }

    /// Whether a video lecture is selected.
    pub open spec fn lecture_is_video(self) -> bool {
        match self.curriculum_row() {
            Some(CurriculumRow::Lecture(ci, li)) => is_video(
                self.curriculum[ci as int].lectures[li as int],
            ),
            _ => false,
        }
    }
}

/// Whether a key ends the program, whatever is shown.
pub open spec fn ends_program(key: Key) -> bool {
    key.control && (key.code == KeyCode::Char('c') || key.code == KeyCode::Char('C'))
}

/// What a key leads to.
#[derive(Debug)]
pub struct KeyOutcome {
    /// Whether the program ends at once.
    pub quit: bool,
    /// Work to do.
    pub action: Option<Action>,
}

impl App {
    fn toggle_tab(&mut self)
        requires
            old(self).wf(),
        ensures
            final(self).wf(),
            final(self)@ == old(self)@.tab_switched(),
    {
        self.active_tab = match self.active_tab {
            ActiveTab::Courses => ActiveTab::Downloads,
            ActiveTab::Downloads => ActiveTab::Courses,
        };
    }

    fn handle_key_setup(&mut self, code: KeyCode) -> (action: Option<Action>)
        requires
            old(self).wf(),
        ensures
            final(self).wf(),
            final(self)@ == old(self)@.setup_key(code).state,
            opt_action(action) == old(self)@.setup_key(code).action,
    {
        match code {
            KeyCode::Tab => {
                self.toggle_tab();
                None
            },
            KeyCode::Char(c) => {
                if (c == 'r' || c == 'R') && !self.loading {
                    return Some(Action::ReadCookie);
                }
                if c == 'q' || c == 'Q' {
                    self.should_quit = true;
                }
                None
            },
            _ => None,
        }
    }

    // In the list of courses.

    fn courses_up(&mut self)
        requires
            old(self).wf(),
        ensures
            final(self).wf(),
            final(self)@ == (AppView {
                course_selected: step_up(old(self)@.course_selected),
                ..old(self)@
            }),
    {
        self.course_selected = up(self.course_selected);
    }

    fn courses_down(&mut self)
        requires
            old(self).wf(),
        ensures
            final(self).wf(),
            final(self)@ == (AppView {
                course_selected: step_down(
                    old(self)@.course_selected,
                    old(self)@.course_rows().len(),
                ),
                ..old(self)@
            }),
    {
        self.course_selected = down(self.course_selected, self.course_rows.len());
    }

    fn selected_course_row(&self) -> (row: Option<CourseRow>)
        requires
            self.wf(),
        ensures
            row == self@.course_row(),
            match row {
                Some(CourseRow::Group(gi)) => gi < self.course_groups.len(),
                Some(CourseRow::Course(gi, ci)) => gi < self.course_groups.len() && ci
                    < self.course_groups@[gi as int].courses.len(),
                None => true,
            },
    {
        let sel: usize = row_of(self.course_selected);
        if sel < self.course_rows.len() {
            proof {
                let groups = self@.groups;
                assert(groups.len() == self.course_groups.len());
                assert forall|i: int| 0 <= i < groups.len() implies (#[trigger] groups[i]).courses.len()
                    <= usize::MAX by {
                    assert(groups[i].courses.len() == self.course_groups@[i].courses.len());
                }
                law_course_rows_are_shown(groups, sel as int);
            }
            Some(self.course_rows[sel])
        } else {
            None
        }
    }

    fn courses_enter(&mut self) -> (action: Option<Action>)
        requires
            old(self).wf(),
        ensures
            final(self).wf(),
            final(self)@ == old(self)@.course_entered().state,
            opt_action(action) == old(self)@.course_entered().action,
    {
        match self.selected_course_row() {
            Some(CourseRow::Group(gi)) => {
                let ghost groups = self@.groups;
                self.course_groups[gi].expanded = !self.course_groups[gi].expanded;
                proof {
                    assert(group_views(self.course_groups@) =~= group_toggled(groups, gi as int));
                    lemma_some_rows(self@.groups);
                }
                self.rebuild_course_rows();
                None
            },
            Some(CourseRow::Course(gi, ci)) => Some(self.open_curriculum_for(gi, ci)),
            None => None,
        }
    }

    fn open_curriculum_for(&mut self, gi: usize, ci: usize) -> (action: Action)
        requires
            old(self).wf(),
            gi < old(self).course_groups.len(),
            ci < old(self).course_groups@[gi as int].courses.len(),
        ensures
            final(self).wf(),
            final(self)@ == (AppView {
                loading: true,
                status_msg: Some(
                    "Loading \""@ + old(self)@.groups[gi as int].courses[ci as int].title
                        + "\"\u{2026}"@,
                ),
                ..old(self)@
            }),
            action@ == (ActionView::FetchCurriculum {
                cookie: old(self)@.cookie,
                course_id: old(self)@.groups[gi as int].courses[ci as int].id,
            }),
    {
        let course = &self.course_groups[gi].courses[ci];
        let course_id: u64 = course.id;
        let mut msg = "Loading \"".to_owned();
        msg.append(course.title.as_str());
        msg.append("\"\u{2026}");
        self.loading = true;
        self.status_msg = Some(msg);
        Action::FetchCurriculum { cookie: self.config.cookie.clone(), course_id }
    }

    fn download_selected_course(&mut self) -> (action: Option<Action>)
        requires
            old(self).wf(),
        ensures
            final(self).wf(),
            final(self)@ == old(self)@.course_downloaded().state,
            opt_action(action) == old(self)@.course_downloaded().action,
    {
        match self.selected_course_row() {
            Some(CourseRow::Group(gi)) => {
                let mut msg = "Press Enter to expand '".to_owned();
                msg.append(self.course_groups[gi].instructor.as_str());
                msg.append("', then select a course");
                self.status_msg = Some(msg);
                None
            },
            Some(CourseRow::Course(gi, ci)) => Some(
                Action::FetchCourse {
                    cookie: self.config.cookie.clone(),
                    output_dir: self.config.output_dir.clone(),
                    course: self.course_groups[gi].courses[ci].clone(),
                },
            ),
            None => None,
        }
    }

    fn refresh_courses(&mut self) -> (action: Action)
        requires
            old(self).wf(),
        ensures
            final(self).wf(),
            final(self)@ == (AppView { loading: true, ..old(self)@ }),
            action@ == (ActionView::FetchCourses { cookie: old(self)@.cookie, login: false }),
    {
        self.loading = true;
        Action::FetchCourses { cookie: self.config.cookie.clone(), login: false }
    }

    fn log_out(&mut self)
        requires
            old(self).wf(),
        ensures
            final(self).wf(),
            final(self)@ == old(self)@.logged_out(),
    {
        self.config.cookie = String::new();
        self.course_groups = Vec::new();
        self.course_rows = Vec::new();
        self.login_error = None;
        self.screen = AppScreen::Login;
        assert(self@ =~= old(self)@.logged_out());
    }

    fn handle_key_courses(&mut self, code: KeyCode) -> (action: Option<Action>)
        requires
            old(self).wf(),
        ensures
            final(self).wf(),
            final(self)@ == old(self)@.courses_key(code).state,
            opt_action(action) == old(self)@.courses_key(code).action,
    {
        match code {
            KeyCode::Tab => self.toggle_tab(),
            KeyCode::Up => self.courses_up(),
            KeyCode::Down => self.courses_down(),
            KeyCode::Enter => return self.courses_enter(),
            KeyCode::Char(c) => {
                if c == 'q' || c == 'Q' {
                    self.should_quit = true;
                } else if c == 'k' {
                    self.courses_up();
                } else if c == 'j' {
                    self.courses_down();
                } else if c == 'd' {
                    return self.download_selected_course();
                } else if c == 'r' {
                    return Some(self.refresh_courses());
                } else if c == 'L' {
                    self.log_out();
                }
            },
            _ => {},
        }
        None
    }

    // In the curriculum.

    fn curriculum_up(&mut self)
        requires
            old(self).wf(),
        ensures
            final(self).wf(),
            final(self)@ == (AppView {
                curriculum_selected: step_up(old(self)@.curriculum_selected),
                ..old(self)@
            }),
    {
        self.curriculum_selected = up(self.curriculum_selected);
    }

    fn curriculum_down(&mut self)
        requires
            old(self).wf(),
        ensures
            final(self).wf(),
            final(self)@ == (AppView {
                curriculum_selected: step_down(
                    old(self)@.curriculum_selected,
                    old(self)@.curriculum_rows().len(),
                ),
                ..old(self)@
            }),
    {
        self.curriculum_selected = down(self.curriculum_selected, self.visible_rows.len());
    }

    fn selected_curriculum_row(&self) -> (row: Option<CurriculumRow>)
        requires
            self.wf(),
        ensures
            row == self@.curriculum_row(),
            match row {
                Some(CurriculumRow::Chapter(ci)) => ci < self.curriculum.len(),
                Some(CurriculumRow::Lecture(ci, li)) => ci < self.curriculum.len() && li
                    < self.curriculum@[ci as int].lectures.len(),
                None => true,
            },
    {
        let sel: usize = row_of(self.curriculum_selected);
        if sel < self.visible_rows.len() {
            proof {
                let chapters = self@.curriculum;
                assert(chapters.len() == self.curriculum.len());
                assert forall|i: int|
                    0 <= i < chapters.len() implies (#[trigger] chapters[i]).lectures.len()
                    <= usize::MAX by {
                    assert(chapters[i].lectures.len() == self.curriculum@[i].lectures.len());
                }
                law_curriculum_rows_are_shown(chapters, sel as int);
            }
            Some(self.visible_rows[sel])
        } else {
            None
        }
    }

    /// Expands or collapses the chapter whose heading is selected. The heading stays
    /// selected. Nothing happens where a lecture is selected.
    pub fn toggle_chapter_expand(&mut self)
        requires
            old(self).wf(),
        ensures
            final(self).wf(),
            final(self)@ == old(self)@.chapter_entered(),
            match old(self)@.curriculum_row() {
                Some(CurriculumRow::Chapter(ci)) => final(self)@ == (AppView {
                    curriculum: chapter_toggled(old(self)@.curriculum, ci as int),
                    ..old(self)@
                }) && final(self)@.curriculum_row() == Some(CurriculumRow::Chapter(ci)),
                _ => final(self)@ == old(self)@,
            },
    {
        proof {
            law_lists_fit(self);
            if let Some(CurriculumRow::Chapter(ci)) = self@.curriculum_row() {
                law_entered_chapters_stay_selected(self@, ci);
            }
        }
        if let Some(CurriculumRow::Chapter(ci)) = self.selected_curriculum_row() {
            let ghost chapters = self@.curriculum;
            self.curriculum[ci].expanded = !self.curriculum[ci].expanded;
            proof {
                assert(chapter_views(self.curriculum@) =~= chapter_toggled(chapters, ci as int));
            }
            self.rebuild_visible_rows();
        }
    }

    fn download_selected_lecture(&mut self) -> (action: Option<Action>)
        requires
            old(self).wf(),
            old(self)@.lecture_is_video() ==> old(self)@.current_course is Some,
        ensures
            final(self).wf(),
            final(self)@ == old(self)@.lecture_downloaded().state,
            opt_action(action) == old(self)@.lecture_downloaded().action,
    {
        let (ci, li): (usize, usize) = match self.selected_curriculum_row() {
            None => return None,
            Some(CurriculumRow::Chapter(_)) => {
                self.status_msg = Some("Select a lecture (not a chapter heading)".to_owned());
                return None;
            },
            Some(CurriculumRow::Lecture(ci, li)) => (ci, li),
        };
        let chapter = &self.curriculum[ci];
        let lecture = &chapter.lectures[li];
        assert(chapter@ == self@.curriculum[ci as int]);
        assert(lecture@ == chapter@.lectures[li as int]);
        if !is_video_lecture(lecture) {
            let mut msg = "'".to_owned();
            msg.append(lecture.title.as_str());
            msg.append("' is not a video (");
            msg.append(lecture.asset_type.as_str());
            msg.append(")");
            self.status_msg = Some(msg);
            return None;
        }
        match &self.current_course {
            Some(course) => {
                let target = Target {
                    style: self.path_style,
                    output_dir: self.config.output_dir.as_str(),
                    cookie: self.config.cookie.as_str(),
                    course,
                };
                let id: u64 = self.next_id;
                let download = plan_download(&target, id, chapter, lecture);
                let mut downloads: Vec<Download> = Vec::new();
                let ghost shown = download@;
                downloads.push(download);
                assert(download_views(downloads@) =~= seq![shown]);
                self.next_id = id.wrapping_add(1);
                Some(Action::StartDownloads(downloads))
            },
            None => None,
        }
    }

    fn download_all_lectures(&mut self) -> (action: Option<Action>)
        requires
            old(self).wf(),
        ensures
            final(self).wf(),
            final(self)@ == old(self)@.all_downloaded().state,
            opt_action(action) == old(self)@.all_downloaded().action,
    {
        let mut msg = "Queued all video lectures for \"".to_owned();
        let mut next_id: u64 = self.next_id;
        let downloads = match &self.current_course {
            None => return None,
            Some(course) => {
                let target = Target {
                    style: self.path_style,
                    output_dir: self.config.output_dir.as_str(),
                    cookie: self.config.cookie.as_str(),
                    course,
                };
                msg.append(course.title.as_str());
                msg.append("\"");
                plan_downloads(&target, &mut next_id, &self.curriculum)
            },
        };
        self.next_id = next_id;
        self.status_msg = Some(msg);
        self.active_tab = ActiveTab::Downloads;
        Some(Action::StartDownloads(downloads))
    }

    fn leave_curriculum(&mut self)
        requires
            old(self).wf(),
        ensures
            final(self).wf(),
            final(self)@ == old(self)@.left_curriculum(),
    {
        self.screen = AppScreen::Courses;
        self.curriculum = Vec::new();
        self.visible_rows = Vec::new();
        self.current_course = None;
        assert(self@ =~= old(self)@.left_curriculum());
    }

    fn handle_key_curriculum(&mut self, code: KeyCode) -> (action: Option<Action>)
        requires
            old(self).wf(),
            code == KeyCode::Char('d') && old(self)@.lecture_is_video()
                ==> old(self)@.current_course is Some,
        ensures
            final(self).wf(),
            final(self)@ == old(self)@.curriculum_key(code).state,
            opt_action(action) == old(self)@.curriculum_key(code).action,
    {
        match code {
            KeyCode::Tab => self.toggle_tab(),
            KeyCode::Up => self.curriculum_up(),
            KeyCode::Down => self.curriculum_down(),
            KeyCode::Enter => self.toggle_chapter_expand(),
            KeyCode::Esc => self.leave_curriculum(),
            KeyCode::Char(c) => {
                if c == 'q' || c == 'Q' {
                    self.should_quit = true;
                } else if c == 'k' {
                    self.curriculum_up();
                } else if c == 'j' {
                    self.curriculum_down();
                } else if c == ' ' {
                    self.toggle_chapter_expand();
                } else if c == 'd' {
                    return self.download_selected_lecture();
                } else if c == 'a' {
                    return self.download_all_lectures();
                } else if c == 'b' {
                    self.leave_curriculum();
                }
            },
            _ => {},
        }
        None
    }

    // In the list of downloads.

    fn downloads_up(&mut self)
        requires
            old(self).wf(),
        ensures
            final(self).wf(),
            final(self)@ == (AppView {
                download_selected: step_up(old(self)@.download_selected),
                ..old(self)@
            }),
    {
        self.download_selected = up(self.download_selected);
    }

    fn downloads_down(&mut self)
        requires
            old(self).wf(),
        ensures
            final(self).wf(),
            final(self)@ == (AppView {
                download_selected: step_down(
                    old(self)@.download_selected,
                    old(self)@.downloads.len(),
                ),
                ..old(self)@
            }),
    {
        self.download_selected = down(self.download_selected, self.downloads.len());
    }

    fn cancel_selected_download(&self) -> (action: Option<Action>)
        ensures
            opt_action(action) == self@.download_cancelled().action,
    {
        let sel: usize = row_of(self.download_selected);
        if sel < self.downloads.len() {
            Some(Action::CancelDownload(self.downloads[sel].id))
        } else {
            None
        }
    }

    /// Takes the downloads that have come to an end off the list. The selection stays, or
    /// goes to the last one left.
    pub fn clear_finished_downloads(&mut self)
        requires
            old(self).wf(),
        ensures
            final(self).wf(),
            final(self)@ == old(self)@.finished_cleared(),
    {
        retain_active(&mut self.downloads);
        self.download_selected = if self.downloads.len() == 0 {
            None
        } else {
            clamp_row(self.download_selected, self.downloads.len())
        };
    }

    fn handle_key_downloads(&mut self, code: KeyCode) -> (action: Option<Action>)
        requires
            old(self).wf(),
        ensures
            final(self).wf(),
            final(self)@ == old(self)@.downloads_key(code).state,
            opt_action(action) == old(self)@.downloads_key(code).action,
    {
        match code {
            KeyCode::Tab => self.toggle_tab(),
            KeyCode::Up => self.downloads_up(),
            KeyCode::Down => self.downloads_down(),
            KeyCode::Delete => return self.cancel_selected_download(),
            KeyCode::Char(c) => {
                if c == 'q' || c == 'Q' {
                    self.should_quit = true;
                } else if c == 'k' {
                    self.downloads_up();
                } else if c == 'j' {
                    self.downloads_down();
                } else if c == 'c' {
                    return self.cancel_selected_download();
                } else if c == 'x' {
                    self.clear_finished_downloads();
                }
            },
            _ => {},
        }
        None
    }

    /// Tells whether [`App::handle_key`] can take a key: a video lecture is downloaded as
    /// part of a course, so that there has to be one.
    pub fn can_handle_key(&self, key: Key) -> (can: bool)
        requires
            self.wf(),
        ensures
            can == self@.takes_key(key),
    {
        if self.current_course.is_some() {
            return true;
        }
        match self.selected_curriculum_row() {
            Some(CurriculumRow::Lecture(ci, li)) => {
                assert(self.curriculum@[ci as int].lectures@[li as int]@
                    == self@.curriculum[ci as int].lectures[li as int]);
                let video: bool = is_video_lecture(&self.curriculum[ci].lectures[li]);
                !(video && self.screen == AppScreen::Curriculum && self.active_tab
                    == ActiveTab::Courses && key.code == KeyCode::Char('d'))
            },
            _ => true,
        }
    }

    /// Does what a key asks for.
    pub fn handle_key(&mut self, key: Key) -> (outcome: KeyOutcome)
        requires
            old(self).wf(),
            old(self)@.takes_key(key),
        ensures
            final(self).wf(),
            outcome.quit == ends_program(key),
            ends_program(key) ==> final(self)@ == old(self)@ && outcome.action is None,
            !ends_program(key) ==> {
                &&& final(self)@ == old(self)@.key_effect(key.code).state
                &&& opt_action(outcome.action) == old(self)@.key_effect(key.code).action
            },
            final(self)@ == old(self)@.after_key(key).state,
            opt_action(outcome.action) == old(self)@.after_key(key).action,
    {
        if key.control && (key.code == KeyCode::Char('c') || key.code == KeyCode::Char('C')) {
            return KeyOutcome { quit: true, action: None };
        }
        let action = match self.screen {
            AppScreen::Login => self.handle_key_setup(key.code),
            AppScreen::Courses => if self.active_tab == ActiveTab::Downloads {
                self.handle_key_downloads(key.code)
            } else {
                self.handle_key_courses(key.code)
            },
            AppScreen::Curriculum => if self.active_tab == ActiveTab::Downloads {
                self.handle_key_downloads(key.code)
            } else {
                self.handle_key_curriculum(key.code)
            },
        };
        KeyOutcome { quit: false, action }
    }
}

proof fn lemma_some_rows(groups: Seq<GroupView>)
    ensures
        groups.len() > 0 ==> course_rows_of(groups).len() > 0,
{
}

fn retain_active(items: &mut Vec<DownloadItem>)
    ensures
        item_views(final(items)@) == active_items(item_views(old(items)@)),
{
    let ghost all = item_views(items@);
    let ghost mut seen: int = 0;
    let mut i: usize = 0;
    proof {
        reveal(Seq::filter);
        assert(active_items(all.take(0)) =~= seq![]);
        assert(all.skip(0) =~= all);
        assert(active_items(all.take(0)) + all.skip(0) =~= all);
    }
    while i < items.len()
        invariant
            0 <= seen <= all.len(),
            i <= items.len(),
            i == active_items(all.take(seen)).len(),
            item_views(items@) == active_items(all.take(seen)) + all.skip(seen),
        decreases items.len() - i,
    {
        let ghost before = items@;
        let ghost kept = active_items(all.take(seen));
        proof {
            reveal(Seq::filter);
            assert(items@.len() == item_views(items@).len());
            assert(item_views(items@)[i as int] == all[seen]);
            assert(all.take(seen + 1).drop_last() =~= all.take(seen));
            assert(all.take(seen + 1).last() == all[seen]);
        }
        if items[i].is_active() {
            proof {
                assert(active_items(all.take(seen + 1)) == kept.push(all[seen]));
                assert(kept.push(all[seen]) + all.skip(seen + 1) =~= kept + all.skip(seen));
            }
            i += 1;
        } else {
            items.remove(i);
            proof {
                assert(active_items(all.take(seen + 1)) == kept);
                assert(item_views(items@) =~= item_views(before).remove(i as int));
                assert((kept + all.skip(seen)).remove(i as int) =~= kept + all.skip(seen + 1));
            }
        }
        proof {
            seen = seen + 1;
        }
    }
    proof {
        assert(items@.len() == item_views(items@).len());
        assert(all.take(seen) =~= all);
        assert(item_views(items@) =~= active_items(all));
    }
}

// ------------------------------------------------------------------------ laws

/// Switching the tab twice changes nothing.
pub proof fn law_switching_twice_changes_nothing(v: AppView)
    ensures
        v.tab_switched().tab_switched() == v,
{
}

/// On every screen, Tab switches the tab and does nothing else, and pressing it again
/// switches back.
pub proof fn law_tab_switches_on_every_screen(v: AppView)
    ensures
        v.key_effect(KeyCode::Tab) == only(v.tab_switched()),
        v.key_effect(KeyCode::Tab).state.active_tab != v.active_tab,
        v.key_effect(KeyCode::Tab).state.key_effect(KeyCode::Tab) == only(v),
{
}

/// Entering the heading of a group twice changes nothing.
pub proof fn law_entering_a_group_twice_changes_nothing(v: AppView, gi: usize)
    requires
        v.lists_fit(),
        v.selections_fit(),
        v.course_row() == Some(CourseRow::Group(gi)),
    ensures
        v.course_entered().state.course_entered().state == v,
{
    let k = selected_row(v.course_selected);
    let after = v.course_entered().state;
    law_course_rows_are_shown(v.groups, k);
    law_toggling_keeps_the_heading_of_a_group(v.groups, gi as int, k);
    assert(after.course_rows()[k] == after.course_rows().take(k + 1)[k]);
    assert(v.course_rows()[k] == v.course_rows().take(k + 1)[k]);
    assert(after.course_selected == v.course_selected);
    assert(group_toggled(after.groups, gi as int) =~= v.groups);
}

/// A heading of a chapter that is entered stays selected, and nothing but that chapter
/// changes.
pub proof fn law_entered_chapters_stay_selected(v: AppView, ci: usize)
    requires
        v.lists_fit(),
        v.selections_fit(),
        v.curriculum_row() == Some(CurriculumRow::Chapter(ci)),
    ensures
        v.chapter_entered() == (AppView {
            curriculum: chapter_toggled(v.curriculum, ci as int),
            ..v
        }),
        v.chapter_entered().curriculum_row() == Some(CurriculumRow::Chapter(ci)),
{
    let k = selected_row(v.curriculum_selected);
    let after = v.chapter_entered();
    law_curriculum_rows_are_shown(v.curriculum, k);
    law_toggling_keeps_the_heading_of_a_chapter(v.curriculum, ci as int, k);
    assert(after.curriculum_rows()[k] == after.curriculum_rows().take(k + 1)[k]);
    assert(v.curriculum_rows()[k] == v.curriculum_rows().take(k + 1)[k]);
    assert(after.curriculum_selected == v.curriculum_selected);
}

/// Entering the heading of a chapter twice changes nothing.
pub proof fn law_entering_a_chapter_twice_changes_nothing(v: AppView, ci: usize)
    requires
        v.lists_fit(),
        v.selections_fit(),
        v.curriculum_row() == Some(CurriculumRow::Chapter(ci)),
    ensures
        v.chapter_entered().chapter_entered() == v,
{
    let k = selected_row(v.curriculum_selected);
    law_entered_chapters_stay_selected(v, ci);
    law_curriculum_rows_are_shown(v.curriculum, k);
    assert(chapter_toggled(v.chapter_entered().curriculum, ci as int) =~= v.curriculum);
}

/// Logging out forgets the cookie and the courses, and shows the setup screen.
pub proof fn law_logging_out_forgets_the_cookie(v: AppView)
    requires
        v.screen == AppScreen::Courses,
        v.active_tab == ActiveTab::Courses,
    ensures
        v.key_effect(KeyCode::Char('L')).state.cookie.len() == 0,
        v.key_effect(KeyCode::Char('L')).state.groups.len() == 0,
        v.key_effect(KeyCode::Char('L')).state.screen == AppScreen::Login,
        v.key_effect(KeyCode::Char('L')).action is None,
{
}

/// Clearing the list takes off exactly the downloads that have come to an end.
pub proof fn law_clearing_keeps_exactly_the_active(v: AppView, item: ItemView)
    ensures
        v.finished_cleared().downloads.contains(item) <==> v.downloads.contains(item)
            && item.status.active(),
{
    lemma_active_items(v.downloads, item);
}

/// Clearing the list twice is clearing it once.
pub proof fn law_clearing_twice_is_clearing_once(v: AppView)
    ensures
        v.finished_cleared().finished_cleared() == v.finished_cleared(),
{
    lemma_all_active(v.downloads);
}

proof fn lemma_all_active(items: Seq<ItemView>)
    ensures
        active_items(active_items(items)) == active_items(items),
    decreases items.len(),
{
    reveal(Seq::filter);
    if items.len() > 0 {
        let kept = active_items(items.drop_last());
        lemma_all_active(items.drop_last());
        if items.last().status.active() {
            assert(kept.push(items.last()).drop_last() =~= kept);
        }
    }
}

proof fn lemma_active_items(items: Seq<ItemView>, item: ItemView)
    ensures
        active_items(items).contains(item) <==> items.contains(item) && item.status.active(),
    decreases items.len(),
{
    reveal(Seq::filter);
    if items.len() > 0 {
        let before = items.drop_last();
        let last = items.last();
        let kept = active_items(before);
        let all = active_items(items);
        lemma_active_items(before, item);
        assert(items =~= before.push(last));
        if before.contains(item) {
            let k = choose|k: int| 0 <= k < before.len() && before[k] == item;
            assert(items[k] == item);
        }
        if kept.contains(item) {
            let k = choose|k: int| 0 <= k < kept.len() && kept[k] == item;
            assert(all[k] == item);
        }
        if all.contains(item) && !kept.contains(item) {
            let k = choose|k: int| 0 <= k < all.len() && all[k] == item;
            if k < kept.len() {
                assert(kept[k] == item);
            }
            assert(items[items.len() - 1] == item);
        }
        if items.contains(item) && item.status.active() && !before.contains(item) {
            let k = choose|k: int| 0 <= k < items.len() && items[k] == item;
            if k < before.len() {
                assert(before[k] == item);
            }
            assert(all[kept.len() as int] == item);
        }
    }
}

/// Control and C, in either case, end the program, and no other key does.
pub proof fn law_control_c_ends_the_program(c: char, code: KeyCode)
    ensures
        ends_program(Key { code: KeyCode::Char('c'), control: true }),
        ends_program(Key { code: KeyCode::Char('C'), control: true }),
        c != 'c' && c != 'C' ==> !ends_program(Key { code: KeyCode::Char(c), control: true }),
        !(code is Char) ==> !ends_program(Key { code, control: true }),
        !ends_program(Key { code, control: false }),
{
}

/// On every screen, q and Q ask for the end of the program and do nothing else.
pub proof fn law_q_quits_on_every_screen(v: AppView)
    ensures
        v.key_effect(KeyCode::Char('q')) == only(AppView { should_quit: true, ..v }),
        v.key_effect(KeyCode::Char('Q')) == only(AppView { should_quit: true, ..v }),
{
}

/// On the setup screen, r and R read the cookie file again, unless courses are loading; all
/// keys but those, q and Tab do nothing, whichever tab is shown.
pub proof fn law_r_reads_the_cookie_file_again(v: AppView, code: KeyCode)
    requires
        v.screen == AppScreen::Login,
    ensures
        !v.loading ==> v.key_effect(KeyCode::Char('r')) == (Effect {
            state: v,
            action: Some(ActionView::ReadCookie),
        }) && v.key_effect(KeyCode::Char('R')) == (Effect {
            state: v,
            action: Some(ActionView::ReadCookie),
        }),
        v.loading ==> v.key_effect(KeyCode::Char('r')) == only(v) && v.key_effect(
            KeyCode::Char('R'),
        ) == only(v),
        !(code is Char) && code != KeyCode::Tab ==> v.key_effect(code) == only(v),
        code matches KeyCode::Char(c) ==> c != 'r' && c != 'R' && c != 'q' && c != 'Q'
            ==> v.key_effect(code) == only(v),
{
}

/// In every list, k and the arrow up go to the row before, and j and the arrow down to the
/// next one, and nothing else changes.
pub proof fn law_arrows_move_the_selection(v: AppView)
    requires
        v.screen != AppScreen::Login,
    ensures
        v.key_effect(KeyCode::Char('k')) == v.key_effect(KeyCode::Up),
        v.key_effect(KeyCode::Char('j')) == v.key_effect(KeyCode::Down),
        v.active_tab == ActiveTab::Downloads ==> {
            &&& v.key_effect(KeyCode::Up) == only(
                AppView { download_selected: step_up(v.download_selected), ..v },
            )
            &&& v.key_effect(KeyCode::Down) == only(
                AppView {
                    download_selected: step_down(v.download_selected, v.downloads.len()),
                    ..v
                },
            )
        },
        v.active_tab == ActiveTab::Courses && v.screen == AppScreen::Courses ==> {
            &&& v.key_effect(KeyCode::Up) == only(
                AppView { course_selected: step_up(v.course_selected), ..v },
            )
            &&& v.key_effect(KeyCode::Down) == only(
                AppView {
                    course_selected: step_down(v.course_selected, course_rows_of(v.groups).len()),
                    ..v
                },
            )
        },
        v.active_tab == ActiveTab::Courses && v.screen == AppScreen::Curriculum ==> {
            &&& v.key_effect(KeyCode::Up) == only(
                AppView { curriculum_selected: step_up(v.curriculum_selected), ..v },
            )
            &&& v.key_effect(KeyCode::Down) == only(
                AppView {
                    curriculum_selected: step_down(
                        v.curriculum_selected,
                        curriculum_rows_of(v.curriculum).len(),
                    ),
                    ..v
                },
            )
        },
{
}

/// In the list of courses, Enter on a course asks for its curriculum, d for the download of
/// all of it, and r asks for the courses again.
pub proof fn law_courses_are_opened_and_downloaded(v: AppView, k: usize, gi: usize, ci: usize)
    requires
        v.screen == AppScreen::Courses,
        v.active_tab == ActiveTab::Courses,
        v.course_selected == Some(k),
        k < course_rows_of(v.groups).len(),
        course_rows_of(v.groups)[k as int] == CourseRow::Course(gi, ci),
    ensures
        v.key_effect(KeyCode::Enter).action == Some(
            ActionView::FetchCurriculum {
                cookie: v.cookie,
                course_id: v.groups[gi as int].courses[ci as int].id,
            },
        ),
        v.key_effect(KeyCode::Enter).state == (AppView {
            loading: true,
            status_msg: Some(
                "Loading \""@ + v.groups[gi as int].courses[ci as int].title + "\"\u{2026}"@,
            ),
            ..v
        }),
        v.key_effect(KeyCode::Char('d')) == (Effect {
            state: v,
            action: Some(
                ActionView::FetchCourse {
                    cookie: v.cookie,
                    output_dir: v.output_dir,
                    course: v.groups[gi as int].courses[ci as int],
                },
            ),
        }),
        v.key_effect(KeyCode::Char('r')) == (Effect {
            state: AppView { loading: true, ..v },
            action: Some(ActionView::FetchCourses { cookie: v.cookie, login: false }),
        }),
{
}

/// In the list of courses, Enter on the name of an instructor expands or collapses the
/// group, with the name still selected, and d only says how to go on.
pub proof fn law_groups_are_expanded(v: AppView, k: usize, gi: usize)
    requires
        v.lists_fit(),
        v.screen == AppScreen::Courses,
        v.active_tab == ActiveTab::Courses,
        v.course_selected == Some(k),
        k < course_rows_of(v.groups).len(),
        course_rows_of(v.groups)[k as int] == CourseRow::Group(gi),
    ensures
        v.key_effect(KeyCode::Enter).action is None,
        v.key_effect(KeyCode::Enter).state.groups.len() == v.groups.len(),
        gi < v.groups.len(),
        v.key_effect(KeyCode::Enter).state.groups[gi as int].expanded != v.groups[gi as int].expanded,
        v.key_effect(KeyCode::Enter).state == (AppView {
            groups: v.key_effect(KeyCode::Enter).state.groups,
            ..v
        }),
        v.key_effect(KeyCode::Char('d')) == only(
            AppView {
                status_msg: Some(
                    "Press Enter to expand '"@ + v.groups[gi as int].instructor
                        + "', then select a course"@,
                ),
                ..v
            },
        ),
{
    law_course_rows_are_shown(v.groups, k as int);
    law_toggling_keeps_the_heading_of_a_group(v.groups, gi as int, k as int);
}

/// In the list of courses, all other keys do nothing.
pub proof fn law_other_keys_do_nothing_with_courses(v: AppView, code: KeyCode)
    requires
        v.screen == AppScreen::Courses,
        v.active_tab == ActiveTab::Courses,
        code == KeyCode::Esc || code == KeyCode::Delete || code == KeyCode::Other || (
        code matches KeyCode::Char(c) && c != 'q' && c != 'Q' && c != 'k' && c != 'j' && c != 'd'
            && c != 'r' && c != 'L'),
    ensures
        v.key_effect(code) == only(v),
{
}

/// In the curriculum, d on a video lecture starts its download under the next number, and d
/// on another lecture or on a chapter only says that it is no video lecture.
pub proof fn law_lectures_are_downloaded(
    v: AppView,
    k: usize,
    ci: usize,
    li: usize,
    course: CourseView,
)
    requires
        v.screen == AppScreen::Curriculum,
        v.active_tab == ActiveTab::Courses,
        v.curriculum_selected == Some(k),
        k < curriculum_rows_of(v.curriculum).len(),
        v.current_course == Some(course),
    ensures
        curriculum_rows_of(v.curriculum)[k as int] == CurriculumRow::Chapter(ci) ==> v.key_effect(
            KeyCode::Char('d'),
        ) == only(
            AppView {
                status_msg: Some("Select a lecture (not a chapter heading)"@),
                ..v
            },
        ),
        curriculum_rows_of(v.curriculum)[k as int] == CurriculumRow::Lecture(ci, li) ==> {
            let chapter = v.curriculum[ci as int];
            let lecture = chapter.lectures[li as int];
            let effect = v.key_effect(KeyCode::Char('d'));
            &&& lecture.asset_type != "Video"@ ==> effect == only(
                AppView {
                    status_msg: Some(
                        "'"@ + lecture.title + "' is not a video ("@ + lecture.asset_type + ")"@,
                    ),
                    ..v
                },
            )
            &&& lecture.asset_type == "Video"@ ==> {
                &&& effect.state == (AppView { next_id: effect.state.next_id, ..v })
                &&& v.next_id < u64::MAX ==> effect.state.next_id == v.next_id + 1
                &&& effect.action matches Some(ActionView::StartDownloads(list))
                &&& list.len() == 1
                &&& list[0].id == v.next_id
                &&& list[0].lecture_id == lecture.id
                &&& list[0].course_id == course.id
                &&& list[0].cookie == v.cookie
                &&& list[0].lecture_title == lecture.title
                &&& list[0].chapter_title == chapter.title
                &&& list[0].course_title == course.title
                &&& list[0].output_path == output_path(
                    v.path_style,
                    v.output_dir,
                    course.title,
                    chapter.object_index,
                    chapter.title,
                    lecture.object_index,
                    lecture.title,
                )
            }
        },
{
}

/// In the curriculum, a starts the download of all its videos and shows the list of
/// downloads; without a course it does nothing.
pub proof fn law_all_lectures_are_downloaded(v: AppView, course: CourseView, i: int)
    requires
        v.screen == AppScreen::Curriculum,
        v.active_tab == ActiveTab::Courses,
    ensures
        v.current_course is None ==> v.key_effect(KeyCode::Char('a')) == only(v),
        v.current_course == Some(course) ==> {
            let effect = v.key_effect(KeyCode::Char('a'));
            let planned = videos(v.curriculum);
            &&& effect.state == (AppView {
                next_id: effect.state.next_id,
                status_msg: Some("Queued all video lectures for \""@ + course.title + "\""@),
                active_tab: ActiveTab::Downloads,
                ..v
            })
            &&& v.next_id + planned.len() <= u64::MAX ==> effect.state.next_id == v.next_id
                + planned.len()
            &&& effect.action matches Some(ActionView::StartDownloads(list))
            &&& list.len() == planned.len()
            &&& 0 <= i < list.len() ==> {
                &&& list[i].lecture_id == planned[i].1.id
                &&& list[i].chapter_title == planned[i].0.title
                &&& list[i].course_id == course.id
                &&& list[i].cookie == v.cookie
                &&& v.next_id + i <= u64::MAX ==> list[i].id == v.next_id + i
            }
        },
{
}

/// In the curriculum, Esc and b lead back to the list of courses and forget the curriculum,
/// and Enter and the space bar do the same: a heading is expanded or collapsed, and nothing
/// happens on a lecture.
pub proof fn law_the_curriculum_is_left(v: AppView, k: usize, ci: usize, li: usize)
    requires
        v.screen == AppScreen::Curriculum,
        v.active_tab == ActiveTab::Courses,
        v.curriculum_selected == Some(k),
        k < curriculum_rows_of(v.curriculum).len(),
    ensures
        v.key_effect(KeyCode::Esc) == v.key_effect(KeyCode::Char('b')),
        v.key_effect(KeyCode::Esc) == only(
            AppView {
                screen: AppScreen::Courses,
                curriculum: seq![],
                current_course: None,
                ..v
            },
        ),
        v.key_effect(KeyCode::Enter) == v.key_effect(KeyCode::Char(' ')),
        curriculum_rows_of(v.curriculum)[k as int] == CurriculumRow::Lecture(ci, li)
            ==> v.key_effect(KeyCode::Enter) == only(v),
        v.lists_fit() && curriculum_rows_of(v.curriculum)[k as int] == CurriculumRow::Chapter(ci)
            ==> {
            let effect = v.key_effect(KeyCode::Enter);
            &&& effect.action is None
            &&& ci < v.curriculum.len()
            &&& effect.state.curriculum.len() == v.curriculum.len()
            &&& effect.state.curriculum[ci as int].expanded != v.curriculum[ci as int].expanded
            &&& effect.state == (AppView { curriculum: effect.state.curriculum, ..v })
        },
{
    if v.lists_fit() && curriculum_rows_of(v.curriculum)[k as int] == CurriculumRow::Chapter(ci) {
        law_curriculum_rows_are_shown(v.curriculum, k as int);
        law_toggling_keeps_the_heading_of_a_chapter(v.curriculum, ci as int, k as int);
    }
}

/// In the curriculum, all other keys do nothing.
pub proof fn law_other_keys_do_nothing_with_lectures(v: AppView, code: KeyCode)
    requires
        v.screen == AppScreen::Curriculum,
        v.active_tab == ActiveTab::Courses,
        code == KeyCode::Delete || code == KeyCode::Other || (code matches KeyCode::Char(c) && c
            != 'q' && c != 'Q' && c != 'k' && c != 'j' && c != 'd' && c != 'a' && c != 'b' && c
            != ' '),
    ensures
        v.key_effect(code) == only(v),
{
}

/// In the list of downloads, c and Delete cancel the selected download, and x takes off
/// those that have come to an end. The selected row stays selected, or the last one left.
pub proof fn law_downloads_are_cancelled_and_cleared(v: AppView, k: usize)
    requires
        v.screen != AppScreen::Login,
        v.active_tab == ActiveTab::Downloads,
        v.download_selected == Some(k),
        k < v.downloads.len() <= usize::MAX,
    ensures
        v.key_effect(KeyCode::Char('c')) == (Effect {
            state: v,
            action: Some(ActionView::CancelDownload(v.downloads[k as int].id)),
        }),
        v.key_effect(KeyCode::Delete) == v.key_effect(KeyCode::Char('c')),
        ({
            let effect = v.key_effect(KeyCode::Char('x'));
            let left = active_items(v.downloads);
            &&& effect.action is None
            &&& effect.state == (AppView {
                downloads: left,
                download_selected: effect.state.download_selected,
                ..v
            })
            &&& left.len() == 0 ==> effect.state.download_selected is None
            &&& k < left.len() ==> effect.state.download_selected == Some(k)
            &&& 0 < left.len() <= k ==> effect.state.download_selected == Some(
                (left.len() - 1) as usize,
            )
        }),
{
}

/// In the list of downloads, all other keys do nothing, and there is nothing to cancel in an
/// empty list.
pub proof fn law_other_keys_do_nothing_with_downloads(v: AppView, code: KeyCode)
    requires
        v.screen != AppScreen::Login,
        v.active_tab == ActiveTab::Downloads,
    ensures
        code == KeyCode::Enter || code == KeyCode::Esc || code == KeyCode::Other || (
        code matches KeyCode::Char(c) && c != 'q' && c != 'Q' && c != 'k' && c != 'j' && c != 'c'
            && c != 'x') ==> v.key_effect(code) == only(v),
        v.downloads.len() == 0 ==> v.key_effect(KeyCode::Char('c')) == only(v) && v.key_effect(
            KeyCode::Delete,
        ) == only(v),
{
}

/// A key can be taken unless it asks for the download of a video lecture without a course.
pub proof fn law_keys_can_be_taken(v: AppView, key: Key)
    ensures
        v.current_course is Some ==> v.takes_key(key),
        key.code != KeyCode::Char('d') ==> v.takes_key(key),
        v.screen != AppScreen::Curriculum || v.active_tab == ActiveTab::Downloads ==> v.takes_key(
            key,
        ),
{
}

/// The key that ends the program changes nothing and asks for nothing; every other key does
/// what it does on the screen.
pub proof fn law_ending_changes_nothing(v: AppView, key: Key)
    ensures
        v.after_key(Key { code: KeyCode::Char('c'), control: true }) == only(v),
        v.after_key(Key { code: KeyCode::Char('C'), control: true }) == only(v),
        !key.control ==> v.after_key(key) == v.key_effect(key.code),
        key.code != KeyCode::Char('c') && key.code != KeyCode::Char('C') ==> v.after_key(key)
            == v.key_effect(key.code),
{
}

} // verus!
