//! The state of the program.

use crate::config::{output_path, Config, PathStyle};
use crate::cookie::{decode_jwt_email, email_in};
use crate::groups::{
    course_rows_of, curriculum_rows_of, group_views, list_course_rows, list_curriculum_rows,
    CourseGroup, CourseRow, CurriculumRow, GroupView,
};
use crate::plan::{
    download_views, downloads_of, id_after, plan_downloads, videos, Download, DownloadView, Target,
    TargetView,
};
use crate::text::opt_text;
use crate::types::{
    chapter_views, item_views, ActiveTab, AppScreen, Chapter, ChapterView, Course, CourseView,
    DownloadItem, ItemView,
};
use vstd::prelude::*;
use vstd::string::*;

verus! {

// ----------------------------------------------------------------------- state

/// The state of the program.
#[derive(Debug)]
pub struct App {
    pub screen: AppScreen,
    pub active_tab: ActiveTab,
    pub config: Config,
    /// The path of the cookie file, as it is displayed.
    pub cookie_file: String,
    /// Why the setup screen is shown.
    pub login_error: Option<String>,
    pub loading: bool,
    pub course_groups: Vec<CourseGroup>,
    /// The rows in which the groups and their courses are listed.
    pub course_rows: Vec<CourseRow>,
    pub course_selected: Option<usize>,
    pub current_course: Option<Course>,
    pub curriculum: Vec<Chapter>,
    /// The rows in which the chapters and their lectures are listed.
    pub visible_rows: Vec<CurriculumRow>,
    pub curriculum_selected: Option<usize>,
    pub downloads: Vec<DownloadItem>,
    pub download_selected: Option<usize>,
    pub status_msg: Option<String>,
    pub error_msg: Option<String>,
    pub should_quit: bool,
    /// The number that the next download gets.
    pub next_id: u64,
    /// How paths are written.
    pub path_style: PathStyle,
}

/// What an [`App`] holds, besides the rows.
#[verifier::ext_equal]
pub struct AppView {
    pub screen: AppScreen,
    pub active_tab: ActiveTab,
    pub cookie: Seq<char>,
    pub output_dir: Seq<char>,
    pub cookie_file: Seq<char>,
    pub login_error: Option<Seq<char>>,
    pub loading: bool,
    pub groups: Seq<GroupView>,
    pub course_selected: Option<usize>,
    pub current_course: Option<CourseView>,
    pub curriculum: Seq<ChapterView>,
    pub curriculum_selected: Option<usize>,
    pub downloads: Seq<ItemView>,
    pub download_selected: Option<usize>,
    pub status_msg: Option<Seq<char>>,
    pub error_msg: Option<Seq<char>>,
    pub should_quit: bool,
    pub next_id: u64,
    pub path_style: PathStyle,
}

/// What an optional course holds.
pub open spec fn opt_course(course: Option<Course>) -> Option<CourseView> {
    match course {
        Some(c) => Some(c@),
        None => None,
    }
}

impl View for App {
    type V = AppView;

    open spec fn view(&self) -> AppView {
        AppView {
            screen: self.screen,
            active_tab: self.active_tab,
            cookie: self.config.cookie@,
            output_dir: self.config.output_dir@,
            cookie_file: self.cookie_file@,
            login_error: opt_text(self.login_error),
            loading: self.loading,
            groups: group_views(self.course_groups@),
            course_selected: self.course_selected,
            current_course: opt_course(self.current_course),
            curriculum: chapter_views(self.curriculum@),
            curriculum_selected: self.curriculum_selected,
            downloads: item_views(self.downloads@),
            download_selected: self.download_selected,
            status_msg: opt_text(self.status_msg),
            error_msg: opt_text(self.error_msg),
            should_quit: self.should_quit,
            next_id: self.next_id,
            path_style: self.path_style,
        }
    }
}

/// Whether a selection is one of `len` rows, if there are any.
pub open spec fn selects_one_of(selected: Option<usize>, len: nat) -> bool {
    len > 0 ==> selected is Some && selected->0 < len
}

impl AppView {
    /// The rows in which the courses are listed.
    pub open spec fn course_rows(self) -> Seq<CourseRow> {
        course_rows_of(self.groups)
    }

    /// The rows in which the curriculum is listed.
    pub open spec fn curriculum_rows(self) -> Seq<CurriculumRow> {
        curriculum_rows_of(self.curriculum)
    }

    /// Whether every list has one of its rows selected, if it has any.
    pub open spec fn selections_fit(self) -> bool {
        &&& selects_one_of(self.course_selected, self.course_rows().len())
        &&& selects_one_of(self.curriculum_selected, self.curriculum_rows().len())
        &&& selects_one_of(self.download_selected, self.downloads.len())
        &&& self.downloads.len() == 0 ==> self.download_selected is None
    }
}

impl App {
    /// The rows list what there is, and every list has one of its rows selected.
    pub open spec fn wf(&self) -> bool {
        &&& self.course_rows@ == self@.course_rows()
        &&& self.visible_rows@ == self@.curriculum_rows()
        &&& self@.selections_fit()
    }
}

// ------------------------------------------------------------------- selection

/// The selected row, or the first one.
pub open spec fn selected_row(selected: Option<usize>) -> int {
    match selected {
        Some(s) => s as int,
        None => 0,
    }
}

/// The selection after a step up.
pub open spec fn step_up(selected: Option<usize>) -> Option<usize> {
    if selected_row(selected) > 0 {
        Some((selected_row(selected) - 1) as usize)
    } else {
        selected
    }
}

/// The selection after a step down among `len` rows.
pub open spec fn step_down(selected: Option<usize>, len: nat) -> Option<usize> {
    if selected_row(selected) + 1 < len {
        Some((selected_row(selected) + 1) as usize)
    } else {
        selected
    }
}

/// The selected row, or the last of `len` rows where that is earlier.
pub open spec fn clamped(selected: Option<usize>, len: nat) -> Option<usize> {
    if len == 0 {
        Some(0)
    } else if selected_row(selected) < len {
        Some(selected_row(selected) as usize)
    } else {
        Some((len - 1) as usize)
    }
}

pub(crate) fn row_of(selected: Option<usize>) -> (row: usize)
    ensures
        row == selected_row(selected),
{
    match selected {
        Some(s) => s,
        None => 0,
    }
}

pub(crate) fn up(selected: Option<usize>) -> (after: Option<usize>)
    ensures
        after == step_up(selected),
{
    let row: usize = row_of(selected);
    if row > 0 {
        Some(row - 1)
    } else {
        selected
    }
}

pub(crate) fn down(selected: Option<usize>, len: usize) -> (after: Option<usize>)
    ensures
        after == step_down(selected, len as nat),
{
    let row: usize = row_of(selected);
    if row < len && len - row > 1 {
        Some(row + 1)
    } else {
        selected
    }
}

pub(crate) fn clamp_row(selected: Option<usize>, len: usize) -> (after: Option<usize>)
    ensures
        after == clamped(selected, len as nat),
{
    let row: usize = row_of(selected);
    if len == 0 {
        Some(0)
    } else if row < len {
        Some(row)
    } else {
        Some(len - 1)
    }
}

impl AppView {
    /// With the courses listed anew.
    pub open spec fn courses_relisted(self) -> AppView {
        AppView {
            course_selected: if self.course_rows().len() == 0 {
                self.course_selected
            } else {
                clamped(self.course_selected, self.course_rows().len())
            },
            ..self
        }
    }

    /// With the curriculum listed anew.
    pub open spec fn curriculum_relisted(self) -> AppView {
        AppView {
            curriculum_selected: clamped(self.curriculum_selected, self.curriculum_rows().len()),
            ..self
        }
    }
}

impl App {
    /// Lists the courses anew. The selection stays, or goes to the last row.
    pub fn rebuild_course_rows(&mut self)
        ensures
            final(self)@ == (AppView {
                course_selected: if old(self)@.course_rows().len() == 0 {
                    old(self)@.course_selected
                } else {
                    clamped(old(self)@.course_selected, old(self)@.course_rows().len())
                },
                ..old(self)@
            }),
            final(self).course_rows@ == old(self)@.course_rows(),
            final(self).visible_rows@ == old(self).visible_rows@,
            final(self)@ == old(self)@.courses_relisted(),
    {
        self.course_rows = list_course_rows(&self.course_groups);
        if self.course_rows.len() > 0 {
            self.course_selected = clamp_row(self.course_selected, self.course_rows.len());
        }
    }

    /// Lists the curriculum anew. The selection stays, or goes to the last row.
    pub fn rebuild_visible_rows(&mut self)
        ensures
            final(self)@ == (AppView {
                curriculum_selected: clamped(
                    old(self)@.curriculum_selected,
                    old(self)@.curriculum_rows().len(),
                ),
                ..old(self)@
            }),
            final(self).course_rows@ == old(self).course_rows@,
            final(self).visible_rows@ == old(self)@.curriculum_rows(),
            final(self)@ == old(self)@.curriculum_relisted(),
    {
        self.visible_rows = list_curriculum_rows(&self.curriculum);
        self.curriculum_selected = clamp_row(self.curriculum_selected, self.visible_rows.len());
    }
}

/// Whether a download has not come to an end.
pub open spec fn is_active_item() -> spec_fn(ItemView) -> bool {
    |d: ItemView| d.status.active()
}

/// The downloads that have not come to an end.
pub open spec fn active_items(items: Seq<ItemView>) -> Seq<ItemView> {
    items.filter(is_active_item())
}

// ------------------------------------------------------------------------ work

/// Work that a key or a message asks for.
#[derive(Debug)]
pub enum Action {
    /// Read the cookie file, and hand it to [`App::auto_init`].
    ReadCookie,
    /// Fetch the courses. `login` says whether this checks a new cookie.
    FetchCourses { cookie: String, login: bool },
    /// Fetch the curriculum of a course, to show it.
    FetchCurriculum { cookie: String, course_id: u64 },
    /// Fetch the curriculum of a course, and hand it to [`App::download_course`].
    FetchCourse { cookie: String, output_dir: String, course: Course },
    /// Queue and start downloads.
    StartDownloads(Vec<Download>),
    /// Cancel the download with this number.
    CancelDownload(u64),
}

/// What an [`Action`] holds.
pub enum ActionView {
    ReadCookie,
    FetchCourses { cookie: Seq<char>, login: bool },
    FetchCurriculum { cookie: Seq<char>, course_id: u64 },
    FetchCourse { cookie: Seq<char>, output_dir: Seq<char>, course: CourseView },
    StartDownloads(Seq<DownloadView>),
    CancelDownload(u64),
}

impl View for Action {
    type V = ActionView;

    open spec fn view(&self) -> ActionView {
        match self {
            Action::ReadCookie => ActionView::ReadCookie,
            Action::FetchCourses { cookie, login } => ActionView::FetchCourses {
                cookie: cookie@,
                login: *login,
            },
            Action::FetchCurriculum { cookie, course_id } => ActionView::FetchCurriculum {
                cookie: cookie@,
                course_id: *course_id,
            },
            Action::FetchCourse { cookie, output_dir, course } => ActionView::FetchCourse {
                cookie: cookie@,
                output_dir: output_dir@,
                course: course@,
            },
            Action::StartDownloads(downloads) => ActionView::StartDownloads(
                download_views(downloads@),
            ),
            Action::CancelDownload(id) => ActionView::CancelDownload(*id),
        }
    }
}

/// What an optional action holds.
pub open spec fn opt_action(action: Option<Action>) -> Option<ActionView> {
    match action {
        Some(a) => Some(a@),
        None => None,
    }
}

/// The state after a key, and the work that it asks for.
pub struct Effect {
    pub state: AppView,
    pub action: Option<ActionView>,
}

/// Nothing to do but to go on in this state.
pub open spec fn only(state: AppView) -> Effect {
    Effect { state, action: None }
}

// -------------------------------------------------------------------- starting

impl AppView {
    /// The state at the start: the setup screen, and nothing loaded.
    pub open spec fn start(
        cookie: Seq<char>,
        output_dir: Seq<char>,
        cookie_file: Seq<char>,
        path_style: PathStyle,
    ) -> AppView {
        AppView {
            screen: AppScreen::Login,
            active_tab: ActiveTab::Courses,
            cookie,
            output_dir,
            cookie_file,
            login_error: None,
            loading: false,
            groups: seq![],
            course_selected: None,
            current_course: None,
            curriculum: seq![],
            curriculum_selected: None,
            downloads: seq![],
            download_selected: None,
            status_msg: None,
            error_msg: None,
            should_quit: false,
            next_id: 1,
            path_style,
        }
    }

    /// After the cookie file was read, with the e-mail address that the cookie names.
    /// Where there is a cookie, the courses are asked for; where there is none, the setup
    /// screen is shown.
    pub open spec fn cookie_read(
        self,
        read: Result<Seq<char>, Seq<char>>,
        email: Option<Seq<char>>,
    ) -> Effect {
        match read {
            Ok(cookie) => Effect {
                state: AppView {
                    cookie,
                    loading: true,
                    login_error: None,
                    status_msg: Some(
                        "Loading courses for "@ + (match email {
                            Some(email) => email,
                            None => "your account"@,
                        }) + "\u{2026}"@,
                    ),
                    ..self
                },
                action: Some(ActionView::FetchCourses { cookie, login: true }),
            },
            Err(e) => only(
                AppView {
                    loading: false,
                    login_error: Some("cookies.txt: "@ + e),
                    screen: AppScreen::Login,
                    ..self
                },
            ),
        }
    }
}

impl AppView {
    /// After the cookie file was read.
    pub open spec fn initialised(self, read: Result<Seq<char>, Seq<char>>) -> Effect {
        self.cookie_read(
            read,
            match read {
                Ok(cookie) => email_in(cookie),
                Err(_) => None,
            },
        )
    }

    /// The state after the videos of a course were planned, and their downloads.
    pub open spec fn course_planned(
        self,
        cookie: Seq<char>,
        output_dir: Seq<char>,
        course: CourseView,
        chapters: Seq<ChapterView>,
    ) -> (AppView, Seq<DownloadView>) {
        let target = TargetView { style: self.path_style, output_dir, cookie, course };
        (
            AppView { next_id: id_after(self.next_id, videos(chapters).len() as int), ..self },
            downloads_of(target, self.next_id, videos(chapters)),
        )
    }
}

/// The text of a result with texts.
pub open spec fn result_text(r: Result<String, String>) -> Result<Seq<char>, Seq<char>> {
    match r {
        Ok(s) => Ok(s@),
        Err(e) => Err(e@),
    }
}

impl App {
    /// The program at its start, with these settings.
    pub fn new(config: Config, cookie_file: String) -> (app: Self)
        ensures
            app.wf(),
            app@ == AppView::start(
                config.cookie@,
                config.output_dir@,
                cookie_file@,
                app.path_style,
            ),
    {
        let app = App {
            screen: AppScreen::Login,
            active_tab: ActiveTab::Courses,
            config,
            cookie_file,
            login_error: None,
            loading: false,
            course_groups: Vec::new(),
            course_rows: Vec::new(),
            course_selected: None,
            current_course: None,
            curriculum: Vec::new(),
            visible_rows: Vec::new(),
            curriculum_selected: None,
            downloads: Vec::new(),
            download_selected: None,
            status_msg: None,
            error_msg: None,
            should_quit: false,
            next_id: 1,
            path_style: PathStyle::current(),
        };
        assert(app@.groups =~= seq![]);
        assert(app@.curriculum =~= seq![]);
        assert(app@.downloads =~= seq![]);
        app
    }

    /// Takes in what was read from the cookie file, and the e-mail address that the
    /// cookie names.
    pub fn init_with(&mut self, read: Result<String, String>, email: Option<String>) -> (action:
        Option<Action>)
        requires
            old(self).wf(),
        ensures
            final(self).wf(),
            final(self)@ == old(self)@.cookie_read(result_text(read), opt_text(email)).state,
            opt_action(action) == old(self)@.cookie_read(
                result_text(read),
                opt_text(email),
            ).action,
    {
        match read {
            Ok(cookie) => {
                let mut msg = "Loading courses for ".to_owned();
                match email {
                    Some(email) => msg.append(email.as_str()),
                    None => msg.append("your account"),
                }
                msg.append("\u{2026}");
                self.config.cookie = cookie.clone();
                self.loading = true;
                self.login_error = None;
                self.status_msg = Some(msg);
                Some(Action::FetchCourses { cookie, login: true })
            },
            Err(e) => {
                let mut msg = "cookies.txt: ".to_owned();
                msg.append(e.as_str());
                self.loading = false;
                self.login_error = Some(msg);
                self.screen = AppScreen::Login;
                None
            },
        }
    }

    /// Takes in what was read from the cookie file. Where there is a cookie, the courses
    /// are to be fetched at once; where there is none, the setup screen is shown.
    pub fn auto_init(&mut self, read: Result<String, String>) -> (action: Option<Action>)
        requires
            old(self).wf(),
        ensures
            final(self).wf(),
            match read {
                Ok(cookie) => {
                    &&& final(self)@ == old(self)@.cookie_read(Ok(cookie@), email_in(cookie@)).state
                    &&& opt_action(action) == Some(
                        ActionView::FetchCourses { cookie: cookie@, login: true },
                    )
                },
                Err(e) => {
                    &&& final(self)@ == old(self)@.cookie_read(Err(e@), None).state
                    &&& action is None
                },
            },
            final(self)@ == old(self)@.initialised(result_text(read)).state,
            opt_action(action) == old(self)@.initialised(result_text(read)).action,
    {
        match read {
            Ok(cookie) => {
                let email = decode_jwt_email(cookie.as_str());
                self.init_with(Ok(cookie), email)
            },
            Err(e) => self.init_with(Err(e), None),
        }
    }

    /// Plans the download of every video of a course.
    pub fn download_course(
        &mut self,
        cookie: &str,
        output_dir: &str,
        course: &Course,
        chapters: &Vec<Chapter>,
    ) -> (downloads: Vec<Download>)
        requires
            old(self).wf(),
        ensures
            final(self).wf(),
            final(self)@ == (AppView {
                next_id: id_after(
                    old(self)@.next_id,
                    videos(chapter_views(chapters@)).len() as int,
                ),
                ..old(self)@
            }),
            download_views(downloads@) == downloads_of(
                TargetView {
                    style: old(self)@.path_style,
                    output_dir: output_dir@,
                    cookie: cookie@,
                    course: course@,
                },
                old(self)@.next_id,
                videos(chapter_views(chapters@)),
            ),
            (final(self)@, download_views(downloads@)) == old(self)@.course_planned(
                cookie@,
                output_dir@,
                course@,
                chapter_views(chapters@),
            ),
    {
        let target = Target { style: self.path_style, output_dir, cookie, course };
        let mut next_id: u64 = self.next_id;
        let downloads = plan_downloads(&target, &mut next_id, chapters);
        self.next_id = next_id;
        downloads
    }
}

// ------------------------------------------------------------------------ laws

impl AppView {
    /// Whether every list is one that memory can hold.
    pub open spec fn lists_fit(self) -> bool {
        &&& self.groups.len() <= usize::MAX
        &&& forall|i: int|
            0 <= i < self.groups.len() ==> (#[trigger] self.groups[i]).courses.len() <= usize::MAX
        &&& self.curriculum.len() <= usize::MAX
        &&& forall|i: int|
            0 <= i < self.curriculum.len() ==> (#[trigger] self.curriculum[i]).lectures.len()
                <= usize::MAX
    }
}

/// The lists of a program can be held in memory.
pub proof fn law_lists_fit(app: &App)
    ensures
        app@.lists_fit(),
{
    assert(app@.groups.len() == app.course_groups.len());
    assert(app@.curriculum.len() == app.curriculum.len());
    assert forall|i: int| 0 <= i < app@.groups.len() implies (
    #[trigger] app@.groups[i]).courses.len() <= usize::MAX by {
        assert(app@.groups[i].courses.len() == app.course_groups@[i].courses.len());
    }
    assert forall|i: int| 0 <= i < app@.curriculum.len() implies (
    #[trigger] app@.curriculum[i]).lectures.len() <= usize::MAX by {
        assert(app@.curriculum[i].lectures.len() == app.curriculum@[i].lectures.len());
    }
}

/// A step up undoes a step down.
pub proof fn law_up_undoes_down(selected: Option<usize>, len: nat)
    requires
        selects_one_of(selected, len),
        len <= usize::MAX,
        step_down(selected, len) != selected,
    ensures
        step_up(step_down(selected, len)) == selected,
{
}

/// A step goes to the next row or the one before; there is none beyond the first and the
/// last row. Without a selection, the first row counts as selected.
pub proof fn law_steps_go_to_the_next_row(k: usize, len: nat)
    requires
        len <= usize::MAX,
    ensures
        k > 0 ==> step_up(Some(k)) == Some((k - 1) as usize),
        step_up(Some(0)) == Some(0usize),
        step_up(None) is None,
        k + 1 < len ==> step_down(Some(k), len) == Some((k + 1) as usize),
        k + 1 >= len ==> step_down(Some(k), len) == Some(k),
        len > 1 ==> step_down(None, len) == Some(1usize),
        len <= 1 ==> step_down(None, len) is None,
{
}

/// Where a list is made anew, the selected row stays selected; where it is gone, the last
/// row is selected, and nothing else changes.
pub proof fn law_selections_stay_in_lists_made_anew(v: AppView, k: usize)
    ensures
        v.course_selected == Some(k) && k < v.course_rows().len() ==> v.courses_relisted() == v,
        v.course_selected == Some(k) && 0 < v.course_rows().len() <= k && v.course_rows().len()
            <= usize::MAX ==> v.courses_relisted() == (AppView {
            course_selected: Some((v.course_rows().len() - 1) as usize),
            ..v
        }),
        v.course_rows().len() == 0 ==> v.courses_relisted() == v,
        v.curriculum_selected == Some(k) && k < v.curriculum_rows().len()
            ==> v.curriculum_relisted() == v,
        v.curriculum_selected == Some(k) && 0 < v.curriculum_rows().len() <= k
            && v.curriculum_rows().len() <= usize::MAX ==> v.curriculum_relisted() == (AppView {
            curriculum_selected: Some((v.curriculum_rows().len() - 1) as usize),
            ..v
        }),
        v.curriculum_rows().len() == 0 ==> v.curriculum_relisted() == (AppView {
            curriculum_selected: Some(0),
            ..v
        }),
{
}

/// At the start the setup screen is shown, nothing is listed, loaded or selected, and the
/// settings are those that are given.
pub proof fn law_the_start_is_empty(
    cookie: Seq<char>,
    output_dir: Seq<char>,
    cookie_file: Seq<char>,
    style: PathStyle,
)
    ensures
        ({
            let v = AppView::start(cookie, output_dir, cookie_file, style);
            &&& v.screen == AppScreen::Login && v.active_tab == ActiveTab::Courses
            &&& v.cookie == cookie && v.output_dir == output_dir && v.cookie_file == cookie_file
            &&& v.path_style == style
            &&& v.groups.len() == 0 && v.curriculum.len() == 0 && v.downloads.len() == 0
            &&& v.course_selected is None && v.curriculum_selected is None
            &&& v.download_selected is None && v.current_course is None
            &&& v.login_error is None && v.status_msg is None && v.error_msg is None
            &&& !v.loading && !v.should_quit
            &&& v.next_id == 1
        }),
{
}

/// A cookie that was read is kept, and the courses are asked for with it, as a new cookie;
/// nothing else of the state changes but what is shown of that.
pub proof fn law_a_cookie_asks_for_the_courses(
    v: AppView,
    cookie: Seq<char>,
    email: Option<Seq<char>>,
)
    ensures
        ({
            let effect = v.cookie_read(Ok(cookie), email);
            &&& effect.action == Some(ActionView::FetchCourses { cookie, login: true })
            &&& effect.state == (AppView {
                cookie,
                loading: true,
                login_error: None,
                status_msg: effect.state.status_msg,
                ..v
            })
            &&& email matches Some(address) ==> effect.state.status_msg == Some(
                "Loading courses for "@ + address + "\u{2026}"@,
            )
            &&& email is None ==> effect.state.status_msg == Some(
                "Loading courses for "@ + "your account"@ + "\u{2026}"@,
            )
        }),
{
}

/// Where no cookie could be read, the setup screen is shown with the reason, and nothing is
/// asked for; nothing else of the state changes.
pub proof fn law_without_a_cookie_the_setup_screen_is_shown(
    v: AppView,
    error: Seq<char>,
    email: Option<Seq<char>>,
)
    ensures
        v.cookie_read(Err(error), email).action is None,
        v.cookie_read(Err(error), email).state == (AppView {
            screen: AppScreen::Login,
            login_error: Some("cookies.txt: "@ + error),
            loading: false,
            ..v
        }),
{
}

/// Among the downloads that have not come to an end, the order is that of the list.
pub proof fn law_active_downloads_keep_their_order(
    a: Seq<ItemView>,
    b: Seq<ItemView>,
    item: ItemView,
)
    ensures
        active_items(a + b) == active_items(a) + active_items(b),
        item.status is Queued || item.status is Fetching || item.status is Downloading
            ==> active_items(seq![item]) == seq![item],
        item.status is Done || item.status is Failed || item.status is Cancelled ==> active_items(
            seq![item],
        ).len() == 0,
    decreases b.len(),
{
    reveal(Seq::filter);
    assert(seq![item].drop_last() =~= seq![]);
    assert(active_items(seq![item].drop_last()) =~= seq![]);
    if b.len() == 0 {
        assert(a + b =~= a);
        assert(active_items(a) + active_items(b) =~= active_items(a));
    } else {
        assert((a + b).drop_last() =~= a + b.drop_last());
        law_active_downloads_keep_their_order(a, b.drop_last(), item);
        assert(active_items(a + b) =~= active_items(a) + active_items(b));
    }
}

/// For a course one download is planned for each of its videos, of the course that is given,
/// with the cookie and below the directory that are given; only the number of the next
/// download changes.
pub proof fn law_courses_are_downloaded_as_a_whole(
    v: AppView,
    cookie: Seq<char>,
    output_dir: Seq<char>,
    course: CourseView,
    chapters: Seq<ChapterView>,
    k: int,
)
    ensures
        ({
            let (after, downloads) = v.course_planned(cookie, output_dir, course, chapters);
            let list = videos(chapters);
            &&& after == (AppView { next_id: after.next_id, ..v })
            &&& v.next_id + list.len() <= u64::MAX ==> after.next_id == v.next_id + list.len()
            &&& downloads.len() == list.len()
            &&& 0 <= k < list.len() ==> {
                &&& downloads[k].course_id == course.id
                &&& downloads[k].course_title == course.title
                &&& downloads[k].cookie == cookie
                &&& downloads[k].lecture_id == list[k].1.id
                &&& v.next_id + k <= u64::MAX ==> downloads[k].id == v.next_id + k
                &&& downloads[k].output_path == output_path(
                    v.path_style,
                    output_dir,
                    course.title,
                    list[k].0.object_index,
                    list[k].0.title,
                    list[k].1.object_index,
                    list[k].1.title,
                )
            }
        }),
{
}

/// The courses are asked for with the cookie that was read, and the status line names the
/// address that stands in that cookie.
pub proof fn law_the_account_of_the_cookie_is_named(v: AppView, cookie: Seq<char>, e: Seq<char>)
    ensures
        v.initialised(Ok(cookie)).action == Some(ActionView::FetchCourses { cookie, login: true }),
        v.initialised(Ok(cookie)).state.cookie == cookie,
        email_in(cookie) matches Some(address) ==> v.initialised(Ok(cookie)).state.status_msg
            == Some("Loading courses for "@ + address + "\u{2026}"@),
        email_in(cookie) is None ==> v.initialised(Ok(cookie)).state.status_msg == Some(
            "Loading courses for "@ + "your account"@ + "\u{2026}"@,
        ),
        v.initialised(Err(e)).action is None,
        v.initialised(Err(e)).state.screen == AppScreen::Login,
{
}

/// Every list that has rows has one of them selected, and an empty list of downloads has
/// none selected.
pub proof fn law_selections_are_rows(v: AppView)
    requires
        v.selections_fit(),
    ensures
        v.course_rows().len() > 0 ==> v.course_selected is Some && (v.course_selected->0 as int)
            < v.course_rows().len(),
        v.curriculum_rows().len() > 0 ==> v.curriculum_selected is Some && (
        v.curriculum_selected->0 as int) < v.curriculum_rows().len(),
        v.downloads.len() > 0 ==> v.download_selected is Some && (v.download_selected->0 as int)
            < v.downloads.len(),
        v.downloads.len() == 0 ==> v.download_selected is None,
{
}

} // verus!
