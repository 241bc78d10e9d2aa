//! Keys and messages.

use udemyget::app::{Action, App};
use udemyget::config::Config;
use udemyget::events::{course_failed, courses_failed};
use udemyget::groups::{build_course_groups, CourseRow, CurriculumRow};
use udemyget::keys::{Key, KeyCode, KeyOutcome};
use udemyget::plan::Download;
use udemyget::types::{
    ActiveTab, AppEvent, AppScreen, Chapter, Course, DownloadStatus, Lecture, Progress,
};

fn course(id: u64, title: &str, instructor: &str) -> Course {
    Course {
        id,
        title: title.to_string(),
        num_published_lectures: Some(3),
        instructor: instructor.to_string(),
    }
}

fn lecture(id: u64, title: &str, kind: &str) -> Lecture {
    Lecture {
        id,
        title: title.to_string(),
        object_index: id as u32,
        asset_type: kind.to_string(),
        duration_secs: None,
    }
}

fn chapter(id: u64, title: &str, lectures: Vec<Lecture>) -> Chapter {
    Chapter { id, title: title.to_string(), object_index: id as u32, expanded: false, lectures }
}

fn new_app() -> App {
    let config = Config { cookie: String::new(), output_dir: "out".to_string() };
    App::new(config, "~/cookies.txt".to_string())
}

fn press(app: &mut App, code: KeyCode) -> Option<Action> {
    let key = Key { code, control: false };
    assert!(app.can_handle_key(key));
    let KeyOutcome { quit, action } = app.handle_key(key);
    assert!(!quit);
    action
}

fn ch(app: &mut App, c: char) -> Option<Action> {
    press(app, KeyCode::Char(c))
}

/// A program with courses.
fn with_courses() -> App {
    let mut app = new_app();
    app.auto_init(Ok("cookie".to_string()));
    app.handle_event(AppEvent::CoursesLoaded(vec![
        course(1, "Zig", "Zoe"),
        course(2, "Ada", "Ann"),
        course(3, "APL", "Ann"),
    ]));
    app
}

/// A program with a curriculum.
fn with_curriculum() -> App {
    let mut app = with_courses();
    app.handle_event(AppEvent::CurriculumLoaded {
        course_id: 3,
        chapters: vec![
            chapter(1, "One", vec![lecture(1, "a", "Video"), lecture(2, "b", "Article")]),
            chapter(2, "Two", vec![lecture(3, "c", "Video")]),
        ],
    });
    app
}

fn queue(app: &mut App, id: u64) {
    app.handle_event(AppEvent::QueueDownload {
        id,
        course_title: "C".to_string(),
        chapter_title: "D".to_string(),
        lecture_title: format!("L{id}"),
        output_path: "p".to_string(),
    });
}

#[test]
fn program_starts_with_the_setup_screen() {
    let app = new_app();
    assert_eq!(app.screen, AppScreen::Login);
    assert_eq!(app.active_tab, ActiveTab::Courses);
    assert!(!app.loading && !app.should_quit);
    assert_eq!(app.next_id, 1);
    assert_eq!(app.cookie_file, "~/cookies.txt");
}

#[test]
fn cookies_are_taken_in() {
    let mut app = new_app();
    let action = app.auto_init(Ok("abc".to_string()));
    assert!(matches!(
        action,
        Some(Action::FetchCourses { cookie, login: true }) if cookie == "abc"
    ));
    assert!(app.loading);
    assert_eq!(app.config.cookie, "abc");
    assert_eq!(app.status_msg.as_deref(), Some("Loading courses for your account…"));
}

#[test]
fn accounts_are_greeted() {
    let mut app = new_app();
    // {"email":"a@b.c"}
    app.auto_init(Ok("ud_user_jwt=x.eyJlbWFpbCI6ImFAYi5jIn0.y".to_string()));
    assert_eq!(app.status_msg.as_deref(), Some("Loading courses for a@b.c…"));
    let mut app = new_app();
    app.init_with(Ok("k".to_string()), Some("me".to_string()));
    assert_eq!(app.status_msg.as_deref(), Some("Loading courses for me…"));
}

#[test]
fn missing_cookies_are_reported() {
    let mut app = new_app();
    assert!(app.auto_init(Err("file is empty".to_string())).is_none());
    assert!(!app.loading);
    assert_eq!(app.login_error.as_deref(), Some("cookies.txt: file is empty"));
    // The setup screen is shown, whatever was shown before.
    let mut app = with_courses();
    assert_eq!(app.screen, AppScreen::Courses);
    assert!(app.auto_init(Err("gone".to_string())).is_none());
    assert_eq!(app.screen, AppScreen::Login);
    assert_eq!(app.login_error.as_deref(), Some("cookies.txt: gone"));
}

#[test]
fn tab_switches_on_every_screen() {
    for mut app in [new_app(), with_courses(), with_curriculum()] {
        let screen = app.screen;
        for tab in [ActiveTab::Downloads, ActiveTab::Courses] {
            let outcome = app.handle_key(Key { code: KeyCode::Tab, control: false });
            assert!(!outcome.quit && outcome.action.is_none());
            assert_eq!(app.active_tab, tab);
            assert_eq!(app.screen, screen);
        }
    }
}

#[test]
fn setup_screen_takes_its_keys() {
    let mut app = new_app();
    assert!(matches!(ch(&mut app, 'r'), Some(Action::ReadCookie)));
    assert!(matches!(ch(&mut app, 'R'), Some(Action::ReadCookie)));
    app.loading = true;
    assert!(ch(&mut app, 'r').is_none());
    assert!(ch(&mut app, 'd').is_none());
    assert!(!app.should_quit);
    ch(&mut app, 'Q');
    assert!(app.should_quit);
}

#[test]
fn control_c_ends_the_program_anywhere() {
    let mut apps = [new_app(), with_courses(), with_curriculum()];
    for app in apps.iter_mut() {
        for c in ['c', 'C'] {
            let out = app.handle_key(Key { code: KeyCode::Char(c), control: true });
            assert!(out.quit && out.action.is_none());
        }
        let out = app.handle_key(Key { code: KeyCode::Char('x'), control: true });
        assert!(!out.quit);
    }
}

#[test]
fn courses_are_grouped_by_instructor() {
    let groups = build_course_groups(vec![
        course(1, "x", "b"),
        course(2, "y", "B"),
        course(3, "z", "b"),
        course(4, "w", "aé"),
        course(5, "v", "a"),
        course(6, "u", "az"),
    ]);
    let seen: Vec<(&str, Vec<u64>)> = groups
        .iter()
        .map(|g| (g.instructor.as_str(), g.courses.iter().map(|c| c.id).collect()))
        .collect();
    assert_eq!(
        seen,
        vec![
            ("B", vec![2]),
            ("a", vec![5]),
            ("az", vec![6]),
            ("aé", vec![4]),
            ("b", vec![1, 3]),
        ]
    );
    assert!(groups.iter().all(|g| !g.expanded));
    assert!(build_course_groups(vec![]).is_empty());
}

#[test]
fn grouping_agrees_with_a_sorted_map() {
    let names = ["", "é", "e", "ea", "\u{10000}", "\u{ffff}", "Z", "a b"];
    let mut map: std::collections::BTreeMap<String, Vec<u64>> = std::collections::BTreeMap::new();
    let mut list = Vec::new();
    for i in 0..40u64 {
        let name = names[(i * 7 % 8) as usize];
        list.push(course(i, "t", name));
        map.entry(name.to_string()).or_default().push(i);
    }
    let seen: Vec<(String, Vec<u64>)> = build_course_groups(list)
        .into_iter()
        .map(|g| (g.instructor, g.courses.iter().map(|c| c.id).collect()))
        .collect();
    assert_eq!(seen, map.into_iter().collect::<Vec<_>>());
}

#[test]
fn courses_are_listed() {
    let app = with_courses();
    assert_eq!(app.screen, AppScreen::Courses);
    assert!(!app.loading);
    assert_eq!(app.course_rows, vec![CourseRow::Group(0), CourseRow::Group(1)]);
    assert_eq!(app.course_selected, Some(0));
    assert_eq!(
        app.status_msg.as_deref(),
        Some("3 courses by 2 instructors — Enter expand/open · d download · r refresh")
    );
}

#[test]
fn groups_are_expanded_and_collapsed() {
    let mut app = with_courses();
    assert!(press(&mut app, KeyCode::Enter).is_none());
    assert_eq!(
        app.course_rows,
        vec![
            CourseRow::Group(0),
            CourseRow::Course(0, 0),
            CourseRow::Course(0, 1),
            CourseRow::Group(1),
        ]
    );
    assert!(press(&mut app, KeyCode::Enter).is_none());
    assert_eq!(app.course_rows, vec![CourseRow::Group(0), CourseRow::Group(1)]);
    assert_eq!(app.course_selected, Some(0));
}

#[test]
fn selection_moves_within_the_list() {
    let mut app = with_courses();
    press(&mut app, KeyCode::Up);
    assert_eq!(app.course_selected, Some(0));
    ch(&mut app, 'j');
    assert_eq!(app.course_selected, Some(1));
    press(&mut app, KeyCode::Down);
    assert_eq!(app.course_selected, Some(1));
    ch(&mut app, 'k');
    assert_eq!(app.course_selected, Some(0));
}

#[test]
fn courses_are_opened() {
    let mut app = with_courses();
    press(&mut app, KeyCode::Enter);
    press(&mut app, KeyCode::Down);
    let action = press(&mut app, KeyCode::Enter);
    assert!(matches!(
        action,
        Some(Action::FetchCurriculum { cookie, course_id: 2 }) if cookie == "cookie"
    ));
    assert!(app.loading);
    assert_eq!(app.status_msg.as_deref(), Some("Loading \"Ada\"…"));
}

#[test]
fn whole_courses_are_downloaded() {
    let mut app = with_courses();
    assert!(ch(&mut app, 'd').is_none());
    assert_eq!(
        app.status_msg.as_deref(),
        Some("Press Enter to expand 'Ann', then select a course")
    );
    press(&mut app, KeyCode::Enter);
    press(&mut app, KeyCode::Down);
    let (cookie, output_dir, course) = match ch(&mut app, 'd') {
        Some(Action::FetchCourse { cookie, output_dir, course }) => (cookie, output_dir, course),
        other => panic!("{other:?}"),
    };
    assert_eq!((course.id, output_dir.as_str()), (2, "out"));
    let chapters = vec![
        chapter(1, "One", vec![lecture(1, "a", "Video"), lecture(2, "b", "Article")]),
        chapter(2, "Two", vec![lecture(3, "c", "Video")]),
    ];
    app.next_id = u64::MAX;
    let list = app.download_course(&cookie, &output_dir, &course, &chapters);
    let sep = std::path::MAIN_SEPARATOR;
    let seen: Vec<(u64, u64, String)> =
        list.iter().map(|d| (d.id, d.lecture_id, d.output_path.clone())).collect();
    assert_eq!(
        seen,
        vec![
            (u64::MAX, 1, format!("out{sep}Ada{sep}01. One{sep}001. a.mp4")),
            (0, 3, format!("out{sep}Ada{sep}02. Two{sep}003. c.mp4")),
        ]
    );
    assert_eq!(app.next_id, 1);
    assert!(list.iter().all(|d| d.course_id == 2 && d.cookie == "cookie"));
}

#[test]
fn courses_are_refreshed() {
    let mut app = with_courses();
    let action = ch(&mut app, 'r');
    assert!(matches!(
        action,
        Some(Action::FetchCourses { cookie, login: false }) if cookie == "cookie"
    ));
    assert!(app.loading);
}

#[test]
fn logging_out_forgets_the_cookie() {
    let mut app = with_courses();
    app.login_error = Some("old".to_string());
    assert!(ch(&mut app, 'L').is_none());
    assert_eq!(app.config.cookie, "");
    assert!(app.course_groups.is_empty() && app.course_rows.is_empty());
    assert_eq!(app.login_error, None);
    assert_eq!(app.screen, AppScreen::Login);
}

#[test]
fn tabs_are_switched() {
    let mut app = with_courses();
    press(&mut app, KeyCode::Tab);
    assert_eq!(app.active_tab, ActiveTab::Downloads);
    press(&mut app, KeyCode::Tab);
    assert_eq!(app.active_tab, ActiveTab::Courses);
    for app in [with_courses(), with_curriculum()].iter_mut() {
        ch(app, 'q');
        assert!(app.should_quit);
    }
}

#[test]
fn curricula_are_shown() {
    let app = with_curriculum();
    assert_eq!(app.screen, AppScreen::Curriculum);
    assert_eq!(app.current_course.as_ref().map(|c| c.title.as_str()), Some("APL"));
    assert_eq!(
        app.visible_rows,
        vec![
            CurriculumRow::Chapter(0),
            CurriculumRow::Lecture(0, 0),
            CurriculumRow::Lecture(0, 1),
            CurriculumRow::Chapter(1),
        ]
    );
    assert_eq!(app.curriculum_selected, Some(0));
    assert_eq!(
        app.status_msg.as_deref(),
        Some("2 chapters · 3 lectures — Enter expand · d lecture · a all · b back")
    );
}

#[test]
fn chapters_are_expanded_and_collapsed() {
    let mut app = with_curriculum();
    for _ in 0..5 {
        ch(&mut app, 'j');
    }
    assert_eq!(app.curriculum_selected, Some(3));
    ch(&mut app, ' ');
    assert_eq!(app.visible_rows.len(), 5);
    ch(&mut app, ' ');
    assert_eq!(app.visible_rows.len(), 4);
    for _ in 0..3 {
        press(&mut app, KeyCode::Up);
    }
    press(&mut app, KeyCode::Enter);
    assert_eq!(app.visible_rows, vec![CurriculumRow::Chapter(0), CurriculumRow::Chapter(1)]);
    // Enter on a lecture does nothing.
    press(&mut app, KeyCode::Enter);
    ch(&mut app, 'j');
    press(&mut app, KeyCode::Enter);
    assert_eq!(app.visible_rows.len(), 4);
}

#[test]
fn selection_is_clamped() {
    let mut app = with_curriculum();
    app.curriculum_selected = Some(40);
    app.rebuild_visible_rows();
    assert_eq!(app.curriculum_selected, Some(3));
    let mut app = with_courses();
    app.course_selected = Some(40);
    app.rebuild_course_rows();
    assert_eq!(app.course_selected, Some(1));
    let mut app = new_app();
    app.rebuild_course_rows();
    assert_eq!(app.course_selected, None);
    app.rebuild_visible_rows();
    assert_eq!(app.curriculum_selected, Some(0));
}

fn started(action: Option<Action>) -> Vec<Download> {
    match action {
        Some(Action::StartDownloads(list)) => list,
        other => panic!("{other:?}"),
    }
}

#[test]
fn single_lectures_are_downloaded() {
    let mut app = with_curriculum();
    assert!(ch(&mut app, 'd').is_none());
    assert_eq!(app.status_msg.as_deref(), Some("Select a lecture (not a chapter heading)"));
    ch(&mut app, 'j');
    let list = started(ch(&mut app, 'd'));
    assert_eq!(list.len(), 1);
    assert_eq!((list[0].id, list[0].course_id, list[0].lecture_id), (1, 3, 1));
    assert_eq!(list[0].cookie, "cookie");
    assert_eq!(app.next_id, 2);
    let event = list[0].queue_event();
    assert!(matches!(
        event,
        AppEvent::QueueDownload { id: 1, course_title, chapter_title, lecture_title, output_path }
            if course_title == "APL" && chapter_title == "One" && lecture_title == "a"
                && output_path == list[0].output_path
    ));
    ch(&mut app, 'j');
    assert!(ch(&mut app, 'd').is_none());
    assert_eq!(app.status_msg.as_deref(), Some("'b' is not a video (Article)"));
}

#[test]
fn lectures_are_downloaded_as_part_of_a_course() {
    let mut app = with_curriculum();
    app.current_course = None;
    ch(&mut app, 'j');
    let key = Key { code: KeyCode::Char('d'), control: false };
    assert!(!app.can_handle_key(key));
    assert!(app.can_handle_key(Key { code: KeyCode::Char('a'), control: false }));
    assert!(ch(&mut app, 'a').is_none());
}

#[test]
fn all_lectures_are_downloaded() {
    let mut app = with_curriculum();
    let list = started(ch(&mut app, 'a'));
    let ids: Vec<(u64, u64)> = list.iter().map(|d| (d.id, d.lecture_id)).collect();
    assert_eq!(ids, vec![(1, 1), (2, 3)]);
    assert_eq!(app.next_id, 3);
    assert_eq!(app.active_tab, ActiveTab::Downloads);
    assert_eq!(app.status_msg.as_deref(), Some("Queued all video lectures for \"APL\""));
}

#[test]
fn numbers_are_not_given_again() {
    let mut app = with_curriculum();
    ch(&mut app, 'j');
    let mut ids: Vec<u64> = Vec::new();
    for _ in 0..3 {
        ids.extend(started(ch(&mut app, 'd')).iter().map(|d| d.id));
    }
    ids.extend(started(ch(&mut app, 'a')).iter().map(|d| d.id));
    assert_eq!(ids, vec![1, 2, 3, 4, 5]);
}

#[test]
fn curricula_are_left() {
    for code in [KeyCode::Esc, KeyCode::Char('b')] {
        let mut app = with_curriculum();
        assert!(press(&mut app, code).is_none());
        assert_eq!(app.screen, AppScreen::Courses);
        assert!(app.curriculum.is_empty() && app.visible_rows.is_empty());
        assert!(app.current_course.is_none());
    }
}

#[test]
fn downloads_are_followed() {
    let mut app = with_courses();
    queue(&mut app, 1);
    queue(&mut app, 2);
    assert_eq!(app.download_selected, Some(0));
    assert!(matches!(app.downloads[0].status, DownloadStatus::Queued));
    let progress = |started, whole| Progress { started, whole };
    app.handle_event(AppEvent::DownloadProgress { id: 2, percent: progress(false, 0) });
    assert!(matches!(app.downloads[1].status, DownloadStatus::Fetching));
    app.handle_event(AppEvent::DownloadProgress { id: 2, percent: progress(true, 0) });
    assert!(matches!(app.downloads[1].status, DownloadStatus::Downloading));
    app.handle_event(AppEvent::DownloadProgress { id: 9, percent: progress(true, 5) });
    app.handle_event(AppEvent::DownloadDone { id: 2 });
    assert!(matches!(app.downloads[1].status, DownloadStatus::Done));
    assert_eq!(app.downloads[1].percent, progress(true, 100));
    assert!(app.downloads[0].is_active() && !app.downloads[1].is_active());
    app.handle_event(AppEvent::DownloadFailed { id: 1, error: "HTTP 500".to_string() });
    assert!(matches!(&app.downloads[0].status, DownloadStatus::Failed(e) if e == "HTTP 500"));
    app.handle_event(AppEvent::DownloadFailed { id: 1, error: "it was cancelled".to_string() });
    assert!(matches!(app.downloads[0].status, DownloadStatus::Cancelled));
}

#[test]
fn downloads_are_cancelled() {
    let mut app = with_courses();
    press(&mut app, KeyCode::Tab);
    assert!(ch(&mut app, 'c').is_none());
    queue(&mut app, 7);
    queue(&mut app, 8);
    assert!(matches!(ch(&mut app, 'c'), Some(Action::CancelDownload(7))));
    ch(&mut app, 'j');
    assert!(matches!(press(&mut app, KeyCode::Delete), Some(Action::CancelDownload(8))));
    press(&mut app, KeyCode::Up);
    assert_eq!(app.download_selected, Some(0));
}

#[test]
fn finished_downloads_are_cleared() {
    let mut app = with_courses();
    press(&mut app, KeyCode::Tab);
    for id in 1..=4 {
        queue(&mut app, id);
    }
    app.handle_event(AppEvent::DownloadDone { id: 1 });
    app.handle_event(AppEvent::DownloadFailed { id: 3, error: "x".to_string() });
    for _ in 0..3 {
        ch(&mut app, 'j');
    }
    ch(&mut app, 'x');
    let ids: Vec<u64> = app.downloads.iter().map(|d| d.id).collect();
    assert_eq!(ids, vec![2, 4]);
    assert_eq!(app.download_selected, Some(1));
    app.handle_event(AppEvent::DownloadDone { id: 2 });
    app.handle_event(AppEvent::DownloadDone { id: 4 });
    ch(&mut app, 'x');
    assert!(app.downloads.is_empty());
    assert_eq!(app.download_selected, None);
}

#[test]
fn messages_are_shown() {
    let mut app = with_courses();
    app.handle_event(AppEvent::StatusMsg("hello".to_string()));
    assert_eq!(app.status_msg.as_deref(), Some("hello"));
    app.loading = true;
    app.handle_event(AppEvent::Error("broken".to_string()));
    assert!(!app.loading);
    assert_eq!(app.error_msg.as_deref(), Some("broken"));
    app.loading = true;
    app.handle_event(AppEvent::AuthFailed("no".to_string()));
    assert!(!app.loading);
    assert_eq!(app.login_error.as_deref(), Some("no"));
    assert_eq!(app.screen, AppScreen::Login);
}

#[test]
fn failures_become_messages() {
    let e = || "x".to_string();
    assert!(matches!(courses_failed(true, e()), AppEvent::AuthFailed(m) if m == "x"));
    assert!(matches!(courses_failed(false, e()), AppEvent::Error(m) if m == "x"));
    assert!(matches!(course_failed("x"), AppEvent::Error(m) if m == "curriculum: x"));
}

#[test]
fn courses_that_are_gone_are_not_shown() {
    let mut app = with_courses();
    app.handle_event(AppEvent::CurriculumLoaded { course_id: 99, chapters: vec![] });
    assert!(app.current_course.is_none());
    assert!(app.visible_rows.is_empty());
    app.handle_event(AppEvent::CoursesLoaded(vec![]));
    assert!(app.course_rows.is_empty());
    assert!(press(&mut app, KeyCode::Enter).is_none());
    assert!(ch(&mut app, 'd').is_none());
}
