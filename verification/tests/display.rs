//! What is shown.

use udemyget::app::App;
use udemyget::config::Config;
use udemyget::keys::{Key, KeyCode};
use udemyget::screen::{
    body, courses_panel, curriculum_panel, downloads_panel, setup_screen, status_line, tab_bar,
    Body, DownloadsPanel, Line, Panel, Tone,
};
use udemyget::types::{AppEvent, Chapter, Course, Lecture, Progress};

fn plain(line: &Line) -> String {
    line.spans.iter().map(|s| s.text.as_str()).collect()
}

fn tones(line: &Line) -> Vec<Tone> {
    line.spans.iter().map(|s| s.tone).collect()
}

fn new_app() -> App {
    let config = Config { cookie: String::new(), output_dir: "out".to_string() };
    App::new(config, "~/c.txt".to_string())
}

fn course(id: u64, instructor: &str, n: Option<u32>) -> Course {
    Course {
        id,
        title: format!("Course {id}"),
        num_published_lectures: n,
        instructor: instructor.to_string(),
    }
}

fn press(app: &mut App, code: KeyCode) {
    app.handle_key(Key { code, control: false });
}

fn with_courses() -> App {
    let mut app = new_app();
    app.handle_event(AppEvent::CoursesLoaded(vec![
        course(1, "Ann", Some(12)),
        course(2, "Ann", None),
        course(3, "Bob", None),
    ]));
    press(&mut app, KeyCode::Enter);
    app
}

fn queue(app: &mut App, id: u64) {
    app.handle_event(AppEvent::QueueDownload {
        id,
        course_title: "C".to_string(),
        chapter_title: "D".to_string(),
        lecture_title: format!("L{id}"),
        output_path: "p".to_string(),
    });
}

fn message(panel: Panel) -> Vec<Line> {
    match panel {
        Panel::Message(lines) => lines,
        other => panic!("{other:?}"),
    }
}

#[test]
fn tabs_are_shown() {
    let mut app = new_app();
    assert!(tab_bar(&app).is_none());
    assert_eq!(body(&app), Body::Setup);
    app = with_courses();
    assert_eq!(body(&app), Body::Courses);
    let line = tab_bar(&app).unwrap();
    assert_eq!(plain(&line), " [1] Courses │ [2] Downloads   Tab to switch");
    assert_eq!(tones(&line), vec![Tone::Selected, Tone::Dim, Tone::Dim, Tone::Dim]);
    queue(&mut app, 1);
    queue(&mut app, 2);
    app.handle_event(AppEvent::DownloadDone { id: 1 });
    press(&mut app, KeyCode::Tab);
    assert_eq!(body(&app), Body::Downloads);
    let line = tab_bar(&app).unwrap();
    assert_eq!(plain(&line), " [1] Courses │ [2] Downloads (1)   Tab to switch");
    assert_eq!(tones(&line), vec![Tone::Dim, Tone::Dim, Tone::Selected, Tone::Dim]);
}

#[test]
fn setup_is_explained() {
    let mut app = new_app();
    let lines = setup_screen(&app);
    assert_eq!(lines.len(), 13);
    assert_eq!(plain(&lines[1]), "  Edit this file:  ~/c.txt");
    assert_eq!(tones(&lines[1]), vec![Tone::Dim, Tone::Header]);
    assert_eq!(plain(&lines[3]), "  Press r after saving the file.");
    assert_eq!(tones(&lines[3]), vec![Tone::Good]);
    assert_eq!(plain(&lines[12]), "  r reload  q quit");
    app.loading = true;
    assert_eq!(plain(&setup_screen(&app)[3]), "  Verifying...");
    app.login_error = Some("bad".to_string());
    let lines = setup_screen(&app);
    assert_eq!(plain(&lines[3]), "  x bad");
    assert_eq!(tones(&lines[3]), vec![Tone::Bad]);
}

#[test]
fn courses_are_shown() {
    let app = with_courses();
    let (title, rows, selected) = match courses_panel(&app) {
        Panel::Rows { title, rows, selected } => (title, rows, selected),
        other => panic!("{other:?}"),
    };
    assert_eq!(title, " Courses (3) ");
    assert_eq!(selected, Some(0));
    let texts: Vec<String> = rows.iter().map(plain).collect();
    assert_eq!(
        texts,
        vec![
            "▶ ▼ Ann  (2 courses)",
            "  Course 1  12 lectures",
            "  Course 2",
            "  ▶ Bob  (1 courses)",
        ]
    );
    assert_eq!(tones(&rows[0]), vec![Tone::Accent, Tone::Selected, Tone::Dim]);
    assert_eq!(tones(&rows[1]), vec![Tone::Accent, Tone::Normal, Tone::Dim]);
    assert_eq!(tones(&rows[3]), vec![Tone::Accent, Tone::Accent, Tone::Dim]);
}

#[test]
fn other_things_stand_in_for_courses() {
    let mut app = new_app();
    let lines = message(courses_panel(&app));
    assert_eq!(plain(&lines[0]), "  No courses found. Press r to refresh.");
    app.error_msg = Some("down".to_string());
    let lines = message(courses_panel(&app));
    assert_eq!(plain(&lines[0]), "  Error: down");
    assert_eq!(plain(&lines[1]), "  Press r to retry");
    app.loading = true;
    assert_eq!(plain(&message(courses_panel(&app))[0]), "  Loading courses…");
}

fn lecture(index: u32, kind: &str, secs: Option<u32>) -> Lecture {
    Lecture {
        id: 1,
        title: format!("L{index}"),
        object_index: index,
        asset_type: kind.to_string(),
        duration_secs: secs,
    }
}

#[test]
fn curriculum_is_shown() {
    let mut app = with_courses();
    app.handle_event(AppEvent::CurriculumLoaded {
        course_id: 2,
        chapters: vec![
            Chapter {
                id: 1,
                title: "Intro".to_string(),
                object_index: 1,
                expanded: false,
                lectures: vec![
                    lecture(1, "Video", Some(65)),
                    lecture(12, "Article", None),
                    lecture(1234, "File", Some(3600)),
                ],
            },
            Chapter {
                id: 2,
                title: "End".to_string(),
                object_index: 2,
                expanded: false,
                lectures: vec![],
            },
        ],
    });
    assert_eq!(body(&app), Body::Curriculum);
    press(&mut app, KeyCode::Down);
    let (title, rows, selected) = match curriculum_panel(&app) {
        Panel::Rows { title, rows, selected } => (title, rows, selected),
        other => panic!("{other:?}"),
    };
    assert_eq!(title, " Course 2 — 3 lectures ");
    assert_eq!(selected, Some(1));
    let texts: Vec<String> = rows.iter().map(plain).collect();
    assert_eq!(
        texts,
        vec![
            "▼ Section 1: Intro  (3 lectures)",
            "    ○   1. L1  [1:05]",
            "    📄  12. L12  ",
            "    • 1234. L1234  [60:00]",
            "▶ Section 2: End  (0 lectures)",
        ]
    );
    assert_eq!(tones(&rows[0]), vec![Tone::Accent, Tone::Header, Tone::Dim]);
    assert_eq!(tones(&rows[1]), vec![Tone::Selected, Tone::Selected, Tone::Dim]);
    assert_eq!(tones(&rows[2]), vec![Tone::Dim, Tone::Normal, Tone::Dim]);
    app.current_course = None;
    match curriculum_panel(&app) {
        Panel::Rows { title, .. } => assert_eq!(title, " Course — 3 lectures "),
        other => panic!("{other:?}"),
    }
    app.loading = true;
    assert_eq!(plain(&message(curriculum_panel(&app))[0]), "  Loading curriculum…");
}

#[test]
fn downloads_are_shown() {
    let mut app = with_courses();
    match downloads_panel(&app, 20) {
        DownloadsPanel::Message { title, lines } => {
            assert_eq!(title, " Downloads ");
            assert_eq!(lines.len(), 3);
            assert_eq!(plain(&lines[1]), "  No downloads yet.");
        }
        other => panic!("{other:?}"),
    }
    for id in 0..6 {
        queue(&mut app, id);
    }
    app.handle_event(AppEvent::DownloadProgress {
        id: 1,
        percent: Progress { started: false, whole: 0 },
    });
    app.handle_event(AppEvent::DownloadProgress {
        id: 2,
        percent: Progress { started: true, whole: 42 },
    });
    app.handle_event(AppEvent::DownloadDone { id: 3 });
    app.handle_event(AppEvent::DownloadFailed { id: 4, error: "HTTP 500".to_string() });
    app.handle_event(AppEvent::DownloadFailed { id: 5, error: "cancelled".to_string() });
    let (title, rows) = match downloads_panel(&app, 20) {
        DownloadsPanel::Rows { title, rows } => (title, rows),
        other => panic!("{other:?}"),
    };
    assert_eq!(title, " Downloads (6) ");
    let texts: Vec<String> = rows.iter().map(|r| plain(&r.line)).collect();
    assert_eq!(
        texts,
        vec![
            "▶ [C] D / L0  Queued",
            "  [C] D / L1  Fetching…",
            "  [C] D / L2  Downloading",
            "  [C] D / L3  ✓ Done",
            "  [C] D / L4  ✗ HTTP 500",
            "  [C] D / L5  Cancelled",
        ]
    );
    let gauges: Vec<(u16, Tone)> = rows.iter().map(|r| (r.percent, r.gauge)).collect();
    assert_eq!(
        gauges,
        vec![
            (0, Tone::Dim),
            (0, Tone::Warn),
            (42, Tone::Good),
            (100, Tone::Good),
            (0, Tone::Bad),
            (0, Tone::Dim),
        ]
    );
    assert_eq!(
        tones(&rows[0].line),
        vec![Tone::Selected, Tone::Plain, Tone::Dim]
    );
}

#[test]
fn selected_download_stays_in_sight() {
    let mut app = with_courses();
    for id in 0..10 {
        queue(&mut app, id);
    }
    press(&mut app, KeyCode::Tab);
    for _ in 0..7 {
        press(&mut app, KeyCode::Down);
    }
    let shown = |app: &App, height| match downloads_panel(app, height) {
        DownloadsPanel::Rows { rows, .. } => {
            rows.iter().map(|r| plain(&r.line)).collect::<Vec<String>>()
        }
        other => panic!("{other:?}"),
    };
    assert_eq!(
        shown(&app, 11),
        vec!["  [C] D / L5  Queued", "  [C] D / L6  Queued", "▶ [C] D / L7  Queued"]
    );
    assert_eq!(shown(&app, 3), vec!["▶ [C] D / L7  Queued"]);
    assert_eq!(shown(&app, 2), Vec::<String>::new());
    assert_eq!(shown(&app, 300).len(), 10);
}

#[test]
fn status_is_shown() {
    let mut app = new_app();
    assert_eq!(status_line(&app).text, " Enter confirm · Tab show/hide token · Ctrl-C quit");
    app.status_msg = Some("fine".to_string());
    assert_eq!(status_line(&app).text, " fine");
    assert_eq!(status_line(&app).tone, Tone::Dim);
    app.error_msg = Some("bad".to_string());
    assert_eq!(status_line(&app).text, " ✗ bad");
    assert_eq!(status_line(&app).tone, Tone::Bad);
    let mut app = with_courses();
    app.status_msg = None;
    assert_eq!(
        status_line(&app).text,
        " ↑↓/jk navigate · Enter open · d download · r refresh · L logout · Tab tab · Ctrl-C quit"
    );
    app.handle_event(AppEvent::CurriculumLoaded { course_id: 1, chapters: vec![] });
    app.status_msg = None;
    assert_eq!(
        status_line(&app).text,
        " ↑↓/jk navigate · Enter expand · d download · a all · b back · Tab tab"
    );
}
