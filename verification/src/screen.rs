//! What is shown: the texts on the screen, and how they stand out.

use crate::app::{active_items, law_lists_fit, selected_row, App, AppView};
use crate::events::{count_lectures, lecture_count};
use crate::groups::{
    group_views, law_course_rows_are_shown, law_curriculum_rows_are_shown, CourseGroup, CourseRow,
    CurriculumRow, GroupView,
};
use crate::text::{
    decimal, law_digits_follow_each_other, padded, padded_decimal, push_decimal, push_wide_decimal,
};
use crate::types::{
    item_views, ActiveTab, AppScreen, Chapter, ChapterView, Course, CourseView, DownloadItem,
    DownloadStatus, ItemView, Lecture, LectureView, StatusView,
};
use vstd::prelude::*;
use vstd::string::*;

verus! {

// ----------------------------------------------------------------------- lines

/// How a text stands out.
#[derive(Clone, Copy, Debug, PartialEq, Eq, Structural)]
pub enum Tone {
    /// As the terminal has it.
    Plain,
    Normal,
    Dim,
    Accent,
    Good,
    Bad,
    Warn,
    Selected,
    Header,
}

/// A text with a tone.
#[derive(Debug)]
pub struct Span {
    pub text: String,
    pub tone: Tone,
}

/// What a [`Span`] holds.
#[verifier::ext_equal]
pub struct SpanView {
    pub text: Seq<char>,
    pub tone: Tone,
}

impl View for Span {
    type V = SpanView;

    open spec fn view(&self) -> SpanView {
        SpanView { text: self.text@, tone: self.tone }
    }
}

/// A text with a tone.
pub open spec fn span(text: Seq<char>, tone: Tone) -> SpanView {
    SpanView { text, tone }
}

/// A line.
#[derive(Debug)]
pub struct Line {
    pub spans: Vec<Span>,
}

impl View for Line {
    type V = Seq<SpanView>;

    open spec fn view(&self) -> Seq<SpanView> {
        self.spans@.map_values(|s: Span| s@)
    }
}

/// What `lines` hold.
pub open spec fn line_views(lines: Seq<Line>) -> Seq<Seq<SpanView>> {
    lines.map_values(|l: Line| l@)
}

fn line_of(text: String, tone: Tone) -> (line: Line)
    ensures
        line@ == seq![span(text@, tone)],
{
    let ghost shown = text@;
    let mut spans: Vec<Span> = Vec::new();
    spans.push(Span { text, tone });
    let line = Line { spans };
    assert(line@ =~= seq![span(shown, tone)]);
    line
}

fn line_of_three(a: Span, b: Span, c: Span) -> (line: Line)
    ensures
        line@ == seq![a@, b@, c@],
{
    let ghost shown = seq![a@, b@, c@];
    let mut spans: Vec<Span> = Vec::new();
    spans.push(a);
    spans.push(b);
    spans.push(c);
    let line = Line { spans };
    assert(line@ =~= shown);
    line
}

fn push_line(lines: &mut Vec<Line>, line: Line)
    ensures
        line_views(final(lines)@) == line_views(old(lines)@).push(line@),
{
    let ghost before = line_views(lines@);
    let ghost shown = line@;
    lines.push(line);
    assert(line_views(lines@) =~= before.push(shown));
}

fn push_text(lines: &mut Vec<Line>, text: &str, tone: Tone)
    ensures
        line_views(final(lines)@) == line_views(old(lines)@).push(seq![span(text@, tone)]),
{
    push_line(lines, line_of(text.to_owned(), tone));
}

fn one_line(text: String, tone: Tone) -> (lines: Vec<Line>)
    ensures
        line_views(lines@) == seq![seq![span(text@, tone)]],
{
    let ghost shown = text@;
    let mut lines: Vec<Line> = Vec::new();
    push_line(&mut lines, line_of(text, tone));
    assert(line_views(lines@) =~= seq![seq![span(shown, tone)]]);
    lines
}

/// One tone for what is selected, another one for the rest.
pub open spec fn tone_of(selected: bool, other: Tone) -> Tone {
    if selected {
        Tone::Selected
    } else {
        other
    }
}

fn pick(selected: bool, other: Tone) -> (tone: Tone)
    ensures
        tone == tone_of(selected, other),
{
    if selected {
        Tone::Selected
    } else {
        other
    }
}

/// What stands before the selected row, or before another one.
pub open spec fn marker(selected: bool) -> Seq<char> {
    if selected {
        "▶ "@
    } else {
        "  "@
    }
}

fn marker_text(selected: bool) -> (text: String)
    ensures
        text@ == marker(selected),
{
    if selected {
        "▶ ".to_owned()
    } else {
        "  ".to_owned()
    }
}

// --------------------------------------------------------------------- tab bar

/// The label of the downloads tab, when `active` downloads have not come to an end.
pub open spec fn downloads_label(active: nat) -> Seq<char> {
    if active > 0 {
        " [2] Downloads ("@ + decimal(active) + ") "@
    } else {
        " [2] Downloads "@
    }
}

/// The line with the tabs. There is none on the setup screen.
pub open spec fn tab_line(v: AppView) -> Option<Seq<SpanView>> {
    if v.screen == AppScreen::Login {
        None
    } else {
        Some(
            seq![
                span(" [1] Courses "@, tone_of(v.active_tab == ActiveTab::Courses, Tone::Dim)),
                span("│"@, Tone::Dim),
                span(
                    downloads_label(active_items(v.downloads).len()),
                    tone_of(v.active_tab == ActiveTab::Downloads, Tone::Dim),
                ),
                span("  Tab to switch"@, Tone::Dim),
            ],
        )
    }
}

fn count_active(items: &Vec<DownloadItem>) -> (count: usize)
    ensures
        count == active_items(item_views(items@)).len(),
{
    let ghost all = item_views(items@);
    let mut count: usize = 0;
    let mut i: usize = 0;
    proof {
        reveal(Seq::filter);
        assert(active_items(all.take(0)).len() == 0);
    }
    while i < items.len()
        invariant
            i <= items.len(),
            count <= i,
            all == item_views(items@),
            count == active_items(all.take(i as int)).len(),
        decreases items.len() - i,
    {
        proof {
            reveal(Seq::filter);
            assert(all.take(i + 1).drop_last() =~= all.take(i as int));
            assert(all.take(i + 1).last() == items@[i as int]@);
        }
        if items[i].is_active() {
            count += 1;
        }
        i += 1;
    }
    assert(all.take(i as int) =~= all);
    count
}

/// Gives the line with the tabs.
pub fn tab_bar(app: &App) -> (line: Option<Line>)
    ensures
        match line {
            Some(line) => tab_line(app@) == Some(line@),
            None => tab_line(app@) is None,
        },
{
    if app.screen == AppScreen::Login {
        return None;
    }
    let active: usize = count_active(&app.downloads);
    let mut label = " [2] Downloads ".to_owned();
    if active > 0 {
        label = " [2] Downloads (".to_owned();
        push_decimal(&mut label, active as u64);
        label.append(") ");
    }
    let mut spans: Vec<Span> = Vec::new();
    spans.push(
        Span {
            text: " [1] Courses ".to_owned(),
            tone: pick(app.active_tab == ActiveTab::Courses, Tone::Dim),
        },
    );
    spans.push(Span { text: "│".to_owned(), tone: Tone::Dim });
    spans.push(
        Span { text: label, tone: pick(app.active_tab == ActiveTab::Downloads, Tone::Dim) },
    );
    spans.push(Span { text: "  Tab to switch".to_owned(), tone: Tone::Dim });
    let line = Line { spans };
    assert(line@ =~= tab_line(app@)->0);
    Some(line)
}

// ---------------------------------------------------------------- setup screen

/// What the setup screen says of the state of things.
pub open spec fn setup_state(v: AppView) -> SpanView {
    match v.login_error {
        Some(e) => span("  x "@ + e, Tone::Bad),
        None => if v.loading {
            span("  Verifying..."@, Tone::Warn)
        } else {
            span("  Press r after saving the file."@, Tone::Good)
        },
    }
}

/// The lines of the setup screen.
pub open spec fn setup_lines(v: AppView) -> Seq<Seq<SpanView>> {
    seq![
        seq![span(""@, Tone::Plain)],
        seq![span("  Edit this file:  "@, Tone::Dim), span(v.cookie_file, Tone::Header)],
        seq![span(""@, Tone::Plain)],
        seq![setup_state(v)],
        seq![span(""@, Tone::Plain)],
        seq![span("  Steps:"@, Tone::Dim)],
        seq![span("  1. Log in to udemy.com in Firefox / Chrome"@, Tone::Dim)],
        seq![span("  2. DevTools (F12) -> Network tab -> reload the page"@, Tone::Dim)],
        seq![span("  3. Click any request to udemy.com"@, Tone::Dim)],
        seq![span("  4. Request Headers -> right-click Cookie -> Copy value"@, Tone::Dim)],
        seq![
            span(
                "  5. Replace ALL contents of the file above with the value and save."@,
                Tone::Dim,
            ),
        ],
        seq![span(""@, Tone::Plain)],
        seq![span("  r reload  q quit"@, Tone::Dim)],
    ]
}

fn setup_state_line(app: &App) -> (line: Line)
    ensures
        line@ == seq![setup_state(app@)],
{
    match &app.login_error {
        Some(e) => {
            let mut text = "  x ".to_owned();
            text.append(e.as_str());
            line_of(text, Tone::Bad)
        },
        None => if app.loading {
            line_of("  Verifying...".to_owned(), Tone::Warn)
        } else {
            line_of("  Press r after saving the file.".to_owned(), Tone::Good)
        },
    }
}

/// Gives the lines of the setup screen.
pub fn setup_screen(app: &App) -> (lines: Vec<Line>)
    ensures
        line_views(lines@) == setup_lines(app@),
{
    let mut file: Vec<Span> = Vec::new();
    file.push(Span { text: "  Edit this file:  ".to_owned(), tone: Tone::Dim });
    file.push(Span { text: app.cookie_file.clone(), tone: Tone::Header });
    let file = Line { spans: file };
    assert(file@ =~= seq![
        span("  Edit this file:  "@, Tone::Dim),
        span(app@.cookie_file, Tone::Header),
    ]);
    let mut lines: Vec<Line> = Vec::new();
    push_text(&mut lines, "", Tone::Plain);
    push_line(&mut lines, file);
    push_text(&mut lines, "", Tone::Plain);
    push_line(&mut lines, setup_state_line(app));
    push_text(&mut lines, "", Tone::Plain);
    push_text(&mut lines, "  Steps:", Tone::Dim);
    push_text(&mut lines, "  1. Log in to udemy.com in Firefox / Chrome", Tone::Dim);
    push_text(&mut lines, "  2. DevTools (F12) -> Network tab -> reload the page", Tone::Dim);
    push_text(&mut lines, "  3. Click any request to udemy.com", Tone::Dim);
    push_text(&mut lines, "  4. Request Headers -> right-click Cookie -> Copy value", Tone::Dim);
    push_text(
        &mut lines,
        "  5. Replace ALL contents of the file above with the value and save.",
        Tone::Dim,
    );
    push_text(&mut lines, "", Tone::Plain);
    push_text(&mut lines, "  r reload  q quit", Tone::Dim);
    assert(line_views(lines@) =~= setup_lines(app@));
    lines
}

// ---------------------------------------------------------------------- panels

/// What is shown in the middle of the screen.
#[derive(Debug)]
pub enum Panel {
    /// Lines without a frame.
    Message(Vec<Line>),
    /// A list in a frame with a title.
    Rows { title: String, rows: Vec<Line>, selected: Option<usize> },
}

/// What a [`Panel`] holds.
pub enum PanelView {
    Message(Seq<Seq<SpanView>>),
    Rows { title: Seq<char>, rows: Seq<Seq<SpanView>>, selected: Option<usize> },
}

impl View for Panel {
    type V = PanelView;

    open spec fn view(&self) -> PanelView {
        match self {
            Panel::Message(lines) => PanelView::Message(line_views(lines@)),
            Panel::Rows { title, rows, selected } => PanelView::Rows {
                title: title@,
                rows: line_views(rows@),
                selected: *selected,
            },
        }
    }
}

/// Before what is expanded, or collapsed.
pub open spec fn arrow(expanded: bool) -> Seq<char> {
    if expanded {
        "▼"@
    } else {
        "▶"@
    }
}

fn arrow_text(expanded: bool) -> (text: String)
    ensures
        text@ == arrow(expanded),
{
    if expanded {
        "▼".to_owned()
    } else {
        "▶".to_owned()
    }
}

// The list of courses.

/// How many courses there are in all groups.
pub open spec fn course_count(groups: Seq<GroupView>) -> nat
    decreases groups.len(),
{
    if groups.len() == 0 {
        0
    } else {
        course_count(groups.drop_last()) + groups.last().courses.len()
    }
}

/// The row of a group.
pub open spec fn group_line(group: GroupView, selected: bool) -> Seq<SpanView> {
    seq![
        span(marker(selected), Tone::Accent),
        span(
            arrow(group.expanded) + " "@ + group.instructor,
            tone_of(selected, Tone::Accent),
        ),
        span("  ("@ + decimal(group.courses.len()) + " courses)"@, Tone::Dim),
    ]
}

/// The row of a course.
pub open spec fn course_line(course: CourseView, selected: bool) -> Seq<SpanView> {
    seq![
        span(marker(selected), Tone::Accent),
        span(course.title, tone_of(selected, Tone::Normal)),
        span(
            match course.num_published_lectures {
                Some(n) => "  "@ + decimal(n as nat) + " lectures"@,
                None => ""@,
            },
            Tone::Dim,
        ),
    ]
}

/// A row in the list of courses.
pub open spec fn course_row_line(groups: Seq<GroupView>, row: CourseRow, selected: bool) -> Seq<
    SpanView,
> {
    match row {
        CourseRow::Group(gi) => group_line(groups[gi as int], selected),
        CourseRow::Course(gi, ci) => course_line(
            groups[gi as int].courses[ci as int],
            selected,
        ),
    }
}

/// The list of courses, or what is shown in place of it.
pub open spec fn courses_view(v: AppView) -> PanelView {
    if v.loading {
        PanelView::Message(seq![seq![span("  Loading courses…"@, Tone::Warn)]])
    } else {
        match v.error_msg {
            Some(e) => PanelView::Message(
                seq![
                    seq![span("  Error: "@ + e, Tone::Bad)],
                    seq![span("  Press r to retry"@, Tone::Dim)],
                ],
            ),
            None => if v.groups.len() == 0 {
                PanelView::Message(
                    seq![seq![span("  No courses found. Press r to refresh."@, Tone::Dim)]],
                )
            } else {
                PanelView::Rows {
                    title: " Courses ("@ + decimal(course_count(v.groups)) + ") "@,
                    rows: Seq::new(
                        v.course_rows().len(),
                        |i: int|
                            course_row_line(
                                v.groups,
                                v.course_rows()[i],
                                i == selected_row(v.course_selected),
                            ),
                    ),
                    selected: v.course_selected,
                }
            },
        }
    }
}

fn count_courses(groups: &Vec<CourseGroup>) -> (count: u128)
    ensures
        count == course_count(group_views(groups@)),
{
    let ghost all = group_views(groups@);
    let mut count: u128 = 0;
    let mut gi: usize = 0;
    while gi < groups.len()
        invariant
            gi <= groups.len(),
            all == group_views(groups@),
            count == course_count(all.take(gi as int)),
            count <= gi * 0xffff_ffff_ffff_ffff,
        decreases groups.len() - gi,
    {
        assert(all.take(gi + 1).drop_last() =~= all.take(gi as int));
        assert(all.take(gi + 1).last() == groups@[gi as int]@);
        let n: usize = groups[gi].courses.len();
        assert(n <= 0xffff_ffff_ffff_ffff);
        count = count + n as u128;
        gi += 1;
    }
    assert(all.take(gi as int) =~= all);
    count
}

fn show_group(group: &CourseGroup, selected: bool) -> (line: Line)
    ensures
        line@ == group_line(group@, selected),
{
    let mut name = arrow_text(group.expanded);
    name.append(" ");
    name.append(group.instructor.as_str());
    let mut count = "  (".to_owned();
    push_decimal(&mut count, group.courses.len() as u64);
    count.append(" courses)");
    line_of_three(
        Span { text: marker_text(selected), tone: Tone::Accent },
        Span { text: name, tone: pick(selected, Tone::Accent) },
        Span { text: count, tone: Tone::Dim },
    )
}

fn show_course(course: &Course, selected: bool) -> (line: Line)
    ensures
        line@ == course_line(course@, selected),
{
    let mut lectures = "".to_owned();
    if let Some(n) = course.num_published_lectures {
        lectures = "  ".to_owned();
        push_decimal(&mut lectures, n as u64);
        lectures.append(" lectures");
    }
    line_of_three(
        Span { text: marker_text(selected), tone: Tone::Accent },
        Span { text: course.title.clone(), tone: pick(selected, Tone::Normal) },
        Span { text: lectures, tone: Tone::Dim },
    )
}

fn course_row_lines(app: &App) -> (rows: Vec<Line>)
    requires
        app.wf(),
    ensures
        line_views(rows@) == Seq::new(
            app@.course_rows().len(),
            |i: int|
                course_row_line(
                    app@.groups,
                    app@.course_rows()[i],
                    i == selected_row(app@.course_selected),
                ),
        ),
{
    let selected: usize = match app.course_selected {
        Some(s) => s,
        None => 0,
    };
    let mut rows: Vec<Line> = Vec::new();
    let mut i: usize = 0;
    while i < app.course_rows.len()
        invariant
            app.wf(),
            i <= app.course_rows.len(),
            selected == selected_row(app@.course_selected),
            line_views(rows@) == Seq::new(
                i as nat,
                |i: int|
                    course_row_line(
                        app@.groups,
                        app@.course_rows()[i],
                        i == selected_row(app@.course_selected),
                    ),
            ),
        decreases app.course_rows.len() - i,
    {
        let ghost before = line_views(rows@);
        proof {
            law_lists_fit(app);
            law_course_rows_are_shown(app@.groups, i as int);
        }
        let line = match app.course_rows[i] {
            CourseRow::Group(gi) => show_group(&app.course_groups[gi], i == selected),
            CourseRow::Course(gi, ci) => {
                assert(app@.groups[gi as int] == app.course_groups@[gi as int]@);
                show_course(&app.course_groups[gi].courses[ci], i == selected)
            },
        };
        push_line(&mut rows, line);
        i += 1;
        assert(line_views(rows@) =~= Seq::new(
            i as nat,
            |i: int|
                course_row_line(
                    app@.groups,
                    app@.course_rows()[i],
                    i == selected_row(app@.course_selected),
                ),
        ));
    }
    rows
}

/// Gives the list of courses, or what is shown in place of it.
pub fn courses_panel(app: &App) -> (panel: Panel)
    requires
        app.wf(),
    ensures
        panel@ == courses_view(app@),
{
    if app.loading {
        return Panel::Message(one_line("  Loading courses…".to_owned(), Tone::Warn));
    }
    if let Some(e) = &app.error_msg {
        let mut text = "  Error: ".to_owned();
        text.append(e.as_str());
        let ghost shown = text@;
        let mut lines = one_line(text, Tone::Bad);
        push_text(&mut lines, "  Press r to retry", Tone::Dim);
        assert(line_views(lines@) =~= seq![
            seq![span(shown, Tone::Bad)],
            seq![span("  Press r to retry"@, Tone::Dim)],
        ]);
        return Panel::Message(lines);
    }
    assert(app@.groups.len() == app.course_groups.len());
    if app.course_groups.len() == 0 {
        return Panel::Message(
            one_line("  No courses found. Press r to refresh.".to_owned(), Tone::Dim),
        );
    }
    let mut title = " Courses (".to_owned();
    push_wide_decimal(&mut title, count_courses(&app.course_groups));
    title.append(") ");
    Panel::Rows { title, rows: course_row_lines(app), selected: app.course_selected }
}

// The curriculum.

/// The row of a chapter.
pub open spec fn chapter_line(chapter: ChapterView, selected: bool) -> Seq<SpanView> {
    seq![
        span(
            arrow(chapter.expanded) + " Section "@ + decimal(chapter.object_index as nat) + ": "@,
            tone_of(selected, Tone::Accent),
        ),
        span(chapter.title, tone_of(selected, Tone::Header)),
        span(
            "  ("@ + decimal(chapter.lectures.len()) + " lectures)"@,
            tone_of(selected, Tone::Dim),
        ),
    ]
}

/// A duration in minutes and seconds.
pub open spec fn duration_text(secs: Option<u32>) -> Seq<char> {
    match secs {
        Some(s) => "["@ + decimal((s / 60) as nat) + ":"@ + padded(
            decimal((s % 60) as nat),
            '0',
            2,
        ) + "]"@,
        None => ""@,
    }
}

/// The sign for a kind of lecture.
pub open spec fn icon(asset_type: Seq<char>) -> Seq<char> {
    if asset_type == "Video"@ {
        "○"@
    } else if asset_type == "Article"@ {
        "📄"@
    } else {
        "•"@
    }
}

/// The row of a lecture.
pub open spec fn lecture_line(lecture: LectureView, selected: bool) -> Seq<SpanView> {
    seq![
        span(
            "    "@ + icon(lecture.asset_type) + " "@ + padded(
                decimal(lecture.object_index as nat),
                ' ',
                3,
            ) + ". "@,
            tone_of(selected, Tone::Dim),
        ),
        span(lecture.title, tone_of(selected, Tone::Normal)),
        span("  "@ + duration_text(lecture.duration_secs), Tone::Dim),
    ]
}

/// A row in the curriculum.
pub open spec fn curriculum_row_line(
    chapters: Seq<ChapterView>,
    row: CurriculumRow,
    selected: bool,
) -> Seq<SpanView> {
    match row {
        CurriculumRow::Chapter(ci) => chapter_line(chapters[ci as int], selected),
        CurriculumRow::Lecture(ci, li) => lecture_line(
            chapters[ci as int].lectures[li as int],
            selected,
        ),
    }
}

/// The curriculum, or what is shown in place of it.
pub open spec fn curriculum_view(v: AppView) -> PanelView {
    if v.loading {
        PanelView::Message(seq![seq![span("  Loading curriculum…"@, Tone::Warn)]])
    } else {
        PanelView::Rows {
            title: " "@ + (match v.current_course {
                Some(c) => c.title,
                None => "Course"@,
            }) + " — "@ + decimal(lecture_count(v.curriculum)) + " lectures "@,
            rows: Seq::new(
                v.curriculum_rows().len(),
                |i: int|
                    curriculum_row_line(
                        v.curriculum,
                        v.curriculum_rows()[i],
                        i == selected_row(v.curriculum_selected),
                    ),
            ),
            selected: v.curriculum_selected,
        }
    }
}

fn show_chapter(chapter: &Chapter, selected: bool) -> (line: Line)
    ensures
        line@ == chapter_line(chapter@, selected),
{
    let mut section = arrow_text(chapter.expanded);
    section.append(" Section ");
    push_decimal(&mut section, chapter.object_index as u64);
    section.append(": ");
    let mut count = "  (".to_owned();
    push_decimal(&mut count, chapter.lectures.len() as u64);
    count.append(" lectures)");
    line_of_three(
        Span { text: section, tone: pick(selected, Tone::Accent) },
        Span { text: chapter.title.clone(), tone: pick(selected, Tone::Header) },
        Span { text: count, tone: pick(selected, Tone::Dim) },
    )
}

fn show_lecture(lecture: &Lecture, selected: bool) -> (line: Line)
    ensures
        line@ == lecture_line(lecture@, selected),
{
    let mut head = "    ".to_owned();
    if lecture.asset_type == "Video".to_owned() {
        head.append("○");
    } else if lecture.asset_type == "Article".to_owned() {
        head.append("📄");
    } else {
        head.append("•");
    }
    head.append(" ");
    head.append(padded_decimal(lecture.object_index as u64, ' ', 3).as_str());
    head.append(". ");
    let mut duration = "  ".to_owned();
    if let Some(s) = lecture.duration_secs {
        let ghost before = duration@;
        duration.append("[");
        push_decimal(&mut duration, (s / 60) as u64);
        duration.append(":");
        duration.append(padded_decimal((s % 60) as u64, '0', 2).as_str());
        duration.append("]");
        assert(duration@ =~= before + duration_text(Some(s)));
    } else {
        duration.append("");
    }
    line_of_three(
        Span { text: head, tone: pick(selected, Tone::Dim) },
        Span { text: lecture.title.clone(), tone: pick(selected, Tone::Normal) },
        Span { text: duration, tone: Tone::Dim },
    )
}

fn curriculum_row_lines(app: &App) -> (rows: Vec<Line>)
    requires
        app.wf(),
    ensures
        line_views(rows@) == Seq::new(
            app@.curriculum_rows().len(),
            |i: int|
                curriculum_row_line(
                    app@.curriculum,
                    app@.curriculum_rows()[i],
                    i == selected_row(app@.curriculum_selected),
                ),
        ),
{
    let selected: usize = match app.curriculum_selected {
        Some(s) => s,
        None => 0,
    };
    let mut rows: Vec<Line> = Vec::new();
    let mut i: usize = 0;
    while i < app.visible_rows.len()
        invariant
            app.wf(),
            i <= app.visible_rows.len(),
            selected == selected_row(app@.curriculum_selected),
            line_views(rows@) == Seq::new(
                i as nat,
                |i: int|
                    curriculum_row_line(
                        app@.curriculum,
                        app@.curriculum_rows()[i],
                        i == selected_row(app@.curriculum_selected),
                    ),
            ),
        decreases app.visible_rows.len() - i,
    {
        let ghost before = line_views(rows@);
        proof {
            law_lists_fit(app);
            law_curriculum_rows_are_shown(app@.curriculum, i as int);
        }
        let line = match app.visible_rows[i] {
            CurriculumRow::Chapter(ci) => show_chapter(&app.curriculum[ci], i == selected),
            CurriculumRow::Lecture(ci, li) => {
                assert(app@.curriculum[ci as int] == app.curriculum@[ci as int]@);
                show_lecture(&app.curriculum[ci].lectures[li], i == selected)
            },
        };
        push_line(&mut rows, line);
        i += 1;
        assert(line_views(rows@) =~= Seq::new(
            i as nat,
            |i: int|
                curriculum_row_line(
                    app@.curriculum,
                    app@.curriculum_rows()[i],
                    i == selected_row(app@.curriculum_selected),
                ),
        ));
    }
    rows
}

/// Gives the curriculum, or what is shown in place of it.
pub fn curriculum_panel(app: &App) -> (panel: Panel)
    requires
        app.wf(),
    ensures
        panel@ == curriculum_view(app@),
{
    if app.loading {
        return Panel::Message(one_line("  Loading curriculum…".to_owned(), Tone::Warn));
    }
    let mut title = " ".to_owned();
    match &app.current_course {
        Some(c) => title.append(c.title.as_str()),
        None => title.append("Course"),
    }
    title.append(" — ");
    push_wide_decimal(&mut title, count_lectures(&app.curriculum));
    title.append(" lectures ");
    Panel::Rows { title, rows: curriculum_row_lines(app), selected: app.curriculum_selected }
}

// The list of downloads.

/// A download on the screen: a line, and a gauge below it.
#[derive(Debug)]
pub struct DownloadRow {
    pub line: Line,
    /// The share that is done, in percent.
    pub percent: u16,
    pub gauge: Tone,
}

/// What a [`DownloadRow`] holds.
#[verifier::ext_equal]
pub struct DownloadRowView {
    pub line: Seq<SpanView>,
    pub percent: u16,
    pub gauge: Tone,
}

impl View for DownloadRow {
    type V = DownloadRowView;

    open spec fn view(&self) -> DownloadRowView {
        DownloadRowView { line: self.line@, percent: self.percent, gauge: self.gauge }
    }
}

/// What `rows` hold.
pub open spec fn download_row_views(rows: Seq<DownloadRow>) -> Seq<DownloadRowView> {
    rows.map_values(|r: DownloadRow| r@)
}

/// The list of downloads.
#[derive(Debug)]
pub enum DownloadsPanel {
    /// Lines in a frame with a title.
    Message { title: String, lines: Vec<Line> },
    /// The downloads that there is room for.
    Rows { title: String, rows: Vec<DownloadRow> },
}

/// What a [`DownloadsPanel`] holds.
pub enum DownloadsPanelView {
    Message { title: Seq<char>, lines: Seq<Seq<SpanView>> },
    Rows { title: Seq<char>, rows: Seq<DownloadRowView> },
}

impl View for DownloadsPanel {
    type V = DownloadsPanelView;

    open spec fn view(&self) -> DownloadsPanelView {
        match self {
            DownloadsPanel::Message { title, lines } => DownloadsPanelView::Message {
                title: title@,
                lines: line_views(lines@),
            },
            DownloadsPanel::Rows { title, rows } => DownloadsPanelView::Rows {
                title: title@,
                rows: download_row_views(rows@),
            },
        }
    }
}

/// How the status of a download is shown.
pub open spec fn status_span(status: StatusView) -> SpanView {
    match status {
        StatusView::Queued => span("Queued"@, Tone::Dim),
        StatusView::Fetching => span("Fetching…"@, Tone::Warn),
        StatusView::Downloading => span("Downloading"@, Tone::Good),
        StatusView::Done => span("✓ Done"@, Tone::Good),
        StatusView::Failed(e) => span("✗ "@ + e, Tone::Bad),
        StatusView::Cancelled => span("Cancelled"@, Tone::Dim),
    }
}

/// How a download is shown.
pub open spec fn download_row(item: ItemView, selected: bool) -> DownloadRowView {
    DownloadRowView {
        line: seq![
            span(
                marker(selected) + "["@ + item.course_title + "] "@ + item.chapter_title + " / "@
                    + item.lecture_title,
                tone_of(selected, Tone::Normal),
            ),
            span("  "@, Tone::Plain),
            status_span(item.status),
        ],
        percent: if item.percent.whole <= 100 {
            item.percent.whole
        } else {
            100
        },
        gauge: status_span(item.status).tone,
    }
}

/// How many rows of the screen a download takes.
pub const ROW_HEIGHT: u16 = 3;

/// How many downloads there is room for in `height` rows of the screen.
pub open spec fn room(height: u16) -> int {
    height as int / ROW_HEIGHT as int
}

/// The first download that is shown: as early as the selected one lets it be.
pub open spec fn scroll_offset(selected: int, height: u16) -> int {
    let above = if room(height) > 0 {
        room(height) - 1
    } else {
        0
    };
    if selected > above {
        selected - above
    } else {
        0
    }
}

/// How many of `len` downloads are shown from `offset` on.
pub open spec fn shown_count(len: nat, offset: int, height: u16) -> nat {
    if offset >= len {
        0
    } else if len - offset < room(height) {
        (len - offset) as nat
    } else {
        room(height) as nat
    }
}

/// The downloads that are shown in `height` rows of the screen.
pub open spec fn shown_downloads(v: AppView, height: u16) -> Seq<DownloadRowView> {
    let selected = selected_row(v.download_selected);
    let offset = scroll_offset(selected, height);
    Seq::new(
        shown_count(v.downloads.len(), offset, height),
        |k: int| download_row(v.downloads[offset + k], offset + k == selected),
    )
}

/// The list of downloads in `height` rows of the screen.
pub open spec fn downloads_view(v: AppView, height: u16) -> DownloadsPanelView {
    if v.downloads.len() == 0 {
        DownloadsPanelView::Message {
            title: " Downloads "@,
            lines: seq![
                seq![span(""@, Tone::Plain)],
                seq![span("  No downloads yet."@, Tone::Dim)],
                seq![
                    span(
                        "  Navigate to a course → press d (lecture) or a (all lectures)."@,
                        Tone::Dim,
                    ),
                ],
            ],
        }
    } else {
        DownloadsPanelView::Rows {
            title: " Downloads ("@ + decimal(v.downloads.len()) + ") "@,
            rows: shown_downloads(v, height),
        }
    }
}

/// The selected download is among those that are shown, if there is room for one.
pub proof fn law_selected_download_is_shown(v: AppView, height: u16)
    requires
        v.downloads.len() > 0,
        v.selections_fit(),
        height >= ROW_HEIGHT,
    ensures
        ({
            let selected = selected_row(v.download_selected);
            let k = selected - scroll_offset(selected, height);
            &&& 0 <= k < shown_downloads(v, height).len()
            &&& shown_downloads(v, height)[k] == download_row(v.downloads[selected], true)
        }),
{
}

/// What is shown never takes more rows of the screen than there are.
pub proof fn law_downloads_fit_the_screen(v: AppView, height: u16)
    ensures
        shown_downloads(v, height).len() * ROW_HEIGHT <= height,
{
    assert(shown_downloads(v, height).len() <= room(height));
}

fn show_status(status: &DownloadStatus) -> (s: Span)
    ensures
        s@ == status_span(status@),
{
    match status {
        DownloadStatus::Queued => Span { text: "Queued".to_owned(), tone: Tone::Dim },
        DownloadStatus::Fetching => Span { text: "Fetching…".to_owned(), tone: Tone::Warn },
        DownloadStatus::Downloading => Span { text: "Downloading".to_owned(), tone: Tone::Good },
        DownloadStatus::Done => Span { text: "✓ Done".to_owned(), tone: Tone::Good },
        DownloadStatus::Failed(e) => {
            let mut text = "✗ ".to_owned();
            text.append(e.as_str());
            Span { text, tone: Tone::Bad }
        },
        DownloadStatus::Cancelled => Span { text: "Cancelled".to_owned(), tone: Tone::Dim },
    }
}

fn show_download(item: &DownloadItem, selected: bool) -> (row: DownloadRow)
    ensures
        row@ == download_row(item@, selected),
{
    let mut label = marker_text(selected);
    label.append("[");
    label.append(item.course_title.as_str());
    label.append("] ");
    label.append(item.chapter_title.as_str());
    label.append(" / ");
    label.append(item.lecture_title.as_str());
    let status = show_status(&item.status);
    let gauge: Tone = status.tone;
    let percent: u16 = if item.percent.whole <= 100 {
        item.percent.whole
    } else {
        100
    };
    let line = line_of_three(
        Span { text: label, tone: pick(selected, Tone::Normal) },
        Span { text: "  ".to_owned(), tone: Tone::Plain },
        status,
    );
    DownloadRow { line, percent, gauge }
}

fn download_rows(app: &App, height: u16) -> (rows: Vec<DownloadRow>)
    ensures
        download_row_views(rows@) == shown_downloads(app@, height),
{
    let selected: usize = match app.download_selected {
        Some(s) => s,
        None => 0,
    };
    let fits: usize = (height / ROW_HEIGHT) as usize;
    let above: usize = if fits > 0 {
        fits - 1
    } else {
        0
    };
    let offset: usize = if selected > above {
        selected - above
    } else {
        0
    };
    let ghost want = shown_downloads(app@, height);
    assert(app@.downloads.len() == app.downloads.len());
    let mut rows: Vec<DownloadRow> = Vec::new();
    let mut k: usize = 0;
    while k < fits && offset < app.downloads.len() && k < app.downloads.len() - offset
        invariant
            selected == selected_row(app@.download_selected),
            fits == room(height),
            offset == scroll_offset(selected as int, height),
            want == shown_downloads(app@, height),
            app@.downloads.len() == app.downloads.len(),
            k <= want.len(),
            download_row_views(rows@) == want.take(k as int),
        decreases fits - k,
    {
        let ghost before = download_row_views(rows@);
        let row = show_download(&app.downloads[offset + k], offset + k == selected);
        let ghost shown = row@;
        rows.push(row);
        assert(download_row_views(rows@) =~= before.push(shown));
        k += 1;
        assert(want.take(k as int) =~= before.push(shown));
    }
    assert(want.take(k as int) =~= want);
    rows
}

/// Gives the list of downloads for `height` rows of the screen inside the frame.
pub fn downloads_panel(app: &App, height: u16) -> (panel: DownloadsPanel)
    ensures
        panel@ == downloads_view(app@, height),
{
    assert(app@.downloads.len() == app.downloads.len());
    if app.downloads.len() == 0 {
        let mut lines: Vec<Line> = Vec::new();
        push_text(&mut lines, "", Tone::Plain);
        push_text(&mut lines, "  No downloads yet.", Tone::Dim);
        push_text(
            &mut lines,
            "  Navigate to a course → press d (lecture) or a (all lectures).",
            Tone::Dim,
        );
        assert(line_views(lines@) =~= seq![
            seq![span(""@, Tone::Plain)],
            seq![span("  No downloads yet."@, Tone::Dim)],
            seq![
                span(
                    "  Navigate to a course → press d (lecture) or a (all lectures)."@,
                    Tone::Dim,
                ),
            ],
        ]);
        return DownloadsPanel::Message { title: " Downloads ".to_owned(), lines };
    }
    let mut title = " Downloads (".to_owned();
    push_decimal(&mut title, app.downloads.len() as u64);
    title.append(") ");
    DownloadsPanel::Rows { title, rows: download_rows(app, height) }
}

// ------------------------------------------------------------------ status bar

/// The keys that can be used on a screen.
pub open spec fn hints(screen: AppScreen) -> Seq<char> {
    match screen {
        AppScreen::Login => " Enter confirm · Tab show/hide token · Ctrl-C quit"@,
        AppScreen::Courses =>
            " ↑↓/jk navigate · Enter open · d download · r refresh · L logout · Tab tab · Ctrl-C quit"@,
        AppScreen::Curriculum =>
            " ↑↓/jk navigate · Enter expand · d download · a all · b back · Tab tab"@,
    }
}

/// The line at the bottom: an error, or else the status, or else the keys.
pub open spec fn status_view(v: AppView) -> SpanView {
    match v.error_msg {
        Some(e) => span(" ✗ "@ + e, Tone::Bad),
        None => match v.status_msg {
            Some(m) => span(" "@ + m, Tone::Dim),
            None => span(hints(v.screen), Tone::Dim),
        },
    }
}

/// Gives the line at the bottom.
pub fn status_line(app: &App) -> (s: Span)
    ensures
        s@ == status_view(app@),
{
    if let Some(e) = &app.error_msg {
        let mut text = " ✗ ".to_owned();
        text.append(e.as_str());
        return Span { text, tone: Tone::Bad };
    }
    if let Some(m) = &app.status_msg {
        let mut text = " ".to_owned();
        text.append(m.as_str());
        return Span { text, tone: Tone::Dim };
    }
    let text = match app.screen {
        AppScreen::Login => " Enter confirm · Tab show/hide token · Ctrl-C quit".to_owned(),
        AppScreen::Courses =>
            " ↑↓/jk navigate · Enter open · d download · r refresh · L logout · Tab tab · Ctrl-C quit".to_owned(),
        AppScreen::Curriculum =>
            " ↑↓/jk navigate · Enter expand · d download · a all · b back · Tab tab".to_owned(),
    };
    Span { text, tone: Tone::Dim }
}

// ------------------------------------------------------------------------ body

/// What the middle of the screen shows.
#[derive(Clone, Copy, Debug, PartialEq, Eq, Structural)]
pub enum Body {
    Setup,
    Courses,
    Curriculum,
    Downloads,
}

/// What the middle of the screen shows.
pub open spec fn body_of(v: AppView) -> Body {
    if v.screen == AppScreen::Login {
        Body::Setup
    } else if v.active_tab == ActiveTab::Downloads {
        Body::Downloads
    } else if v.screen == AppScreen::Courses {
        Body::Courses
    } else {
        Body::Curriculum
    }
}

/// Tells what the middle of the screen shows.
pub fn body(app: &App) -> (b: Body)
    ensures
        b == match app@.screen {
            AppScreen::Login => Body::Setup,
            screen => if app@.active_tab == ActiveTab::Downloads {
                Body::Downloads
            } else if screen == AppScreen::Courses {
                Body::Courses
            } else {
                Body::Curriculum
            },
        },
        b == body_of(app@),
{
    match app.screen {
        AppScreen::Login => Body::Setup,
        AppScreen::Courses => if app.active_tab == ActiveTab::Downloads {
            Body::Downloads
        } else {
            Body::Courses
        },
        AppScreen::Curriculum => if app.active_tab == ActiveTab::Downloads {
            Body::Downloads
        } else {
            Body::Curriculum
        },
    }
}

// ------------------------------------------------------------------------ laws

/// Without a cookie the setup screen is shown, whatever tab is chosen; otherwise the tab
/// decides, and on the tab of courses the screen.
pub proof fn law_the_tab_decides_what_is_shown(v: AppView)
    ensures
        body_of(v) == Body::Setup <==> v.screen == AppScreen::Login,
        body_of(v) == Body::Downloads <==> v.screen != AppScreen::Login && v.active_tab
            == ActiveTab::Downloads,
        body_of(v) == Body::Courses <==> v.screen == AppScreen::Courses && v.active_tab
            == ActiveTab::Courses,
        body_of(v) == Body::Curriculum <==> v.screen == AppScreen::Curriculum && v.active_tab
            == ActiveTab::Courses,
{
}

/// There is a line with the tabs on all screens but the setup screen. The chosen tab stands
/// out, and the other one counts the downloads that have not come to an end.
pub proof fn law_tabs_are_shown(v: AppView)
    ensures
        tab_line(v) is None <==> v.screen == AppScreen::Login,
        tab_line(v) matches Some(line) ==> {
            let active = active_items(v.downloads).len();
            &&& line.len() == 4
            &&& line[0].text == " [1] Courses "@
            &&& line[0].tone == Tone::Selected <==> v.active_tab == ActiveTab::Courses
            &&& line[2].tone == Tone::Selected <==> v.active_tab == ActiveTab::Downloads
            &&& active == 0 ==> line[2].text == " [2] Downloads "@
            &&& active > 0 ==> line[2].text == " [2] Downloads ("@ + decimal(active) + ") "@
            &&& line[3].text == "  Tab to switch"@
        },
{
}

/// The setup screen names the cookie file. It tells the last error, or else that the cookie
/// is being checked, or else which key to press.
pub proof fn law_the_setup_screen_names_the_cookie_file(v: AppView)
    ensures
        setup_lines(v)[1][1].text == v.cookie_file,
        v.login_error matches Some(e) ==> setup_lines(v)[3] == seq![
            SpanView { text: "  x "@ + e, tone: Tone::Bad },
        ],
        v.login_error is None && v.loading ==> setup_lines(v)[3] == seq![
            SpanView { text: "  Verifying..."@, tone: Tone::Warn },
        ],
        v.login_error is None && !v.loading ==> setup_lines(v)[3] == seq![
            SpanView { text: "  Press r after saving the file."@, tone: Tone::Good },
        ],
        setup_lines(v).len() == 13,
{
}

/// The list of courses is shown when nothing is loading, no error is told and there are
/// courses: one line for each row, with the selected row marked.
pub proof fn law_courses_are_shown(v: AppView, i: int)
    ensures
        v.loading ==> courses_view(v) == PanelView::Message(
            seq![seq![SpanView { text: "  Loading courses…"@, tone: Tone::Warn }]],
        ),
        !v.loading ==> (v.error_msg matches Some(e) ==> courses_view(v) == PanelView::Message(
            seq![
                seq![SpanView { text: "  Error: "@ + e, tone: Tone::Bad }],
                seq![SpanView { text: "  Press r to retry"@, tone: Tone::Dim }],
            ],
        )),
        !v.loading && v.error_msg is None && v.groups.len() == 0 ==> courses_view(v)
            == PanelView::Message(
            seq![
                seq![
                    SpanView { text: "  No courses found. Press r to refresh."@, tone: Tone::Dim },
                ],
            ],
        ),
        !v.loading && v.error_msg is None && v.groups.len() > 0 ==> {
            &&& courses_view(v) matches PanelView::Rows { title, rows, selected }
            &&& title == " Courses ("@ + decimal(course_count(v.groups)) + ") "@
            &&& selected == v.course_selected
            &&& rows.len() == v.course_rows().len()
            &&& 0 <= i < rows.len() ==> rows[i] == course_row_line(
                v.groups,
                v.course_rows()[i],
                i == selected_row(v.course_selected),
            )
        },
{
}

/// The row of a group shows whether it is expanded, its instructor and the number of its
/// courses, and the row of a course its title and the number of its lectures, where that is
/// known; the selected row stands out and has a mark before it.
pub proof fn law_course_rows_show_what_they_stand_for(
    groups: Seq<GroupView>,
    gi: usize,
    ci: usize,
    selected: bool,
)
    ensures
        ({
            let group = groups[gi as int];
            let line = course_row_line(groups, CourseRow::Group(gi), selected);
            &&& line.len() == 3
            &&& line[0].text == if selected {
                "▶ "@
            } else {
                "  "@
            }
            &&& line[1].text == (if group.expanded {
                "▼"@
            } else {
                "▶"@
            }) + " "@ + group.instructor
            &&& line[1].tone == Tone::Selected <==> selected
            &&& line[2].text == "  ("@ + decimal(group.courses.len()) + " courses)"@
        }),
        ({
            let course = groups[gi as int].courses[ci as int];
            let line = course_row_line(groups, CourseRow::Course(gi, ci), selected);
            &&& line.len() == 3
            &&& line[0].text == if selected {
                "▶ "@
            } else {
                "  "@
            }
            &&& line[1].text == course.title
            &&& line[1].tone == Tone::Selected <==> selected
            &&& course.num_published_lectures matches Some(n) ==> line[2].text == "  "@ + decimal(
                n as nat,
            ) + " lectures"@
            &&& course.num_published_lectures is None ==> line[2].text == ""@
        }),
{
}

/// All courses of all groups are counted.
pub proof fn law_all_courses_are_counted(a: Seq<GroupView>, b: Seq<GroupView>, g: GroupView)
    ensures
        course_count(a + b) == course_count(a) + course_count(b),
        course_count(seq![g]) == g.courses.len(),
    decreases b.len(),
{
    assert(seq![g].drop_last() =~= seq![]);
    assert(course_count(seq![g].drop_last()) == 0);
    if b.len() == 0 {
        assert(a + b =~= a);
    } else {
        assert((a + b).drop_last() =~= a + b.drop_last());
        law_all_courses_are_counted(a, b.drop_last(), g);
    }
}

/// The curriculum is shown when nothing is loading: one line for each row, under the title
/// of the course and the number of its lectures.
pub proof fn law_the_curriculum_is_shown(v: AppView, i: int)
    ensures
        v.loading ==> curriculum_view(v) == PanelView::Message(
            seq![seq![SpanView { text: "  Loading curriculum…"@, tone: Tone::Warn }]],
        ),
        !v.loading ==> {
            &&& curriculum_view(v) matches PanelView::Rows { title, rows, selected }
            &&& v.current_course matches Some(c) ==> title == " "@ + c.title + " — "@ + decimal(
                lecture_count(v.curriculum),
            ) + " lectures "@
            &&& v.current_course is None ==> title == " "@ + "Course"@ + " — "@ + decimal(
                lecture_count(v.curriculum),
            ) + " lectures "@
            &&& selected == v.curriculum_selected
            &&& rows.len() == v.curriculum_rows().len()
            &&& 0 <= i < rows.len() ==> rows[i] == curriculum_row_line(
                v.curriculum,
                v.curriculum_rows()[i],
                i == selected_row(v.curriculum_selected),
            )
        },
{
}

/// The row of a chapter shows whether it is expanded, its number, its title and how many
/// lectures it has, and the row of a lecture a sign for its kind, its number, its title and
/// its duration; the selected row stands out.
pub proof fn law_curriculum_rows_show_what_they_stand_for(
    chapters: Seq<ChapterView>,
    ci: usize,
    li: usize,
    selected: bool,
)
    ensures
        ({
            let chapter = chapters[ci as int];
            let line = curriculum_row_line(chapters, CurriculumRow::Chapter(ci), selected);
            &&& line.len() == 3
            &&& line[0].text == (if chapter.expanded {
                "▼"@
            } else {
                "▶"@
            }) + " Section "@ + decimal(chapter.object_index as nat) + ": "@
            &&& line[1].text == chapter.title
            &&& line[2].text == "  ("@ + decimal(chapter.lectures.len()) + " lectures)"@
            &&& line[1].tone == Tone::Selected <==> selected
        }),
        ({
            let lecture = chapters[ci as int].lectures[li as int];
            let line = curriculum_row_line(chapters, CurriculumRow::Lecture(ci, li), selected);
            &&& line.len() == 3
            &&& lecture.asset_type == "Video"@ ==> line[0].text == "    "@ + "○"@ + " "@ + padded(
                decimal(lecture.object_index as nat),
                ' ',
                3,
            ) + ". "@
            &&& line[1].text == lecture.title
            &&& line[2].text == "  "@ + duration_text(lecture.duration_secs)
            &&& line[1].tone == Tone::Selected <==> selected
        }),
{
}

/// Videos, articles and all other lectures have signs of their own.
pub proof fn law_kinds_of_lectures_have_signs(kind: Seq<char>)
    ensures
        icon("Video"@) == "○"@,
        icon("Article"@) == "📄"@,
        kind != "Video"@ && kind != "Article"@ ==> icon(kind) == "•"@,
{
    reveal_strlit("Video");
    reveal_strlit("Article");
    assert("Video"@.len() != "Article"@.len());
}

/// A duration is shown in minutes and two digits of seconds; none is shown where it is not
/// known.
pub proof fn law_durations_are_shown_in_minutes(minutes: u32, seconds: u32)
    requires
        minutes * 60 + seconds <= u32::MAX,
        seconds < 60,
    ensures
        seconds < 10 ==> duration_text(Some((minutes * 60 + seconds) as u32)) == "["@ + decimal(
            minutes as nat,
        ) + ":"@ + seq!['0', ('0' as int + seconds) as char] + "]"@,
        seconds >= 10 ==> duration_text(Some((minutes * 60 + seconds) as u32)) == "["@ + decimal(
            minutes as nat,
        ) + ":"@ + decimal(seconds as nat) + "]"@,
        duration_text(None) == ""@,
{
    let all = (minutes * 60 + seconds) as u32;
    assert(all / 60 == minutes && all % 60 == seconds);
    let d = decimal(seconds as nat);
    if seconds < 10 {
        law_digits_follow_each_other(0, seconds as nat);
        assert(padded(d, '0', 2) =~= seq!['0', ('0' as int + seconds) as char]);
    } else {
        law_digits_follow_each_other((seconds / 10) as nat, (seconds % 10) as nat);
        law_digits_follow_each_other(0, (seconds / 10) as nat);
        assert(d.len() == 2);
    }
}

/// A download is shown with its titles, its status and its share, which is never more than
/// all of it; the gauge has the tone of the status.
pub proof fn law_downloads_show_how_far_they_are(item: ItemView, selected: bool)
    ensures
        ({
            let row = download_row(item, selected);
            &&& row.line.len() == 3
            &&& row.line[0].text == (if selected {
                "▶ "@
            } else {
                "  "@
            }) + "["@ + item.course_title + "] "@ + item.chapter_title + " / "@
                + item.lecture_title
            &&& row.line[0].tone == Tone::Selected <==> selected
            &&& item.percent.whole <= 100 ==> row.percent == item.percent.whole
            &&& item.percent.whole > 100 ==> row.percent == 100
            &&& row.gauge == row.line[2].tone
            &&& item.status is Queued ==> row.line[2] == (SpanView {
                text: "Queued"@,
                tone: Tone::Dim,
            })
            &&& item.status is Fetching ==> row.line[2] == (SpanView {
                text: "Fetching…"@,
                tone: Tone::Warn,
            })
            &&& item.status is Downloading ==> row.line[2] == (SpanView {
                text: "Downloading"@,
                tone: Tone::Good,
            })
            &&& item.status is Done ==> row.line[2] == (SpanView {
                text: "✓ Done"@,
                tone: Tone::Good,
            })
            &&& item.status matches StatusView::Failed(e) ==> row.line[2] == (SpanView {
                text: "✗ "@ + e,
                tone: Tone::Bad,
            })
            &&& item.status is Cancelled ==> row.line[2] == (SpanView {
                text: "Cancelled"@,
                tone: Tone::Dim,
            })
        }),
{
}

/// The downloads that are shown follow each other in the list. They begin with the first
/// one as long as the selected one is among them then; otherwise the selected one is the
/// last of them. As many are shown as there is room for, at three rows each.
pub proof fn law_shown_downloads_follow_each_other(v: AppView, height: u16, k: int)
    requires
        v.downloads.len() > 0,
        v.selections_fit(),
        height >= 3,
    ensures
        ({
            let shown = shown_downloads(v, height);
            let selected = selected_row(v.download_selected);
            let room = height as int / 3;
            let first = if selected < room {
                0
            } else {
                selected - room + 1
            };
            &&& v.downloads.len() >= first + room ==> shown.len() == room
            &&& v.downloads.len() < first + room ==> shown.len() == v.downloads.len() - first
            &&& 0 <= k < shown.len() ==> shown[k] == download_row(
                v.downloads[first + k],
                first + k == selected,
            )
        }),
{
}

/// The list of downloads has their number in its title; where there are none, that is said.
pub proof fn law_downloads_are_listed(v: AppView, height: u16)
    ensures
        v.downloads.len() > 0 ==> downloads_view(v, height) == (DownloadsPanelView::Rows {
            title: " Downloads ("@ + decimal(v.downloads.len()) + ") "@,
            rows: shown_downloads(v, height),
        }),
        v.downloads.len() == 0 ==> {
            &&& downloads_view(v, height) matches DownloadsPanelView::Message { title, lines }
            &&& title == " Downloads "@
            &&& lines.len() == 3
            &&& lines[1] == seq![SpanView { text: "  No downloads yet."@, tone: Tone::Dim }]
        },
{
}

/// At the bottom an error is shown, or else the status, or else the keys of the screen.
pub proof fn law_the_bottom_line_tells_the_most_urgent(v: AppView)
    ensures
        v.error_msg matches Some(e) ==> status_view(v) == (SpanView {
            text: " ✗ "@ + e,
            tone: Tone::Bad,
        }),
        v.error_msg is None ==> (v.status_msg matches Some(m) ==> status_view(v) == (SpanView {
            text: " "@ + m,
            tone: Tone::Dim,
        })),
        v.error_msg is None && v.status_msg is None ==> status_view(v) == (SpanView {
            text: match v.screen {
                AppScreen::Login => " Enter confirm · Tab show/hide token · Ctrl-C quit"@,
                AppScreen::Courses =>
                    " ↑↓/jk navigate · Enter open · d download · r refresh · L logout · Tab tab · Ctrl-C quit"@,
                AppScreen::Curriculum =>
                    " ↑↓/jk navigate · Enter expand · d download · a all · b back · Tab tab"@,
            },
            tone: Tone::Dim,
        }),
{
}

} // verus!
