//! Data that the other modules share.

use crate::text::texts;
use vstd::prelude::*;

verus! {

// ------------------------------------------------------------------ Udemy data

/// An enrolled course.
#[derive(Debug)]
pub struct Course {
    pub id: u64,
    pub title: String,
    pub num_published_lectures: Option<u32>,
    pub instructor: String,
}

/// What a [`Course`] holds.
#[verifier::ext_equal]
pub struct CourseView {
    pub id: u64,
    pub title: Seq<char>,
    pub num_published_lectures: Option<u32>,
    pub instructor: Seq<char>,
}

impl View for Course {
    type V = CourseView;

    open spec fn view(&self) -> CourseView {
        CourseView {
            id: self.id,
            title: self.title@,
            num_published_lectures: self.num_published_lectures,
            instructor: self.instructor@,
        }
    }
}

impl Clone for Course {
    fn clone(&self) -> (c: Self)
        ensures
            c == *self,
    {
        Course {
            id: self.id,
            title: self.title.clone(),
            num_published_lectures: self.num_published_lectures,
            instructor: self.instructor.clone(),
        }
    }
}

/// What `courses` hold.
pub open spec fn course_views(courses: Seq<Course>) -> Seq<CourseView> {
    courses.map_values(|c: Course| c@)
}

/// A lecture of a chapter.
#[derive(Debug)]
pub struct Lecture {
    pub id: u64,
    pub title: String,
    pub object_index: u32,
    /// "Video", "Article", "File", "ExternalLink", ...
    pub asset_type: String,
    /// Estimated duration in seconds.
    pub duration_secs: Option<u32>,
}

/// What a [`Lecture`] holds.
#[verifier::ext_equal]
pub struct LectureView {
    pub id: u64,
    pub title: Seq<char>,
    pub object_index: u32,
    pub asset_type: Seq<char>,
    pub duration_secs: Option<u32>,
}

impl View for Lecture {
    type V = LectureView;

    open spec fn view(&self) -> LectureView {
        LectureView {
            id: self.id,
            title: self.title@,
            object_index: self.object_index,
            asset_type: self.asset_type@,
            duration_secs: self.duration_secs,
        }
    }
}

/// What `lectures` hold.
pub open spec fn lecture_views(lectures: Seq<Lecture>) -> Seq<LectureView> {
    lectures.map_values(|l: Lecture| l@)
}

/// A chapter of a course.
#[derive(Debug)]
pub struct Chapter {
    pub id: u64,
    pub title: String,
    pub object_index: u32,
    /// Whether its lectures are shown.
    pub expanded: bool,
    pub lectures: Vec<Lecture>,
}

/// What a [`Chapter`] holds.
#[verifier::ext_equal]
pub struct ChapterView {
    pub id: u64,
    pub title: Seq<char>,
    pub object_index: u32,
    pub expanded: bool,
    pub lectures: Seq<LectureView>,
}

impl View for Chapter {
    type V = ChapterView;

    open spec fn view(&self) -> ChapterView {
        ChapterView {
            id: self.id,
            title: self.title@,
            object_index: self.object_index,
            expanded: self.expanded,
            lectures: lecture_views(self.lectures@),
        }
    }
}

/// What `chapters` hold.
pub open spec fn chapter_views(chapters: Seq<Chapter>) -> Seq<ChapterView> {
    chapters.map_values(|c: Chapter| c@)
}

/// The sources of one video lecture.
#[derive(Debug)]
pub struct LectureStream {
    /// Addresses of HLS playlists.
    pub hls_urls: Vec<String>,
    /// Heights and addresses of MP4 files, the highest first.
    pub mp4_urls: Vec<(u32, String)>,
    /// Referer to send when downloading.
    pub referer: String,
}

/// What a [`LectureStream`] holds.
#[verifier::ext_equal]
pub struct StreamView {
    pub hls_urls: Seq<Seq<char>>,
    pub mp4_urls: Seq<(u32, Seq<char>)>,
    pub referer: Seq<char>,
}

/// What `files` hold.
pub open spec fn file_views(files: Seq<(u32, String)>) -> Seq<(u32, Seq<char>)> {
    files.map_values(|f: (u32, String)| (f.0, f.1@))
}

impl View for LectureStream {
    type V = StreamView;

    open spec fn view(&self) -> StreamView {
        StreamView {
            hls_urls: texts(self.hls_urls@),
            mp4_urls: file_views(self.mp4_urls@),
            referer: self.referer@,
        }
    }
}

// ----------------------------------------------------------- download tracking

/// Where a download stands.
#[derive(Debug)]
pub enum DownloadStatus {
    Queued,
    Fetching,
    Downloading,
    Done,
    Failed(String),
    Cancelled,
}

/// What a [`DownloadStatus`] holds.
pub enum StatusView {
    Queued,
    Fetching,
    Downloading,
    Done,
    Failed(Seq<char>),
    Cancelled,
}

impl View for DownloadStatus {
    type V = StatusView;

    open spec fn view(&self) -> StatusView {
        match self {
            DownloadStatus::Queued => StatusView::Queued,
            DownloadStatus::Fetching => StatusView::Fetching,
            DownloadStatus::Downloading => StatusView::Downloading,
            DownloadStatus::Done => StatusView::Done,
            DownloadStatus::Failed(e) => StatusView::Failed(e@),
            DownloadStatus::Cancelled => StatusView::Cancelled,
        }
    }
}

impl StatusView {
    /// Whether the download has not come to an end.
    pub open spec fn active(self) -> bool {
        self is Queued || self is Fetching || self is Downloading
    }
}

/// How much of a download is done: a share from 0 to 100 percent, of which the
/// whole part is shown, and whether it is more than nothing.
#[derive(Clone, Copy, Debug, PartialEq, Eq, Structural)]
pub struct Progress {
    pub started: bool,
    pub whole: u16,
}

/// A download in the list.
#[derive(Debug)]
pub struct DownloadItem {
    pub id: u64,
    pub course_title: String,
    pub chapter_title: String,
    pub lecture_title: String,
    pub percent: Progress,
    pub status: DownloadStatus,
    /// Where the file will be in the end.
    pub output_path: String,
}

/// What a [`DownloadItem`] holds.
#[verifier::ext_equal]
pub struct ItemView {
    pub id: u64,
    pub course_title: Seq<char>,
    pub chapter_title: Seq<char>,
    pub lecture_title: Seq<char>,
    pub percent: Progress,
    pub status: StatusView,
    pub output_path: Seq<char>,
}

impl View for DownloadItem {
    type V = ItemView;

    open spec fn view(&self) -> ItemView {
        ItemView {
            id: self.id,
            course_title: self.course_title@,
            chapter_title: self.chapter_title@,
            lecture_title: self.lecture_title@,
            percent: self.percent,
            status: self.status@,
            output_path: self.output_path@,
        }
    }
}

/// What `items` hold.
pub open spec fn item_views(items: Seq<DownloadItem>) -> Seq<ItemView> {
    items.map_values(|d: DownloadItem| d@)
}

impl DownloadItem {
    /// Tells whether the download has not come to an end.
    pub fn is_active(&self) -> (active: bool)
        ensures
            active == self@.status.active(),
    {
        match self.status {
            DownloadStatus::Queued | DownloadStatus::Fetching | DownloadStatus::Downloading => true,
            _ => false,
        }
    }
}

// ------------------------------------------------------------------ app events

/// Messages from the background to the main loop.
#[derive(Debug)]
pub enum AppEvent {
    AuthFailed(String),
    CoursesLoaded(Vec<Course>),
    CurriculumLoaded { course_id: u64, chapters: Vec<Chapter> },
    /// Puts a download in the list before its work starts.
    QueueDownload {
        id: u64,
        course_title: String,
        chapter_title: String,
        lecture_title: String,
        output_path: String,
    },
    DownloadProgress { id: u64, percent: Progress },
    DownloadDone { id: u64 },
    DownloadFailed { id: u64, error: String },
    StatusMsg(String),
    Error(String),
}

/// What an [`AppEvent`] holds.
pub enum EventView {
    AuthFailed(Seq<char>),
    CoursesLoaded(Seq<CourseView>),
    CurriculumLoaded { course_id: u64, chapters: Seq<ChapterView> },
    QueueDownload {
        id: u64,
        course_title: Seq<char>,
        chapter_title: Seq<char>,
        lecture_title: Seq<char>,
        output_path: Seq<char>,
    },
    DownloadProgress { id: u64, percent: Progress },
    DownloadDone { id: u64 },
    DownloadFailed { id: u64, error: Seq<char> },
    StatusMsg(Seq<char>),
    Error(Seq<char>),
}

impl View for AppEvent {
    type V = EventView;

    open spec fn view(&self) -> EventView {
        match self {
            AppEvent::AuthFailed(m) => EventView::AuthFailed(m@),
            AppEvent::CoursesLoaded(courses) => EventView::CoursesLoaded(course_views(courses@)),
            AppEvent::CurriculumLoaded { course_id, chapters } => EventView::CurriculumLoaded {
                course_id: *course_id,
                chapters: chapter_views(chapters@),
            },
            AppEvent::QueueDownload {
                id,
                course_title,
                chapter_title,
                lecture_title,
                output_path,
            } => EventView::QueueDownload {
                id: *id,
                course_title: course_title@,
                chapter_title: chapter_title@,
                lecture_title: lecture_title@,
                output_path: output_path@,
            },
            AppEvent::DownloadProgress { id, percent } => EventView::DownloadProgress {
                id: *id,
                percent: *percent,
            },
            AppEvent::DownloadDone { id } => EventView::DownloadDone { id: *id },
            AppEvent::DownloadFailed { id, error } => EventView::DownloadFailed {
                id: *id,
                error: error@,
            },
            AppEvent::StatusMsg(m) => EventView::StatusMsg(m@),
            AppEvent::Error(m) => EventView::Error(m@),
        }
    }
}

// --------------------------------------------------------------- screen states

/// The screen that is shown.
#[derive(Clone, Copy, Debug, PartialEq, Eq, Structural)]
pub enum AppScreen {
    Login,
    Courses,
    Curriculum,
}

/// The tab that is shown.
#[derive(Clone, Copy, Debug, PartialEq, Eq, Structural)]
pub enum ActiveTab {
    Courses,
    Downloads,
}

// ------------------------------------------------------------------------ laws

/// A download has come to an end exactly when it is done, failed or cancelled.
pub proof fn law_downloads_end_in_three_ways(status: StatusView)
    ensures
        !status.active() <==> status is Done || status is Failed || status is Cancelled,
{
}

} // verus!
