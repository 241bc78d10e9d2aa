//! Which lectures to download, and where to.

use crate::config::{lecture_output_path_in, output_path, PathStyle};
use crate::types::{
    chapter_views, AppEvent, Chapter, ChapterView, Course, CourseView, EventView, Lecture,
    LectureView,
};
use vstd::prelude::*;
use vstd::string::*;

verus! {

/// A download to start.
#[derive(Debug)]
pub struct Download {
    pub id: u64,
    pub course_id: u64,
    pub lecture_id: u64,
    pub course_title: String,
    pub chapter_title: String,
    pub lecture_title: String,
    pub output_path: String,
    /// The cookie string to ask for the sources with.
    pub cookie: String,
}

/// What a [`Download`] holds.
#[verifier::ext_equal]
pub struct DownloadView {
    pub id: u64,
    pub course_id: u64,
    pub lecture_id: u64,
    pub course_title: Seq<char>,
    pub chapter_title: Seq<char>,
    pub lecture_title: Seq<char>,
    pub output_path: Seq<char>,
    pub cookie: Seq<char>,
}

impl View for Download {
    type V = DownloadView;

    open spec fn view(&self) -> DownloadView {
        DownloadView {
            id: self.id,
            course_id: self.course_id,
            lecture_id: self.lecture_id,
            course_title: self.course_title@,
            chapter_title: self.chapter_title@,
            lecture_title: self.lecture_title@,
            output_path: self.output_path@,
            cookie: self.cookie@,
        }
    }
}

/// What `downloads` hold.
pub open spec fn download_views(downloads: Seq<Download>) -> Seq<DownloadView> {
    downloads.map_values(|d: Download| d@)
}

/// What puts a download in the list.
pub open spec fn queueing(d: DownloadView) -> EventView {
    EventView::QueueDownload {
        id: d.id,
        course_title: d.course_title,
        chapter_title: d.chapter_title,
        lecture_title: d.lecture_title,
        output_path: d.output_path,
    }
}

impl Download {
    /// The message that puts the download in the list.
    pub fn queue_event(&self) -> (event: AppEvent)
        ensures
            event@ == (EventView::QueueDownload {
                id: self.id,
                course_title: self.course_title@,
                chapter_title: self.chapter_title@,
                lecture_title: self.lecture_title@,
                output_path: self.output_path@,
            }),
            event@ == queueing(self@),
    {
        AppEvent::QueueDownload {
            id: self.id,
            course_title: self.course_title.clone(),
            chapter_title: self.chapter_title.clone(),
            lecture_title: self.lecture_title.clone(),
            output_path: self.output_path.clone(),
        }
    }
}

/// Whether a lecture can be downloaded.
pub open spec fn is_video(lecture: LectureView) -> bool {
    lecture.asset_type == "Video"@
}

/// Tells whether a lecture can be downloaded.
pub fn is_video_lecture(lecture: &Lecture) -> (video: bool)
    ensures
        video == is_video(lecture@),
{
    lecture.asset_type == "Video".to_owned()
}

/// Where downloads go, and what they are asked for with.
pub struct Target<'a> {
    pub style: PathStyle,
    pub output_dir: &'a str,
    pub cookie: &'a str,
    pub course: &'a Course,
}

/// What a [`Target`] holds.
pub struct TargetView {
    pub style: PathStyle,
    pub output_dir: Seq<char>,
    pub cookie: Seq<char>,
    pub course: CourseView,
}

impl<'a> View for Target<'a> {
    type V = TargetView;

    open spec fn view(&self) -> TargetView {
        TargetView {
            style: self.style,
            output_dir: self.output_dir@,
            cookie: self.cookie@,
            course: self.course@,
        }
    }
}

/// The download of one lecture.
pub open spec fn download_for(
    target: TargetView,
    id: u64,
    chapter: ChapterView,
    lecture: LectureView,
) -> DownloadView {
    DownloadView {
        id,
        course_id: target.course.id,
        lecture_id: lecture.id,
        course_title: target.course.title,
        chapter_title: chapter.title,
        lecture_title: lecture.title,
        output_path: output_path(
            target.style,
            target.output_dir,
            target.course.title,
            chapter.object_index,
            chapter.title,
            lecture.object_index,
            lecture.title,
        ),
        cookie: target.cookie,
    }
}

/// Plans the download of one lecture.
pub fn plan_download(target: &Target, id: u64, chapter: &Chapter, lecture: &Lecture) -> (d: Download)
    ensures
        d@ == download_for(target@, id, chapter@, lecture@),
{
    Download {
        id,
        course_id: target.course.id,
        lecture_id: lecture.id,
        course_title: target.course.title.clone(),
        chapter_title: chapter.title.clone(),
        lecture_title: lecture.title.clone(),
        output_path: lecture_output_path_in(
            target.style,
            target.output_dir,
            target.course.title.as_str(),
            chapter.object_index,
            chapter.title.as_str(),
            lecture.object_index,
            lecture.title.as_str(),
        ),
        cookie: target.cookie.to_owned(),
    }
}

/// The videos among `lectures` of `chapter`, in order.
pub open spec fn videos_in(chapter: ChapterView, lectures: Seq<LectureView>) -> Seq<
    (ChapterView, LectureView),
>
    decreases lectures.len(),
{
    if lectures.len() == 0 {
        seq![]
    } else {
        let before = videos_in(chapter, lectures.drop_last());
        if is_video(lectures.last()) {
            before.push((chapter, lectures.last()))
        } else {
            before
        }
    }
}

/// The videos of `chapters`, in order.
pub open spec fn videos(chapters: Seq<ChapterView>) -> Seq<(ChapterView, LectureView)>
    decreases chapters.len(),
{
    if chapters.len() == 0 {
        seq![]
    } else {
        videos(chapters.drop_last()) + videos_in(chapters.last(), chapters.last().lectures)
    }
}

/// The `k`-th number after `first`. After the largest one comes 0.
pub open spec fn id_after(first: u64, k: int) -> u64 {
    ((first + k) % 0x1_0000_0000_0000_0000) as u64
}

/// The downloads of the lectures `list`, with numbers from `first_id` on.
pub open spec fn downloads_of(
    target: TargetView,
    first_id: u64,
    list: Seq<(ChapterView, LectureView)>,
) -> Seq<DownloadView> {
    Seq::new(
        list.len(),
        |k: int| download_for(target, id_after(first_id, k), list[k].0, list[k].1),
    )
}

fn plan_chapter(
    target: &Target,
    first_id: u64,
    next_id: &mut u64,
    downloads: &mut Vec<Download>,
    chapter: &Chapter,
    Ghost(list): Ghost<Seq<(ChapterView, LectureView)>>,
)
    requires
        download_views(old(downloads)@) == downloads_of(target@, first_id, list),
        *old(next_id) == id_after(first_id, list.len() as int),
    ensures
        download_views(final(downloads)@) == downloads_of(
            target@,
            first_id,
            list + videos_in(chapter@, chapter@.lectures),
        ),
        *final(next_id) == id_after(
            first_id,
            (list + videos_in(chapter@, chapter@.lectures)).len() as int,
        ),
{
    let ghost lectures = chapter@.lectures;
    let mut li: usize = 0;
    assert(list + videos_in(chapter@, lectures.take(0)) =~= list);
    while li < chapter.lectures.len()
        invariant
            li <= chapter.lectures.len(),
            lectures == chapter@.lectures,
            download_views(downloads@) == downloads_of(
                target@,
                first_id,
                list + videos_in(chapter@, lectures.take(li as int)),
            ),
            *next_id == id_after(
                first_id,
                (list + videos_in(chapter@, lectures.take(li as int))).len() as int,
            ),
        decreases chapter.lectures.len() - li,
    {
        let ghost known = list + videos_in(chapter@, lectures.take(li as int));
        let lecture = &chapter.lectures[li];
        assert(lectures.take(li + 1).drop_last() =~= lectures.take(li as int));
        assert(lectures.take(li + 1).last() == lecture@);
        if is_video_lecture(lecture) {
            let ghost before = downloads@;
            let id: u64 = *next_id;
            let d = plan_download(target, id, chapter, lecture);
            let ghost shown = d@;
            downloads.push(d);
            *next_id = id.wrapping_add(1);
            proof {
                let more = list + videos_in(chapter@, lectures.take(li + 1));
                assert(more =~= known.push((chapter@, lecture@)));
                assert(download_views(downloads@) =~= download_views(before).push(shown));
                assert(downloads_of(target@, first_id, more) =~= downloads_of(
                    target@,
                    first_id,
                    known,
                ).push(shown));
            }
        } else {
            assert(list + videos_in(chapter@, lectures.take(li + 1)) =~= known);
        }
        li += 1;
    }
    assert(lectures.take(li as int) =~= lectures);
}

/// Plans the download of every video of `chapters`, in order. The downloads get
/// numbers from `next_id` on, which then is the number for the one after them.
pub fn plan_downloads(target: &Target, next_id: &mut u64, chapters: &Vec<Chapter>) -> (downloads:
    Vec<Download>)
    ensures
        download_views(downloads@) == downloads_of(
            target@,
            *old(next_id),
            videos(chapter_views(chapters@)),
        ),
        *final(next_id) == id_after(
            *old(next_id),
            videos(chapter_views(chapters@)).len() as int,
        ),
{
    let first_id: u64 = *next_id;
    let ghost all = chapter_views(chapters@);
    let mut downloads: Vec<Download> = Vec::new();
    let mut ci: usize = 0;
    proof {
        let none = videos(all.take(0));
        assert(none.len() == 0);
        assert(download_views(downloads@) =~= downloads_of(target@, first_id, none));
    }
    while ci < chapters.len()
        invariant
            ci <= chapters.len(),
            all == chapter_views(chapters@),
            download_views(downloads@) == downloads_of(
                target@,
                first_id,
                videos(all.take(ci as int)),
            ),
            *next_id == id_after(first_id, videos(all.take(ci as int)).len() as int),
        decreases chapters.len() - ci,
    {
        assert(all.take(ci + 1).drop_last() =~= all.take(ci as int));
        assert(all.take(ci + 1).last() == chapters@[ci as int]@);
        plan_chapter(
            target,
            first_id,
            next_id,
            &mut downloads,
            &chapters[ci],
            Ghost(videos(all.take(ci as int))),
        );
        ci += 1;
    }
    assert(all.take(ci as int) =~= all);
    downloads
}

/// Downloads that are planned together have numbers of their own.
pub proof fn law_planned_downloads_have_their_own_numbers(
    target: TargetView,
    first_id: u64,
    list: Seq<(ChapterView, LectureView)>,
    i: int,
    j: int,
)
    requires
        list.len() <= 0x1_0000_0000_0000_0000,
        0 <= i < j < list.len(),
    ensures
        downloads_of(target, first_id, list)[i].id != downloads_of(target, first_id, list)[j].id,
{
}

/// A number that was given to one of `count` downloads is not given again to those that
/// are planned after them, until all numbers have been used.
pub proof fn law_numbers_are_not_given_again(first_id: u64, count: int, k: int, j: int)
    requires
        0 <= k < count,
        0 <= j,
        count + j < 0x1_0000_0000_0000_0000,
    ensures
        id_after(first_id, k) != id_after(id_after(first_id, count), j),
{
    assert(id_after(id_after(first_id, count), j) == id_after(first_id, count + j));
}

/// Exactly the video lectures are planned.
pub proof fn law_exactly_the_videos_are_planned(
    chapters: Seq<ChapterView>,
    chapter: ChapterView,
    lecture: LectureView,
)
    ensures
        videos(chapters).contains((chapter, lecture)) <==> chapters.contains(chapter)
            && chapter.lectures.contains(lecture) && is_video(lecture),
    decreases chapters.len(),
{
    let pair = (chapter, lecture);
    if chapters.len() > 0 {
        let before = chapters.drop_last();
        let last = chapters.last();
        let a = videos(before);
        let b = videos_in(last, last.lectures);
        law_exactly_the_videos_are_planned(before, chapter, lecture);
        lemma_videos_in(last, last.lectures, chapter, lecture);
        assert((a + b).contains(pair) <==> a.contains(pair) || b.contains(pair)) by {
            if a.contains(pair) {
                let k = choose|k: int| 0 <= k < a.len() && a[k] == pair;
                assert((a + b)[k] == pair);
            }
            if b.contains(pair) {
                let k = choose|k: int| 0 <= k < b.len() && b[k] == pair;
                assert((a + b)[a.len() + k] == pair);
            }
            if (a + b).contains(pair) {
                let k = choose|k: int| 0 <= k < (a + b).len() && (a + b)[k] == pair;
                if k < a.len() {
                    assert(a[k] == pair);
                } else {
                    assert(b[k - a.len()] == pair);
                }
            }
        }
        assert(chapters.contains(chapter) <==> before.contains(chapter) || chapter == last) by {
            if before.contains(chapter) {
                let k = choose|k: int| 0 <= k < before.len() && before[k] == chapter;
                assert(chapters[k] == chapter);
            }
            if chapter == last {
                assert(chapters[chapters.len() - 1] == chapter);
            }
            if chapters.contains(chapter) && chapter != last {
                let k = choose|k: int| 0 <= k < chapters.len() && chapters[k] == chapter;
                assert(before[k] == chapter);
            }
        }
    }
}

proof fn lemma_videos_in(
    home: ChapterView,
    lectures: Seq<LectureView>,
    chapter: ChapterView,
    lecture: LectureView,
)
    ensures
        videos_in(home, lectures).contains((chapter, lecture)) <==> chapter == home
            && lectures.contains(lecture) && is_video(lecture),
    decreases lectures.len(),
{
    let pair = (chapter, lecture);
    if lectures.len() > 0 {
        let before = lectures.drop_last();
        let a = videos_in(home, before);
        let all = videos_in(home, lectures);
        let last = lectures.last();
        lemma_videos_in(home, before, chapter, lecture);
        assert(all.contains(pair) <==> a.contains(pair) || (is_video(last) && pair == (home, last)))
            by {
            if a.contains(pair) {
                let k = choose|k: int| 0 <= k < a.len() && a[k] == pair;
                assert(all[k] == pair);
            }
            if is_video(last) && pair == (home, last) {
                assert(all[a.len() as int] == pair);
            }
            if all.contains(pair) {
                let k = choose|k: int| 0 <= k < all.len() && all[k] == pair;
                if k < a.len() {
                    assert(a[k] == pair);
                }
            }
        }
        assert(lectures.contains(lecture) <==> before.contains(lecture) || lecture == last) by {
            if before.contains(lecture) {
                let k = choose|k: int| 0 <= k < before.len() && before[k] == lecture;
                assert(lectures[k] == lecture);
            }
            if lecture == last {
                assert(lectures[lectures.len() - 1] == lecture);
            }
            if lectures.contains(lecture) && lecture != last {
                let k = choose|k: int| 0 <= k < lectures.len() && lectures[k] == lecture;
                assert(before[k] == lecture);
            }
        }
    }
}

/// The lectures whose asset is a video can be downloaded, and no others.
pub proof fn law_videos_can_be_downloaded(lecture: LectureView)
    ensures
        is_video(lecture) <==> lecture.asset_type == "Video"@,
{
}

/// What is planned for two lists of chapters is what is planned for each, in order.
pub proof fn law_chapters_are_planned_in_order(a: Seq<ChapterView>, b: Seq<ChapterView>)
    ensures
        videos(a + b) == videos(a) + videos(b),
    decreases b.len(),
{
    if b.len() == 0 {
        assert(a + b =~= a);
        assert(videos(a) + videos(b) =~= videos(a));
    } else {
        assert((a + b).drop_last() =~= a + b.drop_last());
        law_chapters_are_planned_in_order(a, b.drop_last());
        assert(videos(a + b) =~= videos(a) + videos(b));
    }
}

/// What is planned of one chapter are its videos: those of its first lectures, and then
/// those of the others; a single lecture is planned exactly if it is a video.
pub proof fn law_lectures_are_planned_in_order(
    chapter: ChapterView,
    a: Seq<LectureView>,
    b: Seq<LectureView>,
    lecture: LectureView,
)
    ensures
        videos(seq![chapter]) == videos_in(chapter, chapter.lectures),
        videos_in(chapter, a + b) == videos_in(chapter, a) + videos_in(chapter, b),
        lecture.asset_type == "Video"@ ==> videos_in(chapter, seq![lecture]) == seq![
            (chapter, lecture),
        ],
        lecture.asset_type != "Video"@ ==> videos_in(chapter, seq![lecture]).len() == 0,
    decreases b.len(),
{
    assert(seq![chapter].drop_last() =~= seq![]);
    assert(videos(seq![chapter].drop_last()) =~= seq![]);
    assert(videos(seq![chapter]) =~= videos_in(chapter, chapter.lectures));
    assert(seq![lecture].drop_last() =~= seq![]);
    assert(videos_in(chapter, seq![lecture].drop_last()) =~= seq![]);
    if b.len() == 0 {
        assert(a + b =~= a);
        assert(videos_in(chapter, a) + videos_in(chapter, b) =~= videos_in(chapter, a));
    } else {
        assert((a + b).drop_last() =~= a + b.drop_last());
        law_lectures_are_planned_in_order(chapter, a, b.drop_last(), lecture);
        assert(videos_in(chapter, a + b) =~= videos_in(chapter, a) + videos_in(chapter, b));
    }
}

/// A download is of the lecture that it is planned for, under its own number, with the
/// titles of the lecture, its chapter and its course, and with the cookie of the account;
/// it goes to the path that these titles and numbers give.
pub proof fn law_downloads_are_of_their_lectures(
    target: TargetView,
    first_id: u64,
    list: Seq<(ChapterView, LectureView)>,
    k: int,
)
    requires
        0 <= k < list.len(),
    ensures
        downloads_of(target, first_id, list).len() == list.len(),
        ({
            let d = downloads_of(target, first_id, list)[k];
            let chapter = list[k].0;
            let lecture = list[k].1;
            &&& d.course_id == target.course.id
            &&& d.lecture_id == lecture.id
            &&& d.course_title == target.course.title
            &&& d.chapter_title == chapter.title
            &&& d.lecture_title == lecture.title
            &&& d.cookie == target.cookie
            &&& d.output_path == output_path(
                target.style,
                target.output_dir,
                target.course.title,
                chapter.object_index,
                chapter.title,
                lecture.object_index,
                lecture.title,
            )
            &&& first_id + k <= u64::MAX ==> d.id == first_id + k
            &&& k == 0 ==> d.id == first_id
        }),
{
}

/// The numbers go up by one, and after the largest one they begin again with 0.
pub proof fn law_numbers_go_up_by_one(first_id: u64, k: int)
    requires
        0 <= k,
    ensures
        id_after(first_id, 0) == first_id,
        id_after(first_id, k) < u64::MAX ==> id_after(first_id, k + 1) == id_after(first_id, k) + 1,
        id_after(first_id, k) == u64::MAX ==> id_after(first_id, k + 1) == 0,
{
}

/// A download is put in the list under its number, with its titles and its path.
pub proof fn law_downloads_are_put_in_the_list(d: DownloadView)
    ensures
        queueing(d) matches EventView::QueueDownload {
            id,
            course_title,
            chapter_title,
            lecture_title,
            output_path,
        } && id == d.id && course_title == d.course_title && chapter_title == d.chapter_title
            && lecture_title == d.lecture_title && output_path == d.output_path,
{
}

} // verus!
