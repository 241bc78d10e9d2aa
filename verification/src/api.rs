//! The Udemy API: what is asked of it, and how its answers are read.

use crate::json::Json;
use crate::text::{
    begins_with, contains_text, decimal, has_text, law_written_number_is_read_back,
    lemma_decimal_value, opt_text, parse_u32, parsed_u32, push_decimal, stands_at, texts,
};
use crate::types::{
    chapter_views, course_views, file_views, lecture_views, Chapter, ChapterView, Course,
    CourseView, Lecture, LectureStream, LectureView,
};
use vstd::prelude::*;
use vstd::string::*;

verus! {

// -------------------------------------------------------------- lecture streams

/// The lower 32 bits of `n`.
pub open spec fn low32(n: u64) -> u32 {
    (n % 0x1_0000_0000) as u32
}

fn lower_half(n: u64) -> (low: u32)
    ensures
        low == low32(n),
{
    (n % 0x1_0000_0000) as u32
}

/// The sources found so far: the first HLS playlist, and the MP4 files in order.
#[verifier::ext_equal]
pub struct FoundView {
    pub hls: Option<Seq<char>>,
    pub mp4s: Seq<(u32, Seq<char>)>,
}

/// No sources.
pub open spec fn nothing_found() -> FoundView {
    FoundView { hls: None, mp4s: seq![] }
}

/// Under which name a list of sources holds the addresses.
pub open spec fn address_key(fallback: bool) -> Seq<char> {
    if fallback {
        "file"@
    } else {
        "src"@
    }
}

/// The height of a source. The main list gives it as a text or a number named `res`,
/// the fallback list as a text named `label`. 0 where it is not given.
pub open spec fn source_height(item: Json, fallback: bool) -> u32 {
    let written = match item.text_at(
        if fallback {
            "label"@
        } else {
            "res"@
        },
    ) {
        Some(s) => parsed_u32(s),
        None => None,
    };
    match written {
        Some(h) => h,
        None => match item.number_at("res"@) {
            Some(n) => if fallback {
                0
            } else {
                low32(n)
            },
            None => 0,
        },
    }
}

/// Adds one source. Those without an address or of another type do not count, and
/// only the first HLS playlist does.
pub open spec fn add_source(found: FoundView, item: Json, fallback: bool) -> FoundView {
    let kind = item.text_or("type"@, ""@);
    let file = item.text_or(address_key(fallback), ""@);
    if file.len() == 0 {
        found
    } else if has_text(kind, "mpegURL"@) {
        if found.hls is None {
            FoundView { hls: Some(file), ..found }
        } else {
            found
        }
    } else if has_text(kind, "mp4"@) || has_text(kind, "video"@) {
        FoundView { mp4s: found.mp4s.push((source_height(item, fallback), file)), ..found }
    } else {
        found
    }
}

/// Adds a list of sources.
pub open spec fn add_sources(found: FoundView, items: Seq<Json>, fallback: bool) -> FoundView
    decreases items.len(),
{
    if items.len() == 0 {
        found
    } else {
        add_sources(add_source(found, items[0], fallback), items.skip(1), fallback)
    }
}

/// The elements of `stream_urls.Video`.
pub open spec fn fallback_items(asset: Json) -> Option<Seq<Json>> {
    match asset.at("stream_urls"@) {
        Some(urls) => urls.elements_at("Video"@),
        None => None,
    }
}

/// The sources of a lecture's asset: those under `media_sources` and, where no HLS
/// playlist is among them, those under `stream_urls.Video`.
pub open spec fn asset_sources(asset: Json) -> FoundView {
    let main = match asset.elements_at("media_sources"@) {
        Some(items) => add_sources(nothing_found(), items, false),
        None => nothing_found(),
    };
    match fallback_items(asset) {
        Some(items) => if main.hls is None {
            add_sources(main, items, true)
        } else {
            main
        },
        None => main,
    }
}

struct Found {
    hls: Option<String>,
    mp4s: Vec<(u32, String)>,
}

impl View for Found {
    type V = FoundView;

    closed spec fn view(&self) -> FoundView {
        FoundView { hls: opt_text(self.hls), mp4s: file_views(self.mp4s@) }
    }
}

fn height_of(item: &Json, fallback: bool) -> (h: u32)
    ensures
        h == source_height(*item, fallback),
{
    let written = item.get_text(
        if fallback {
            "label"
        } else {
            "res"
        },
    );
    let parsed: Option<u32> = match written {
        Some(s) => parse_u32(s.as_str()),
        None => None,
    };
    match parsed {
        Some(h) => h,
        None => match item.get_number("res") {
            Some(n) => if fallback {
                0
            } else {
                lower_half(n)
            },
            None => 0,
        },
    }
}

fn take_source(found: Found, item: &Json, fallback: bool) -> (after: Found)
    ensures
        after@ == add_source(found@, *item, fallback),
{
    let mut found = found;
    let ghost before = found@;
    let kind = item.get_text_or("type", "");
    let file = item.get_text_or(
        if fallback {
            "file"
        } else {
            "src"
        },
        "",
    );
    if file.as_str().is_empty() {
        return found;
    }
    if contains_text(kind.as_str(), "mpegURL") {
        if found.hls.is_none() {
            found.hls = Some(file);
        }
    } else if contains_text(kind.as_str(), "mp4") || contains_text(kind.as_str(), "video") {
        let h: u32 = height_of(item, fallback);
        let ghost files = found.mp4s@;
        let ghost text = file@;
        found.mp4s.push((h, file));
        assert(file_views(found.mp4s@) =~= file_views(files).push((h, text)));
    }
    found
}

fn take_sources(found: Found, items: &Vec<Json>, fallback: bool) -> (after: Found)
    ensures
        after@ == add_sources(found@, items@, fallback),
{
    let ghost start = found@;
    let mut found = found;
    let mut i: usize = 0;
    assert(items@.skip(0) =~= items@);
    while i < items.len()
        invariant
            i <= items.len(),
            add_sources(start, items@, fallback) == add_sources(
                found@,
                items@.skip(i as int),
                fallback,
            ),
        decreases items.len() - i,
    {
        assert(items@.skip(i as int).skip(1) =~= items@.skip(i + 1));
        found = take_source(found, &items[i], fallback);
        i += 1;
    }
    found
}

fn find_sources(asset: &Json) -> (found: Found)
    ensures
        found@ == asset_sources(*asset),
{
    let mut found = Found { hls: None, mp4s: Vec::new() };
    assert(found@ =~= nothing_found());
    if let Some(items) = asset.get_elements("media_sources") {
        found = take_sources(found, items, false);
    }
    if found.hls.is_none() {
        if let Some(urls) = asset.get("stream_urls") {
            if let Some(items) = urls.get_elements("Video") {
                found = take_sources(found, items, true);
            }
        }
    }
    found
}

/// The files of height `h`.
pub open spec fn of_height(files: Seq<(u32, Seq<char>)>, h: u32) -> Seq<(u32, Seq<char>)> {
    files.filter(|f: (u32, Seq<char>)| f.0 == h)
}

/// Whether `sorted` is `files` with the highest first, those of one height in the
/// same order as before.
pub open spec fn is_highest_first(
    files: Seq<(u32, Seq<char>)>,
    sorted: Seq<(u32, Seq<char>)>,
) -> bool {
    &&& forall|i: int, j: int| 0 <= i < j < sorted.len() ==> sorted[i].0 >= sorted[j].0
    &&& forall|h: u32| #[trigger] of_height(sorted, h) == of_height(files, h)
}

proof fn lemma_none_of_height(files: Seq<(u32, Seq<char>)>, h: u32)
    requires
        forall|i: int| 0 <= i < files.len() ==> (#[trigger] files[i]).0 != h,
    ensures
        of_height(files, h) =~= seq![],
    decreases files.len(),
{
    reveal(Seq::filter);
    if files.len() > 0 {
        lemma_none_of_height(files.drop_last(), h);
    }
}

proof fn lemma_insert_file(
    files: Seq<(u32, Seq<char>)>,
    sorted: Seq<(u32, Seq<char>)>,
    item: (u32, Seq<char>),
    p: int,
)
    requires
        is_highest_first(files, sorted),
        0 <= p <= sorted.len(),
        forall|i: int| 0 <= i < p ==> (#[trigger] sorted[i]).0 >= item.0,
        p < sorted.len() ==> sorted[p].0 < item.0,
    ensures
        is_highest_first(files.push(item), sorted.insert(p, item)),
{
    let after = sorted.insert(p, item);
    let head = sorted.take(p);
    let tail = sorted.skip(p);
    assert(after =~= head + seq![item] + tail);
    assert(sorted =~= head + tail);
    assert(files.push(item) =~= files + seq![item]);
    assert forall|h: u32| #[trigger] of_height(after, h) == of_height(files.push(item), h) by {
        let pred = |f: (u32, Seq<char>)| f.0 == h;
        Seq::filter_distributes_over_add(head + seq![item], tail, pred);
        Seq::filter_distributes_over_add(head, seq![item], pred);
        Seq::filter_distributes_over_add(head, tail, pred);
        Seq::filter_distributes_over_add(files, seq![item], pred);
        assert(of_height(sorted, h) == of_height(files, h));
        if h == item.0 {
            lemma_none_of_height(tail, h);
            assert(of_height(after, h) =~= of_height(files.push(item), h));
        } else {
            lemma_none_of_height(seq![item], h);
            assert(of_height(after, h) =~= of_height(files.push(item), h));
        }
    }
    assert forall|i: int, j: int| 0 <= i < j < after.len() implies after[i].0 >= after[j].0 by {
        let a = if i < p {
            sorted[i].0
        } else {
            item.0
        };
        if j > p {
            assert(after[j] == sorted[j - 1]);
        }
        if i > p {
            assert(after[i] == sorted[i - 1]);
        }
    }
}

/// The first of the files of the height of the first file, and what is left of each height
/// without it.
proof fn lemma_first_of_height(files: Seq<(u32, Seq<char>)>, h: u32)
    requires
        files.len() > 0,
    ensures
        of_height(files, h) == if h == files[0].0 {
            seq![files[0]] + of_height(files.skip(1), h)
        } else {
            of_height(files.skip(1), h)
        },
{
    let first = seq![files[0]];
    let rest = files.skip(1);
    let pred = |f: (u32, Seq<char>)| f.0 == h;
    assert(files =~= first + rest);
    Seq::filter_distributes_over_add(first, rest, pred);
    if h == files[0].0 {
        reveal(Seq::filter);
        assert(first.drop_last() =~= seq![]);
        assert(of_height(seq![], h) =~= seq![]);
        assert(of_height(first, h) =~= first);
    } else {
        lemma_none_of_height(first, h);
        assert(seq![] + of_height(rest, h) =~= of_height(rest, h));
    }
}

proof fn lemma_same_files(a: Seq<(u32, Seq<char>)>, b: Seq<(u32, Seq<char>)>)
    requires
        is_highest_first(a, b),
        is_highest_first(b, a),
    ensures
        a == b,
    decreases a.len(),
{
    if a.len() == 0 || b.len() == 0 {
        if a.len() > 0 {
            lemma_first_of_height(a, a[0].0);
            lemma_none_of_height(b, a[0].0);
            assert(of_height(b, a[0].0) == of_height(a, a[0].0));
        }
        if b.len() > 0 {
            lemma_first_of_height(b, b[0].0);
            lemma_none_of_height(a, b[0].0);
            assert(of_height(b, b[0].0) == of_height(a, b[0].0));
        }
        assert(a =~= b);
    } else {
        let ha = a[0].0;
        let hb = b[0].0;
        lemma_first_of_height(a, ha);
        lemma_first_of_height(b, hb);
        assert(of_height(b, ha) == of_height(a, ha));
        assert(of_height(b, hb) == of_height(a, hb));
        if ha > hb {
            assert forall|i: int| 0 <= i < b.len() implies (#[trigger] b[i]).0 != ha by {
                assert(i > 0 ==> b[0].0 >= b[i].0);
            }
            lemma_none_of_height(b, ha);
            assert(false);
        }
        if hb > ha {
            assert forall|i: int| 0 <= i < a.len() implies (#[trigger] a[i]).0 != hb by {
                assert(i > 0 ==> a[0].0 >= a[i].0);
            }
            lemma_none_of_height(a, hb);
            assert(false);
        }
        assert(of_height(a, ha)[0] == a[0]);
        assert(of_height(b, ha)[0] == b[0]);
        let ra = a.skip(1);
        let rb = b.skip(1);
        assert forall|h: u32| #[trigger] of_height(ra, h) == of_height(rb, h) by {
            lemma_first_of_height(a, h);
            lemma_first_of_height(b, h);
            assert(of_height(b, h) == of_height(a, h));
            if h == ha {
                assert(of_height(ra, h) =~= of_height(a, h).skip(1));
                assert(of_height(rb, h) =~= of_height(b, h).skip(1));
            }
        }
        assert forall|i: int, j: int| 0 <= i < j < ra.len() implies ra[i].0 >= ra[j].0 by {
            assert(a[i + 1].0 >= a[j + 1].0);
        }
        assert forall|i: int, j: int| 0 <= i < j < rb.len() implies rb[i].0 >= rb[j].0 by {
            assert(b[i + 1].0 >= b[j + 1].0);
        }
        lemma_same_files(ra, rb);
        assert(a =~= seq![a[0]] + ra);
        assert(b =~= seq![b[0]] + rb);
    }
}

/// Files can be put highest first in one way only.
pub proof fn law_highest_first_is_unique(
    files: Seq<(u32, Seq<char>)>,
    a: Seq<(u32, Seq<char>)>,
    b: Seq<(u32, Seq<char>)>,
)
    requires
        is_highest_first(files, a),
        is_highest_first(files, b),
    ensures
        a == b,
{
    assert forall|h: u32| #[trigger] of_height(a, h) == of_height(b, h) by {
        assert(of_height(a, h) == of_height(files, h));
        assert(of_height(b, h) == of_height(files, h));
    }
    lemma_same_files(a, b);
}

/// Puts the highest files first.
pub fn sort_highest_first(files: &Vec<(u32, String)>) -> (sorted: Vec<(u32, String)>)
    ensures
        is_highest_first(file_views(files@), file_views(sorted@)),
        sorted.len() == files.len(),
{
    let mut sorted: Vec<(u32, String)> = Vec::new();
    let mut i: usize = 0;
    assert(file_views(sorted@) =~= file_views(files@.take(0)));
    while i < files.len()
        invariant
            i <= files.len(),
            sorted.len() == i,
            is_highest_first(file_views(files@.take(i as int)), file_views(sorted@)),
        decreases files.len() - i,
    {
        let h: u32 = files[i].0;
        let mut p: usize = 0;
        while p < sorted.len() && sorted[p].0 >= h
            invariant
                p <= sorted.len(),
                forall|k: int| 0 <= k < p ==> (#[trigger] file_views(sorted@)[k]).0 >= h,
            decreases sorted.len() - p,
        {
            p += 1;
        }
        let ghost before = sorted@;
        let file = (h, files[i].1.clone());
        proof {
            let item = (h, file.1@);
            lemma_insert_file(
                file_views(files@.take(i as int)),
                file_views(before),
                item,
                p as int,
            );
            assert(file_views(files@.take(i + 1)) =~= file_views(files@.take(i as int)).push(
                item,
            ));
            assert(file_views(before.insert(p as int, file)) =~= file_views(before).insert(
                p as int,
                item,
            ));
        }
        sorted.insert(p, file);
        i += 1;
    }
    assert(files@.take(i as int) =~= files@);
    sorted
}

/// The page of a lecture, which is sent as the referer of downloads.
pub open spec fn download_referer(lecture_id: u64) -> Seq<char> {
    "https://www.udemy.com/course/learn/lecture/"@ + decimal(lecture_id as nat)
}

/// The error for an asset without sources.
pub open spec fn no_stream_error(asset: Json, lecture_id: u64) -> Seq<char> {
    "no downloadable stream found for lecture "@ + decimal(lecture_id as nat)
        + " (asset_type: "@ + asset.text_or("asset_type"@, "unknown"@) + ")"@
}

/// Whether `outcome` is what the answer `json` about a lecture gives.
pub open spec fn reads_streams(
    outcome: Result<LectureStream, String>,
    json: Json,
    lecture_id: u64,
) -> bool {
    match json.at("asset"@) {
        None => outcome matches Err(e) && e@ == "lecture response has no 'asset'"@,
        Some(asset) => {
            let found = asset_sources(asset);
            if found.hls is None && found.mp4s.len() == 0 {
                outcome matches Err(e) && e@ == no_stream_error(asset, lecture_id)
            } else {
                &&& outcome matches Ok(stream)
                &&& stream@.hls_urls == match found.hls {
                    Some(url) => seq![url],
                    None => seq![],
                }
                &&& is_highest_first(found.mp4s, stream@.mp4_urls)
                &&& stream@.referer == download_referer(lecture_id)
            }
        },
    }
}

/// Reads the sources of a video lecture out of the answer about it.
pub fn read_lecture_streams(json: &Json, lecture_id: u64) -> (outcome: Result<
    LectureStream,
    String,
>)
    ensures
        reads_streams(outcome, *json, lecture_id),
{
    let asset = match json.get("asset") {
        Some(asset) => asset,
        None => return Err("lecture response has no 'asset'".to_owned()),
    };
    let found = find_sources(asset);
    if found.hls.is_none() && found.mp4s.len() == 0 {
        let mut e = "no downloadable stream found for lecture ".to_owned();
        push_decimal(&mut e, lecture_id);
        e.append(" (asset_type: ");
        e.append(asset.get_text_or("asset_type", "unknown").as_str());
        e.append(")");
        return Err(e);
    }
    let mp4_urls = sort_highest_first(&found.mp4s);
    let mut hls_urls: Vec<String> = Vec::new();
    if let Some(url) = found.hls {
        hls_urls.push(url);
        assert(texts(hls_urls@) =~= seq![url@]);
    }
    assert(found.hls is None ==> texts(hls_urls@) =~= seq![]);
    let mut referer = "https://www.udemy.com/course/learn/lecture/".to_owned();
    push_decimal(&mut referer, lecture_id);
    Ok(LectureStream { hls_urls, mp4_urls, referer })
}

// --------------------------------------------------------------------- courses

/// A course out of an entry of the course list.
pub open spec fn course_in(item: Json) -> CourseView {
    CourseView {
        id: item.number_or_zero("id"@),
        title: item.text_or("title"@, "Unknown"@),
        num_published_lectures: match item.number_at("num_published_lectures"@) {
            Some(n) => Some(low32(n)),
            None => None,
        },
        instructor: item.text_or("instructor"@, "Unknown"@),
    }
}

/// The courses on a page of the course list.
pub open spec fn page_courses(json: Json) -> Seq<CourseView> {
    match json.elements_at("results"@) {
        Some(items) => items.map_values(|item: Json| course_in(item)),
        None => seq![],
    }
}

/// The address of the page after this one, if there is one.
pub open spec fn next_page(json: Json) -> Option<Seq<char>> {
    match json.text_at("next"@) {
        Some(url) => if url.len() > 0 {
            Some(url)
        } else {
            None
        },
        None => None,
    }
}

fn read_course(item: &Json) -> (course: Course)
    ensures
        course@ == course_in(*item),
{
    Course {
        id: item.get_number_or_zero("id"),
        title: item.get_text_or("title", "Unknown"),
        num_published_lectures: match item.get_number("num_published_lectures") {
            Some(n) => Some(lower_half(n)),
            None => None,
        },
        instructor: item.get_text_or("instructor", "Unknown"),
    }
}

/// Adds the courses on a page of the course list to `courses`, and gives the address
/// of the next page.
fn read_courses_page(courses: &mut Vec<Course>, json: &Json) -> (next: Option<String>)
    ensures
        course_views(final(courses)@) == course_views(old(courses)@) + page_courses(*json),
        opt_text(next) == next_page(*json),
{
    if let Some(items) = json.get_elements("results") {
        let ghost start = course_views(courses@);
        let ghost all = page_courses(*json);
        let mut i: usize = 0;
        assert(start + all.take(0) =~= start);
        while i < items.len()
            invariant
                i <= items.len(),
                all.len() == items.len(),
                forall|k: int| 0 <= k < items.len() ==> all[k] == course_in(#[trigger] items@[k]),
                course_views(courses@) == start + all.take(i as int),
            decreases items.len() - i,
        {
            let ghost before = courses@;
            let course = read_course(&items[i]);
            let ghost shown = course@;
            courses.push(course);
            i += 1;
            proof {
                assert(course_views(courses@) =~= course_views(before).push(shown));
                assert(start + all.take(i as int) =~= (start + all.take(i - 1)).push(shown));
            }
        }
        assert(all.take(i as int) =~= all);
    } else {
        assert(course_views(courses@) =~= course_views(courses@) + page_courses(*json));
    }
    match json.get_text("next") {
        Some(url) => if url.as_str().is_empty() {
            None
        } else {
            Some(url)
        },
        None => None,
    }
}

/// The address of the first page of the course list.
pub open spec fn first_page() -> Seq<char> {
    base_url() + "/users/me/subscribed-courses/?ordering=-last_accessed"@
        + "&page_size=100&fields[course]=id,title,num_published_lectures"@
}

/// Gives the address of the first page of the course list.
pub fn courses_url() -> (url: String)
    ensures
        url@ == first_page(),
{
    let mut url = "https://www.udemy.com/api-2.0".to_owned();
    url.append("/users/me/subscribed-courses/?ordering=-last_accessed");
    url.append("&page_size=100&fields[course]=id,title,num_published_lectures");
    url
}

/// The course list while its pages are fetched one after the other.
#[derive(Debug)]
pub struct CourseFetch {
    /// The courses on the pages so far.
    pub courses: Vec<Course>,
    /// The address of the next page, until there is none.
    pub next: Option<String>,
}

/// What a [`CourseFetch`] holds.
#[verifier::ext_equal]
pub struct FetchView {
    pub courses: Seq<CourseView>,
    pub next: Option<Seq<char>>,
}

impl View for CourseFetch {
    type V = FetchView;

    open spec fn view(&self) -> FetchView {
        FetchView { courses: course_views(self.courses@), next: opt_text(self.next) }
    }
}

impl FetchView {
    /// Before the first page.
    pub open spec fn start() -> FetchView {
        FetchView { courses: seq![], next: Some(first_page()) }
    }

    /// After one more page.
    pub open spec fn with_page(self, json: Json) -> FetchView {
        FetchView { courses: self.courses + page_courses(json), next: next_page(json) }
    }
}

impl CourseFetch {
    /// Starts with the first page.
    pub fn new() -> (fetch: Self)
        ensures
            fetch@ == FetchView::start(),
    {
        let fetch = CourseFetch { courses: Vec::new(), next: Some(courses_url()) };
        assert(fetch@ =~= FetchView::start());
        fetch
    }

    /// Takes in the page that was asked for.
    pub fn take_page(&mut self, json: &Json)
        ensures
            final(self)@ == old(self)@.with_page(*json),
    {
        self.next = read_courses_page(&mut self.courses, json);
    }
}

/// The courses on all of `pages`.
pub open spec fn courses_on(pages: Seq<Json>) -> Seq<CourseView>
    decreases pages.len(),
{
    if pages.len() == 0 {
        seq![]
    } else {
        courses_on(pages.drop_last()) + page_courses(pages.last())
    }
}

/// The course list after `pages` were taken in.
pub open spec fn fetched(pages: Seq<Json>) -> FetchView
    decreases pages.len(),
{
    if pages.len() == 0 {
        FetchView::start()
    } else {
        fetched(pages.drop_last()).with_page(pages.last())
    }
}

/// Fetching page after page collects the courses of every page, in the order of the
/// pages, and goes on exactly while the last page names a next one.
pub proof fn law_every_page_is_collected(pages: Seq<Json>)
    ensures
        fetched(pages).courses == courses_on(pages),
        pages.len() > 0 ==> fetched(pages).next == next_page(pages.last()),
    decreases pages.len(),
{
    if pages.len() > 0 {
        law_every_page_is_collected(pages.drop_last());
    }
}

/// The error for an answer to the request for courses, where it is none. `code` is
/// the HTTP status code and `status` the status in words.
pub open spec fn courses_error(code: u16, status: Seq<char>) -> Option<Seq<char>> {
    if code == 401 || code == 403 {
        Some(
            "HTTP "@ + status + " \u{2014} Udemy rejected the cookie.\n"@
                + "The cookies.txt file may be outdated (cookies expire after some hours).\n"@
                + "Please copy a fresh Cookie string from DevTools and update the file."@,
        )
    } else if code != 200 {
        Some("courses API returned HTTP "@ + decimal(code as nat))
    } else {
        None
    }
}

/// Checks the status of an answer to the request for courses.
pub fn check_courses_status(code: u16, status: &str) -> (outcome: Result<(), String>)
    ensures
        match courses_error(code, status@) {
            Some(e) => outcome matches Err(m) && m@ == e,
            None => outcome is Ok,
        },
{
    if code == 401 || code == 403 {
        let mut e = "HTTP ".to_owned();
        e.append(status);
        e.append(" \u{2014} Udemy rejected the cookie.\n");
        e.append("The cookies.txt file may be outdated (cookies expire after some hours).\n");
        e.append("Please copy a fresh Cookie string from DevTools and update the file.");
        return Err(e);
    }
    if code != 200 {
        let mut e = "courses API returned HTTP ".to_owned();
        push_decimal(&mut e, code as u64);
        return Err(e);
    }
    Ok(())
}

// ------------------------------------------------------------------ curriculum

/// A chapter out of an entry of the curriculum.
pub open spec fn chapter_in(item: Json) -> ChapterView {
    ChapterView {
        id: item.number_or_zero("id"@),
        title: item.text_or("title"@, "Chapter"@),
        object_index: low32(item.number_or_zero("object_index"@)),
        expanded: false,
        lectures: seq![],
    }
}

/// A lecture out of an entry of the curriculum.
pub open spec fn lecture_in(item: Json) -> LectureView {
    LectureView {
        id: item.number_or_zero("id"@),
        title: item.text_or("title"@, "Lecture"@),
        object_index: low32(item.number_or_zero("object_index"@)),
        asset_type: match item.at("asset"@) {
            Some(asset) => asset.text_or("asset_type"@, "Unknown"@),
            None => "Unknown"@,
        },
        duration_secs: match item.at("asset"@) {
            Some(asset) => match asset.number_at("time_estimation"@) {
                Some(n) => Some(low32(n)),
                None => None,
            },
            None => None,
        },
    }
}

/// Adds an entry of the curriculum: a chapter opens, a lecture goes to the chapter
/// that was opened last. A lecture before the first chapter and any other entry are
/// dropped.
pub open spec fn add_entry(chapters: Seq<ChapterView>, item: Json) -> Seq<ChapterView> {
    let class = item.text_or("_class"@, ""@);
    if class == "chapter"@ {
        chapters.push(chapter_in(item))
    } else if class == "lecture"@ && chapters.len() > 0 {
        let last = chapters.last();
        chapters.update(
            chapters.len() - 1,
            ChapterView { lectures: last.lectures.push(lecture_in(item)), ..last },
        )
    } else {
        chapters
    }
}

/// The chapters that the entries of a curriculum make.
pub open spec fn chapters_of(items: Seq<Json>) -> Seq<ChapterView>
    decreases items.len(),
{
    if items.len() == 0 {
        seq![]
    } else {
        add_entry(chapters_of(items.drop_last()), items.last())
    }
}

fn read_chapter(item: &Json) -> (chapter: Chapter)
    ensures
        chapter@ == chapter_in(*item),
{
    let chapter = Chapter {
        id: item.get_number_or_zero("id"),
        title: item.get_text_or("title", "Chapter"),
        object_index: lower_half(item.get_number_or_zero("object_index")),
        expanded: false,
        lectures: Vec::new(),
    };
    assert(chapter@ =~= chapter_in(*item));
    chapter
}

fn read_lecture(item: &Json) -> (lecture: Lecture)
    ensures
        lecture@ == lecture_in(*item),
{
    let asset = item.get("asset");
    let asset_type = match asset {
        Some(asset) => asset.get_text_or("asset_type", "Unknown"),
        None => "Unknown".to_owned(),
    };
    let duration_secs: Option<u32> = match asset {
        Some(asset) => match asset.get_number("time_estimation") {
            Some(n) => Some(lower_half(n)),
            None => None,
        },
        None => None,
    };
    Lecture {
        id: item.get_number_or_zero("id"),
        title: item.get_text_or("title", "Lecture"),
        object_index: lower_half(item.get_number_or_zero("object_index")),
        asset_type,
        duration_secs,
    }
}

fn take_entry(chapters: &mut Vec<Chapter>, item: &Json)
    ensures
        chapter_views(final(chapters)@) == add_entry(chapter_views(old(chapters)@), *item),
{
    let ghost before = chapters@;
    let class = item.get_text_or("_class", "");
    if class == "chapter".to_owned() {
        let chapter = read_chapter(item);
        let ghost shown = chapter@;
        chapters.push(chapter);
        assert(chapter_views(chapters@) =~= chapter_views(before).push(shown));
    } else if class == "lecture".to_owned() {
        let lecture = read_lecture(item);
        if let Some(chapter) = chapters.pop() {
            let mut chapter = chapter;
            let ghost last = chapter@;
            let ghost shown = lecture@;
            let ghost lectures = chapter.lectures@;
            chapter.lectures.push(lecture);
            assert(lecture_views(chapter.lectures@) =~= lecture_views(lectures).push(shown));
            let ghost grown = chapter@;
            chapters.push(chapter);
            proof {
                assert(last == chapter_views(before).last());
                assert(chapter_views(chapters@) =~= chapter_views(before).update(
                    before.len() - 1,
                    grown,
                ));
            }
        } else {
            assert(chapters@ =~= before);
        }
    }
}

/// Whether `outcome` is what the answer `json` about the curriculum of a course gives.
pub open spec fn reads_curriculum(outcome: Result<Vec<Chapter>, String>, json: Json) -> bool {
    match json.elements_at("results"@) {
        Some(items) => outcome matches Ok(chapters) && chapter_views(chapters@) == chapters_of(
            items,
        ),
        None => outcome matches Err(e) && e@ == "curriculum response has no 'results'"@,
    }
}

/// Reads the curriculum of a course.
pub fn read_curriculum(json: &Json) -> (outcome: Result<Vec<Chapter>, String>)
    ensures
        match json.elements_at("results"@) {
            Some(items) => outcome matches Ok(chapters) && chapter_views(chapters@) == chapters_of(
                items,
            ),
            None => outcome matches Err(e) && e@ == "curriculum response has no 'results'"@,
        },
        reads_curriculum(outcome, *json),
{
    let items = match json.get_elements("results") {
        Some(items) => items,
        None => return Err("curriculum response has no 'results'".to_owned()),
    };
    let mut chapters: Vec<Chapter> = Vec::new();
    let mut i: usize = 0;
    assert(chapter_views(chapters@) =~= chapters_of(items@.take(0)));
    while i < items.len()
        invariant
            i <= items.len(),
            chapter_views(chapters@) == chapters_of(items@.take(i as int)),
        decreases items.len() - i,
    {
        assert(items@.take(i + 1).drop_last() =~= items@.take(i as int));
        take_entry(&mut chapters, &items[i]);
        i += 1;
    }
    assert(items@.take(i as int) =~= items@);
    Ok(chapters)
}

/// Where the curriculum of a course is.
pub open spec fn curriculum_address(course_id: u64) -> Seq<char> {
    base_url() + "/courses/"@ + decimal(course_id as nat)
        + "/cached-subscriber-curriculum-items/"@ + "?fields[asset]=asset_type,time_estimation"@
        + "&fields[chapter]=title,object_index,sort_order"@
        + "&fields[lecture]=title,object_index,asset&page_size=1000"@
}

/// Where the sources of a lecture are.
pub open spec fn lecture_address(course_id: u64, lecture_id: u64) -> Seq<char> {
    base_url() + "/users/me/subscribed-courses/"@ + decimal(course_id as nat) + "/lectures/"@
        + decimal(lecture_id as nat) + "/?fields[asset]=asset_type,stream_urls,external_url,"@
        + "slide_urls,download_urls,captions,media_sources,media_license_token"@
}

/// The page of a lecture of a course.
pub open spec fn page_address(course_id: u64, lecture_id: u64) -> Seq<char> {
    "https://www.udemy.com/course/"@ + decimal(course_id as nat) + "/learn/lecture/"@ + decimal(
        lecture_id as nat,
    )
}

/// The address of the curriculum of a course.
pub fn curriculum_url(course_id: u64) -> (url: String)
    ensures
        url@ == base_url() + "/courses/"@ + decimal(course_id as nat)
            + "/cached-subscriber-curriculum-items/"@
            + "?fields[asset]=asset_type,time_estimation"@
            + "&fields[chapter]=title,object_index,sort_order"@
            + "&fields[lecture]=title,object_index,asset&page_size=1000"@,
        url@ == curriculum_address(course_id),
{
    let mut url = "https://www.udemy.com/api-2.0".to_owned();
    url.append("/courses/");
    push_decimal(&mut url, course_id);
    url.append("/cached-subscriber-curriculum-items/");
    url.append("?fields[asset]=asset_type,time_estimation");
    url.append("&fields[chapter]=title,object_index,sort_order");
    url.append("&fields[lecture]=title,object_index,asset&page_size=1000");
    url
}

/// The address of the API.
pub open spec fn base_url() -> Seq<char> {
    "https://www.udemy.com/api-2.0"@
}

/// The address of the sources of a lecture.
pub fn lecture_url(course_id: u64, lecture_id: u64) -> (url: String)
    ensures
        url@ == base_url() + "/users/me/subscribed-courses/"@ + decimal(course_id as nat)
            + "/lectures/"@ + decimal(lecture_id as nat)
            + "/?fields[asset]=asset_type,stream_urls,external_url,"@
            + "slide_urls,download_urls,captions,media_sources,media_license_token"@,
        url@ == lecture_address(course_id, lecture_id),
{
    let mut url = "https://www.udemy.com/api-2.0".to_owned();
    url.append("/users/me/subscribed-courses/");
    push_decimal(&mut url, course_id);
    url.append("/lectures/");
    push_decimal(&mut url, lecture_id);
    url.append("/?fields[asset]=asset_type,stream_urls,external_url,");
    url.append("slide_urls,download_urls,captions,media_sources,media_license_token");
    url
}

/// The referer to send when asking for the sources of a lecture: its page.
pub fn lecture_page(course_id: u64, lecture_id: u64) -> (url: String)
    ensures
        url@ == "https://www.udemy.com/course/"@ + decimal(course_id as nat) + "/learn/lecture/"@
            + decimal(lecture_id as nat),
        url@ == page_address(course_id, lecture_id),
{
    let mut url = "https://www.udemy.com/course/".to_owned();
    push_decimal(&mut url, course_id);
    url.append("/learn/lecture/");
    push_decimal(&mut url, lecture_id);
    url
}

/// Whether an HTTP status code means success.
pub open spec fn success_code(code: u16) -> bool {
    200 <= code < 300
}

/// Tells whether an HTTP status code means success.
pub fn is_success(code: u16) -> (success: bool)
    ensures
        success == success_code(code),
{
    200 <= code && code < 300
}

/// The parts of the API besides the course list.
#[derive(Clone, Copy, Debug, PartialEq, Eq, Structural)]
pub enum Endpoint {
    Curriculum,
    Lecture,
}

/// The error for a status that does not mean success.
pub open spec fn endpoint_error(endpoint: Endpoint, status: Seq<char>) -> Seq<char> {
    (match endpoint {
        Endpoint::Curriculum => "curriculum API returned HTTP "@,
        Endpoint::Lecture => "lecture API returned HTTP "@,
    }) + status
}

/// Checks the status of an answer: its code, and the status in words.
pub fn check_status(endpoint: Endpoint, code: u16, status: &str) -> (outcome: Result<(), String>)
    ensures
        outcome is Ok <==> success_code(code),
        outcome matches Err(e) ==> e@ == endpoint_error(endpoint, status@),
{
    if is_success(code) {
        return Ok(());
    }
    let mut e = match endpoint {
        Endpoint::Curriculum => "curriculum API returned HTTP ".to_owned(),
        Endpoint::Lecture => "lecture API returned HTTP ".to_owned(),
    };
    e.append(status);
    Err(e)
}

// ------------------------------------------------------------------------ laws

/// Whether an entry of a list of sources is an HLS playlist with an address, which stands
/// under the name `key`.
pub open spec fn is_playlist_entry(item: Json, key: Seq<char>) -> bool {
    &&& item.text_at("type"@) matches Some(kind)
    &&& has_text(kind, "mpegURL"@)
    &&& item.text_at(key) matches Some(file)
    &&& file.len() > 0
}

/// Whether an entry of a list of sources is an MP4 file with an address, which stands under
/// the name `key`.
pub open spec fn is_file_entry(item: Json, key: Seq<char>) -> bool {
    &&& item.text_at("type"@) matches Some(kind)
    &&& !has_text(kind, "mpegURL"@)
    &&& has_text(kind, "mp4"@) || has_text(kind, "video"@)
    &&& item.text_at(key) matches Some(file)
    &&& file.len() > 0
}

/// Whether `file` is the file that the entry `item` names.
pub open spec fn is_file_of(file: (u32, Seq<char>), item: Json, fallback: bool, key: Seq<char>) -> bool {
    is_file_entry(item, key) && file.1 == item.text_at(key)->0 && file.0 == source_height(
        item,
        fallback,
    )
}

proof fn lemma_nothing_in_no_text()
    ensures
        !has_text(""@, "mpegURL"@),
        !has_text(""@, "mp4"@),
        !has_text(""@, "video"@),
        ""@.len() == 0,
{
    reveal_strlit("");
    reveal_strlit("mpegURL");
    reveal_strlit("mp4");
    reveal_strlit("video");
    assert forall|i: int| !stands_at(""@, "mpegURL"@, i) && !stands_at(""@, "mp4"@, i)
        && !stands_at(""@, "video"@, i) by {}
}

/// What one entry adds.
proof fn lemma_add_source(found: FoundView, item: Json, fallback: bool, key: Seq<char>)
    requires
        key == if fallback {
            "file"@
        } else {
            "src"@
        },
    ensures
        is_playlist_entry(item, key) ==> add_source(found, item, fallback) == (FoundView {
            hls: if found.hls is None {
                item.text_at(key)
            } else {
                found.hls
            },
            ..found
        }),
        is_file_entry(item, key) ==> add_source(found, item, fallback) == (FoundView {
            mp4s: found.mp4s.push((source_height(item, fallback), item.text_at(key)->0)),
            ..found
        }),
        !is_playlist_entry(item, key) && !is_file_entry(item, key) ==> add_source(
            found,
            item,
            fallback,
        ) == found,
{
    lemma_nothing_in_no_text();
}

/// A list of sources adds its first playlist, where none was found before.
proof fn lemma_add_sources_playlist(
    found: FoundView,
    items: Seq<Json>,
    fallback: bool,
    key: Seq<char>,
)
    requires
        key == if fallback {
            "file"@
        } else {
            "src"@
        },
    ensures
        found.hls is Some ==> add_sources(found, items, fallback).hls == found.hls,
        found.hls is None && (forall|k: int|
            0 <= k < items.len() ==> !is_playlist_entry(#[trigger] items[k], key)) ==> add_sources(
            found,
            items,
            fallback,
        ).hls is None,
        found.hls is None ==> forall|k: int| #[trigger]
            is_first_playlist(items, key, k) ==> add_sources(found, items, fallback).hls
                == items[k].text_at(key),
    decreases items.len(),
{
    if items.len() > 0 {
        let rest = items.skip(1);
        lemma_add_source(found, items[0], fallback, key);
        lemma_add_sources_playlist(add_source(found, items[0], fallback), rest, fallback, key);
        if forall|k: int| 0 <= k < items.len() ==> !is_playlist_entry(#[trigger] items[k], key) {
            assert(!is_playlist_entry(items[0], key));
            assert forall|k: int| 0 <= k < rest.len() implies !is_playlist_entry(
                #[trigger] rest[k],
                key,
            ) by {
                assert(rest[k] == items[k + 1]);
            }
        }
        if found.hls is None {
            assert forall|k: int| #[trigger] is_first_playlist(items, key, k) implies add_sources(
                found,
                items,
                fallback,
            ).hls == items[k].text_at(key) by {
                if k > 0 {
                    assert(!is_playlist_entry(items[0], key));
                    assert forall|j: int| 0 <= j < k - 1 implies !is_playlist_entry(
                        #[trigger] rest[j],
                        key,
                    ) by {
                        assert(rest[j] == items[j + 1]);
                    }
                    assert(rest[k - 1] == items[k]);
                    assert(is_first_playlist(rest, key, k - 1));
                }
            }
        }
    }
}

/// A list of sources keeps the files found before and adds every one of its own; each
/// comes from an entry.
proof fn lemma_add_sources_files(found: FoundView, items: Seq<Json>, fallback: bool, key: Seq<char>)
    requires
        key == if fallback {
            "file"@
        } else {
            "src"@
        },
    ensures
        add_sources(found, items, fallback).mp4s.len() >= found.mp4s.len(),
        forall|j: int|
            0 <= j < found.mp4s.len() ==> found.mp4s[j] == #[trigger] add_sources(
                found,
                items,
                fallback,
            ).mp4s[j],
        forall|k: int|
            0 <= k < items.len() && is_file_entry(#[trigger] items[k], key) ==> exists|j: int|
                0 <= j < add_sources(found, items, fallback).mp4s.len() && is_file_of(
                    #[trigger] add_sources(found, items, fallback).mp4s[j],
                    items[k],
                    fallback,
                    key,
                ),
        forall|j: int|
            found.mp4s.len() <= j < add_sources(found, items, fallback).mp4s.len() ==> exists|k: int|
                0 <= k < items.len() && is_file_of(
                    #[trigger] add_sources(found, items, fallback).mp4s[j],
                    #[trigger] items[k],
                    fallback,
                    key,
                ),
    decreases items.len(),
{
    if items.len() > 0 {
        let rest = items.skip(1);
        let next = add_source(found, items[0], fallback);
        let after = add_sources(found, items, fallback);
        lemma_add_source(found, items[0], fallback, key);
        lemma_add_sources_files(next, rest, fallback, key);
        assert(after == add_sources(next, rest, fallback));
        assert forall|j: int| 0 <= j < found.mp4s.len() implies found.mp4s[j]
            == #[trigger] after.mp4s[j] by {
            assert(next.mp4s[j] == after.mp4s[j]);
        }
        let n = found.mp4s.len() as int;
        if is_file_entry(items[0], key) {
            assert(next.mp4s[n] == after.mp4s[n]);
            assert(is_file_of(after.mp4s[n], items[0], fallback, key));
        }
        assert forall|k: int|
            0 <= k < items.len() && is_file_entry(#[trigger] items[k], key) implies exists|j: int|
            0 <= j < after.mp4s.len() && is_file_of(
                #[trigger] after.mp4s[j],
                items[k],
                fallback,
                key,
            ) by {
            if k > 0 {
                assert(rest[k - 1] == items[k]);
                let j = choose|j: int|
                    0 <= j < after.mp4s.len() && is_file_of(
                        #[trigger] after.mp4s[j],
                        rest[k - 1],
                        fallback,
                        key,
                    );
                assert(is_file_of(after.mp4s[j], items[k], fallback, key));
            }
        }
        assert forall|j: int| n <= j < after.mp4s.len() implies exists|k: int|
            0 <= k < items.len() && is_file_of(
                #[trigger] after.mp4s[j],
                #[trigger] items[k],
                fallback,
                key,
            ) by {
            if j >= next.mp4s.len() {
                let k = choose|k: int|
                    0 <= k < rest.len() && is_file_of(
                        after.mp4s[j],
                        #[trigger] rest[k],
                        fallback,
                        key,
                    );
                assert(rest[k] == items[k + 1]);
                assert(is_file_of(after.mp4s[j], items[k + 1], fallback, key));
            } else {
                assert(is_file_of(after.mp4s[j], items[0], fallback, key));
            }
        }
    }
}

/// Whether entry `k` is the first playlist with an address in a list.
pub open spec fn is_first_playlist(items: Seq<Json>, key: Seq<char>, k: int) -> bool {
    &&& 0 <= k < items.len()
    &&& is_playlist_entry(items[k], key)
    &&& forall|j: int| 0 <= j < k ==> !is_playlist_entry(#[trigger] items[j], key)
}

/// The entries of the list `media_sources`; none where it is absent.
pub open spec fn main_entries(asset: Json) -> Seq<Json> {
    match asset.elements_at("media_sources"@) {
        Some(items) => items,
        None => seq![],
    }
}

/// The first playlist in `media_sources` is the one that is taken.
pub proof fn law_the_main_playlist_is_found(asset: Json, k: int)
    requires
        is_first_playlist(main_entries(asset), "src"@, k),
    ensures
        asset_sources(asset).hls == main_entries(asset)[k].text_at("src"@),
        asset_sources(asset).hls is Some,
{
    let items = main_entries(asset);
    lemma_add_sources_playlist(nothing_found(), items, false, "src"@);
    assert(is_playlist_entry(items[k], "src"@));
}

/// Every file in `media_sources` is found.
pub proof fn law_main_files_are_found(asset: Json, k: int)
    requires
        0 <= k < main_entries(asset).len(),
        is_file_entry(main_entries(asset)[k], "src"@),
    ensures
        exists|j: int|
            0 <= j < asset_sources(asset).mp4s.len() && is_file_of(
                #[trigger] asset_sources(asset).mp4s[j],
                main_entries(asset)[k],
                false,
                "src"@,
            ),
{
    let items = main_entries(asset);
    let main = add_sources(nothing_found(), items, false);
    lemma_add_sources_files(nothing_found(), items, false, "src"@);
    let j = choose|j: int|
        0 <= j < main.mp4s.len() && is_file_of(#[trigger] main.mp4s[j], items[k], false, "src"@);
    if let Some(more) = fallback_items(asset) {
        lemma_add_sources_files(main, more, true, "file"@);
        let all = add_sources(main, more, true);
        assert(main.mp4s[j] == all.mp4s[j]);
    }
    assert(asset_sources(asset).mp4s[j] == main.mp4s[j]);
}

/// Whether no entry of `media_sources` is a playlist, or there is no such list.
pub open spec fn has_no_main_playlist(asset: Json) -> bool {
    forall|j: int|
        0 <= j < main_entries(asset).len() ==> !is_playlist_entry(
            #[trigger] main_entries(asset)[j],
            "src"@,
        )
}

/// Where `media_sources` has no playlist, or is absent, the first playlist in the list under
/// `stream_urls` is taken.
pub proof fn law_the_fallback_playlist_is_found(asset: Json, items: Seq<Json>, k: int)
    requires
        fallback_items(asset) == Some(items),
        has_no_main_playlist(asset),
        is_first_playlist(items, "file"@, k),
    ensures
        asset_sources(asset).hls == items[k].text_at("file"@),
        asset_sources(asset).hls is Some,
{
    let main = add_sources(nothing_found(), main_entries(asset), false);
    lemma_add_sources_playlist(nothing_found(), main_entries(asset), false, "src"@);
    lemma_add_sources_playlist(main, items, true, "file"@);
    assert(is_playlist_entry(items[k], "file"@));
}

/// Where `media_sources` has no playlist, or is absent, every file in the list under
/// `stream_urls` is found.
pub proof fn law_fallback_files_are_found(asset: Json, items: Seq<Json>, k: int)
    requires
        fallback_items(asset) == Some(items),
        has_no_main_playlist(asset),
        0 <= k < items.len(),
        is_file_entry(items[k], "file"@),
    ensures
        exists|j: int|
            0 <= j < asset_sources(asset).mp4s.len() && is_file_of(
                #[trigger] asset_sources(asset).mp4s[j],
                items[k],
                true,
                "file"@,
            ),
{
    let main = add_sources(nothing_found(), main_entries(asset), false);
    lemma_add_sources_playlist(nothing_found(), main_entries(asset), false, "src"@);
    lemma_add_sources_files(main, items, true, "file"@);
    let all = add_sources(main, items, true);
    let j = choose|j: int|
        0 <= j < all.mp4s.len() && is_file_of(#[trigger] all.mp4s[j], items[k], true, "file"@);
    assert(asset_sources(asset).mp4s[j] == all.mp4s[j]);
}

/// Where `media_sources` has a playlist, the list under `stream_urls` does not count.
pub proof fn law_a_main_playlist_is_enough(asset: Json, other: Json, k: int)
    requires
        is_first_playlist(main_entries(asset), "src"@, k),
        other.at("media_sources"@) == asset.at("media_sources"@),
    ensures
        asset_sources(other) == asset_sources(asset),
{
    assert(main_entries(other) == main_entries(asset));
    law_the_main_playlist_is_found(asset, k);
    law_the_main_playlist_is_found(other, k);
    lemma_add_sources_playlist(nothing_found(), main_entries(asset), false, "src"@);
}

/// There is a playlist only where one of the lists has one.
pub proof fn law_only_listed_playlists_are_found(asset: Json)
    requires
        asset_sources(asset).hls is Some,
    ensures
        ({
            ||| exists|k: int| #[trigger] is_first_playlist(main_entries(asset), "src"@, k)
            ||| fallback_items(asset) matches Some(items) && exists|k: int| #[trigger]
                is_first_playlist(items, "file"@, k)
        }),
{
    let items = main_entries(asset);
    let main = add_sources(nothing_found(), items, false);
    lemma_add_sources_playlist(nothing_found(), items, false, "src"@);
    lemma_first_playlist(items, "src"@);
    if main.hls is None {
        if let Some(more) = fallback_items(asset) {
            lemma_add_sources_playlist(main, more, true, "file"@);
            lemma_first_playlist(more, "file"@);
        }
    }
}

/// Every file that is found comes from an entry of one of the two lists.
pub proof fn law_only_listed_files_are_found(asset: Json, j: int)
    requires
        0 <= j < asset_sources(asset).mp4s.len(),
    ensures
        ({
            ||| exists|k: int|
                0 <= k < main_entries(asset).len() && is_file_of(
                    asset_sources(asset).mp4s[j],
                    #[trigger] main_entries(asset)[k],
                    false,
                    "src"@,
                )
            ||| fallback_items(asset) matches Some(items) && exists|k: int|
                0 <= k < items.len() && is_file_of(
                    asset_sources(asset).mp4s[j],
                    #[trigger] items[k],
                    true,
                    "file"@,
                )
        }),
{
    let items = main_entries(asset);
    let main = add_sources(nothing_found(), items, false);
    let found = asset_sources(asset);
    let file = found.mp4s[j];
    lemma_add_sources_files(nothing_found(), items, false, "src"@);
    if j < main.mp4s.len() {
        if let Some(more) = fallback_items(asset) {
            lemma_add_sources_files(main, more, true, "file"@);
            assert(main.mp4s[j] == add_sources(main, more, true).mp4s[j]);
        }
        assert(file == main.mp4s[j]);
        let k = choose|k: int|
            0 <= k < items.len() && is_file_of(main.mp4s[j], #[trigger] items[k], false, "src"@);
        assert(is_file_of(file, main_entries(asset)[k], false, "src"@));
    } else {
        let more = fallback_items(asset)->0;
        lemma_add_sources_files(main, more, true, "file"@);
        assert(file == add_sources(main, more, true).mp4s[j]);
        let k = choose|k: int|
            0 <= k < more.len() && is_file_of(file, #[trigger] more[k], true, "file"@);
        assert(is_file_of(file, more[k], true, "file"@));
    }
}

proof fn lemma_first_playlist(items: Seq<Json>, key: Seq<char>)
    ensures
        (forall|k: int| 0 <= k < items.len() ==> !is_playlist_entry(#[trigger] items[k], key)) || (
        exists|k: int| #[trigger] is_first_playlist(items, key, k)),
    decreases items.len(),
{
    if items.len() > 0 {
        let before = items.drop_last();
        lemma_first_playlist(before, key);
        if exists|k: int| #[trigger] is_first_playlist(before, key, k) {
            let k = choose|k: int| #[trigger] is_first_playlist(before, key, k);
            assert(is_first_playlist(items, key, k)) by {
                assert forall|j: int| 0 <= j < k implies !is_playlist_entry(
                    #[trigger] items[j],
                    key,
                ) by {
                    assert(before[j] == items[j]);
                }
            }
        } else {
            assert forall|k: int| 0 <= k < before.len() implies !is_playlist_entry(
                #[trigger] items[k],
                key,
            ) by {
                assert(before[k] == items[k]);
            }
            if is_playlist_entry(items.last(), key) {
                assert(is_first_playlist(items, key, items.len() - 1));
            }
        }
    }
}

/// The height of a file is the number that stands under `res`, as a text or as a number, in
/// `media_sources`, and the number that is written under `label` in the other list. It is 0
/// where there is none.
pub proof fn law_heights_are_read(item: Json, n: u32)
    ensures
        item.text_at("res"@) == Some(decimal(n as nat)) ==> source_height(item, false) == n,
        item.at("res"@) == Some(Json::Unsigned(n as u64)) ==> source_height(item, false) == n,
        item.at("res"@) is None ==> source_height(item, false) == 0,
        item.text_at("label"@) == Some(decimal(n as nat)) ==> source_height(item, true) == n,
        item.at("label"@) is None ==> source_height(item, true) == 0,
{
    law_written_number_is_read_back(n);
}

/// What is read out of an answer about a lecture: there are sources exactly where a
/// playlist or a file was found; the playlist that was found, every file, the highest
/// first, and the page of the lecture are what is read.
pub proof fn law_answers_give_all_sources(
    outcome: Result<LectureStream, String>,
    json: Json,
    lecture_id: u64,
    asset: Json,
)
    requires
        reads_streams(outcome, json, lecture_id),
        json.at("asset"@) == Some(asset),
    ensures
        outcome is Ok <==> asset_sources(asset).hls is Some || asset_sources(asset).mp4s.len() > 0,
        outcome matches Ok(stream) ==> {
            &&& asset_sources(asset).hls matches Some(url) ==> stream@.hls_urls == seq![url]
            &&& asset_sources(asset).hls is None ==> stream@.hls_urls.len() == 0
            &&& forall|f: (u32, Seq<char>)| #[trigger]
                stream@.mp4_urls.contains(f) <==> asset_sources(asset).mp4s.contains(f)
            &&& forall|i: int, j: int|
                0 <= i < j < stream@.mp4_urls.len() ==> stream@.mp4_urls[i].0
                    >= stream@.mp4_urls[j].0
            &&& stream@.referer == "https://www.udemy.com/course/learn/lecture/"@ + decimal(
                lecture_id as nat,
            )
        },
{
    if let Ok(stream) = outcome {
        let files = asset_sources(asset).mp4s;
        let sorted = stream@.mp4_urls;
        assert forall|f: (u32, Seq<char>)| #[trigger] sorted.contains(f) <==> files.contains(
            f,
        ) by {
            lemma_of_height(files, f);
            lemma_of_height(sorted, f);
            assert(of_height(sorted, f.0) == of_height(files, f.0));
        }
    }
}

/// Files of one height are read in the order in which they were found.
pub proof fn law_files_of_one_height_keep_their_order(
    outcome: Result<LectureStream, String>,
    json: Json,
    lecture_id: u64,
    asset: Json,
    h: u32,
)
    requires
        reads_streams(outcome, json, lecture_id),
        json.at("asset"@) == Some(asset),
        outcome is Ok,
    ensures
        ({
            let has_height = |f: (u32, Seq<char>)| f.0 == h;
            outcome->Ok_0@.mp4_urls.filter(has_height) == asset_sources(asset).mp4s.filter(
                has_height,
            )
        }),
{
    let files = asset_sources(asset).mp4s;
    let sorted = outcome->Ok_0@.mp4_urls;
    assert(of_height(sorted, h) == of_height(files, h));
    let has_height = |f: (u32, Seq<char>)| f.0 == h;
    lemma_same_filter(files, h, has_height);
    lemma_same_filter(sorted, h, has_height);
}

proof fn lemma_same_filter(
    files: Seq<(u32, Seq<char>)>,
    h: u32,
    pred: spec_fn((u32, Seq<char>)) -> bool,
)
    requires
        forall|f: (u32, Seq<char>)| #[trigger] pred(f) == (f.0 == h),
    ensures
        files.filter(pred) == of_height(files, h),
    decreases files.len(),
{
    reveal(Seq::filter);
    if files.len() > 0 {
        lemma_same_filter(files.drop_last(), h, pred);
        assert(of_height(files.drop_last(), h) == files.drop_last().filter(pred));
    }
}

proof fn lemma_of_height(files: Seq<(u32, Seq<char>)>, f: (u32, Seq<char>))
    ensures
        of_height(files, f.0).contains(f) <==> files.contains(f),
{
    let pred = |g: (u32, Seq<char>)| g.0 == f.0;
    if files.contains(f) {
        let i = choose|i: int| 0 <= i < files.len() && files[i] == f;
        files.lemma_filter_contains(pred, i);
    }
    if of_height(files, f.0).contains(f) {
        files.lemma_filter_contains_rev(pred, f);
    }
}

/// An answer whose list `media_sources` has no playlist, or that has no such list, is read
/// with the list `Video` under `stream_urls`: where that has a playlist, its first one is
/// the one that is read, and every file in it is among those that are read.
pub proof fn law_answers_fall_back_to_stream_urls(
    outcome: Result<LectureStream, String>,
    json: Json,
    lecture_id: u64,
    asset: Json,
    urls: Json,
    items: Seq<Json>,
    k: int,
)
    requires
        reads_streams(outcome, json, lecture_id),
        json.at("asset"@) == Some(asset),
        asset.at("stream_urls"@) == Some(urls),
        urls.elements_at("Video"@) == Some(items),
        has_no_main_playlist(asset),
    ensures
        is_first_playlist(items, "file"@, k) ==> {
            &&& outcome is Ok
            &&& outcome->Ok_0@.hls_urls == seq![items[k].text_at("file"@)->0]
        },
        0 <= k < items.len() && is_file_entry(items[k], "file"@) ==> {
            &&& outcome is Ok
            &&& outcome->Ok_0@.mp4_urls.contains(
                (source_height(items[k], true), items[k].text_at("file"@)->0),
            )
        },
{
    law_answers_give_all_sources(outcome, json, lecture_id, asset);
    if is_first_playlist(items, "file"@, k) {
        law_the_fallback_playlist_is_found(asset, items, k);
    }
    if 0 <= k < items.len() && is_file_entry(items[k], "file"@) {
        law_fallback_files_are_found(asset, items, k);
        let files = asset_sources(asset).mp4s;
        let j = choose|j: int|
            0 <= j < files.len() && is_file_of(#[trigger] files[j], items[k], true, "file"@);
        assert(files[j] == (source_height(items[k], true), items[k].text_at("file"@)->0));
        assert(files.contains(files[j]));
    }
}

/// An answer without an asset has no sources.
pub proof fn law_answers_without_asset_are_errors(
    outcome: Result<LectureStream, String>,
    json: Json,
    lecture_id: u64,
)
    requires
        reads_streams(outcome, json, lecture_id),
        json.at("asset"@) is None,
    ensures
        outcome is Err,
        outcome->Err_0@ == "lecture response has no 'asset'"@,
{
}

/// An answer whose lists have no playlist and no file is an error that names the lecture and
/// the kind of its asset.
pub proof fn law_answers_without_sources_are_errors(
    outcome: Result<LectureStream, String>,
    json: Json,
    lecture_id: u64,
    asset: Json,
    kind: Seq<char>,
)
    requires
        reads_streams(outcome, json, lecture_id),
        json.at("asset"@) == Some(asset),
        asset_sources(asset).hls is None,
        asset_sources(asset).mp4s.len() == 0,
        asset.text_at("asset_type"@) == Some(kind),
    ensures
        outcome is Err,
        outcome->Err_0@ == "no downloadable stream found for lecture "@ + decimal(
            lecture_id as nat,
        ) + " (asset_type: "@ + kind + ")"@,
{
}

/// A page of the course list gives one course for every entry, in order, with the number,
/// the title and the instructor that stand there.
pub proof fn law_pages_give_every_course(json: Json, items: Seq<Json>, k: int)
    requires
        json.elements_at("results"@) == Some(items),
        0 <= k < items.len(),
    ensures
        page_courses(json).len() == items.len(),
        page_courses(json)[k].id == match items[k].number_at("id"@) {
            Some(id) => id,
            None => 0,
        },
        items[k].text_at("title"@) matches Some(title) ==> page_courses(json)[k].title == title,
        items[k].text_at("title"@) is None ==> page_courses(json)[k].title == "Unknown"@,
        items[k].text_at("instructor"@) is None ==> page_courses(json)[k].instructor == "Unknown"@,
        items[k].text_at("instructor"@) matches Some(name) ==> page_courses(json)[k].instructor
            == name,
        items[k].number_at("num_published_lectures"@) matches Some(n) ==> (n < 0x1_0000_0000
            ==> page_courses(json)[k].num_published_lectures == Some(n as u32)),
        items[k].number_at("num_published_lectures"@) is None ==> page_courses(
            json,
        )[k].num_published_lectures is None,
{
}

/// The pages are followed until one names no next page.
pub proof fn law_pages_are_followed(json: Json, url: Seq<char>)
    ensures
        json.text_at("next"@) == Some(url) && url.len() > 0 ==> next_page(json) == Some(url),
        json.text_at("next"@) is None ==> next_page(json) is None,
        json.text_at("next"@) == Some(Seq::<char>::empty()) ==> next_page(json) is None,
{
}

/// Taking in a page keeps the courses that are there, in front of those on the page.
pub proof fn law_pages_keep_earlier_courses(fetch: FetchView, json: Json, k: int)
    ensures
        fetch.with_page(json).courses.len() == fetch.courses.len() + page_courses(json).len(),
        0 <= k < fetch.courses.len() ==> fetch.with_page(json).courses[k] == fetch.courses[k],
        0 <= k < page_courses(json).len() ==> fetch.with_page(json).courses[fetch.courses.len() + k]
            == page_courses(json)[k],
        fetch.with_page(json).next == next_page(json),
        FetchView::start().courses.len() == 0,
{
}

/// Courses are taken exactly where the status is 200; where the server refuses the cookie,
/// the error says so.
pub proof fn law_course_answers_are_checked(code: u16, status: Seq<char>)
    ensures
        courses_error(code, status) is None <==> code == 200,
        code == 401 || code == 403 ==> has_text(
            courses_error(code, status)->0,
            " \u{2014} Udemy rejected the cookie.\n"@,
        ) && has_text(courses_error(code, status)->0, status),
        code != 200 && code != 401 && code != 403 ==> has_text(
            courses_error(code, status)->0,
            decimal(code as nat),
        ),
{
    if code == 401 || code == 403 {
        let e = courses_error(code, status)->0;
        let part = " \u{2014} Udemy rejected the cookie.\n"@;
        let i = "HTTP "@.len() as int;
        assert(e.subrange(i, i + status.len()) =~= status);
        assert(stands_at(e, status, i));
        assert(e.subrange(i + status.len(), i + status.len() + part.len()) =~= part);
        assert(stands_at(e, part, i + status.len()));
    } else if code != 200 {
        let e = courses_error(code, status)->0;
        let i = "courses API returned HTTP "@.len() as int;
        assert(e.subrange(i, i + decimal(code as nat).len()) =~= decimal(code as nat));
        assert(stands_at(e, decimal(code as nat), i));
    }
}

/// The codes that mean success are those from 200 to 299.
pub proof fn law_success_is_two_hundred(code: u16)
    ensures
        success_code(code) <==> code as int / 100 == 2,
{
}

/// Whether an entry of the curriculum is of the class `class`.
pub open spec fn has_class(item: Json, class: Seq<char>) -> bool {
    item.text_at("_class"@) == Some(class)
}

/// The lectures among the entries of a curriculum, in order.
pub open spec fn lectures_among(items: Seq<Json>) -> Seq<LectureView>
    decreases items.len(),
{
    if items.len() == 0 {
        seq![]
    } else if has_class(items[0], "lecture"@) {
        seq![lecture_in(items[0])] + lectures_among(items.skip(1))
    } else {
        lectures_among(items.skip(1))
    }
}

proof fn lemma_lectures_among_push(items: Seq<Json>, item: Json)
    ensures
        lectures_among(items.push(item)) == if has_class(item, "lecture"@) {
            lectures_among(items).push(lecture_in(item))
        } else {
            lectures_among(items)
        },
    decreases items.len(),
{
    let more = items.push(item);
    if items.len() == 0 {
        assert(more.skip(1) =~= seq![]);
        assert(lectures_among(more.skip(1)) =~= seq![]);
        assert(lectures_among(more) =~= if has_class(item, "lecture"@) {
            lectures_among(items).push(lecture_in(item))
        } else {
            lectures_among(items)
        });
    } else {
        assert(more.skip(1) =~= items.skip(1).push(item));
        lemma_lectures_among_push(items.skip(1), item);
        assert(lectures_among(more) =~= if has_class(item, "lecture"@) {
            lectures_among(items).push(lecture_in(item))
        } else {
            lectures_among(items)
        });
    }
}

proof fn lemma_classes(item: Json)
    ensures
        has_class(item, "chapter"@) <==> item.text_or("_class"@, ""@) == "chapter"@,
        has_class(item, "lecture"@) <==> item.text_or("_class"@, ""@) == "lecture"@,
        !(has_class(item, "chapter"@) && has_class(item, "lecture"@)),
{
    reveal_strlit("");
    reveal_strlit("chapter");
    reveal_strlit("lecture");
    assert("chapter"@[0] != "lecture"@[0]);
    assert(""@.len() == 0);
}

/// Without an entry for a chapter there are no chapters: lectures before the first one are
/// dropped.
pub proof fn law_lectures_need_a_chapter(items: Seq<Json>)
    requires
        forall|k: int| 0 <= k < items.len() ==> !has_class(#[trigger] items[k], "chapter"@),
    ensures
        chapters_of(items).len() == 0,
    decreases items.len(),
{
    if items.len() > 0 {
        let before = items.drop_last();
        assert forall|k: int| 0 <= k < before.len() implies !has_class(
            #[trigger] before[k],
            "chapter"@,
        ) by {
            assert(before[k] == items[k]);
        }
        law_lectures_need_a_chapter(before);
        assert(!has_class(items[items.len() - 1], "chapter"@));
        lemma_classes(items.last());
    }
}

/// A chapter holds all the lectures between its entry and the next one for a chapter, each
/// once and in order, and the chapters before it stay as they are.
pub proof fn law_chapters_hold_their_lectures(before: Seq<Json>, chapter: Json, rest: Seq<Json>)
    requires
        has_class(chapter, "chapter"@),
        forall|k: int| 0 <= k < rest.len() ==> !has_class(#[trigger] rest[k], "chapter"@),
    ensures
        chapters_of(before + seq![chapter] + rest) == chapters_of(before).push(
            ChapterView { lectures: lectures_among(rest), ..chapter_in(chapter) },
        ),
    decreases rest.len(),
{
    let all = before + seq![chapter] + rest;
    if rest.len() == 0 {
        assert(all.drop_last() =~= before);
        assert(all.last() == chapter);
        lemma_classes(chapter);
        assert(chapters_of(all) =~= chapters_of(before).push(
            ChapterView { lectures: lectures_among(rest), ..chapter_in(chapter) },
        ));
    } else {
        let fewer = rest.drop_last();
        let item = rest.last();
        assert forall|k: int| 0 <= k < fewer.len() implies !has_class(
            #[trigger] fewer[k],
            "chapter"@,
        ) by {
            assert(fewer[k] == rest[k]);
        }
        assert(!has_class(rest[rest.len() - 1], "chapter"@));
        law_chapters_hold_their_lectures(before, chapter, fewer);
        lemma_lectures_among_push(fewer, item);
        lemma_classes(item);
        assert(fewer.push(item) =~= rest);
        assert(all.drop_last() =~= before + seq![chapter] + fewer);
        assert(all.last() == item);
        assert(chapters_of(all) =~= chapters_of(before).push(
            ChapterView { lectures: lectures_among(rest), ..chapter_in(chapter) },
        ));
    }
}

/// The lectures of all chapters, one after the other.
pub open spec fn all_lectures(chapters: Seq<ChapterView>) -> Seq<LectureView>
    decreases chapters.len(),
{
    if chapters.len() == 0 {
        seq![]
    } else {
        all_lectures(chapters.drop_last()) + chapters.last().lectures
    }
}

/// Every lecture after the first entry for a chapter is in the curriculum exactly once,
/// and in order.
pub proof fn law_every_lecture_is_listed_once(before: Seq<Json>, rest: Seq<Json>)
    requires
        forall|k: int| 0 <= k < before.len() ==> !has_class(#[trigger] before[k], "chapter"@),
        rest.len() > 0 ==> has_class(rest[0], "chapter"@),
    ensures
        all_lectures(chapters_of(before + rest)) == lectures_among(rest),
    decreases rest.len(),
{
    let all = before + rest;
    if rest.len() == 0 {
        assert(all =~= before);
        law_lectures_need_a_chapter(before);
    } else {
        let fewer = rest.drop_last();
        let item = rest.last();
        assert(fewer.len() > 0 ==> fewer[0] == rest[0]);
        law_every_lecture_is_listed_once(before, fewer);
        lemma_lectures_among_push(fewer, item);
        lemma_classes(item);
        assert(fewer.push(item) =~= rest);
        assert(all.drop_last() =~= before + fewer);
        assert(all.last() == item);
        let was = chapters_of(before + fewer);
        let now = chapters_of(all);
        if has_class(item, "chapter"@) {
            assert(now.drop_last() =~= was);
            assert(all_lectures(was) + now.last().lectures =~= all_lectures(was));
        } else if has_class(item, "lecture"@) {
            if fewer.len() > 0 {
                lemma_some_chapter(before, fewer);
            }
            assert(was.len() > 0);
            assert(now.drop_last() =~= was.drop_last());
            assert(all_lectures(now) =~= all_lectures(was).push(lecture_in(item)));
        }
    }
}

proof fn lemma_some_chapter(before: Seq<Json>, rest: Seq<Json>)
    requires
        rest.len() > 0,
        has_class(rest[0], "chapter"@),
    ensures
        chapters_of(before + rest).len() > 0,
    decreases rest.len(),
{
    let all = before + rest;
    if rest.len() > 1 {
        assert(rest.drop_last()[0] == rest[0]);
        lemma_some_chapter(before, rest.drop_last());
        assert(all.drop_last() =~= before + rest.drop_last());
    } else {
        assert(all.last() == rest[0]);
        lemma_classes(rest[0]);
    }
}

/// What is read of a chapter is what its entry says; it starts collapsed and empty.
pub proof fn law_chapter_entries_are_read(item: Json, title: Seq<char>)
    ensures
        chapter_in(item).id == match item.number_at("id"@) {
            Some(id) => id,
            None => 0,
        },
        item.text_at("title"@) == Some(title) ==> chapter_in(item).title == title,
        item.text_at("title"@) is None ==> chapter_in(item).title == "Chapter"@,
        item.number_at("object_index"@) matches Some(n) ==> (n < 0x1_0000_0000 ==> chapter_in(
            item,
        ).object_index == n),
        item.number_at("object_index"@) is None ==> chapter_in(item).object_index == 0,
        !chapter_in(item).expanded,
        chapter_in(item).lectures.len() == 0,
{
}

/// What is read of a lecture is what its entry says.
pub proof fn law_lecture_entries_are_read(item: Json, asset: Json, text: Seq<char>)
    ensures
        lecture_in(item).id == match item.number_at("id"@) {
            Some(id) => id,
            None => 0,
        },
        item.text_at("title"@) == Some(text) ==> lecture_in(item).title == text,
        item.text_at("title"@) is None ==> lecture_in(item).title == "Lecture"@,
        item.number_at("object_index"@) matches Some(n) ==> (n < 0x1_0000_0000 ==> lecture_in(
            item,
        ).object_index == n),
        item.number_at("object_index"@) is None ==> lecture_in(item).object_index == 0,
        item.at("asset"@) == Some(asset) ==> {
            &&& asset.text_at("asset_type"@) == Some(text) ==> lecture_in(item).asset_type == text
            &&& asset.number_at("time_estimation"@) matches Some(n) ==> (n < 0x1_0000_0000
                ==> lecture_in(item).duration_secs == Some(n as u32))
            &&& asset.number_at("time_estimation"@) is None ==> lecture_in(
                item,
            ).duration_secs is None
        },
        item.at("asset"@) is None ==> lecture_in(item).duration_secs is None && lecture_in(
            item,
        ).asset_type == "Unknown"@,
{
}

/// A number keeps its value where it fits, and otherwise its lower 32 bits.
pub proof fn law_numbers_are_cut_to_32_bits(n: u64)
    ensures
        n < 0x1_0000_0000 ==> low32(n) == n,
        n < u64::MAX - 0x1_0000_0000 ==> low32((n + 0x1_0000_0000) as u64) == low32(n),
{
}

/// A status that does not mean success gives an error that ends with the status.
pub proof fn law_other_statuses_are_told(endpoint: Endpoint, status: Seq<char>)
    ensures
        endpoint_error(endpoint, status) == (if endpoint == Endpoint::Curriculum {
            "curriculum"@
        } else {
            "lecture"@
        }) + " API returned HTTP "@ + status,
{
    reveal_strlit("curriculum API returned HTTP ");
    reveal_strlit("lecture API returned HTTP ");
    reveal_strlit("curriculum");
    reveal_strlit("lecture");
    reveal_strlit(" API returned HTTP ");
    assert("curriculum API returned HTTP "@ =~= "curriculum"@ + " API returned HTTP "@);
    assert("lecture API returned HTTP "@ =~= "lecture"@ + " API returned HTTP "@);
    assert(endpoint_error(endpoint, status) =~= (if endpoint == Endpoint::Curriculum {
        "curriculum"@
    } else {
        "lecture"@
    }) + " API returned HTTP "@ + status);
}

/// What is asked for has an address of its own: the curricula of two courses have different
/// ones, and all of them lie on the server.
pub proof fn law_courses_have_addresses_of_their_own(a: u64, b: u64)
    ensures
        curriculum_address(a) == curriculum_address(b) ==> a == b,
        begins_with(
            curriculum_address(a),
            "https://www.udemy.com/api-2.0"@ + "/courses/"@ + decimal(a as nat)
                + "/cached-subscriber-curriculum-items/"@,
        ),
{
    let start = "https://www.udemy.com/api-2.0"@ + "/courses/"@;
    let rest = "/cached-subscriber-curriculum-items/"@
        + "?fields[asset]=asset_type,time_estimation"@
        + "&fields[chapter]=title,object_index,sort_order"@
        + "&fields[lecture]=title,object_index,asset&page_size=1000"@;
    let x = curriculum_address(a);
    let y = curriculum_address(b);
    assert(x =~= start + decimal(a as nat) + rest);
    assert(y =~= start + decimal(b as nat) + rest);
    if x == y {
        lemma_same_middle(start, decimal(a as nat), decimal(b as nat), rest);
        lemma_decimal_value(a as nat);
        lemma_decimal_value(b as nat);
    }
    let part = "https://www.udemy.com/api-2.0"@ + "/courses/"@ + decimal(a as nat)
        + "/cached-subscriber-curriculum-items/"@;
    assert(x.subrange(0, part.len() as int) =~= part);
}

proof fn lemma_same_middle(start: Seq<char>, a: Seq<char>, b: Seq<char>, rest: Seq<char>)
    requires
        start + a + rest == start + b + rest,
    ensures
        a == b,
{
    let x = start + a + rest;
    let n = start.len() as int;
    let y = start + b + rest;
    assert(x.len() == y.len());
    assert(x.len() == start.len() + a.len() + rest.len());
    assert(y.len() == start.len() + b.len() + rest.len());
    assert(a =~= x.subrange(n, n + a.len()));
    assert(b =~= x.subrange(n, n + b.len()));
}

/// The sources of a lecture are asked for with the numbers of its course and its own, and so
/// is its page; the courses are asked for a hundred at a time, the last one used first.
pub proof fn law_lectures_are_asked_for_by_their_numbers(course_id: u64, lecture_id: u64)
    ensures
        begins_with(
            lecture_address(course_id, lecture_id),
            "https://www.udemy.com/api-2.0"@ + "/users/me/subscribed-courses/"@ + decimal(
                course_id as nat,
            ) + "/lectures/"@ + decimal(lecture_id as nat) + "/?fields[asset]="@,
        ),
        page_address(course_id, lecture_id) == "https://www.udemy.com/course/"@ + decimal(
            course_id as nat,
        ) + "/learn/lecture/"@ + decimal(lecture_id as nat),
        begins_with(
            first_page(),
            "https://www.udemy.com/api-2.0"@
                + "/users/me/subscribed-courses/?ordering=-last_accessed"@ + "&page_size=100"@,
        ),
        FetchView::start().next == Some(first_page()),
{
    reveal_strlit("/?fields[asset]=asset_type,stream_urls,external_url,");
    reveal_strlit("/?fields[asset]=");
    assert("/?fields[asset]=asset_type,stream_urls,external_url,"@.take(16)
        =~= "/?fields[asset]="@);
    let x = lecture_address(course_id, lecture_id);
    let part = "https://www.udemy.com/api-2.0"@ + "/users/me/subscribed-courses/"@ + decimal(
        course_id as nat,
    ) + "/lectures/"@ + decimal(lecture_id as nat) + "/?fields[asset]="@;
    assert(x.subrange(0, part.len() as int) =~= part);
    reveal_strlit("&page_size=100&fields[course]=id,title,num_published_lectures");
    reveal_strlit("&page_size=100");
    assert("&page_size=100&fields[course]=id,title,num_published_lectures"@.take(14)
        =~= "&page_size=100"@);
    let first = "https://www.udemy.com/api-2.0"@
        + "/users/me/subscribed-courses/?ordering=-last_accessed"@ + "&page_size=100"@;
    assert(first_page().subrange(0, first.len() as int) =~= first);
}

/// A curriculum is read out of the list `results`; an answer without it is an error.
pub proof fn law_curricula_are_read_from_the_results(
    outcome: Result<Vec<Chapter>, String>,
    json: Json,
)
    requires
        reads_curriculum(outcome, json),
    ensures
        outcome is Ok <==> json.elements_at("results"@) is Some,
        outcome matches Ok(chapters) ==> chapter_views(chapters@) == chapters_of(
            json.elements_at("results"@)->0,
        ),
        outcome matches Err(e) ==> e@ == "curriculum response has no 'results'"@,
{
}

} // verus!
