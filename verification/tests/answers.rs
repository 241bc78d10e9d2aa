//! Answers of the server.

use udemyget::api::{
    check_courses_status, check_status, courses_url, curriculum_url, is_success, lecture_page,
    lecture_url, read_curriculum, read_lecture_streams, CourseFetch, Endpoint,
};
use udemyget::json::Json;

fn text(s: &str) -> Json {
    Json::Text(s.to_string())
}

fn object(members: Vec<(&str, Json)>) -> Json {
    Json::Object(members.into_iter().map(|(k, v)| (k.to_string(), v)).collect())
}

fn entry(class: &str, id: u64, title: &str) -> Json {
    object(vec![
        ("_class", text(class)),
        ("id", Json::Unsigned(id)),
        ("title", text(title)),
        ("object_index", Json::Unsigned(id + 1)),
    ])
}

#[test]
fn members_are_read() {
    let v = object(vec![("a", text("x")), ("n", Json::Unsigned(3)), ("o", Json::OtherNumber)]);
    assert_eq!(v.get_text("a").as_deref(), Some("x"));
    assert_eq!(v.get_text("n"), None);
    assert_eq!(v.get_text_or("z", "d"), "d");
    assert_eq!(v.get_number("n"), Some(3));
    assert_eq!(v.get_number("o"), None);
    assert_eq!(v.get_number_or_zero("a"), 0);
    assert!(v.get_elements("a").is_none());
    assert!(Json::Null.get("a").is_none());
}

#[test]
fn pages_of_courses_are_collected() {
    let mut fetch = CourseFetch::new();
    assert_eq!(
        fetch.next.as_deref(),
        Some(
            "https://www.udemy.com/api-2.0/users/me/subscribed-courses/?ordering=-last_accessed\
             &page_size=100&fields[course]=id,title,num_published_lectures"
        )
    );
    assert_eq!(fetch.next, Some(courses_url()));
    fetch.take_page(&object(vec![
        ("next", text("https://next")),
        (
            "results",
            Json::Array(vec![
                object(vec![
                    ("id", Json::Unsigned(5)),
                    ("title", text("Rust")),
                    ("num_published_lectures", Json::Unsigned(0x1_0000_0007)),
                    ("instructor", text("Ann")),
                ]),
                Json::Null,
            ]),
        ),
    ]));
    assert_eq!(fetch.next.as_deref(), Some("https://next"));
    fetch.take_page(&object(vec![
        ("next", text("")),
        ("results", Json::Array(vec![object(vec![("id", Json::Unsigned(6))])])),
    ]));
    assert_eq!(fetch.next, None);
    let seen: Vec<(u64, &str, Option<u32>, &str)> = fetch
        .courses
        .iter()
        .map(|c| (c.id, c.title.as_str(), c.num_published_lectures, c.instructor.as_str()))
        .collect();
    assert_eq!(
        seen,
        vec![
            (5, "Rust", Some(7), "Ann"),
            (0, "Unknown", None, "Unknown"),
            (6, "Unknown", None, "Unknown"),
        ]
    );
}

#[test]
fn pages_may_be_empty() {
    let mut fetch = CourseFetch::new();
    fetch.take_page(&object(vec![("next", Json::Null)]));
    assert!(fetch.courses.is_empty());
    assert_eq!(fetch.next, None);
}

#[test]
fn statuses_of_the_course_list_are_checked() {
    assert_eq!(check_courses_status(200, "200 OK"), Ok(()));
    assert_eq!(
        check_courses_status(403, "403 Forbidden"),
        Err("HTTP 403 Forbidden — Udemy rejected the cookie.\n\
             The cookies.txt file may be outdated (cookies expire after some hours).\n\
             Please copy a fresh Cookie string from DevTools and update the file."
            .to_string())
    );
    assert!(check_courses_status(401, "401 Unauthorized").is_err());
    assert_eq!(
        check_courses_status(201, "201 Created"),
        Err("courses API returned HTTP 201".to_string())
    );
}

#[test]
fn statuses_are_checked() {
    assert!(is_success(200) && is_success(299));
    assert!(!is_success(199) && !is_success(300));
    assert_eq!(check_status(Endpoint::Lecture, 204, "204 No Content"), Ok(()));
    assert_eq!(
        check_status(Endpoint::Lecture, 404, "404 Not Found"),
        Err("lecture API returned HTTP 404 Not Found".to_string())
    );
    assert_eq!(
        check_status(Endpoint::Curriculum, 500, "500 Internal Server Error"),
        Err("curriculum API returned HTTP 500 Internal Server Error".to_string())
    );
}

#[test]
fn addresses_of_the_api_are_built() {
    assert_eq!(
        curriculum_url(12),
        "https://www.udemy.com/api-2.0/courses/12/cached-subscriber-curriculum-items/\
         ?fields[asset]=asset_type,time_estimation\
         &fields[chapter]=title,object_index,sort_order\
         &fields[lecture]=title,object_index,asset&page_size=1000"
    );
    assert_eq!(
        lecture_url(12, 345),
        "https://www.udemy.com/api-2.0/users/me/subscribed-courses/12/lectures/345/\
         ?fields[asset]=asset_type,stream_urls,external_url,\
         slide_urls,download_urls,captions,media_sources,media_license_token"
    );
    assert_eq!(
        lecture_page(12, 345),
        "https://www.udemy.com/course/12/learn/lecture/345"
    );
}

#[test]
fn lectures_go_to_the_chapter_before_them() {
    let mut video = match entry("lecture", 4, "Intro") {
        Json::Object(m) => m,
        _ => unreachable!(),
    };
    video.push((
        "asset".to_string(),
        object(vec![("asset_type", text("Video")), ("time_estimation", Json::Unsigned(65))]),
    ));
    let json = object(vec![(
        "results",
        Json::Array(vec![
            entry("lecture", 1, "Dropped"),
            entry("chapter", 2, "One"),
            entry("quiz", 3, "Quiz"),
            Json::Object(video),
            entry("chapter", 5, "Two"),
            entry("lecture", 6, "Bare"),
            object(vec![("_class", text("chapter"))]),
            object(vec![("_class", text("lecture"))]),
        ]),
    )]);
    let chapters = read_curriculum(&json).unwrap();
    assert_eq!(chapters.len(), 3);
    assert_eq!((chapters[0].id, chapters[0].title.as_str()), (2, "One"));
    assert_eq!(chapters[0].object_index, 3);
    assert!(!chapters[0].expanded);
    assert_eq!(chapters[0].lectures.len(), 1);
    let l = &chapters[0].lectures[0];
    assert_eq!((l.id, l.title.as_str(), l.asset_type.as_str()), (4, "Intro", "Video"));
    assert_eq!((l.object_index, l.duration_secs), (5, Some(65)));
    let l = &chapters[1].lectures[0];
    assert_eq!((l.asset_type.as_str(), l.duration_secs), ("Unknown", None));
    assert_eq!(chapters[2].title, "Chapter");
    assert_eq!(chapters[2].lectures[0].title, "Lecture");
}

#[test]
fn curricula_have_results() {
    assert_eq!(
        read_curriculum(&object(vec![])).unwrap_err(),
        "curriculum response has no 'results'"
    );
    assert!(read_curriculum(&object(vec![("results", Json::Array(vec![]))])).unwrap().is_empty());
}

fn source(kind: &str, key: &str, file: &str, height: Option<Json>, height_key: &str) -> Json {
    let mut m = vec![("type", text(kind)), (key, text(file))];
    if let Some(h) = height {
        m.push((height_key, h));
    }
    object(m)
}

#[test]
fn sources_are_collected_highest_first() {
    let json = object(vec![(
        "asset",
        object(vec![(
            "media_sources",
            Json::Array(vec![
                source("video/mp4", "src", "a360", Some(text("360")), "res"),
                source("application/x-mpegURL", "src", "hls1", None, "res"),
                source("application/x-mpegURL", "src", "hls2", None, "res"),
                source("video/mp4", "src", "a1080", Some(Json::Unsigned(1080)), "res"),
                source("video/webm", "src", "b360", Some(text("360")), "res"),
                source("video/mp4", "src", "", Some(text("720")), "res"),
                source("video/mp4", "src", "none", Some(text("high")), "res"),
                source("text/vtt", "src", "captions", None, "res"),
            ]),
        )]),
    )]);
    let stream = read_lecture_streams(&json, 99).unwrap();
    assert_eq!(stream.hls_urls, vec!["hls1"]);
    assert_eq!(
        stream.mp4_urls,
        vec![
            (1080, "a1080".to_string()),
            (360, "a360".to_string()),
            (360, "b360".to_string()),
            (0, "none".to_string()),
        ]
    );
    assert_eq!(stream.referer, "https://www.udemy.com/course/learn/lecture/99");
}

#[test]
fn older_sources_are_the_fallback() {
    let video = Json::Array(vec![
        source("video/mp4", "file", "old720", Some(text("720")), "label"),
        source("application/x-mpegURL", "file", "oldhls", None, "label"),
    ]);
    let asset = vec![
        ("media_sources", Json::Array(vec![source("video/mp4", "src", "new", None, "res")])),
        ("stream_urls", object(vec![("Video", video)])),
    ];
    let stream = read_lecture_streams(&object(vec![("asset", object(asset))]), 1).unwrap();
    assert_eq!(stream.hls_urls, vec!["oldhls"]);
    assert_eq!(stream.mp4_urls, vec![(720, "old720".to_string()), (0, "new".to_string())]);
}

#[test]
fn fallback_is_left_alone_where_there_is_a_stream() {
    let asset = vec![
        (
            "media_sources",
            Json::Array(vec![source("application/x-mpegURL", "src", "hls", None, "res")]),
        ),
        (
            "stream_urls",
            object(vec![(
                "Video",
                Json::Array(vec![source("video/mp4", "file", "old", None, "label")]),
            )]),
        ),
    ];
    let stream = read_lecture_streams(&object(vec![("asset", object(asset))]), 1).unwrap();
    assert_eq!(stream.hls_urls, vec!["hls"]);
    assert!(stream.mp4_urls.is_empty());
}

#[test]
fn lectures_without_sources_are_reported() {
    assert_eq!(
        read_lecture_streams(&object(vec![]), 7).unwrap_err(),
        "lecture response has no 'asset'"
    );
    let article = object(vec![("asset", object(vec![("asset_type", text("Article"))]))]);
    assert_eq!(
        read_lecture_streams(&article, 7).unwrap_err(),
        "no downloadable stream found for lecture 7 (asset_type: Article)"
    );
    assert_eq!(
        read_lecture_streams(&object(vec![("asset", Json::Null)]), 7).unwrap_err(),
        "no downloadable stream found for lecture 7 (asset_type: unknown)"
    );
}
