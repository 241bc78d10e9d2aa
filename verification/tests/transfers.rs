//! Requests, files in chunks, and the choice of a source.

use udemyget::direct::{
    check_size, check_stream, download_headers, plan_chunks, range_header, read_probe,
    resume_header, settle_chunk, Arrival, ChunkOutcome, HeadAnswer, ProbeResult, Transfer,
    TransferStep, CHUNK_SIZE,
};
use udemyget::lecture::{
    already_downloaded, finish_task, settle_stream, start_task, take_sources, SourceList,
    SourceStep, StreamEnd,
};
use udemyget::retry::{jitter_sleep, wait_for, Failure, FetchKind, NextStep, Retry};
use udemyget::types::{AppEvent, LectureStream};

#[test]
fn waits_lie_within_bounds() {
    assert_eq!(wait_for(0, 0), 500);
    assert_eq!(wait_for(0, 250), 750);
    assert_eq!(wait_for(0, 251), 500);
    assert_eq!(wait_for(3, 7), 4007);
    for attempt in 0..5 {
        let base = 500 << attempt;
        let ms = jitter_sleep(attempt);
        assert!(base <= ms && ms <= base + base / 2);
    }
}

#[test]
fn waits_double() {
    let waits: Vec<u64> = (0..6).map(|attempt| wait_for(attempt, 0)).collect();
    assert_eq!(waits, vec![500, 1000, 2000, 4000, 8000, 16000]);
    assert_eq!(wait_for(55, 0), 500 << 55);
    for attempt in [56, 57, 64, 100, u32::MAX] {
        assert_eq!(wait_for(attempt, 0), u64::MAX);
        assert_eq!(wait_for(attempt, 12345), u64::MAX);
    }
}

#[test]
fn some_answers_have_a_limit_to_their_time() {
    assert!(FetchKind::Segment.has_read_limit());
    assert!(FetchKind::Chunk.has_read_limit());
    assert!(!FetchKind::Text.has_read_limit());
    assert!(!FetchKind::Bytes.has_read_limit());
}

#[test]
fn waits_differ() {
    let waits: Vec<u64> = (0..50).map(|_| jitter_sleep(20)).collect();
    assert!(waits.iter().any(|w| *w != waits[0]));
}

fn status(code: u16, words: &str) -> Failure {
    Failure::Status { code, status: words.to_string() }
}

fn give_up(step: NextStep) -> String {
    match step {
        NextStep::GiveUp(e) => e,
        other => panic!("{other:?}"),
    }
}

#[test]
fn requests_are_repeated_a_few_times() {
    let mut r = Retry::new(FetchKind::Text, 3);
    assert!(matches!(r.next(false), NextStep::Request { wait: None }));
    r.failed(Failure::ConnectTimeout);
    assert!(matches!(r.next(true), NextStep::Request { wait: Some(1) }));
    r.failed(status(404, "404 Not Found"));
    assert!(matches!(r.next(false), NextStep::Request { wait: Some(2) }));
    r.failed(Failure::Read("broken".to_string()));
    assert_eq!(give_up(r.next(false)), "broken");
}

#[test]
fn refusals_end_the_attempts() {
    let mut r = Retry::new(FetchKind::Segment, 5);
    r.failed(status(429, "429 Too Many Requests"));
    assert!(matches!(r.next(false), NextStep::Request { wait: Some(1) }));
    r.failed(status(403, "403 Forbidden"));
    assert_eq!(give_up(r.next(true)), "HTTP 403");

    let mut r = Retry::new(FetchKind::Chunk, 5);
    r.failed(status(429, "429 Too Many Requests"));
    assert_eq!(give_up(r.next(false)), "HTTP 429 Too Many Requests");
    let mut r = Retry::new(FetchKind::Chunk, 5);
    r.failed(status(200, "200 OK"));
    assert!(matches!(r.next(false), NextStep::Request { wait: Some(1) }));
}

#[test]
fn cancelling_ends_the_attempts() {
    assert_eq!(give_up(Retry::new(FetchKind::Segment, 5).next(true)), "cancelled");
    assert_eq!(give_up(Retry::new(FetchKind::Chunk, 5).next(true)), "cancelled");
    assert!(matches!(
        Retry::new(FetchKind::Bytes, 5).next(true),
        NextStep::Request { wait: None }
    ));
}

#[test]
fn failures_are_described() {
    let text = |kind: FetchKind, f: Failure| {
        let mut r = Retry::new(kind, 1);
        r.failed(f);
        give_up(r.next(false))
    };
    assert_eq!(text(FetchKind::Bytes, Failure::Connect("no route".to_string())), "no route");
    assert_eq!(text(FetchKind::Bytes, Failure::ConnectTimeout), "timeout");
    assert_eq!(text(FetchKind::Bytes, status(500, "500 X")), "HTTP 500 X");
    assert_eq!(text(FetchKind::Segment, Failure::ConnectTimeout), "timeout");
    assert_eq!(text(FetchKind::Segment, Failure::ReadTimeout), "segment read timeout");
    assert_eq!(text(FetchKind::Chunk, Failure::ConnectTimeout), "timeout connecting");
    assert_eq!(text(FetchKind::Chunk, Failure::ReadTimeout), "timeout reading chunk");
}

#[test]
fn no_attempts_are_described() {
    let text = |kind| give_up(Retry::new(kind, 0).next(false));
    assert_eq!(text(FetchKind::Text), "fetch failed after 0 attempts");
    assert_eq!(text(FetchKind::Bytes), "fetch_bytes failed");
    assert_eq!(text(FetchKind::Segment), "segment failed after 0 attempts");
    assert_eq!(text(FetchKind::Chunk), "chunk failed after 0 attempts");
}

#[test]
fn parts_are_asked_for_by_their_own_status() {
    assert!(FetchKind::Text.accepts(200) && FetchKind::Segment.accepts(206));
    assert!(!FetchKind::Bytes.accepts(301));
    assert!(FetchKind::Chunk.accepts(206) && !FetchKind::Chunk.accepts(200));
}

#[test]
fn probes_are_read() {
    let answer = |code, ranges: Option<&str>| {
        read_probe(&Some(HeadAnswer {
            code,
            content_length: Some(CHUNK_SIZE),
            accept_ranges: ranges.map(str::to_string),
        }))
    };
    assert_eq!(
        answer(200, Some("bytes")),
        ProbeResult { content_length: Some(CHUNK_SIZE), accept_ranges: true }
    );
    assert!(!answer(200, Some("none")).accept_ranges);
    assert!(!answer(200, None).accept_ranges);
    let nothing = ProbeResult { content_length: None, accept_ranges: false };
    assert_eq!(answer(404, Some("bytes")), nothing);
    assert_eq!(read_probe(&None), nothing);
}

#[test]
fn large_files_are_cut_up() {
    let probe = |len, accept_ranges| ProbeResult { content_length: len, accept_ranges };
    assert_eq!(probe(Some(CHUNK_SIZE), true).use_chunked(), Some(CHUNK_SIZE));
    assert_eq!(probe(Some(CHUNK_SIZE - 1), true).use_chunked(), None);
    assert_eq!(probe(Some(CHUNK_SIZE), false).use_chunked(), None);
    assert_eq!(probe(None, true).use_chunked(), None);
}

#[test]
fn chunks_cover_the_file() {
    assert_eq!(plan_chunks(0), vec![]);
    assert_eq!(plan_chunks(1), vec![(0, 0)]);
    assert_eq!(plan_chunks(CHUNK_SIZE), vec![(0, CHUNK_SIZE - 1)]);
    assert_eq!(
        plan_chunks(2 * CHUNK_SIZE + 5),
        vec![
            (0, CHUNK_SIZE - 1),
            (CHUNK_SIZE, 2 * CHUNK_SIZE - 1),
            (2 * CHUNK_SIZE, 2 * CHUNK_SIZE + 4),
        ]
    );
    assert_eq!(CHUNK_SIZE, 10 * 1024 * 1024);
}

#[test]
fn chunks_make_the_file_in_any_order() {
    let total = 3 * CHUNK_SIZE - 7;
    let chunks = plan_chunks(total);
    for order in [[0usize, 1, 2], [2, 0, 1]] {
        let mut covered = vec![false; total as usize];
        for i in order {
            for p in chunks[i].0..=chunks[i].1 {
                assert!(!covered[p as usize]);
                covered[p as usize] = true;
            }
        }
        assert!(covered.iter().all(|c| *c));
    }
}

#[test]
fn ranges_are_written() {
    assert_eq!(range_header(0, 10485759), "bytes=0-10485759");
    assert_eq!(resume_header(0), None);
    assert_eq!(resume_header(77).as_deref(), Some("bytes=77-"));
}

#[test]
fn chunks_are_settled() {
    assert_eq!(settle_chunk(false, ChunkOutcome::Done), Ok(()));
    assert_eq!(settle_chunk(true, ChunkOutcome::Done), Err("cancelled".to_string()));
    assert_eq!(
        settle_chunk(false, ChunkOutcome::Failed("HTTP 500".to_string())),
        Err("HTTP 500".to_string())
    );
    assert_eq!(
        settle_chunk(false, ChunkOutcome::Panicked("why".to_string())),
        Err("chunk task panicked: why".to_string())
    );
}

#[test]
fn answers_with_files_are_checked() {
    let kind = |s: &str| Some(s.to_string());
    assert_eq!(check_stream(200, "200 OK", &kind("video/mp4")), Ok(()));
    assert_eq!(check_stream(206, "206 Partial Content", &None), Ok(()));
    assert_eq!(check_stream(404, "404 Not Found", &None), Err("HTTP 404 Not Found".to_string()));
    assert_eq!(
        check_stream(200, "200 OK", &kind("text/html; charset=utf-8")),
        Err("server returned HTML — URL may have expired".to_string())
    );
}

#[test]
fn files_come_in_piece_by_piece() {
    let mut t = Transfer { done: 0, total: Some(10) };
    assert!(matches!(t.take(Arrival::Piece(4)), TransferStep::Write { report: Some(10) }));
    assert_eq!(t.done, 4);
    assert!(matches!(t.take(Arrival::Piece(6)), TransferStep::Write { report: Some(10) }));
    assert!(matches!(t.take(Arrival::End), TransferStep::Finish));
    assert_eq!(t, Transfer { done: 10, total: Some(10) });
    for total in [None, Some(0)] {
        let mut t = Transfer { done: 0, total };
        assert!(matches!(t.take(Arrival::Piece(4)), TransferStep::Write { report: None }));
    }
    assert!(matches!(
        t.take(Arrival::Broken("reset".to_string())),
        TransferStep::Fail(e) if e == "reset"
    ));
    assert!(matches!(
        t.take(Arrival::Silence),
        TransferStep::Fail(e) if e == "timeout — no data for 60 s"
    ));
}

#[test]
fn files_are_asked_for_as_a_browser_does() {
    let headers = download_headers("https://r/");
    assert_eq!(headers.len(), 2);
    assert_eq!(headers[0].0, "user-agent");
    assert_eq!(
        headers[0].1,
        "Mozilla/5.0 (X11; Linux x86_64) AppleWebKit/537.36 \
         (KHTML, like Gecko) Chrome/131.0.0.0 Safari/537.36"
    );
    assert_eq!(headers[1], ("referer".to_string(), "https://r/".to_string()));
}

#[test]
fn sizes_are_checked() {
    assert_eq!(check_size(None, 5), Ok(()));
    assert_eq!(check_size(Some(0), 5), Ok(()));
    assert_eq!(check_size(Some(5), 5), Ok(()));
    assert_eq!(
        check_size(Some(6), 5),
        Err("size mismatch: expected 6 bytes, got 5".to_string())
    );
}

fn stream(mp4: &[&str], hls: &[&str]) -> LectureStream {
    LectureStream {
        hls_urls: hls.iter().map(|s| s.to_string()).collect(),
        mp4_urls: mp4.iter().map(|s| (0, s.to_string())).collect(),
        referer: "r".to_string(),
    }
}

fn hls_url(step: SourceStep) -> String {
    match step {
        SourceStep::Hls(url) => url,
        other => panic!("{other:?}"),
    }
}

fn failure(step: SourceStep) -> String {
    match step {
        SourceStep::Failed(e) => e,
        other => panic!("{other:?}"),
    }
}

#[test]
fn existing_files_are_kept() {
    assert_eq!(already_downloaded(Some(5)), Some(5));
    assert_eq!(already_downloaded(Some(0)), None);
    assert_eq!(already_downloaded(None), None);
}

#[test]
fn files_come_first_then_streams() {
    let mut list = SourceList::new(stream(&["a", "b"], &["s"]));
    assert!(matches!(list.next(false), SourceStep::Direct(url) if url == "a"));
    assert_eq!(list.after_direct(Err("HTTP 403".to_string())), None);
    assert!(matches!(list.next(false), SourceStep::Direct(url) if url == "b"));
    assert_eq!(list.after_direct(Ok(7)), Some(7));
    assert_eq!(hls_url(list.next(false)), "s");
    assert_eq!(list.after_hls(Ok(9)), Some(Ok(9)));
}

#[test]
fn protected_streams_are_passed_over() {
    let mut list =
        SourceList::new(stream(&[], &["h/cbcs/1", "open", "h/cenc/2", "other"]));
    assert_eq!(hls_url(list.next(false)), "open");
    assert!(list.after_hls(Err("drm:skip FairPlay".to_string())).is_none());
    assert_eq!(hls_url(list.next(false)), "other");
    assert!(list.after_hls(Err("drm:skip no key".to_string())).is_none());
    assert_eq!(
        failure(list.next(false)),
        "All 4 HLS stream(s) are DRM-protected (CMAF/CBCS — Widevine/FairPlay).\n\
         This lecture cannot be downloaded without a DRM license.\n\
         If the course allows offline access the direct MP4 download_urls should be \
         populated; try refreshing cookies.txt."
    );
}

#[test]
fn other_errors_of_streams_are_final() {
    let mut list = SourceList::new(stream(&[], &["x", "y"]));
    assert_eq!(hls_url(list.next(false)), "x");
    assert_eq!(
        list.after_hls(Err("one or more segments failed".to_string())),
        Some(Err("one or more segments failed".to_string()))
    );
}

#[test]
fn lectures_may_have_no_source() {
    let mut list = SourceList::new(stream(&[], &[]));
    assert_eq!(failure(list.next(false)), "no download source available");
    assert_eq!(failure(list.next(true)), "no download source available");
}

#[test]
fn cancelling_ends_the_search() {
    assert_eq!(failure(SourceList::new(stream(&["a"], &[])).next(true)), "cancelled");
    assert_eq!(failure(SourceList::new(stream(&[], &["h/cbcs/1"])).next(true)), "cancelled");
}

#[test]
fn streams_are_settled() {
    assert!(matches!(settle_stream(Ok(()), false, false), StreamEnd::Complete));
    assert!(matches!(
        settle_stream(Err("disk".to_string()), true, true),
        StreamEnd::WriteFailed(e) if e == "disk"
    ));
    assert!(matches!(
        settle_stream(Ok(()), true, true),
        StreamEnd::Discard(e) if e == "cancelled"
    ));
    assert!(matches!(
        settle_stream(Ok(()), false, true),
        StreamEnd::Discard(e) if e == "one or more segments failed"
    ));
}

#[test]
fn tasks_report_their_start() {
    let start = start_task(4, 88, true, false);
    assert!(start.go_on);
    assert_eq!(start.events.len(), 2);
    assert!(matches!(
        &start.events[0],
        AppEvent::DownloadProgress { id: 4, percent } if !percent.started && percent.whole == 0
    ));
    assert!(matches!(
        &start.events[1],
        AppEvent::StatusMsg(m) if m == "Fetching stream for lecture 88…"
    ));
    let closed = start_task(4, 88, false, true);
    assert!(!closed.go_on);
    assert!(matches!(
        &closed.events[0],
        AppEvent::DownloadFailed { id: 4, error } if error == "download semaphore closed"
    ));
    let cancelled = start_task(4, 88, true, true);
    assert!(!cancelled.go_on && cancelled.events.len() == 1);
    assert!(matches!(
        &cancelled.events[0],
        AppEvent::DownloadFailed { id: 4, error } if error == "cancelled"
    ));
}

#[test]
fn tasks_take_sources() {
    let mut list = take_sources(1, Ok(stream(&["a"], &[])), false).unwrap();
    assert!(matches!(list.next(false), SourceStep::Direct(url) if url == "a"));
    assert!(matches!(
        take_sources(1, Ok(stream(&["a"], &[])), true),
        Err(AppEvent::DownloadFailed { id: 1, error }) if error == "cancelled"
    ));
    assert!(matches!(
        take_sources(1, Err("no".to_string()), true),
        Err(AppEvent::DownloadFailed { id: 1, error }) if error == "no"
    ));
}

#[test]
fn tasks_report_their_end() {
    assert!(matches!(finish_task(3, Ok(9)), AppEvent::DownloadDone { id: 3 }));
    assert!(matches!(
        finish_task(3, Err("x".to_string())),
        AppEvent::DownloadFailed { id: 3, error } if error == "x"
    ));
}
