//! Downloading a lecture: which source to try, and what to report.

use crate::hls::{cbcs_url, drm_skip, is_cbcs_url, is_drm_skip};
use crate::text::{decimal, has_text, opt_text, push_decimal, stands_at};
use crate::types::{AppEvent, EventView, LectureStream, Progress, StreamView};
use vstd::prelude::*;
use vstd::string::*;

verus! {

/// How many lectures are downloaded side by side.
pub const MAX_CONCURRENT_DOWNLOADS: usize = 10;

/// How many segments of a stream are downloaded side by side.
pub const HLS_MAX_CONCURRENT: usize = 8;

// --------------------------------------------------------------------- sources

/// The size with which a file that is there already counts as downloaded.
pub open spec fn kept_size(existing: Option<u64>) -> Option<u64> {
    match existing {
        Some(0) => None,
        _ => existing,
    }
}

/// The size of a file that is there already, where it need not be downloaded again.
/// `existing` is the size of the file, if there is one.
pub fn already_downloaded(existing: Option<u64>) -> (size: Option<u64>)
    ensures
        size == match existing {
            Some(n) => if n > 0 {
                Some(n)
            } else {
                None
            },
            None => None,
        },
        size == kept_size(existing),
{
    match existing {
        Some(n) => if n > 0 {
            Some(n)
        } else {
            None
        },
        None => None,
    }
}

/// The sources of a lecture, while they are tried one after the other: MP4 files first,
/// the highest one at the start, and then streams.
#[derive(Debug)]
pub struct SourceList {
    stream: LectureStream,
    next_mp4: usize,
    next_hls: usize,
    drm_count: usize,
    last_error: Option<String>,
}

/// What a [`SourceList`] holds: all the sources, the addresses that were not tried yet,
/// how many streams there are, how many of them were passed over for DRM, and why the last
/// one was.
#[verifier::ext_equal]
pub struct SourcesView {
    pub stream: StreamView,
    pub mp4: Seq<Seq<char>>,
    pub hls: Seq<Seq<char>>,
    pub total_hls: nat,
    pub drm_count: nat,
    pub last_error: Option<Seq<char>>,
}

/// The addresses of files.
pub open spec fn addresses(files: Seq<(u32, Seq<char>)>) -> Seq<Seq<char>> {
    files.map_values(|f: (u32, Seq<char>)| f.1)
}

impl View for SourceList {
    type V = SourcesView;

    closed spec fn view(&self) -> SourcesView {
        SourcesView {
            stream: self.stream@,
            mp4: addresses(self.stream@.mp4_urls).skip(self.next_mp4 as int),
            hls: self.stream@.hls_urls.skip(self.next_hls as int),
            total_hls: self.stream@.hls_urls.len(),
            drm_count: self.drm_count as nat,
            last_error: opt_text(self.last_error),
        }
    }
}

/// A source to try, or the end.
#[derive(Debug)]
pub enum SourceStep {
    /// Download the MP4 file at this address.
    Direct(String),
    /// Download the stream at this address.
    Hls(String),
    /// Report this error.
    Failed(String),
}

/// What a [`SourceStep`] holds.
pub enum SourceStepView {
    Direct(Seq<char>),
    Hls(Seq<char>),
    Failed(Seq<char>),
}

impl View for SourceStep {
    type V = SourceStepView;

    open spec fn view(&self) -> SourceStepView {
        match self {
            SourceStep::Direct(url) => SourceStepView::Direct(url@),
            SourceStep::Hls(url) => SourceStepView::Hls(url@),
            SourceStep::Failed(e) => SourceStepView::Failed(e@),
        }
    }
}

/// The error when every stream has DRM.
pub open spec fn all_drm_error(total: nat) -> Seq<char> {
    "All "@ + decimal(total)
        + " HLS stream(s) are DRM-protected (CMAF/CBCS \u{2014} Widevine/FairPlay).\n"@
        + "This lecture cannot be downloaded without a DRM license.\n"@
        + "If the course allows offline access the direct MP4 download_urls should be "@
        + "populated; try refreshing cookies.txt."@
}

impl SourcesView {
    /// Before any source was tried.
    pub open spec fn start(stream: StreamView) -> SourcesView {
        SourcesView {
            stream,
            mp4: addresses(stream.mp4_urls),
            hls: stream.hls_urls,
            total_hls: stream.hls_urls.len(),
            drm_count: 0,
            last_error: None,
        }
    }

    /// The error when no source is left.
    pub open spec fn exhausted_error(self) -> Seq<char> {
        if self.drm_count > 0 {
            all_drm_error(self.total_hls)
        } else {
            match self.last_error {
                Some(e) => e,
                None => "no download source available"@,
            }
        }
    }

    /// After a stream was passed over for DRM.
    pub open spec fn passed_over(self, error: Seq<char>) -> SourcesView {
        SourcesView { drm_count: self.drm_count + 1, last_error: Some(error), ..self }
    }

    /// After the next stream was taken off.
    pub open spec fn hls_taken(self) -> SourcesView {
        SourcesView { hls: self.hls.skip(1), ..self }
    }

    /// The next stream to try: those whose address shows that they have DRM are passed
    /// over without asking for them.
    pub open spec fn next_hls(self, cancelled: bool) -> (SourcesView, SourceStepView)
        decreases self.hls.len(),
    {
        if self.hls.len() == 0 {
            (self, SourceStepView::Failed(self.exhausted_error()))
        } else if cancelled {
            (self, SourceStepView::Failed("cancelled"@))
        } else if cbcs_url(self.hls[0]) {
            self.hls_taken().passed_over("CMAF/CBCS stream"@).next_hls(cancelled)
        } else {
            (self.hls_taken(), SourceStepView::Hls(self.hls[0]))
        }
    }

    /// The next source to try.
    pub open spec fn next(self, cancelled: bool) -> (SourcesView, SourceStepView) {
        if self.mp4.len() == 0 {
            self.next_hls(cancelled)
        } else if cancelled {
            (self, SourceStepView::Failed("cancelled"@))
        } else {
            (SourcesView { mp4: self.mp4.skip(1), ..self }, SourceStepView::Direct(self.mp4[0]))
        }
    }

    /// What the outcome of trying a stream means: where it is the end, how the download
    /// ended.
    pub open spec fn after_hls(self, outcome: Result<u64, Seq<char>>) -> (
        SourcesView,
        Option<Result<u64, Seq<char>>>,
    ) {
        match outcome {
            Ok(size) => (self, Some(Ok(size))),
            Err(e) => if drm_skip(e) {
                (self.passed_over(e), None)
            } else {
                (self, Some(Err(e)))
            },
        }
    }
}

/// What an outcome holds.
pub open spec fn outcome_view(outcome: Result<u64, String>) -> Result<u64, Seq<char>> {
    match outcome {
        Ok(size) => Ok(size),
        Err(e) => Err(e@),
    }
}

/// What an outcome holds, if there is one.
pub open spec fn opt_outcome(outcome: Option<Result<u64, String>>) -> Option<
    Result<u64, Seq<char>>,
> {
    match outcome {
        Some(o) => Some(outcome_view(o)),
        None => None,
    }
}

/// How the download of a lecture ends with the outcome of an MP4 file, if it does.
pub open spec fn after_file(outcome: Result<u64, Seq<char>>) -> Option<u64> {
    match outcome {
        Ok(size) => Some(size),
        Err(_) => None,
    }
}

/// Gives the error when every stream has DRM.
fn all_drm(total: usize) -> (e: String)
    ensures
        e@ == all_drm_error(total as nat),
{
    let mut e = "All ".to_owned();
    push_decimal(&mut e, total as u64);
    e.append(" HLS stream(s) are DRM-protected (CMAF/CBCS \u{2014} Widevine/FairPlay).\n");
    e.append("This lecture cannot be downloaded without a DRM license.\n");
    e.append("If the course allows offline access the direct MP4 download_urls should be ");
    e.append("populated; try refreshing cookies.txt.");
    e
}

impl SourceList {
    /// The positions lie within the lists, and no more streams were passed over than
    /// were taken off.
    pub closed spec fn wf(&self) -> bool {
        &&& self.next_mp4 <= self.stream.mp4_urls.len()
        &&& self.next_hls <= self.stream.hls_urls.len()
        &&& self.drm_count <= self.next_hls
    }

    /// Whether the stream that was taken off last can still be passed over.
    pub closed spec fn hls_open(&self) -> bool {
        self.drm_count < self.next_hls
    }

    /// The sources of a lecture, before any was tried.
    pub fn new(stream: LectureStream) -> (list: Self)
        ensures
            list.wf(),
            list@ == SourcesView::start(stream@),
    {
        let list = SourceList {
            stream,
            next_mp4: 0,
            next_hls: 0,
            drm_count: 0,
            last_error: None,
        };
        assert(list@ =~= SourcesView::start(stream@));
        list
    }

    fn exhausted(&self) -> (e: String)
        ensures
            e@ == self@.exhausted_error(),
    {
        assert(self.stream@.hls_urls.len() == self.stream.hls_urls.len());
        if self.drm_count > 0 {
            return all_drm(self.stream.hls_urls.len());
        }
        match &self.last_error {
            Some(e) => e.clone(),
            None => "no download source available".to_owned(),
        }
    }

    fn next_stream(&mut self, cancelled: bool) -> (step: SourceStep)
        requires
            old(self).wf(),
        ensures
            final(self).wf(),
            old(self)@.next_hls(cancelled) == (final(self)@, step@),
            step is Hls ==> final(self).hls_open(),
    {
        while self.next_hls < self.stream.hls_urls.len()
            invariant
                self.wf(),
                old(self)@.next_hls(cancelled) == self@.next_hls(cancelled),
            decreases self.stream.hls_urls.len() - self.next_hls,
        {
            if cancelled {
                assert(self@.hls.len() > 0);
                return SourceStep::Failed("cancelled".to_owned());
            }
            let ghost before = self@;
            let i: usize = self.next_hls;
            let url = self.stream.hls_urls[i].clone();
            assert(before.hls[0] == url@);
            self.next_hls = i + 1;
            assert(self@ =~= before.hls_taken());
            if !is_cbcs_url(url.as_str()) {
                return SourceStep::Hls(url);
            }
            self.drm_count = self.drm_count + 1;
            self.last_error = Some("CMAF/CBCS stream".to_owned());
            assert(self@ =~= before.hls_taken().passed_over("CMAF/CBCS stream"@));
        }
        assert(self@.hls.len() == 0);
        SourceStep::Failed(self.exhausted())
    }

    /// Gives the next source to try.
    pub fn next(&mut self, cancelled: bool) -> (step: SourceStep)
        requires
            old(self).wf(),
        ensures
            final(self).wf(),
            old(self)@.next(cancelled) == (final(self)@, step@),
            step is Hls ==> final(self).hls_open(),
    {
        let ghost before = self@;
        if self.next_mp4 < self.stream.mp4_urls.len() {
            assert(before.mp4.len() > 0);
            if cancelled {
                return SourceStep::Failed("cancelled".to_owned());
            }
            let i: usize = self.next_mp4;
            let url = self.stream.mp4_urls[i].1.clone();
            assert(before.mp4[0] == url@);
            self.next_mp4 = i + 1;
            assert(self@.mp4 =~= before.mp4.skip(1));
            return SourceStep::Direct(url);
        }
        assert(before.mp4.len() == 0);
        self.next_stream(cancelled)
    }

    /// Takes in the outcome of an MP4 file. Where it failed, the next source is to be
    /// tried.
    pub fn after_direct(&self, outcome: Result<u64, String>) -> (end: Option<u64>)
        ensures
            end == match outcome {
                Ok(size) => Some(size),
                Err(_) => None,
            },
            end == after_file(outcome_view(outcome)),
    {
        match outcome {
            Ok(size) => Some(size),
            Err(_) => None,
        }
    }

    /// Takes in the outcome of a stream. Where it has DRM, the next source is to be
    /// tried; any other error is the end.
    pub fn after_hls(&mut self, outcome: Result<u64, String>) -> (end: Option<Result<u64, String>>)
        requires
            old(self).wf(),
            old(self).hls_open(),
        ensures
            final(self).wf(),
            old(self)@.after_hls(outcome_view(outcome)) == (final(self)@, opt_outcome(end)),
    {
        match outcome {
            Ok(size) => Some(Ok(size)),
            Err(e) => {
                if is_drm_skip(e.as_str()) {
                    let ghost before = self@;
                    let ghost error = e@;
                    self.drm_count = self.drm_count + 1;
                    self.last_error = Some(e);
                    assert(self@ =~= before.passed_over(error));
                    None
                } else {
                    Some(Err(e))
                }
            },
        }
    }
}

/// How the download of a lecture ends that is not cancelled, when `direct` and `hls` say
/// how it ends for each file and each stream.
pub open spec fn run(
    sources: SourcesView,
    direct: spec_fn(Seq<char>) -> Result<u64, Seq<char>>,
    hls: spec_fn(Seq<char>) -> Result<u64, Seq<char>>,
) -> Result<u64, Seq<char>>
    decreases sources.mp4.len() + sources.hls.len(),
    via run_decreases
{
    let (after, step) = sources.next(false);
    match step {
        SourceStepView::Direct(url) => match direct(url) {
            Ok(size) => Ok(size),
            Err(_) => run(after, direct, hls),
        },
        SourceStepView::Hls(url) => {
            let (settled, end) = after.after_hls(hls(url));
            match end {
                Some(outcome) => outcome,
                None => run(settled, direct, hls),
            }
        },
        SourceStepView::Failed(e) => Err(e),
    }
}

#[via_fn]
proof fn run_decreases(
    sources: SourcesView,
    direct: spec_fn(Seq<char>) -> Result<u64, Seq<char>>,
    hls: spec_fn(Seq<char>) -> Result<u64, Seq<char>>,
) {
    if sources.mp4.len() == 0 {
        lemma_next_hls(sources);
    }
}

proof fn lemma_next_hls(sources: SourcesView)
    ensures
        sources.next_hls(false).0.mp4 == sources.mp4,
        sources.next_hls(false).1 !is Direct,
        sources.next_hls(false).1 is Hls ==> sources.next_hls(false).0.hls.len()
            < sources.hls.len(),
        sources.next_hls(false).1 matches SourceStepView::Hls(url) ==> !cbcs_url(url),
    decreases sources.hls.len(),
{
    if sources.hls.len() > 0 && cbcs_url(sources.hls[0]) {
        lemma_next_hls(sources.hls_taken().passed_over("CMAF/CBCS stream"@));
    }
}

/// A stream whose address shows that it has DRM is never asked for.
pub proof fn law_protected_addresses_are_not_asked_for(sources: SourcesView)
    ensures
        sources.next(false).1 matches SourceStepView::Hls(url) ==> !cbcs_url(url),
{
    lemma_next_hls(sources);
}

/// Where an MP4 file can be downloaded, the first one that can is what is downloaded,
/// whatever streams there are.
pub proof fn law_files_come_before_streams(
    sources: SourcesView,
    direct: spec_fn(Seq<char>) -> Result<u64, Seq<char>>,
    hls: spec_fn(Seq<char>) -> Result<u64, Seq<char>>,
    k: int,
)
    requires
        0 <= k < sources.mp4.len(),
        direct(sources.mp4[k]) is Ok,
        forall|i: int| 0 <= i < k ==> direct(#[trigger] sources.mp4[i]) is Err,
    ensures
        run(sources, direct, hls) == direct(sources.mp4[k]),
    decreases k,
{
    if k > 0 {
        assert(direct(sources.mp4[0]) is Err);
        let after = SourcesView { mp4: sources.mp4.skip(1), ..sources };
        assert forall|i: int| 0 <= i < k - 1 implies direct(#[trigger] after.mp4[i]) is Err by {
            assert(after.mp4[i] == sources.mp4[i + 1]);
        }
        assert(after.mp4[k - 1] == sources.mp4[k]);
        law_files_come_before_streams(after, direct, hls, k - 1);
    }
}

/// Whether a stream is passed over for DRM.
pub open spec fn is_passed_over(
    url: Seq<char>,
    hls: spec_fn(Seq<char>) -> Result<u64, Seq<char>>,
) -> bool {
    cbcs_url(url) || (hls(url) matches Err(e) && drm_skip(e))
}

/// How the download ends when no MP4 file is left: the first stream that is not passed
/// over for DRM decides.
pub open spec fn streams_end(
    urls: Seq<Seq<char>>,
    total: nat,
    drm_count: nat,
    hls: spec_fn(Seq<char>) -> Result<u64, Seq<char>>,
) -> Result<u64, Seq<char>>
    decreases urls.len(),
{
    if urls.len() == 0 {
        Err(
            if drm_count > 0 {
                all_drm_error(total)
            } else {
                "no download source available"@
            },
        )
    } else if is_passed_over(urls[0], hls) {
        streams_end(urls.skip(1), total, drm_count + 1, hls)
    } else {
        hls(urls[0])
    }
}

proof fn lemma_streams_end(
    sources: SourcesView,
    direct: spec_fn(Seq<char>) -> Result<u64, Seq<char>>,
    hls: spec_fn(Seq<char>) -> Result<u64, Seq<char>>,
)
    requires
        sources.mp4.len() == 0,
        sources.drm_count == 0 ==> sources.last_error is None,
    ensures
        run(sources, direct, hls) == streams_end(
            sources.hls,
            sources.total_hls,
            sources.drm_count,
            hls,
        ),
    decreases sources.hls.len(),
{
    if sources.hls.len() > 0 {
        let url = sources.hls[0];
        if cbcs_url(url) {
            let after = sources.hls_taken().passed_over("CMAF/CBCS stream"@);
            lemma_streams_end(after, direct, hls);
            assert(sources.next(false) == after.next(false));
            assert(run(sources, direct, hls) == run(after, direct, hls));
        } else if is_passed_over(url, hls) {
            let after = sources.hls_taken().passed_over(hls(url)->Err_0);
            lemma_streams_end(after, direct, hls);
        }
    }
}

/// Where no MP4 file can be downloaded, the first stream that is not passed over for
/// DRM decides how the download ends; where every stream is passed over, that is what
/// is reported.
pub proof fn law_first_open_stream_decides(
    sources: SourcesView,
    direct: spec_fn(Seq<char>) -> Result<u64, Seq<char>>,
    hls: spec_fn(Seq<char>) -> Result<u64, Seq<char>>,
)
    requires
        forall|i: int| 0 <= i < sources.mp4.len() ==> direct(#[trigger] sources.mp4[i]) is Err,
        sources.drm_count == 0 ==> sources.last_error is None,
    ensures
        run(sources, direct, hls) == streams_end(
            sources.hls,
            sources.total_hls,
            sources.drm_count,
            hls,
        ),
    decreases sources.mp4.len(),
{
    if sources.mp4.len() > 0 {
        assert(direct(sources.mp4[0]) is Err);
        let after = SourcesView { mp4: sources.mp4.skip(1), ..sources };
        assert forall|i: int| 0 <= i < after.mp4.len() implies direct(
            #[trigger] after.mp4[i],
        ) is Err by {
            assert(after.mp4[i] == sources.mp4[i + 1]);
        }
        law_first_open_stream_decides(after, direct, hls);
    } else {
        lemma_streams_end(sources, direct, hls);
    }
}

/// Where no MP4 file of a lecture can be downloaded and every stream has DRM, the report
/// says so.
pub proof fn law_all_protected_is_reported(
    stream: StreamView,
    direct: spec_fn(Seq<char>) -> Result<u64, Seq<char>>,
    hls: spec_fn(Seq<char>) -> Result<u64, Seq<char>>,
)
    requires
        stream.hls_urls.len() > 0,
        forall|i: int|
            0 <= i < stream.mp4_urls.len() ==> direct((#[trigger] stream.mp4_urls[i]).1) is Err,
        forall|i: int|
            0 <= i < stream.hls_urls.len() ==> is_passed_over(#[trigger] stream.hls_urls[i], hls),
    ensures
        run(SourcesView::start(stream), direct, hls) == Err::<u64, Seq<char>>(
            all_drm_error(stream.hls_urls.len()),
        ),
{
    let start = SourcesView::start(stream);
    assert forall|i: int| 0 <= i < start.mp4.len() implies direct(
        #[trigger] start.mp4[i],
    ) is Err by {
        assert(start.mp4[i] == stream.mp4_urls[i].1);
    }
    law_first_open_stream_decides(start, direct, hls);
    lemma_all_passed_over(stream.hls_urls, stream.hls_urls.len(), 0, hls);
}

proof fn lemma_all_passed_over(
    urls: Seq<Seq<char>>,
    total: nat,
    drm_count: nat,
    hls: spec_fn(Seq<char>) -> Result<u64, Seq<char>>,
)
    requires
        urls.len() + drm_count > 0,
        forall|i: int| 0 <= i < urls.len() ==> is_passed_over(#[trigger] urls[i], hls),
    ensures
        streams_end(urls, total, drm_count, hls) == Err::<u64, Seq<char>>(all_drm_error(total)),
    decreases urls.len(),
{
    if urls.len() > 0 {
        let rest = urls.skip(1);
        assert(is_passed_over(urls[0], hls));
        assert forall|i: int| 0 <= i < rest.len() implies is_passed_over(
            #[trigger] rest[i],
            hls,
        ) by {
            assert(rest[i] == urls[i + 1]);
        }
        lemma_all_passed_over(rest, total, drm_count + 1, hls);
    }
}

// --------------------------------------------------------------------- streams

/// How the download of a stream ended, when all its segments have been seen to.
#[derive(Debug)]
pub enum StreamEnd {
    /// The file is complete.
    Complete,
    /// The file could not be written.
    WriteFailed(String),
    /// The file is to be removed.
    Discard(String),
}

/// What a [`StreamEnd`] holds.
pub enum StreamEndView {
    Complete,
    WriteFailed(Seq<char>),
    Discard(Seq<char>),
}

impl View for StreamEnd {
    type V = StreamEndView;

    open spec fn view(&self) -> StreamEndView {
        match self {
            StreamEnd::Complete => StreamEndView::Complete,
            StreamEnd::WriteFailed(e) => StreamEndView::WriteFailed(e@),
            StreamEnd::Discard(e) => StreamEndView::Discard(e@),
        }
    }
}

/// How the download of a stream ended, where `error` is the error of writing it, if there
/// was one.
pub open spec fn settled(error: Option<Seq<char>>, cancelled: bool, failed: bool) -> StreamEndView {
    match error {
        Some(e) => StreamEndView::WriteFailed(e),
        None => if cancelled {
            StreamEndView::Discard("cancelled"@)
        } else if failed {
            StreamEndView::Discard("one or more segments failed"@)
        } else {
            StreamEndView::Complete
        },
    }
}

/// Decides how the download of a stream ended: `written` is the outcome of writing the
/// segments, `cancelled` says whether the download was cancelled, and `failed` whether a
/// segment could not be downloaded.
pub fn settle_stream(written: Result<(), String>, cancelled: bool, failed: bool) -> (end: StreamEnd)
    ensures
        match written {
            Err(error) => end matches StreamEnd::WriteFailed(e) && e@ == error@,
            Ok(_) => if cancelled {
                end matches StreamEnd::Discard(e) && e@ == "cancelled"@
            } else if failed {
                end matches StreamEnd::Discard(e) && e@ == "one or more segments failed"@
            } else {
                end is Complete
            },
        },
        end@ == settled(
            match written {
                Ok(_) => None,
                Err(error) => Some(error@),
            },
            cancelled,
            failed,
        ),
{
    match written {
        Err(error) => StreamEnd::WriteFailed(error),
        Ok(_) => if cancelled {
            StreamEnd::Discard("cancelled".to_owned())
        } else if failed {
            StreamEnd::Discard("one or more segments failed".to_owned())
        } else {
            StreamEnd::Complete
        },
    }
}

// ------------------------------------------------------------------------ tasks

/// The failure of a download.
pub open spec fn failure(id: u64, error: Seq<char>) -> EventView {
    EventView::DownloadFailed { id, error }
}

/// What the work on a download begins with.
#[derive(Debug)]
pub struct TaskStart {
    /// Messages to send.
    pub events: Vec<AppEvent>,
    /// Whether to ask for the sources of the lecture.
    pub go_on: bool,
}

/// What `events` hold.
pub open spec fn event_views(events: Seq<AppEvent>) -> Seq<EventView> {
    events.map_values(|e: AppEvent| e@)
}

/// What is sent when the work on a download begins: `admitted` says whether its turn
/// came, and `cancelled` whether it was cancelled before.
pub open spec fn first_events(id: u64, lecture_id: u64, admitted: bool, cancelled: bool) -> Seq<
    EventView,
> {
    if !admitted {
        seq![failure(id, "download semaphore closed"@)]
    } else if cancelled {
        seq![failure(id, "cancelled"@)]
    } else {
        seq![
            EventView::DownloadProgress { id, percent: Progress { started: false, whole: 0 } },
            EventView::StatusMsg(
                "Fetching stream for lecture "@ + decimal(lecture_id as nat) + "\u{2026}"@,
            ),
        ]
    }
}

/// Whether the sources of the lecture are asked for when the work on a download begins.
pub open spec fn goes_on(admitted: bool, cancelled: bool) -> bool {
    admitted && !cancelled
}

/// A download that is cancelled before its turn comes asks for nothing, and all that it
/// sends is that it failed for being cancelled.
pub proof fn law_cancelled_before_its_turn_asks_for_nothing(id: u64, lecture_id: u64)
    ensures
        !goes_on(true, true),
        first_events(id, lecture_id, true, true) == seq![
            EventView::DownloadFailed { id, error: "cancelled"@ },
        ],
{
}

/// Begins the work on a download: `admitted` says whether its turn came, and `cancelled`
/// whether it was cancelled before.
pub fn start_task(id: u64, lecture_id: u64, admitted: bool, cancelled: bool) -> (start: TaskStart)
    ensures
        start.go_on == goes_on(admitted, cancelled),
        event_views(start.events@) == first_events(id, lecture_id, admitted, cancelled),
{
    let mut events: Vec<AppEvent> = Vec::new();
    if !admitted {
        events.push(
            AppEvent::DownloadFailed { id, error: "download semaphore closed".to_owned() },
        );
        assert(event_views(events@) =~= seq![failure(id, "download semaphore closed"@)]);
        return TaskStart { events, go_on: false };
    }
    if cancelled {
        events.push(AppEvent::DownloadFailed { id, error: "cancelled".to_owned() });
        assert(event_views(events@) =~= seq![failure(id, "cancelled"@)]);
        return TaskStart { events, go_on: false };
    }
    let mut msg = "Fetching stream for lecture ".to_owned();
    push_decimal(&mut msg, lecture_id);
    msg.append("\u{2026}");
    let ghost text = msg@;
    events.push(
        AppEvent::DownloadProgress { id, percent: Progress { started: false, whole: 0 } },
    );
    events.push(AppEvent::StatusMsg(msg));
    assert(event_views(events@) =~= seq![
        EventView::DownloadProgress { id, percent: Progress { started: false, whole: 0 } },
        EventView::StatusMsg(text),
    ]);
    TaskStart { events, go_on: true }
}

/// What was fetched of a lecture.
pub open spec fn fetched_sources(fetched: Result<LectureStream, String>) -> Result<
    StreamView,
    Seq<char>,
> {
    match fetched {
        Ok(stream) => Ok(stream@),
        Err(error) => Err(error@),
    }
}

/// What is made of it.
pub open spec fn sources_view(sources: Result<SourceList, AppEvent>) -> Result<
    SourcesView,
    EventView,
> {
    match sources {
        Ok(list) => Ok(list@),
        Err(event) => Err(event@),
    }
}

/// The sources to try, or the message to send instead.
pub open spec fn sources_to_try(
    id: u64,
    fetched: Result<StreamView, Seq<char>>,
    cancelled: bool,
) -> Result<SourcesView, EventView> {
    match fetched {
        Err(error) => Err(failure(id, error)),
        Ok(stream) => if cancelled {
            Err(failure(id, "cancelled"@))
        } else {
            Ok(SourcesView::start(stream))
        },
    }
}

/// Takes in the sources of the lecture: they are to be tried, or there is a message to
/// send instead.
pub fn take_sources(id: u64, fetched: Result<LectureStream, String>, cancelled: bool) -> (sources:
    Result<SourceList, AppEvent>)
    ensures
        match fetched {
            Err(error) => sources matches Err(event) && event@ == failure(id, error@),
            Ok(stream) => if cancelled {
                sources matches Err(event) && event@ == failure(id, "cancelled"@)
            } else {
                sources matches Ok(list) && list.wf() && list@ == SourcesView::start(stream@)
            },
        },
        sources_view(sources) == sources_to_try(id, fetched_sources(fetched), cancelled),
{
    match fetched {
        Err(error) => Err(AppEvent::DownloadFailed { id, error }),
        Ok(stream) => if cancelled {
            Err(AppEvent::DownloadFailed { id, error: "cancelled".to_owned() })
        } else {
            Ok(SourceList::new(stream))
        },
    }
}

/// What is sent when the work on a download has come to an end.
pub open spec fn last_event(id: u64, outcome: Result<u64, Seq<char>>) -> EventView {
    match outcome {
        Ok(_) => EventView::DownloadDone { id },
        Err(error) => failure(id, error),
    }
}

/// The message when the work on a download has come to an end.
pub fn finish_task(id: u64, outcome: Result<u64, String>) -> (event: AppEvent)
    ensures
        event@ == match outcome {
            Ok(_) => EventView::DownloadDone { id },
            Err(error) => failure(id, error@),
        },
        event@ == last_event(id, outcome_view(outcome)),
{
    match outcome {
        Ok(_) => AppEvent::DownloadDone { id },
        Err(error) => AppEvent::DownloadFailed { id, error },
    }
}

// ------------------------------------------------------------------------ laws

/// A file that is there is not downloaded again, unless it is empty.
pub proof fn law_full_files_are_kept(n: u64)
    ensures
        n > 0 ==> kept_size(Some(n)) == Some(n),
        kept_size(Some(0)) is None,
        kept_size(None) is None,
{
}

/// The sources of a lecture are tried in the order in which they are given: every file by
/// its address, and then every stream.
pub proof fn law_all_sources_are_to_be_tried(stream: StreamView, i: int)
    ensures
        SourcesView::start(stream).mp4.len() == stream.mp4_urls.len(),
        0 <= i < stream.mp4_urls.len() ==> SourcesView::start(stream).mp4[i]
            == stream.mp4_urls[i].1,
        SourcesView::start(stream).hls == stream.hls_urls,
        SourcesView::start(stream).total_hls == stream.hls_urls.len(),
        SourcesView::start(stream).drm_count == 0,
        SourcesView::start(stream).last_error is None,
{
}

/// While files are left, the first of them is tried next, and nothing else changes.
pub proof fn law_the_next_file_is_tried(sources: SourcesView, url: Seq<char>, rest: Seq<Seq<char>>)
    requires
        sources.mp4 == seq![url] + rest,
    ensures
        sources.next(false) == (
            SourcesView { mp4: rest, ..sources },
            SourceStepView::Direct(url),
        ),
        sources.next(true) == (sources, SourceStepView::Failed("cancelled"@)),
{
    assert(sources.mp4.skip(1) =~= rest);
}

/// Where no file is left, the first stream whose address does not show DRM is tried next.
/// Those before it count as passed over.
pub proof fn law_the_next_open_stream_is_tried(
    sources: SourcesView,
    passed: Seq<Seq<char>>,
    url: Seq<char>,
    rest: Seq<Seq<char>>,
)
    requires
        sources.mp4.len() == 0,
        sources.hls == passed + seq![url] + rest,
        forall|i: int| 0 <= i < passed.len() ==> cbcs_url(#[trigger] passed[i]),
        !cbcs_url(url),
    ensures
        sources.next(false).1 == SourceStepView::Hls(url),
        sources.next(false).0.hls == rest,
        sources.next(false).0.drm_count == sources.drm_count + passed.len(),
        sources.next(false).0.total_hls == sources.total_hls,
        sources.next(false).0.stream == sources.stream,
        passed.len() == 0 ==> sources.next(false).0.last_error == sources.last_error,
        passed.len() > 0 ==> sources.next(false).0.last_error == Some("CMAF/CBCS stream"@),
        sources.next(true) == (sources, SourceStepView::Failed("cancelled"@)),
    decreases passed.len(),
{
    if passed.len() == 0 {
        assert(sources.hls[0] == url);
        assert(sources.hls.skip(1) =~= rest);
    } else {
        assert(sources.hls[0] == passed[0]);
        let after = sources.hls_taken().passed_over("CMAF/CBCS stream"@);
        let fewer = passed.skip(1);
        assert(after.hls =~= fewer + seq![url] + rest);
        assert forall|i: int| 0 <= i < fewer.len() implies cbcs_url(#[trigger] fewer[i]) by {
            assert(fewer[i] == passed[i + 1]);
        }
        law_the_next_open_stream_is_tried(after, fewer, url, rest);
    }
}

/// Where no source is left, that is reported: that all streams have DRM where one was
/// passed over for it, and otherwise the last error.
pub proof fn law_the_end_of_the_sources_is_reported(sources: SourcesView, cancelled: bool)
    requires
        sources.mp4.len() == 0,
        sources.hls.len() == 0,
    ensures
        sources.next(cancelled) == (
            sources,
            SourceStepView::Failed(
                if sources.drm_count > 0 {
                    all_drm_error(sources.total_hls)
                } else if sources.last_error is Some {
                    sources.last_error->0
                } else {
                    "no download source available"@
                },
            ),
        ),
{
}

/// A file that was downloaded is the end, and one that was not is no end.
pub proof fn law_files_that_fail_are_passed_over(size: u64, error: Seq<char>)
    ensures
        after_file(Ok(size)) == Some(size),
        after_file(Err(error)) is None,
{
}

/// A stream that was downloaded is the end, and so is any error but DRM, for which the
/// stream is counted as passed over.
pub proof fn law_streams_with_drm_are_passed_over(
    sources: SourcesView,
    size: u64,
    error: Seq<char>,
)
    ensures
        sources.after_hls(Ok(size)) == (sources, Some(Ok::<u64, Seq<char>>(size))),
        !drm_skip(error) ==> sources.after_hls(Err(error)) == (
            sources,
            Some(Err::<u64, Seq<char>>(error)),
        ),
        drm_skip(error) ==> {
            let after = sources.after_hls(Err(error));
            &&& after.1 is None
            &&& after.0.drm_count == sources.drm_count + 1
            &&& after.0.last_error == Some(error)
            &&& after.0.hls == sources.hls
            &&& after.0.mp4 == sources.mp4
            &&& after.0.total_hls == sources.total_hls
        },
{
}

/// The report that all streams have DRM tells how many there are.
pub proof fn law_drm_reports_count_the_streams(total: nat)
    ensures
        has_text(all_drm_error(total), "All "@ + decimal(total) + " HLS stream(s) are DRM-protected"@),
{
    let e = all_drm_error(total);
    let part = "All "@ + decimal(total) + " HLS stream(s) are DRM-protected"@;
    reveal_strlit("All ");
    reveal_strlit(" HLS stream(s) are DRM-protected");
    reveal_strlit(" HLS stream(s) are DRM-protected (CMAF/CBCS \u{2014} Widevine/FairPlay).\n");
    assert(" HLS stream(s) are DRM-protected (CMAF/CBCS \u{2014} Widevine/FairPlay).\n"@.take(
        32,
    ) =~= " HLS stream(s) are DRM-protected"@);
    assert(e.subrange(0, part.len() as int) =~= part);
    assert(stands_at(e, part, 0));
}

/// A stream is complete exactly when it was written, nothing failed and nobody cancelled it.
/// An error of writing comes first, then the cancelling, then a segment that failed.
pub proof fn law_streams_are_settled(error: Option<Seq<char>>, cancelled: bool, failed: bool)
    ensures
        settled(error, cancelled, failed) is Complete <==> error is None && !cancelled && !failed,
        error matches Some(e) ==> settled(error, cancelled, failed) == StreamEndView::WriteFailed(e),
        error is None && cancelled ==> settled(error, cancelled, failed) == StreamEndView::Discard(
            "cancelled"@,
        ),
        error is None && !cancelled && failed ==> settled(error, cancelled, failed)
            == StreamEndView::Discard("one or more segments failed"@),
{
}

/// Work on a download asks for the sources exactly when its turn came and it was not
/// cancelled; then it shows the download as active, and else it reports the failure.
pub proof fn law_work_begins_when_its_turn_comes(
    id: u64,
    lecture_id: u64,
    admitted: bool,
    cancelled: bool,
)
    ensures
        goes_on(admitted, cancelled) <==> admitted && !cancelled,
        admitted && !cancelled ==> {
            let events = first_events(id, lecture_id, admitted, cancelled);
            &&& events.len() == 2
            &&& events[0] == (EventView::DownloadProgress {
                id,
                percent: Progress { started: false, whole: 0 },
            })
            &&& events[1] == EventView::StatusMsg(
                "Fetching stream for lecture "@ + decimal(lecture_id as nat) + "\u{2026}"@,
            )
        },
        !admitted ==> first_events(id, lecture_id, admitted, cancelled) == seq![
            EventView::DownloadFailed { id, error: "download semaphore closed"@ },
        ],
{
}

/// What was fetched is tried, unless the download was cancelled meanwhile; an error is
/// reported as it is, for the same download.
pub proof fn law_fetched_sources_are_tried(
    id: u64,
    stream: StreamView,
    error: Seq<char>,
    cancelled: bool,
)
    ensures
        sources_to_try(id, Ok(stream), false) == Ok::<SourcesView, EventView>(
            SourcesView::start(stream),
        ),
        sources_to_try(id, Ok(stream), true) == Err::<SourcesView, EventView>(
            EventView::DownloadFailed { id, error: "cancelled"@ },
        ),
        sources_to_try(id, Err(error), cancelled) == Err::<SourcesView, EventView>(
            EventView::DownloadFailed { id, error },
        ),
{
}

/// The end of a download is reported as what it is, for the same download.
pub proof fn law_the_end_of_a_download_is_reported(id: u64, size: u64, error: Seq<char>)
    ensures
        last_event(id, Ok(size)) == (EventView::DownloadDone { id }),
        last_event(id, Err(error)) == (EventView::DownloadFailed { id, error }),
{
}

} // verus!
