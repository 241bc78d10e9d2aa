//! Downloading a file as it is: in one go, or in chunks side by side.

use crate::api::{is_success, success_code};
use crate::cookie::{header_views, push_header};
use crate::text::{
    contains_text, decimal, digits_value, has_text, law_parts_are_found, lemma_decimal_value,
    opt_text, push_decimal, stands_at,
};
use vstd::prelude::*;
use vstd::string::*;

verus! {

/// The size of a chunk: 10 MiB.
pub const CHUNK_SIZE: u64 = 10_485_760;

/// Files below this size are downloaded in one go.
pub const CHUNK_THRESHOLD: u64 = 10_485_760;

/// How many chunks are downloaded side by side.
pub const MAX_PARALLEL_CHUNKS: usize = 6;

// --------------------------------------------------------------------- probing

/// What a server says of a file before it is downloaded.
#[derive(Clone, Copy, Debug, PartialEq, Eq, Structural)]
pub struct ProbeResult {
    pub content_length: Option<u64>,
    /// Whether parts of the file can be asked for.
    pub accept_ranges: bool,
}

/// The answer to a request for the headers of a file.
#[derive(Debug)]
pub struct HeadAnswer {
    /// The HTTP status code.
    pub code: u16,
    pub content_length: Option<u64>,
    /// The header `Accept-Ranges`.
    pub accept_ranges: Option<String>,
}

/// Whether a header is there and has `part` in it.
pub open spec fn header_has(header: Option<Seq<char>>, part: Seq<char>) -> bool {
    match header {
        Some(value) => has_text(value, part),
        None => false,
    }
}

fn header_contains(header: &Option<String>, part: &str) -> (found: bool)
    ensures
        found == header_has(opt_text(*header), part@),
{
    match header {
        Some(value) => contains_text(value.as_str(), part),
        None => false,
    }
}

/// What a server says of a file in its answer: the status code, the length, and the header
/// `Accept-Ranges`.
pub open spec fn probed(code: u16, length: Option<u64>, ranges: Option<Seq<char>>) -> ProbeResult {
    if success_code(code) {
        ProbeResult { content_length: length, accept_ranges: header_has(ranges, "bytes"@) }
    } else {
        ProbeResult { content_length: None, accept_ranges: false }
    }
}

/// A length is known exactly where a successful answer announces it, and parts can be asked
/// for exactly where a successful answer has `bytes` in its header.
pub proof fn law_probes_tell_what_was_announced(
    code: u16,
    length: Option<u64>,
    before: Seq<char>,
    after: Seq<char>,
    other: Seq<char>,
)
    requires
        !has_text(other, "bytes"@),
    ensures
        code as int / 100 == 2 ==> {
            &&& probed(code, length, Some(before + "bytes"@ + after)) == (ProbeResult {
                content_length: length,
                accept_ranges: true,
            })
            &&& probed(code, length, Some(other)) == (ProbeResult {
                content_length: length,
                accept_ranges: false,
            })
            &&& probed(code, length, None) == (ProbeResult {
                content_length: length,
                accept_ranges: false,
            })
        },
        code as int / 100 != 2 ==> forall|ranges: Option<Seq<char>>|
            (#[trigger] probed(code, length, ranges)) == (ProbeResult {
                content_length: None,
                accept_ranges: false,
            }),
{
    let header = before + "bytes"@ + after;
    let i = before.len() as int;
    assert(header.subrange(i, i + "bytes"@.len()) =~= "bytes"@);
    assert(stands_at(header, "bytes"@, i));
}

/// What is known of a file after a request for its headers.
pub open spec fn probe_of(answer: Option<HeadAnswer>) -> ProbeResult {
    match answer {
        Some(a) => probed(a.code, a.content_length, opt_text(a.accept_ranges)),
        None => ProbeResult { content_length: None, accept_ranges: false },
    }
}

/// Without an answer nothing is known of a file, and with one what it announces, so that it
/// is downloaded in one go unless an answer allows otherwise.
pub proof fn law_without_an_answer_nothing_is_known(answer: HeadAnswer)
    ensures
        probe_of(None).content_length is None,
        !probe_of(None).accept_ranges,
        probe_of(None).chunked_size() is None,
        answer.code as int / 100 == 2 ==> probe_of(Some(answer)).content_length
            == answer.content_length,
        answer.code as int / 100 != 2 ==> probe_of(Some(answer)).chunked_size() is None,
        answer.accept_ranges is None ==> probe_of(Some(answer)).chunked_size() is None,
{
}

/// Reads what a server says of a file. Where there is no answer, or none that means
/// success, nothing is known of the file.
pub fn read_probe(answer: &Option<HeadAnswer>) -> (probe: ProbeResult)
    ensures
        answer matches Some(a) ==> probe == probed(
            a.code,
            a.content_length,
            opt_text(a.accept_ranges),
        ),
        match answer {
            Some(a) => if success_code(a.code) {
                probe.content_length == a.content_length && probe.accept_ranges == header_has(
                    opt_text(a.accept_ranges),
                    "bytes"@,
                )
            } else {
                probe == (ProbeResult { content_length: None, accept_ranges: false })
            },
            None => probe == (ProbeResult { content_length: None, accept_ranges: false }),
        },
        probe == probe_of(*answer),
{
    if let Some(a) = answer {
        if is_success(a.code) {
            return ProbeResult {
                content_length: a.content_length,
                accept_ranges: header_contains(&a.accept_ranges, "bytes"),
            };
        }
    }
    ProbeResult { content_length: None, accept_ranges: false }
}

impl ProbeResult {
    /// The size of the file, where it is to be downloaded in chunks.
    pub open spec fn chunked_size(self) -> Option<u64> {
        match self.content_length {
            Some(size) => if self.accept_ranges && size >= CHUNK_THRESHOLD {
                Some(size)
            } else {
                None
            },
            None => None,
        }
    }

    /// Gives the size of the file, where it is to be downloaded in chunks.
    pub fn use_chunked(&self) -> (size: Option<u64>)
        ensures
            size == self.chunked_size(),
            size matches Some(n) ==> self.content_length == Some(n),
            size is Some <==> self.accept_ranges && self.content_length is Some
                && self.content_length->0 >= CHUNK_THRESHOLD,
    {
        match self.content_length {
            Some(size) => if self.accept_ranges && size >= CHUNK_THRESHOLD {
                Some(size)
            } else {
                None
            },
            None => None,
        }
    }
}

// ---------------------------------------------------------------------- chunks

/// How many chunks a file of `total` bytes has.
pub open spec fn chunk_count(total: u64) -> nat {
    ((total + CHUNK_SIZE - 1) / CHUNK_SIZE as int) as nat
}

/// Chunk `i` of a file of `total` bytes: its first byte and its last one.
pub open spec fn chunk(total: u64, i: int) -> (u64, u64) {
    (
        (i * CHUNK_SIZE) as u64,
        if (i + 1) * CHUNK_SIZE <= total {
            ((i + 1) * CHUNK_SIZE - 1) as u64
        } else {
            (total - 1) as u64
        },
    )
}

/// Cuts a file of `total` bytes into chunks.
pub fn plan_chunks(total: u64) -> (chunks: Vec<(u64, u64)>)
    ensures
        chunks@ == Seq::new(chunk_count(total), |i: int| chunk(total, i)),
{
    let mut chunks: Vec<(u64, u64)> = Vec::new();
    let mut start: u64 = 0;
    while start < total
        invariant
            start == chunks.len() * CHUNK_SIZE || (start == total && chunks.len() == chunk_count(
                total,
            )),
            start <= total,
            chunks.len() <= chunk_count(total),
            chunks@ == Seq::new(chunks@.len(), |i: int| chunk(total, i)),
        decreases total - start,
    {
        let ghost i = chunks@.len() as int;
        let (end, next): (u64, u64) = if total - start > CHUNK_SIZE {
            (start + (CHUNK_SIZE - 1), start + CHUNK_SIZE)
        } else {
            (total - 1, total)
        };
        chunks.push((start, end));
        assert(chunks@ =~= Seq::new(chunks@.len(), |i: int| chunk(total, i)));
        start = next;
    }
    chunks
}

/// The chunks of a file follow on each other from its first byte to its last one, and
/// none is empty or larger than a chunk may be.
pub proof fn law_chunks_follow_on_each_other(total: u64, i: int)
    requires
        0 <= i < chunk_count(total),
    ensures
        chunk(total, 0).0 == 0,
        chunk(total, i).0 <= chunk(total, i).1 < total,
        chunk(total, i).1 - chunk(total, i).0 < CHUNK_SIZE,
        i + 1 < chunk_count(total) ==> chunk(total, i + 1).0 == chunk(total, i).1 + 1,
        i + 1 == chunk_count(total) ==> chunk(total, i).1 == total - 1,
{
}

/// Whether the byte `p` lies in a chunk.
pub open spec fn lies_in(p: u64, c: (u64, u64)) -> bool {
    c.0 <= p <= c.1
}

/// Every byte of a file lies in exactly one chunk.
pub proof fn law_every_byte_is_in_one_chunk(total: u64, p: u64, i: int)
    requires
        p < total,
        0 <= i < chunk_count(total),
    ensures
        lies_in(p, chunk(total, i)) <==> i == p / CHUNK_SIZE,
        p / CHUNK_SIZE < chunk_count(total),
{
}

/// A file is cut into chunks by the size that the server gave for it, and exactly where the
/// server takes requests for parts and the file has 10 MiB or more. Every byte of the file
/// then lies in a chunk, every chunk lies in the file, and all but the last one have
/// 10 MiB.
pub proof fn law_chunks_cover_the_announced_file(probe: ProbeResult, p: u64, i: int)
    ensures
        probe.chunked_size() is Some <==> probe.accept_ranges && probe.content_length is Some
            && probe.content_length->0 >= 10 * 1024 * 1024,
        probe.chunked_size() matches Some(n) ==> {
            &&& probe.content_length == Some(n)
            &&& p < n ==> exists|k: int|
                0 <= k < chunk_count(n) && #[trigger] chunk(n, k).0 <= p && p <= chunk(n, k).1
            &&& 0 <= i < chunk_count(n) ==> chunk(n, i).0 <= chunk(n, i).1 < n
            &&& 0 <= i && i + 1 < chunk_count(n) ==> chunk(n, i).1 - chunk(n, i).0 + 1 == 10 * 1024
                * 1024
        },
{
    if let Some(n) = probe.content_length {
        if p < n {
            let k = p as int / CHUNK_SIZE as int;
            assert(chunk(n, k).0 <= p && p <= chunk(n, k).1);
        }
    }
}

/// What asks for the bytes from `start` to `end`.
pub open spec fn range_text(start: u64, end: u64) -> Seq<char> {
    "bytes="@ + decimal(start as nat) + "-"@ + decimal(end as nat)
}

/// What asks for the bytes from `start` on, unless that is the whole file.
pub open spec fn resume_text(start: u64) -> Option<Seq<char>> {
    if start == 0 {
        None
    } else {
        Some("bytes="@ + decimal(start as nat) + "-"@)
    }
}

/// The header that asks for the bytes from `start` to `end`.
pub fn range_header(start: u64, end: u64) -> (range: String)
    ensures
        range@ == "bytes="@ + decimal(start as nat) + "-"@ + decimal(end as nat),
        range@ == range_text(start, end),
{
    let mut range = "bytes=".to_owned();
    push_decimal(&mut range, start);
    range.append("-");
    push_decimal(&mut range, end);
    range
}

/// The header that asks for the bytes from `start` on. For the whole file there is none.
pub fn resume_header(start: u64) -> (range: Option<String>)
    ensures
        opt_text(range) == if start > 0 {
            Some("bytes="@ + decimal(start as nat) + "-"@)
        } else {
            None
        },
        opt_text(range) == resume_text(start),
{
    if start == 0 {
        return None;
    }
    let mut range = "bytes=".to_owned();
    push_decimal(&mut range, start);
    range.append("-");
    Some(range)
}

/// How the work on a chunk came to an end.
#[derive(Debug)]
pub enum ChunkOutcome {
    Done,
    Failed(String),
    /// The work was broken off, for a reason in words.
    Panicked(String),
}

/// The error when the work on a chunk has come to an end, where it is none to go on
/// after.
pub open spec fn chunk_error(cancelled: bool, outcome: ChunkOutcome) -> Option<Seq<char>> {
    if cancelled {
        Some("cancelled"@)
    } else {
        match outcome {
            ChunkOutcome::Done => None,
            ChunkOutcome::Failed(error) => Some(error@),
            ChunkOutcome::Panicked(reason) => Some("chunk task panicked: "@ + reason@),
        }
    }
}

/// Decides whether to go on when the work on a chunk has come to an end. If not, the
/// other chunks are given up, and the file is removed.
pub fn settle_chunk(cancelled: bool, outcome: ChunkOutcome) -> (go_on: Result<(), String>)
    ensures
        match chunk_error(cancelled, outcome) {
            Some(error) => go_on matches Err(e) && e@ == error,
            None => go_on is Ok,
        },
{
    if cancelled {
        return Err("cancelled".to_owned());
    }
    match outcome {
        ChunkOutcome::Done => Ok(()),
        ChunkOutcome::Failed(error) => Err(error),
        ChunkOutcome::Panicked(reason) => {
            let mut e = "chunk task panicked: ".to_owned();
            e.append(reason.as_str());
            Err(e)
        },
    }
}

/// `file` with the bytes of chunk `i` of `content` written over its own.
pub open spec fn with_chunk(file: Seq<u8>, content: Seq<u8>, i: int) -> Seq<u8> {
    let c = chunk(content.len() as u64, i);
    file.take(c.0 as int) + content.subrange(c.0 as int, c.1 + 1) + file.skip(c.1 + 1)
}

/// `file` with chunks of `content` written over it, one after the other.
pub open spec fn with_chunks(file: Seq<u8>, content: Seq<u8>, order: Seq<int>) -> Seq<u8>
    decreases order.len(),
{
    if order.len() == 0 {
        file
    } else {
        with_chunk(with_chunks(file, content, order.drop_last()), content, order.last())
    }
}

/// A file of the right size becomes the whole content when every chunk was written over
/// it, in whatever order that happens.
pub proof fn law_chunks_make_the_file(file: Seq<u8>, content: Seq<u8>, order: Seq<int>)
    requires
        content.len() <= u64::MAX,
        file.len() == content.len(),
        forall|k: int|
            0 <= k < order.len() ==> 0 <= #[trigger] order[k] < chunk_count(content.len() as u64),
        forall|i: int| 0 <= i < chunk_count(content.len() as u64) ==> order.contains(i),
    ensures
        with_chunks(file, content, order) == content,
{
    let total = content.len() as u64;
    let made = with_chunks(file, content, order);
    lemma_with_chunks(file, content, order);
    assert forall|p: int| 0 <= p < content.len() implies made[p] == content[p] by {
        let i = p / CHUNK_SIZE as int;
        law_every_byte_is_in_one_chunk(total, p as u64, i);
        assert(order.contains(i));
        let k = choose|k: int| 0 <= k < order.len() && order[k] == i;
        assert(lies_in(p as u64, chunk(total, order[k])));
    }
    assert(made =~= content);
}

proof fn lemma_with_chunks(file: Seq<u8>, content: Seq<u8>, order: Seq<int>)
    requires
        content.len() <= u64::MAX,
        file.len() == content.len(),
        forall|k: int|
            0 <= k < order.len() ==> 0 <= #[trigger] order[k] < chunk_count(content.len() as u64),
    ensures
        with_chunks(file, content, order).len() == content.len(),
        forall|p: int, k: int|
            0 <= p < content.len() && 0 <= k < order.len() && lies_in(
                p as u64,
                chunk(content.len() as u64, #[trigger] order[k]),
            ) ==> #[trigger] with_chunks(file, content, order)[p] == content[p],
    decreases order.len(),
{
    if order.len() > 0 {
        let total = content.len() as u64;
        let before = order.drop_last();
        let last = order.last();
        assert forall|k: int| 0 <= k < before.len() implies 0 <= #[trigger] before[k]
            < chunk_count(total) by {
            assert(before[k] == order[k]);
        }
        lemma_with_chunks(file, content, before);
        assert(order[order.len() - 1] == last);
        law_chunks_follow_on_each_other(total, last);
        let old_made = with_chunks(file, content, before);
        let made = with_chunks(file, content, order);
        let c = chunk(total, last);
        assert forall|p: int| 0 <= p < content.len() implies #[trigger] made[p] == if lies_in(
            p as u64,
            c,
        ) {
            content[p]
        } else {
            old_made[p]
        } by {}
        assert forall|p: int, k: int|
            0 <= p < content.len() && 0 <= k < order.len() && lies_in(
                p as u64,
                chunk(total, #[trigger] order[k]),
            ) implies #[trigger] made[p] == content[p] by {
            if k < before.len() {
                assert(before[k] == order[k]);
                assert(old_made[p] == content[p]);
            }
        }
    }
}

// ------------------------------------------------------------------- one stream

/// The error for an answer to the request for a file, where it is none that can be
/// saved: `status` is the status in words.
pub open spec fn stream_error(
    code: u16,
    status: Seq<char>,
    content_type: Option<Seq<char>>,
) -> Option<Seq<char>> {
    if !success_code(code) {
        Some("HTTP "@ + status)
    } else if header_has(content_type, "text/html"@) {
        Some("server returned HTML \u{2014} URL may have expired"@)
    } else {
        None
    }
}

/// Checks the answer to the request for a file.
pub fn check_stream(code: u16, status: &str, content_type: &Option<String>) -> (outcome: Result<
    (),
    String,
>)
    ensures
        match stream_error(code, status@, opt_text(*content_type)) {
            Some(error) => outcome matches Err(e) && e@ == error,
            None => outcome is Ok,
        },
{
    if !is_success(code) {
        let mut e = "HTTP ".to_owned();
        e.append(status);
        return Err(e);
    }
    if header_contains(content_type, "text/html") {
        return Err("server returned HTML \u{2014} URL may have expired".to_owned());
    }
    Ok(())
}

/// A file while it comes in piece by piece.
#[derive(Clone, Copy, Debug, PartialEq, Eq, Structural)]
pub struct Transfer {
    /// How many bytes are there.
    pub done: u64,
    /// How many there will be, where this is known.
    pub total: Option<u64>,
}

/// What comes in next.
#[derive(Debug)]
pub enum Arrival {
    /// A piece of this length.
    Piece(usize),
    /// The connection broke, with this error.
    Broken(String),
    /// The file is complete.
    End,
    /// Nothing came for too long.
    Silence,
}

/// What to do after an arrival.
#[derive(Debug)]
pub enum TransferStep {
    /// Write the piece; where a size is given, report the share of it that is done.
    Write { report: Option<u64> },
    /// The file is complete.
    Finish,
    /// Report this error.
    Fail(String),
}

/// What a [`TransferStep`] holds.
pub enum TransferStepView {
    Write { report: Option<u64> },
    Finish,
    Fail(Seq<char>),
}

impl View for TransferStep {
    type V = TransferStepView;

    open spec fn view(&self) -> TransferStepView {
        match self {
            TransferStep::Write { report } => TransferStepView::Write { report: *report },
            TransferStep::Finish => TransferStepView::Finish,
            TransferStep::Fail(e) => TransferStepView::Fail(e@),
        }
    }
}

impl Transfer {
    /// What to do after an arrival.
    pub open spec fn step_after(self, arrival: Arrival) -> TransferStepView {
        match arrival {
            Arrival::Piece(_) => TransferStepView::Write { report: self.known_size() },
            Arrival::Broken(error) => TransferStepView::Fail(error@),
            Arrival::End => TransferStepView::Finish,
            Arrival::Silence => TransferStepView::Fail("timeout \u{2014} no data for 60 s"@),
        }
    }

    /// The size of the file, where it is known and not 0.
    pub open spec fn known_size(self) -> Option<u64> {
        match self.total {
            Some(t) => if t > 0 {
                Some(t)
            } else {
                None
            },
            None => None,
        }
    }

    /// Whether the count of the bytes stays within its range after an arrival.
    pub open spec fn can_take(self, arrival: Arrival) -> bool {
        arrival matches Arrival::Piece(n) ==> self.done + n <= u64::MAX
    }

    /// After a piece of `n` bytes.
    pub open spec fn grown(self, n: usize) -> Transfer {
        Transfer { done: (self.done + n) as u64, total: self.total }
    }

    /// Decides what to do after an arrival.
    pub fn take(&mut self, arrival: Arrival) -> (step: TransferStep)
        requires
            old(self).can_take(arrival),
        ensures
            arrival matches Arrival::Piece(n) ==> *final(self) == old(self).grown(n),
            arrival !is Piece ==> *final(self) == *old(self),
            final(self).total == old(self).total,
            final(self).done == match arrival {
                Arrival::Piece(n) => old(self).done + n,
                _ => old(self).done as int,
            },
            match arrival {
                Arrival::Piece(_) => step == (TransferStep::Write {
                    report: old(self).known_size(),
                }),
                Arrival::Broken(error) => step matches TransferStep::Fail(e) && e@ == error@,
                Arrival::End => step is Finish,
                Arrival::Silence => step matches TransferStep::Fail(e) && e@
                    == "timeout \u{2014} no data for 60 s"@,
            },
            step@ == old(self).step_after(arrival),
    {
        match arrival {
            Arrival::Piece(n) => {
                self.done = self.done + n as u64;
                TransferStep::Write {
                    report: match self.total {
                        Some(t) => if t > 0 {
                            Some(t)
                        } else {
                            None
                        },
                        None => None,
                    },
                }
            },
            Arrival::Broken(error) => TransferStep::Fail(error),
            Arrival::End => TransferStep::Finish,
            Arrival::Silence => TransferStep::Fail(
                "timeout \u{2014} no data for 60 s".to_owned(),
            ),
        }
    }
}

/// The browser that files and streams are asked for as.
pub open spec fn browser() -> Seq<char> {
    "Mozilla/5.0 (X11; Linux x86_64) AppleWebKit/537.36 "@
        + "(KHTML, like Gecko) Chrome/131.0.0.0 Safari/537.36"@
}

/// What files and streams are asked for with.
pub open spec fn file_headers(referer: Seq<char>) -> Seq<(Seq<char>, Seq<char>)> {
    seq![("user-agent"@, browser()), ("referer"@, referer)]
}

/// The headers to ask for a file or a stream with: their names and values.
pub fn download_headers(referer: &str) -> (headers: Vec<(String, String)>)
    ensures
        header_views(headers@) == seq![("user-agent"@, browser()), ("referer"@, referer@)],
        header_views(headers@) == file_headers(referer@),
{
    let mut agent = "Mozilla/5.0 (X11; Linux x86_64) AppleWebKit/537.36 ".to_owned();
    agent.append("(KHTML, like Gecko) Chrome/131.0.0.0 Safari/537.36");
    let mut headers: Vec<(String, String)> = Vec::new();
    push_header(&mut headers, "user-agent", agent.as_str());
    push_header(&mut headers, "referer", referer);
    assert(header_views(headers@) =~= seq![("user-agent"@, browser()), ("referer"@, referer@)]);
    headers
}

/// Whether a file of `actual` bytes is what was announced.
pub open spec fn size_accepted(expected: Option<u64>, actual: u64) -> bool {
    match expected {
        Some(size) => size == 0 || size == actual,
        None => true,
    }
}

/// A file that is shorter or longer than was announced is refused, and a file of the
/// announced size never is. Nothing is announced by a size of 0.
pub proof fn law_files_have_the_announced_size(announced: u64, actual: u64)
    ensures
        size_accepted(Some(announced), announced),
        announced > 0 && actual < announced ==> !size_accepted(Some(announced), actual),
        announced > 0 && actual > announced ==> !size_accepted(Some(announced), actual),
        size_accepted(Some(0), actual),
        size_accepted(None, actual),
{
}

/// What is said of a file that does not have the announced size.
pub open spec fn size_error(expected: u64, actual: u64) -> Seq<char> {
    "size mismatch: expected "@ + decimal(expected as nat) + " bytes, got "@ + decimal(
        actual as nat,
    )
}

/// Checks the size of a file that was downloaded, where a size is known that is not 0.
pub fn check_size(expected: Option<u64>, actual: u64) -> (outcome: Result<(), String>)
    ensures
        outcome is Ok <==> size_accepted(expected, actual),
        outcome is Ok <==> match expected {
            Some(size) => size == 0 || size == actual,
            None => true,
        },
        outcome matches Err(e) ==> e@ == "size mismatch: expected "@ + decimal(expected->0 as nat)
            + " bytes, got "@ + decimal(actual as nat),
        outcome matches Err(e) ==> e@ == size_error(expected->0, actual),
{
    if let Some(size) = expected {
        if size > 0 && actual != size {
            let mut e = "size mismatch: expected ".to_owned();
            push_decimal(&mut e, size);
            e.append(" bytes, got ");
            push_decimal(&mut e, actual);
            return Err(e);
        }
    }
    Ok(())
}

// ------------------------------------------------------------------------ laws

/// A chunk that is done lets the work go on unless the download was cancelled, and nothing
/// else does.
pub proof fn law_only_finished_chunks_go_on(cancelled: bool, outcome: ChunkOutcome)
    ensures
        chunk_error(cancelled, outcome) is None <==> !cancelled && outcome is Done,
        cancelled ==> chunk_error(cancelled, outcome) == Some("cancelled"@),
        !cancelled ==> (outcome matches ChunkOutcome::Failed(e) ==> chunk_error(cancelled, outcome)
            == Some(e@)),
{
}

/// An answer is saved exactly where its status means success and it is not a web page.
pub proof fn law_web_pages_are_not_saved(
    code: u16,
    status: Seq<char>,
    before: Seq<char>,
    after: Seq<char>,
    other: Seq<char>,
)
    requires
        !has_text(other, "text/html"@),
    ensures
        stream_error(code, status, Some(before + "text/html"@ + after)) is Some,
        stream_error(code, status, Some(other)) is None <==> code as int / 100 == 2,
        stream_error(code, status, None) is None <==> code as int / 100 == 2,
        code as int / 100 != 2 ==> stream_error(code, status, Some(other)) == Some(
            "HTTP "@ + status,
        ),
{
    let header = before + "text/html"@ + after;
    let i = before.len() as int;
    assert(header.subrange(i, i + "text/html"@.len()) =~= "text/html"@);
    assert(stands_at(header, "text/html"@, i));
}

/// Every byte that comes in is counted once, however a file is cut into pieces.
pub proof fn law_bytes_are_counted_once(transfer: Transfer, a: usize, b: usize)
    requires
        transfer.done + a + b <= u64::MAX,
    ensures
        transfer.grown(a).grown(b).done == transfer.done + a + b,
        transfer.grown(a).grown(b).total == transfer.total,
{
}

/// The size that shares are reported of is the size that was announced, unless that is 0.
pub proof fn law_shares_are_of_the_announced_size(done: u64, total: u64)
    ensures
        (Transfer { done, total: Some(total) }).known_size() == if total == 0 {
            None
        } else {
            Some(total)
        },
        (Transfer { done, total: None }).known_size() is None,
{
}

/// The headers that ask for a part of a file name its first and its last byte, and those
/// that ask for the rest of it the first byte alone; the whole file needs no header.
pub proof fn law_ranges_name_their_bytes(start: u64, end: u64) -> (bytes: (Seq<char>, Seq<char>))
    ensures
        range_text(start, end) == "bytes="@ + bytes.0 + "-"@ + bytes.1,
        digits_value(bytes.0) == Some(start as nat),
        digits_value(bytes.1) == Some(end as nat),
        start > 0 ==> resume_text(start) == Some("bytes="@ + bytes.0 + "-"@),
        start == 0 ==> resume_text(start) is None,
{
    lemma_decimal_value(start as nat);
    lemma_decimal_value(end as nat);
    (decimal(start as nat), decimal(end as nat))
}

/// A piece is written, the end is the end, and anything else is an error, told as it came.
pub proof fn law_pieces_are_written(transfer: Transfer, n: usize, error: String)
    ensures
        transfer.step_after(Arrival::Piece(n)) == (TransferStepView::Write {
            report: if transfer.total is None || transfer.total->0 == 0 {
                None
            } else {
                transfer.total
            },
        }),
        transfer.step_after(Arrival::End) is Finish,
        transfer.step_after(Arrival::Broken(error)) == TransferStepView::Fail(error@),
        transfer.step_after(Arrival::Silence) == TransferStepView::Fail(
            "timeout \u{2014} no data for 60 s"@,
        ),
{
}

/// Files are asked for with the page of their lecture, as a browser does.
pub proof fn law_files_are_asked_for_with_their_page(referer: Seq<char>)
    ensures
        file_headers(referer).len() == 2,
        file_headers(referer)[0].0 == "user-agent"@,
        has_text(file_headers(referer)[0].1, "Mozilla/5.0 (X11; Linux x86_64) AppleWebKit/537.36 "@),
        file_headers(referer)[1] == ("referer"@, referer),
{
    let start = "Mozilla/5.0 (X11; Linux x86_64) AppleWebKit/537.36 "@;
    let rest = "(KHTML, like Gecko) Chrome/131.0.0.0 Safari/537.36"@;
    law_parts_are_found(seq![], start, rest);
    assert(seq![] + start + rest =~= browser());
}

/// What is said of a file with another size tells both sizes, the announced one first.
pub proof fn law_other_sizes_are_told(expected: u64, actual: u64)
    ensures
        size_error(expected, actual) == "size mismatch: expected "@ + decimal(expected as nat)
            + " bytes, got "@ + decimal(actual as nat),
{
}

/// The work on a chunk that was broken off is told with the reason.
pub proof fn law_broken_off_chunks_are_told(reason: String)
    ensures
        chunk_error(false, ChunkOutcome::Panicked(reason)) == Some(
            "chunk task panicked: "@ + reason@,
        ),
{
}

/// A piece can be taken as long as the count of the bytes stays within 64 bits, and anything
/// else always can.
pub proof fn law_pieces_can_be_counted(transfer: Transfer, n: usize, error: String)
    ensures
        transfer.can_take(Arrival::Piece(n)) <==> transfer.done + n < 0x1_0000_0000_0000_0000,
        transfer.can_take(Arrival::End),
        transfer.can_take(Arrival::Silence),
        transfer.can_take(Arrival::Broken(error)),
{
}

} // verus!
