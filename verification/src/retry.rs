//! Repeating requests that fail.

use crate::api::{is_success, success_code};
use crate::text::{decimal, opt_text, push_decimal};
use vstd::arithmetic::power2::{
    lemma2_to64, lemma2_to64_rest, lemma_pow2_pos, lemma_pow2_strictly_increases, lemma_pow2_unfold, pow2,
};
use vstd::prelude::*;
use vstd::string::*;

verus! {

/// How often a playlist, a segment or a part of a file is asked for.
pub const MAX_RETRIES: u32 = 5;

/// How often a key is asked for.
pub const KEY_RETRIES: u32 = 3;

// --------------------------------------------------------------------- waiting

/// `ms`, or the longest wait there is.
pub open spec fn at_most_longest(ms: int) -> int {
    if ms <= u64::MAX {
        ms
    } else {
        u64::MAX as int
    }
}

/// The shortest time to wait before an attempt, in milliseconds: it doubles from one
/// attempt to the next.
pub open spec fn base_wait(attempt: u32) -> int {
    at_most_longest(500int * pow2(attempt as nat))
}

proof fn lemma_pow2_fits(attempt: u32)
    requires
        attempt <= 54,
    ensures
        500 * pow2(attempt as nat) + 250 * pow2(attempt as nat) <= u64::MAX,
{
    lemma2_to64_rest();
    if attempt < 54 {
        lemma_pow2_strictly_increases(attempt as nat, 54);
    }
}

fn shortest_wait(attempt: u32) -> (ms: u64)
    ensures
        ms == base_wait(attempt),
{
    let mut ms: u64 = 500;
    let mut k: u32 = 0;
    proof {
        lemma2_to64();
    }
    while k < attempt && ms <= u64::MAX / 2
        invariant
            k <= attempt,
            ms == 500 * pow2(k as nat),
        decreases attempt - k,
    {
        proof {
            lemma_pow2_unfold((k + 1) as nat);
        }
        ms = ms * 2;
        k += 1;
    }
    if k < attempt {
        proof {
            lemma_pow2_unfold((k + 1) as nat);
            if k + 1 < attempt {
                lemma_pow2_strictly_increases((k + 1) as nat, attempt as nat);
            }
        }
        return u64::MAX;
    }
    ms
}

/// The wait before an attempt, for a random number.
pub open spec fn wait_with(attempt: u32, random: u64) -> int {
    at_most_longest(base_wait(attempt) + random as int % (base_wait(attempt) / 2 + 1))
}

/// The time to wait before an attempt, in milliseconds, for a random number: up to half
/// as much again as the shortest time.
pub fn wait_for(attempt: u32, random: u64) -> (ms: u64)
    ensures
        ms == at_most_longest(
            base_wait(attempt) + random as int % (base_wait(attempt) / 2 + 1),
        ),
        attempt <= 54 ==> {
            &&& base_wait(attempt) == 500 * pow2(attempt as nat)
            &&& ms == base_wait(attempt) + random as int % (base_wait(attempt) / 2 + 1)
        },
        base_wait(attempt) <= ms,
        ms <= base_wait(attempt) + base_wait(attempt) / 2,
        ms == wait_with(attempt, random),
{
    let base: u64 = shortest_wait(attempt);
    let jitter: u64 = random % (base / 2 + 1);
    proof {
        if attempt <= 54 {
            lemma_pow2_fits(attempt);
        }
    }
    base.saturating_add(jitter)
}

/// Calls `rand::random`. The result depends on chance, so that nothing is stated of it.
#[verifier::external_body]
fn random_number() -> u64 {
    rand::random::<u64>()
}

/// The time to wait before an attempt, in milliseconds.
pub fn jitter_sleep(attempt: u32) -> (ms: u64)
    ensures
        base_wait(attempt) <= ms,
        ms <= base_wait(attempt) + base_wait(attempt) / 2,
{
    wait_for(attempt, random_number())
}

/// From one attempt to the next the shortest wait doubles, up to the longest wait there
/// is.
pub proof fn law_waits_double(a: u32)
    requires
        a < u32::MAX,
    ensures
        base_wait((a + 1) as u32) == at_most_longest(2 * base_wait(a)),
        a < 55 ==> base_wait((a + 1) as u32) == 2 * base_wait(a),
{
    lemma_pow2_unfold((a + 1) as nat);
    lemma2_to64_rest();
    if a < 54 {
        lemma_pow2_strictly_increases((a + 1) as nat, 55);
    }
}

/// The longest wait before an attempt is shorter than the shortest one before the next
/// attempt.
pub proof fn law_waits_grow(a: u32)
    requires
        a < 55,
    ensures
        base_wait(a) + base_wait(a) / 2 < base_wait((a + 1) as u32),
{
    law_waits_double(a);
    lemma_pow2_pos(a as nat);
}

// -------------------------------------------------------------------- attempts

/// What is asked for.
#[derive(Clone, Copy, Debug, PartialEq, Eq, Structural)]
pub enum FetchKind {
    /// A playlist.
    Text,
    /// A key.
    Bytes,
    /// A segment of a stream.
    Segment,
    /// A part of a file.
    Chunk,
}

/// Why an attempt failed.
#[derive(Debug)]
pub enum Failure {
    /// There was no answer.
    Connect(String),
    /// The answer took too long.
    ConnectTimeout,
    /// The answer has a status that is not asked for: its code, and the status in words.
    Status { code: u16, status: String },
    /// The answer broke off.
    Read(String),
    /// The rest of the answer took too long.
    ReadTimeout,
}

/// What a [`Failure`] holds.
pub enum FailureView {
    Connect(Seq<char>),
    ConnectTimeout,
    Status { code: u16, status: Seq<char> },
    Read(Seq<char>),
    ReadTimeout,
}

impl View for Failure {
    type V = FailureView;

    open spec fn view(&self) -> FailureView {
        match self {
            Failure::Connect(e) => FailureView::Connect(e@),
            Failure::ConnectTimeout => FailureView::ConnectTimeout,
            Failure::Status { code, status } => FailureView::Status {
                code: *code,
                status: status@,
            },
            Failure::Read(e) => FailureView::Read(e@),
            Failure::ReadTimeout => FailureView::ReadTimeout,
        }
    }
}

impl FetchKind {
    /// Whether this is given up when the download is cancelled.
    pub open spec fn heeds_cancel(self) -> bool {
        self == FetchKind::Segment || self == FetchKind::Chunk
    }

    /// Whether there is a limit to the time that the rest of an answer takes.
    pub open spec fn limits_read(self) -> bool {
        self == FetchKind::Segment || self == FetchKind::Chunk
    }

    /// Tells whether there is a limit to the time that the rest of an answer takes.
    pub fn has_read_limit(&self) -> (limited: bool)
        ensures
            limited == self.limits_read(),
    {
        match self {
            FetchKind::Segment | FetchKind::Chunk => true,
            _ => false,
        }
    }

    /// Whether an answer with this status code is what was asked for.
    pub open spec fn wants(self, code: u16) -> bool {
        match self {
            FetchKind::Chunk => code == 206,
            _ => success_code(code),
        }
    }

    /// Tells whether an answer with this status code is what was asked for.
    pub fn accepts(&self, code: u16) -> (wanted: bool)
        ensures
            wanted == self.wants(code),
    {
        match self {
            FetchKind::Chunk => code == 206,
            _ => is_success(code),
        }
    }

    /// The error that a failure is reported as.
    pub open spec fn error_text(self, failure: FailureView) -> Seq<char> {
        match failure {
            FailureView::Connect(e) => e,
            FailureView::ConnectTimeout => match self {
                FetchKind::Chunk => "timeout connecting"@,
                _ => "timeout"@,
            },
            FailureView::Status { code, status } => match self {
                FetchKind::Segment => "HTTP "@ + decimal(code as nat),
                _ => "HTTP "@ + status,
            },
            FailureView::Read(e) => e,
            FailureView::ReadTimeout => match self {
                FetchKind::Chunk => "timeout reading chunk"@,
                _ => "segment read timeout"@,
            },
        }
    }

    /// Whether there is no point in another attempt after a failure: the server refuses
    /// what is asked for. A segment is asked for again where there were too many
    /// requests.
    pub open spec fn is_final(self, failure: FailureView) -> bool {
        match failure {
            FailureView::Status { code, .. } => match self {
                FetchKind::Segment => 400 <= code < 500 && code != 429,
                FetchKind::Chunk => 400 <= code < 500,
                _ => false,
            },
            _ => false,
        }
    }

    /// The error where there was not a single attempt.
    pub open spec fn no_attempt_text(self, retries: u32) -> Seq<char> {
        match self {
            FetchKind::Text => "fetch failed after "@ + decimal(retries as nat) + " attempts"@,
            FetchKind::Bytes => "fetch_bytes failed"@,
            FetchKind::Segment => "segment failed after "@ + decimal(retries as nat)
                + " attempts"@,
            FetchKind::Chunk => "chunk failed after "@ + decimal(retries as nat) + " attempts"@,
        }
    }

    fn no_attempt(&self, retries: u32) -> (error: String)
        ensures
            error@ == self.no_attempt_text(retries),
    {
        let mut error = match self {
            FetchKind::Text => "fetch failed after ".to_owned(),
            FetchKind::Bytes => return "fetch_bytes failed".to_owned(),
            FetchKind::Segment => "segment failed after ".to_owned(),
            FetchKind::Chunk => "chunk failed after ".to_owned(),
        };
        push_decimal(&mut error, retries as u64);
        error.append(" attempts");
        error
    }

    fn error_of(&self, failure: Failure) -> (error: String)
        ensures
            error@ == self.error_text(failure@),
    {
        match failure {
            Failure::Connect(e) => e,
            Failure::ConnectTimeout => match self {
                FetchKind::Chunk => "timeout connecting".to_owned(),
                _ => "timeout".to_owned(),
            },
            Failure::Status { code, status } => {
                let mut error = "HTTP ".to_owned();
                match self {
                    FetchKind::Segment => push_decimal(&mut error, code as u64),
                    _ => error.append(status.as_str()),
                }
                error
            },
            Failure::Read(e) => e,
            Failure::ReadTimeout => match self {
                FetchKind::Chunk => "timeout reading chunk".to_owned(),
                _ => "segment read timeout".to_owned(),
            },
        }
    }

    fn gives_up_after(&self, failure: &Failure) -> (final_one: bool)
        ensures
            final_one == self.is_final(failure@),
    {
        match failure {
            Failure::Status { code, .. } => match self {
                FetchKind::Segment => 400 <= *code && *code < 500 && *code != 429,
                FetchKind::Chunk => 400 <= *code && *code < 500,
                _ => false,
            },
            _ => false,
        }
    }
}

/// The attempts to fetch something.
#[derive(Debug)]
pub struct Retry {
    pub kind: FetchKind,
    /// How many attempts there are at most.
    pub retries: u32,
    /// How many attempts are over.
    pub attempt: u32,
    /// The error of the last attempt.
    pub last_error: Option<String>,
}

/// What a [`Retry`] holds.
#[verifier::ext_equal]
pub struct RetryView {
    pub kind: FetchKind,
    pub retries: u32,
    pub attempt: u32,
    pub last_error: Option<Seq<char>>,
}

impl View for Retry {
    type V = RetryView;

    open spec fn view(&self) -> RetryView {
        RetryView {
            kind: self.kind,
            retries: self.retries,
            attempt: self.attempt,
            last_error: opt_text(self.last_error),
        }
    }
}

/// What to do next.
#[derive(Debug)]
pub enum NextStep {
    /// Send the request; where `wait` is given, after the time that [`jitter_sleep`]
    /// gives for it.
    Request { wait: Option<u32> },
    /// Report this error.
    GiveUp(String),
}

/// What a [`NextStep`] holds.
pub enum StepView {
    Request { wait: Option<u32> },
    GiveUp(Seq<char>),
}

impl View for NextStep {
    type V = StepView;

    open spec fn view(&self) -> StepView {
        match self {
            NextStep::Request { wait } => StepView::Request { wait: *wait },
            NextStep::GiveUp(e) => StepView::GiveUp(e@),
        }
    }
}

impl RetryView {
    /// Before the first attempt.
    pub open spec fn start(kind: FetchKind, retries: u32) -> RetryView {
        RetryView { kind, retries, attempt: 0, last_error: None }
    }

    /// What to do next.
    pub open spec fn step(self, cancelled: bool) -> StepView {
        if self.attempt >= self.retries {
            StepView::GiveUp(
                match self.last_error {
                    Some(e) => e,
                    None => self.kind.no_attempt_text(self.retries),
                },
            )
        } else if self.kind.heeds_cancel() && cancelled {
            StepView::GiveUp("cancelled"@)
        } else {
            StepView::Request {
                wait: if self.attempt > 0 {
                    Some(self.attempt)
                } else {
                    None
                },
            }
        }
    }

    /// After an attempt that failed.
    pub open spec fn after(self, failure: FailureView) -> RetryView {
        RetryView {
            attempt: if self.kind.is_final(failure) {
                self.retries
            } else {
                (self.attempt + 1) as u32
            },
            last_error: Some(self.kind.error_text(failure)),
            ..self
        }
    }
}

impl Retry {
    /// Before the first attempt.
    pub fn new(kind: FetchKind, retries: u32) -> (retry: Self)
        ensures
            retry@ == RetryView::start(kind, retries),
    {
        Retry { kind, retries, attempt: 0, last_error: None }
    }

    /// Tells what to do next.
    pub fn next(&self, cancelled: bool) -> (step: NextStep)
        ensures
            step@ == self@.step(cancelled),
    {
        if self.attempt >= self.retries {
            return NextStep::GiveUp(
                match &self.last_error {
                    Some(e) => e.clone(),
                    None => self.kind.no_attempt(self.retries),
                },
            );
        }
        let heeds: bool = match self.kind {
            FetchKind::Segment | FetchKind::Chunk => true,
            _ => false,
        };
        if heeds && cancelled {
            return NextStep::GiveUp("cancelled".to_owned());
        }
        NextStep::Request {
            wait: if self.attempt > 0 {
                Some(self.attempt)
            } else {
                None
            },
        }
    }

    /// Takes note of a failed attempt. Where there is no limit to the time of reading,
    /// reading does not fail for want of time.
    pub fn failed(&mut self, failure: Failure)
        requires
            old(self).attempt < old(self).retries,
            failure is ReadTimeout ==> old(self).kind.limits_read(),
        ensures
            final(self)@ == old(self)@.after(failure@),
    {
        if self.kind.gives_up_after(&failure) {
            self.attempt = self.retries;
        } else {
            self.attempt = self.attempt + 1;
        }
        self.last_error = Some(self.kind.error_of(failure));
    }
}

/// The state after `failures`, one after the other.
pub open spec fn after_all(kind: FetchKind, retries: u32, failures: Seq<FailureView>) -> RetryView
    decreases failures.len(),
{
    if failures.len() == 0 {
        RetryView::start(kind, retries)
    } else {
        after_all(kind, retries, failures.drop_last()).after(failures.last())
    }
}

/// Whether `failures` can come one after the other: each but the last one lets another
/// attempt be made.
pub open spec fn can_follow(kind: FetchKind, retries: u32, failures: Seq<FailureView>) -> bool
    decreases failures.len(),
{
    failures.len() > 0 ==> {
        &&& can_follow(kind, retries, failures.drop_last())
        &&& after_all(kind, retries, failures.drop_last()).attempt < retries
    }
}

/// There are no more than the allowed number of attempts, and what is reported in the
/// end is the error of the last one.
pub proof fn law_attempts_are_limited(kind: FetchKind, retries: u32, failures: Seq<FailureView>)
    requires
        can_follow(kind, retries, failures),
    ensures
        failures.len() <= retries,
        failures.len() == retries && retries > 0 ==> after_all(kind, retries, failures).step(false)
            == StepView::GiveUp(kind.error_text(failures.last())),
{
    lemma_after_all(kind, retries, failures);
}

proof fn lemma_after_all(kind: FetchKind, retries: u32, failures: Seq<FailureView>)
    requires
        can_follow(kind, retries, failures),
    ensures
        after_all(kind, retries, failures).kind == kind,
        after_all(kind, retries, failures).retries == retries,
        failures.len() <= after_all(kind, retries, failures).attempt <= retries,
    decreases failures.len(),
{
    if failures.len() > 0 {
        lemma_after_all(kind, retries, failures.drop_last());
    }
}

/// After a refusal there is no other attempt: its error is reported at once, even where
/// the download was cancelled meanwhile.
pub proof fn law_refusals_are_final(state: RetryView, failure: FailureView, cancelled: bool)
    requires
        state.kind.is_final(failure),
    ensures
        state.after(failure).step(cancelled) == StepView::GiveUp(state.kind.error_text(failure)),
{
}

/// Too many requests are no reason to give up a segment.
pub proof fn law_busy_servers_are_asked_again(state: RetryView, status: Seq<char>)
    requires
        state.kind == FetchKind::Segment,
        state.attempt + 1 < state.retries,
    ensures
        state.after(FailureView::Status { code: 429, status }).step(false) == (StepView::Request {
            wait: Some((state.attempt + 1) as u32),
        }),
{
}

/// A part of a file is what was asked for with status 206, anything else with a status from
/// 200 to 299.
pub proof fn law_wanted_answers(code: u16)
    ensures
        FetchKind::Chunk.wants(code) <==> code == 206,
        FetchKind::Segment.wants(code) <==> code as int / 100 == 2,
        FetchKind::Text.wants(code) <==> code as int / 100 == 2,
        FetchKind::Bytes.wants(code) <==> code as int / 100 == 2,
{
}

/// Downloads that were cancelled ask for no more segments and parts of files. Playlists and
/// keys are asked for all the same, and each request but the first one comes after a wait
/// that the number of attempts so far tells.
pub proof fn law_requests_follow_failures(state: RetryView, cancelled: bool)
    requires
        state.attempt < state.retries,
    ensures
        cancelled && (state.kind == FetchKind::Segment || state.kind == FetchKind::Chunk)
            ==> state.step(cancelled) == StepView::GiveUp("cancelled"@),
        !cancelled || state.kind == FetchKind::Text || state.kind == FetchKind::Bytes
            ==> state.step(cancelled) == (StepView::Request {
            wait: if state.attempt == 0 {
                None
            } else {
                Some(state.attempt)
            },
        }),
{
}

/// A failure that is no refusal is one attempt less: the count goes up by one.
pub proof fn law_failures_are_counted(state: RetryView, failure: FailureView)
    requires
        state.attempt < state.retries,
        !(failure is Status) || state.kind == FetchKind::Text || state.kind == FetchKind::Bytes,
    ensures
        state.after(failure).attempt == state.attempt + 1,
        state.after(failure).kind == state.kind,
        state.after(failure).retries == state.retries,
{
}

/// Which answers end the attempts: for segments and parts of files all with a status from
/// 400 to 499, but for 429 where a segment is asked for; for playlists and keys none.
pub proof fn law_refusals_have_client_errors(kind: FetchKind, code: u16, status: Seq<char>)
    ensures
        kind == FetchKind::Chunk ==> (kind.is_final(FailureView::Status { code, status })
            <==> code as int / 100 == 4),
        kind == FetchKind::Segment ==> (kind.is_final(FailureView::Status { code, status })
            <==> code as int / 100 == 4 && code != 429),
        kind == FetchKind::Text || kind == FetchKind::Bytes ==> !kind.is_final(
            FailureView::Status { code, status },
        ),
{
}

/// A failure that is no answer does not end the attempts.
pub proof fn law_lost_answers_are_asked_for_again(kind: FetchKind, failure: FailureView)
    requires
        !(failure is Status),
    ensures
        !kind.is_final(failure),
{
}

/// What is reported of a failure: the words of the connection, the status, or that time ran
/// out.
pub proof fn law_failures_are_told(kind: FetchKind, e: Seq<char>, code: u16)
    ensures
        kind.error_text(FailureView::Connect(e)) == e,
        kind.error_text(FailureView::Read(e)) == e,
        kind == FetchKind::Segment ==> kind.error_text(FailureView::Status { code, status: e })
            == "HTTP "@ + decimal(code as nat),
        kind != FetchKind::Segment ==> kind.error_text(FailureView::Status { code, status: e })
            == "HTTP "@ + e,
        kind == FetchKind::Chunk ==> kind.error_text(FailureView::ConnectTimeout)
            == "timeout connecting"@ && kind.error_text(FailureView::ReadTimeout)
            == "timeout reading chunk"@,
        kind != FetchKind::Chunk ==> kind.error_text(FailureView::ConnectTimeout) == "timeout"@
            && kind.error_text(FailureView::ReadTimeout) == "segment read timeout"@,
{
}

/// Where no attempt is allowed at all, the error tells so.
pub proof fn law_without_attempts_there_is_an_error(kind: FetchKind, cancelled: bool)
    ensures
        RetryView::start(kind, 0).step(cancelled) == StepView::GiveUp(
            match kind {
                FetchKind::Text => "fetch failed after "@ + decimal(0) + " attempts"@,
                FetchKind::Bytes => "fetch_bytes failed"@,
                FetchKind::Segment => "segment failed after "@ + decimal(0) + " attempts"@,
                FetchKind::Chunk => "chunk failed after "@ + decimal(0) + " attempts"@,
            },
        ),
{
}

/// There is a limit to reading the rest of an answer for segments and parts of files only.
pub proof fn law_reading_is_limited_for_media(kind: FetchKind)
    ensures
        kind.limits_read() <==> kind != FetchKind::Text && kind != FetchKind::Bytes,
{
}

/// The shortest wait that there is, from which all others double, is half a second.
pub proof fn law_first_wait()
    ensures
        base_wait(0) == 500,
{
    lemma2_to64();
}

/// A wait is the shortest one and a random part of up to half of it, and every such part can
/// come up.
pub proof fn law_waits_are_spread(attempt: u32, random: u64)
    requires
        attempt <= 54,
    ensures
        random <= base_wait(attempt) / 2 ==> wait_with(attempt, random) == base_wait(attempt)
            + random,
        base_wait(attempt) <= wait_with(attempt, random) <= base_wait(attempt) + base_wait(attempt)
            / 2,
{
    lemma_pow2_fits(attempt);
    lemma_pow2_pos(attempt as nat);
    let base = base_wait(attempt);
    if random <= base / 2 {
        vstd::arithmetic::div_mod::lemma_small_mod(random as nat, (base / 2 + 1) as nat);
    }
    vstd::arithmetic::div_mod::lemma_mod_bound(random as int, base / 2 + 1);
}

} // verus!
