//! Which downloads are at work, and which wait for their turn.

use crate::lecture::MAX_CONCURRENT_DOWNLOADS;
use vstd::prelude::*;

verus! {

/// The downloads that were asked for and have not come to an end, by their numbers.
#[derive(Debug)]
pub struct TaskQueue {
    running: Vec<u64>,
    waiting: Vec<u64>,
}

/// What a [`TaskQueue`] holds: the downloads that are at work, and those that wait, the
/// one whose turn is next at the start.
#[verifier::ext_equal]
pub struct QueueView {
    pub running: Seq<u64>,
    pub waiting: Seq<u64>,
}

impl View for TaskQueue {
    type V = QueueView;

    closed spec fn view(&self) -> QueueView {
        QueueView { running: self.running@, waiting: self.waiting@ }
    }
}

/// The position of the first `id` in `ids`, or their number.
pub open spec fn first_of(ids: Seq<u64>, id: u64) -> int
    decreases ids.len(),
{
    if ids.len() == 0 || ids[0] == id {
        0
    } else {
        1 + first_of(ids.skip(1), id)
    }
}

impl QueueView {
    /// Before any download was asked for.
    pub open spec fn start() -> QueueView {
        QueueView { running: seq![], waiting: seq![] }
    }

    /// No more downloads are at work than may be, and none waits without need.
    pub open spec fn wf(self) -> bool {
        &&& self.running.len() <= MAX_CONCURRENT_DOWNLOADS
        &&& self.waiting.len() > 0 ==> self.running.len() == MAX_CONCURRENT_DOWNLOADS
    }

    /// Whether one more download may be at work.
    pub open spec fn has_room(self) -> bool {
        self.running.len() < MAX_CONCURRENT_DOWNLOADS
    }

    /// After a download was asked for: it starts at once, or waits behind the others.
    pub open spec fn submitted(self, id: u64) -> QueueView {
        if self.has_room() {
            QueueView { running: self.running.push(id), ..self }
        } else {
            QueueView { waiting: self.waiting.push(id), ..self }
        }
    }

    /// Whether a download is at work.
    pub open spec fn works_on(self, id: u64) -> bool {
        first_of(self.running, id) < self.running.len()
    }

    /// After a download came to an end: the one whose turn is next starts. Nothing
    /// happens where the download is not at work.
    pub open spec fn ended(self, id: u64) -> QueueView {
        let left = self.running.remove(first_of(self.running, id));
        if !self.works_on(id) {
            self
        } else if self.waiting.len() > 0 {
            QueueView { running: left.push(self.waiting[0]), waiting: self.waiting.skip(1) }
        } else {
            QueueView { running: left, ..self }
        }
    }

    /// The download that starts when another one comes to an end.
    pub open spec fn next_after(self, id: u64) -> Option<u64> {
        if self.works_on(id) && self.waiting.len() > 0 {
            Some(self.waiting[0])
        } else {
            None
        }
    }
}

fn find_first(ids: &Vec<u64>, id: u64) -> (k: usize)
    ensures
        k == first_of(ids@, id),
        k <= ids.len(),
{
    let mut k: usize = 0;
    assert(ids@.skip(0) =~= ids@);
    while k < ids.len() && ids[k] != id
        invariant
            k <= ids.len(),
            first_of(ids@, id) == k + first_of(ids@.skip(k as int), id),
        decreases ids.len() - k,
    {
        assert(ids@.skip(k as int).skip(1) =~= ids@.skip(k + 1));
        k += 1;
    }
    k
}

impl TaskQueue {
    /// A queue in which no download is.
    pub fn new() -> (queue: Self)
        ensures
            queue@ == QueueView::start(),
    {
        let queue = TaskQueue { running: Vec::new(), waiting: Vec::new() };
        assert(queue@ =~= QueueView::start());
        queue
    }

    /// Takes in a download that is asked for, and tells whether it starts at once.
    pub fn submit(&mut self, id: u64) -> (starts: bool)
        ensures
            final(self)@ == old(self)@.submitted(id),
            starts == old(self)@.has_room(),
    {
        if self.running.len() < MAX_CONCURRENT_DOWNLOADS {
            self.running.push(id);
            true
        } else {
            self.waiting.push(id);
            false
        }
    }

    /// Takes in that a download has come to an end, and gives the one that starts in its
    /// place.
    pub fn finish(&mut self, id: u64) -> (next: Option<u64>)
        ensures
            final(self)@ == old(self)@.ended(id),
            next == old(self)@.next_after(id),
    {
        let k: usize = find_first(&self.running, id);
        if k == self.running.len() {
            return None;
        }
        self.running.remove(k);
        if self.waiting.len() == 0 {
            return None;
        }
        let next: u64 = self.waiting.remove(0);
        assert(self.waiting@ =~= old(self)@.waiting.skip(1));
        self.running.push(next);
        Some(next)
    }
}

// ------------------------------------------------------------------------ laws

/// What happens to a queue.
pub enum QueueStep {
    /// A download is asked for.
    Submit(u64),
    /// A download comes to an end.
    Finish(u64),
}

impl QueueView {
    /// After a step.
    pub open spec fn after(self, step: QueueStep) -> QueueView {
        match step {
            QueueStep::Submit(id) => self.submitted(id),
            QueueStep::Finish(id) => self.ended(id),
        }
    }
}

/// The queue after `steps`, one after the other.
pub open spec fn after_steps(steps: Seq<QueueStep>) -> QueueView
    decreases steps.len(),
{
    if steps.len() == 0 {
        QueueView::start()
    } else {
        after_steps(steps.drop_last()).after(steps.last())
    }
}

/// Whatever downloads are asked for and whenever they come to an end, at every moment no
/// more than ten are at work, and none waits while fewer are.
pub proof fn law_at_most_ten_are_at_work(steps: Seq<QueueStep>)
    ensures
        after_steps(steps).running.len() <= 10,
        after_steps(steps).waiting.len() > 0 ==> after_steps(steps).running.len() == 10,
    decreases steps.len(),
{
    if steps.len() > 0 {
        let before = after_steps(steps.drop_last());
        law_at_most_ten_are_at_work(steps.drop_last());
        law_steps_keep_the_limit(before, steps.last());
    }
}

/// No step leads to more downloads at work than may be.
pub proof fn law_steps_keep_the_limit(queue: QueueView, step: QueueStep)
    requires
        queue.wf(),
    ensures
        queue.after(step).wf(),
{
    if let QueueStep::Finish(id) = step {
        lemma_first_of(queue.running, id);
    }
}

proof fn lemma_first_of(ids: Seq<u64>, id: u64)
    ensures
        0 <= first_of(ids, id) <= ids.len(),
        first_of(ids, id) < ids.len() ==> ids[first_of(ids, id)] == id,
        ids.contains(id) ==> first_of(ids, id) < ids.len(),
    decreases ids.len(),
{
    if ids.len() > 0 && ids[0] != id {
        lemma_first_of(ids.skip(1), id);
        if ids.contains(id) {
            let k = choose|k: int| 0 <= k < ids.len() && ids[k] == id;
            assert(ids.skip(1)[k - 1] == id);
        }
    }
}

/// Downloads start in the order in which they were asked for: when one that is at work
/// comes to an end, the one that waits longest starts, and the others move up.
pub proof fn law_the_longest_waiting_starts(queue: QueueView, id: u64)
    requires
        queue.running.contains(id),
        queue.waiting.len() > 0,
    ensures
        queue.next_after(id) == Some(queue.waiting[0]),
        queue.ended(id).running.last() == queue.waiting[0],
        queue.ended(id).running.len() == queue.running.len(),
        queue.ended(id).waiting == queue.waiting.skip(1),
{
    lemma_first_of(queue.running, id);
}

/// A download that is asked for starts at once where fewer than ten are at work, and
/// otherwise waits behind all others.
pub proof fn law_downloads_start_or_wait(queue: QueueView, id: u64)
    ensures
        queue.has_room() <==> queue.running.len() < 10,
        queue.running.len() < 10 ==> queue.submitted(id).running == queue.running + seq![id]
            && queue.submitted(id).waiting == queue.waiting,
        queue.running.len() >= 10 ==> queue.submitted(id).running == queue.running
            && queue.submitted(id).waiting == queue.waiting + seq![id],
        QueueView::start().running.len() == 0,
        QueueView::start().waiting.len() == 0,
{
    assert(queue.running.push(id) =~= queue.running + seq![id]);
    assert(queue.waiting.push(id) =~= queue.waiting + seq![id]);
}

/// A download that comes to an end leaves the others at work as they are, and one that is
/// not at work changes nothing.
pub proof fn law_the_others_go_on(queue: QueueView, before: Seq<u64>, id: u64, after: Seq<u64>)
    requires
        !before.contains(id),
    ensures
        queue.running == before + seq![id] + after && queue.waiting.len() == 0 ==> queue.ended(
            id,
        ).running == before + after && queue.ended(id).waiting.len() == 0,
        queue.running == before + seq![id] + after && queue.waiting.len() > 0 ==> queue.ended(
            id,
        ).running == before + after + seq![queue.waiting[0]],
        queue.running == before ==> queue.ended(id) == queue && queue.next_after(id) is None,
        queue.waiting.len() == 0 ==> queue.next_after(id) is None,
{
    lemma_first_of(queue.running, id);
    if queue.running == before + seq![id] + after {
        lemma_first_of_is(before, id, after);
        let left = queue.running.remove(before.len() as int);
        assert(left =~= before + after);
        if queue.waiting.len() > 0 {
            assert(left.push(queue.waiting[0]) =~= before + after + seq![queue.waiting[0]]);
        }
    }
    if queue.running == before && first_of(queue.running, id) < queue.running.len() {
        assert(before.contains(before[first_of(before, id)]));
    }
}

proof fn lemma_first_of_is(before: Seq<u64>, id: u64, after: Seq<u64>)
    requires
        !before.contains(id),
    ensures
        first_of(before + seq![id] + after, id) == before.len(),
    decreases before.len(),
{
    let ids = before + seq![id] + after;
    if before.len() > 0 {
        let fewer = before.skip(1);
        assert(before.contains(before[0]));
        assert(ids[0] == before[0]);
        assert forall|k: int| 0 <= k < fewer.len() implies #[trigger] fewer[k] != id by {
            assert(before.contains(before[k + 1]));
        }
        lemma_first_of_is(fewer, id, after);
        assert(ids.skip(1) =~= fewer + seq![id] + after);
    }
}

} // verus!
