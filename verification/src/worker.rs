use vstd::prelude::*;

use crate::chunk::request_events;
use crate::delegate::Event;

verus! {

/// Submission failed because the worker's intake has been closed.
#[derive(Clone, Copy, PartialEq, Eq, Structural, Debug)]
pub struct SubmissionError;

/// The worker's intake queue: the requests submitted and not yet serviced,
/// in submission order, and whether new submissions are still accepted. `T`
/// is the delegate handle the surrounding program pairs with each
/// identifier; the worker dequeues one entry at a time and services it fully
/// before the next.
pub struct Intake<T> {
    /// Whether submissions are still accepted; closed on shutdown.
    pub accepting: bool,
    /// The pending requests, oldest first.
    pub pending: Vec<(String, T)>,
}

impl<T> Intake<T> {
    /// A fresh intake: accepting submissions, nothing pending.
    pub fn new() -> (q: Intake<T>)
        ensures
            q.accepting,
            q.pending@ == Seq::<(String, T)>::empty(),
    {
        Intake { accepting: true, pending: Vec::new() }
    }

    /// Submit one request: appended to the queue, in submission order, while
    /// the intake is accepting; fails with `SubmissionError`, changing
    /// nothing, exactly when the intake has been closed.
    pub fn submit(&mut self, identifier: String, delegate: T) -> (r: Result<(), SubmissionError>)
        ensures
            old(self).accepting ==> r is Ok && final(self).accepting && final(self).pending@ == old(
                self,
            ).pending@.push((identifier, delegate)),
            !old(self).accepting ==> r is Err && final(self).accepting == old(self).accepting
                && final(self).pending@ == old(self).pending@,
    {
        if self.accepting {
            self.pending.push((identifier, delegate));
            Ok(())
        } else {
            Err(SubmissionError)
        }
    }

    /// Close the intake: no further submissions are accepted, but every
    /// request already pending stays queued, to be drained before shutdown
    /// finishes.
    pub fn close(&mut self)
        ensures
            !final(self).accepting,
            final(self).pending@ == old(self).pending@,
    {
        self.accepting = false;
    }

    /// Dequeue the oldest pending request, if any: requests leave the intake
    /// in submission order (first in, first out), whether or not the intake
    /// is still accepting.
    pub fn dequeue(&mut self) -> (r: Option<(String, T)>)
        ensures
            final(self).accepting == old(self).accepting,
            old(self).pending@.len() == 0 ==> r is None && final(self).pending@ == old(
                self,
            ).pending@,
            old(self).pending@.len() > 0 ==> (match r {
                Some(entry) => entry == old(self).pending@[0] && final(self).pending@ == old(
                    self,
                ).pending@.skip(1),
                None => false,
            }),
    {
        if self.pending.len() == 0 {
            None
        } else {
            let entry = self.pending.remove(0);
            proof {
                assert(self.pending@ =~= old(self).pending@.skip(1));
            }
            Some(entry)
        }
    }

    /// Whether the intake still accepts submissions.
    pub fn is_accepting(&self) -> (r: bool)
        ensures
            r == self.accepting,
    {
        self.accepting
    }

    /// How many requests are pending.
    pub fn pending_len(&self) -> (r: usize)
        ensures
            r == self.pending@.len(),
    {
        self.pending.len()
    }
}

/// The full callback trace a worker produces for a batch of request sources
/// serviced in submission order: the events of request `i`, each tagged with
/// `i`, appear as one contiguous block, every request fully serviced before
/// the next is dequeued.
pub open spec fn batch_trace(sources: Seq<Option<Seq<u8>>>) -> Seq<(int, Event)>
    decreases sources.len(),
{
    if sources.len() == 0 {
        Seq::empty()
    } else {
        batch_trace(sources.drop_last()) + request_events(sources.last()).map_values(
            |e: Event| ((sources.len() - 1) as int, e),
        )
    }
}

/// Every tag in a batch trace names one of the batch's requests, and the
/// tags appear in nondecreasing order.
pub proof fn lemma_batch_trace_tags(sources: Seq<Option<Seq<u8>>>)
    ensures
        forall|p: int|
            0 <= p < batch_trace(sources).len() ==> 0 <= (#[trigger] batch_trace(sources)[p]).0
                < sources.len(),
        forall|p: int, q: int|
            0 <= p <= q < batch_trace(sources).len() ==> (#[trigger] batch_trace(sources)[p]).0
                <= (#[trigger] batch_trace(sources)[q]).0,
    decreases sources.len(),
{
    if sources.len() > 0 {
        lemma_batch_trace_tags(sources.drop_last());
        let prefix = batch_trace(sources.drop_last());
        let block = request_events(sources.last()).map_values(
            |e: Event| ((sources.len() - 1) as int, e),
        );
        let t = batch_trace(sources);
        assert forall|p: int| 0 <= p < t.len() implies 0 <= (#[trigger] t[p]).0
            < sources.len() by {
            if p < prefix.len() {
                assert(t[p] == prefix[p]);
            } else {
                assert(t[p] == block[p - prefix.len()]);
            }
        }
        assert forall|p: int, q: int| 0 <= p <= q < t.len() implies (#[trigger] t[p]).0
            <= (#[trigger] t[q]).0 by {
            if q < prefix.len() {
                assert(t[p] == prefix[p]);
                assert(t[q] == prefix[q]);
            } else if p < prefix.len() {
                assert(t[p] == prefix[p]);
                assert(0 <= prefix[p].0 < sources.drop_last().len());
                assert(t[q] == block[q - prefix.len()]);
            } else {
                assert(t[p] == block[p - prefix.len()]);
                assert(t[q] == block[q - prefix.len()]);
            }
        }
    }
}

/// Requests are serviced one at a time, in submission order: in the batch
/// trace, every callback belonging to an earlier request comes before every
/// callback belonging to a later one — callbacks of two requests never
/// interleave.
pub proof fn lemma_requests_not_interleaved(sources: Seq<Option<Seq<u8>>>, p: int, q: int)
    requires
        0 <= p < batch_trace(sources).len(),
        0 <= q < batch_trace(sources).len(),
        batch_trace(sources)[p].0 < batch_trace(sources)[q].0,
    ensures
        p < q,
{
    lemma_batch_trace_tags(sources);
    if q <= p {
        assert(batch_trace(sources)[q].0 <= batch_trace(sources)[p].0);
    }
}

} // verus!
