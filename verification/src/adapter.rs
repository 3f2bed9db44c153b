use vstd::prelude::*;
use vstd::slice::slice_to_vec;

use crate::delegate::{
    data_concat, lemma_data_concat_push, lemma_push_data_not_completed, trace_completed, Delegate,
    Event,
};

verus! {

/// The shared state behind one in-flight transfer, as contracts see it.
pub struct AdapterView<W> {
    /// The bytes accumulated so far.
    pub buffer: Seq<u8>,
    /// Whether the completion signal has arrived.
    pub complete: bool,
    /// The waker parked by a suspended poll, if any.
    pub waker: Option<W>,
    /// The callbacks observed so far, in call order.
    pub events: Seq<Event>,
}

impl<W> AdapterView<W> {
    /// Internal consistency: the buffer holds exactly the bytes delivered so
    /// far; the completion flag records whether the completion signal has
    /// arrived, which happens at most once, as the last callback; and no
    /// waker is left parked once the transfer has completed.
    pub open spec fn wf(self) -> bool {
        &&& self.buffer == data_concat(self.events)
        &&& self.complete == trace_completed(self.events)
        &&& (forall|k: int|
            0 <= k < self.events.len() && (#[trigger] self.events[k]) is Complete ==> k
                == self.events.len() - 1)
        &&& (self.complete ==> self.waker is None)
    }
}

/// How one poll transforms the state: after completion it resolves at once
/// to the accumulated bytes and changes nothing; before completion it parks
/// the caller's waker and suspends.
pub open spec fn spec_poll<W>(v: AdapterView<W>, w: W) -> (AdapterView<W>, Option<Seq<u8>>) {
    if v.complete {
        (v, Some(v.buffer))
    } else {
        (
            AdapterView { buffer: v.buffer, complete: v.complete, waker: Some(w), events: v.events },
            None,
        )
    }
}

/// How one data callback transforms the state: the chunk is appended to the
/// buffer and recorded in the trace; flag and parked waker are untouched.
pub open spec fn spec_on_data<W>(v: AdapterView<W>, d: Seq<u8>) -> AdapterView<W> {
    AdapterView {
        buffer: v.buffer + d,
        complete: v.complete,
        waker: v.waker,
        events: v.events.push(Event::Data(d)),
    }
}

/// How the completion callback transforms the state: the flag is set, the
/// trace gains the completion signal, and the parked waker — if a poll left
/// one — is un-parked and surrendered to the caller to be invoked.
pub open spec fn spec_on_complete<W>(v: AdapterView<W>) -> (AdapterView<W>, Option<W>) {
    (
        AdapterView {
            buffer: v.buffer,
            complete: true,
            waker: None,
            events: v.events.push(Event::Complete),
        },
        v.waker,
    )
}

/// The shared, lock-protected state that bridges the worker's callbacks to a
/// poll-driven consumer. `W` is the wake handle the surrounding scheduler
/// uses to resume a suspended consumer; the state only parks and surrenders
/// it, and never invokes it itself.
pub struct AdapterState<W> {
    buffer: Vec<u8>,
    complete: bool,
    waker: Option<W>,
    events: Ghost<Seq<Event>>,
}

impl<W> View for AdapterState<W> {
    type V = AdapterView<W>;

    closed spec fn view(&self) -> AdapterView<W> {
        AdapterView {
            buffer: self.buffer@,
            complete: self.complete,
            waker: self.waker,
            events: self.events@,
        }
    }
}

impl<W> AdapterState<W> {
    /// Fresh state for a new transfer: empty buffer, not complete, nothing
    /// parked, nothing observed.
    pub fn new() -> (s: AdapterState<W>)
        ensures
            s@.wf(),
            s@.buffer == Seq::<u8>::empty(),
            !s@.complete,
            s@.waker is None,
            s@.events == Seq::<Event>::empty(),
    {
        let s = AdapterState { buffer: Vec::new(), complete: false, waker: None, events: Ghost(Seq::empty()) };
        proof {
            assert(!trace_completed(s@.events));
            assert(s@.buffer =~= data_concat(s@.events));
        }
        s
    }

    /// One poll of the pending transfer: when the transfer has completed,
    /// resolve immediately to a copy of the accumulated bytes, touching
    /// nothing; otherwise park `waker` and report that the caller must
    /// suspend.
    pub fn poll(&mut self, waker: W) -> (r: Option<Vec<u8>>)
        requires
            old(self)@.wf(),
        ensures
            final(self)@.wf(),
            final(self)@ == spec_poll(old(self)@, waker).0,
            (match r {
                Some(bytes) => spec_poll(old(self)@, waker).1 == Some(bytes@),
                None => spec_poll(old(self)@, waker).1 is None,
            }),
    {
        if self.complete {
            Some(slice_to_vec(self.buffer.as_slice()))
        } else {
            self.waker = Some(waker);
            None
        }
    }

    /// Append one delivered chunk to the accumulated buffer.
    pub fn on_data(&mut self, data: &[u8])
        requires
            old(self)@.wf(),
            !old(self)@.complete,
        ensures
            final(self)@.wf(),
            final(self)@ == spec_on_data(old(self)@, data@),
    {
        let mut incoming = slice_to_vec(data);
        self.buffer.append(&mut incoming);
        proof {
            self.events = Ghost(self.events@.push(Event::Data(data@)));
            lemma_data_concat_push(old(self)@.events, Event::Data(data@));
            lemma_push_data_not_completed(old(self)@.events, data@);
            assert forall|k: int|
                0 <= k < self@.events.len() && (#[trigger] self@.events[k]) is Complete implies k
                == self@.events.len() - 1 by {
                if k < old(self)@.events.len() {
                    assert(old(self)@.events[k] is Complete);
                    assert(trace_completed(old(self)@.events));
                }
            }
        }
    }

    /// Whether the completion signal has arrived.
    pub fn is_complete(&self) -> (r: bool)
        ensures
            r == self@.complete,
    {
        self.complete
    }

    /// The completion callback: mark the transfer complete, record the
    /// signal, and surrender the parked waker — the caller must invoke it to
    /// resume a suspended consumer. Called at most once per transfer.
    pub fn on_complete(&mut self) -> (w: Option<W>)
        requires
            old(self)@.wf(),
            !old(self)@.complete,
        ensures
            final(self)@.wf(),
            final(self)@ == spec_on_complete(old(self)@).0,
            w == spec_on_complete(old(self)@).1,
    {
        self.complete = true;
        let parked = self.waker.take();
        proof {
            self.events = Ghost(self.events@.push(Event::Complete));
            lemma_data_concat_push(old(self)@.events, Event::Complete);
            assert(self@.buffer =~= data_concat(self@.events));
            assert(self@.events[self@.events.len() - 1] is Complete);
            assert(trace_completed(self@.events));
            assert forall|k: int|
                0 <= k < self@.events.len() && (#[trigger] self@.events[k]) is Complete implies k
                == self@.events.len() - 1 by {
                if k < old(self)@.events.len() {
                    assert(old(self)@.events[k] is Complete);
                    assert(trace_completed(old(self)@.events));
                }
            }
        }
        parked
    }
}

impl<W> Delegate for AdapterState<W> {
    open spec fn events(&self) -> Seq<Event> {
        self@.events
    }

    open spec fn inv(&self) -> bool {
        self@.wf()
    }

    fn got_data(&mut self, data: &[u8]) {
        self.on_data(data);
    }

    /// Through the bare capability the parked waker is discarded; a worker
    /// that must resume a suspended consumer calls `on_complete` instead and
    /// invokes the waker it returns.
    fn complete(&mut self) {
        let _parked = self.on_complete();
    }
}

/// The awaited result is the transferred payload, exactly: once a delegate's
/// state has observed one full request — the payload's chunks in order, then
/// the completion signal — the transfer is complete and any poll resolves
/// immediately to the payload itself (or to the empty sequence when the
/// source was unavailable and no data was delivered).
pub proof fn lemma_result_is_payload<W>(v: AdapterView<W>, source: Option<Seq<u8>>, w: W)
    requires
        v.wf(),
        v.events == crate::chunk::request_events(source),
    ensures
        v.complete,
        spec_poll(v, w).1 == Some(v.buffer),
        v.buffer == (match source {
            Some(p) => p,
            None => Seq::<u8>::empty(),
        }),
{
    crate::chunk::lemma_completion_last(source);
    assert(v.events.last() is Complete);
    assert(trace_completed(v.events));
    match source {
        Some(p) => {
            lemma_data_concat_push(crate::chunk::chunk_events(p), Event::Complete);
            crate::chunk::lemma_chunks_reassemble(p);
            assert(v.buffer =~= p);
        },
        None => {
            assert(v.events =~= Seq::<Event>::empty().push(Event::Complete));
            lemma_data_concat_push(Seq::<Event>::empty(), Event::Complete);
            assert(v.buffer =~= Seq::<u8>::empty());
        },
    }
}

/// A poll that happens strictly after completion resolves immediately with
/// the accumulated bytes — exactly the bytes every data callback delivered,
/// in order — and changes nothing: no waker is parked, so no wake is needed.
pub proof fn lemma_poll_after_completion<W>(v: AdapterView<W>, w: W)
    requires
        v.wf(),
        v.complete,
    ensures
        spec_poll(v, w).1 == Some(v.buffer),
        spec_poll(v, w).0 == v,
        v.buffer == data_concat(v.events),
{
}

/// A poll that happens strictly before completion always suspends and parks
/// the caller's waker; later data callbacks leave the parked waker in place;
/// and the matching completion callback surrenders exactly that waker — the
/// one wake the consumer receives, since completion happens at most once and
/// leaves nothing parked. The resumed poll then resolves immediately to the
/// bytes accumulated when completion fired.
pub proof fn lemma_suspend_then_single_wake<W>(v: AdapterView<W>, w: W, d: Seq<u8>, w2: W)
    requires
        v.wf(),
        !v.complete,
    ensures
        ({
            let (suspended, first) = spec_poll(v, w);
            let (done, woken) = spec_on_complete(suspended);
            let (resumed, second) = spec_poll(done, w2);
            &&& first is None
            &&& suspended.waker == Some(w)
            &&& spec_on_data(suspended, d).waker == Some(w)
            &&& !spec_on_data(suspended, d).complete
            &&& woken == Some(w)
            &&& done.complete
            &&& done.waker is None
            &&& second == Some(done.buffer)
            &&& done.buffer == data_concat(done.events)
            &&& resumed == done
        }),
{
    let (suspended, first) = spec_poll(v, w);
    let (done, woken) = spec_on_complete(suspended);
    lemma_data_concat_push(suspended.events, Event::Complete);
    assert(done.buffer =~= data_concat(done.events));
}

} // verus!
