use vstd::prelude::*;
use vstd::slice::slice_to_vec;

verus! {

/// One observable callback made to a delegate: a contiguous chunk of bytes
/// arriving, or the completion signal.
pub enum Event {
    Data(Seq<u8>),
    Complete,
}

/// The bytes a trace has accumulated: the concatenation, in call order, of
/// every chunk carried by a `Data` event.
pub open spec fn data_concat(t: Seq<Event>) -> Seq<u8>
    decreases t.len(),
{
    if t.len() == 0 {
        Seq::empty()
    } else {
        (match t[0] {
            Event::Data(d) => d,
            Event::Complete => Seq::empty(),
        }) + data_concat(t.skip(1))
    }
}

/// Whether a trace contains the completion signal.
pub open spec fn trace_completed(t: Seq<Event>) -> bool {
    exists|k: int| 0 <= k < t.len() && t[k] is Complete
}

/// Pushing a data event never completes a trace.
pub proof fn lemma_push_data_not_completed(t: Seq<Event>, d: Seq<u8>)
    requires
        !trace_completed(t),
    ensures
        !trace_completed(t.push(Event::Data(d))),
{
    assert forall|k: int| 0 <= k < t.push(Event::Data(d)).len() implies !(t.push(
        Event::Data(d),
    )[k] is Complete) by {
        if k < t.len() {
            assert(t.push(Event::Data(d))[k] == t[k]);
            assert(!(t[k] is Complete)) by {
                assert(!trace_completed(t));
            }
        } else {
            assert(t.push(Event::Data(d))[k] == Event::Data(d));
        }
    }
}

/// Appending one event extends the accumulated bytes by exactly the bytes
/// that event carries: a chunk for a data event, nothing for completion.
pub proof fn lemma_data_concat_push(t: Seq<Event>, e: Event)
    ensures
        data_concat(t.push(e)) == data_concat(t) + (match e {
            Event::Data(d) => d,
            Event::Complete => Seq::<u8>::empty(),
        }),
    decreases t.len(),
{
    let carried = (match e {
        Event::Data(d) => d,
        Event::Complete => Seq::<u8>::empty(),
    });
    if t.len() == 0 {
        assert(t.push(e)[0] == e);
        assert(t.push(e).skip(1) =~= Seq::<Event>::empty());
        assert(data_concat(t.push(e)) == carried + data_concat(t.push(e).skip(1)));
        assert(data_concat(Seq::<Event>::empty()) == Seq::<u8>::empty());
        assert(data_concat(t.push(e)) =~= data_concat(t) + carried);
    } else {
        assert(t.push(e).skip(1) =~= t.skip(1).push(e));
        lemma_data_concat_push(t.skip(1), e);
        assert(data_concat(t.push(e)) =~= data_concat(t) + carried);
    }
}

/// The capability a transfer worker pushes into: data arrival and the
/// completion signal. `events` is the trace of callbacks the implementation
/// has observed so far, in call order; a correct worker never invokes either
/// callback once the completion signal has been delivered.
pub trait Delegate: Sized {
    /// The callbacks observed so far, in call order.
    spec fn events(&self) -> Seq<Event>;

    /// The implementation's internal consistency condition, established by
    /// its constructors and preserved by both callbacks.
    spec fn inv(&self) -> bool;

    /// Deliver one contiguous chunk of bytes.
    fn got_data(&mut self, data: &[u8])
        requires
            old(self).inv(),
            !trace_completed(old(self).events()),
        ensures
            final(self).inv(),
            final(self).events() == old(self).events().push(Event::Data(data@)),
    ;

    /// Signal that the transfer has finished; called at most once per
    /// delegate, and only after every data chunk has been delivered.
    fn complete(&mut self)
        requires
            old(self).inv(),
            !trace_completed(old(self).events()),
        ensures
            final(self).inv(),
            final(self).events() == old(self).events().push(Event::Complete),
    ;
}

/// A delegate that records every callback as plain data: each delivered
/// chunk in call order, and whether completion has been signalled.
pub struct RecordingDelegate {
    /// The chunks delivered so far, in call order.
    pub chunks: Vec<Vec<u8>>,
    /// Whether the completion signal has arrived.
    pub completed: bool,
}

impl RecordingDelegate {
    /// The recorded chunks, as mathematical sequences.
    pub open spec fn chunk_seqs(&self) -> Seq<Seq<u8>> {
        self.chunks@.map_values(|c: Vec<u8>| c@)
    }

    /// A fresh recorder: no chunks, not completed.
    pub fn new() -> (d: RecordingDelegate)
        ensures
            d.inv(),
            d.events() == Seq::<Event>::empty(),
            d.chunks@.len() == 0,
            !d.completed,
    {
        let d = RecordingDelegate { chunks: Vec::new(), completed: false };
        proof {
            assert(d.events() =~= Seq::<Event>::empty());
        }
        d
    }
}

impl Delegate for RecordingDelegate {
    open spec fn events(&self) -> Seq<Event> {
        if self.completed {
            self.chunk_seqs().map_values(|c: Seq<u8>| Event::Data(c)).push(Event::Complete)
        } else {
            self.chunk_seqs().map_values(|c: Seq<u8>| Event::Data(c))
        }
    }

    open spec fn inv(&self) -> bool {
        true
    }

    fn got_data(&mut self, data: &[u8]) {
        proof {
            if self.completed {
                let n = self.events().len() - 1;
                assert(self.events()[n] is Complete);
                assert(trace_completed(self.events()));
            }
        }
        let chunk = slice_to_vec(data);
        self.chunks.push(chunk);
        proof {
            assert(self.chunk_seqs() =~= old(self).chunk_seqs().push(data@));
            assert(self.events() =~= old(self).events().push(Event::Data(data@)));
        }
    }

    fn complete(&mut self) {
        proof {
            if self.completed {
                let n = self.events().len() - 1;
                assert(self.events()[n] is Complete);
                assert(trace_completed(self.events()));
            }
        }
        self.completed = true;
        proof {
            assert(self.chunk_seqs() =~= old(self).chunk_seqs());
            assert(self.events() =~= old(self).events().push(Event::Complete));
        }
    }
}

} // verus!
