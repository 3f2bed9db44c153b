use vstd::prelude::*;
use vstd::slice::{slice_subrange, slice_to_vec};

use crate::delegate::{data_concat, lemma_push_data_not_completed, trace_completed, Delegate, Event};

verus! {

/// Fixed delivery chunk size, in bytes.
pub const CHUNK_SIZE: usize = 1000;

/// The payload split into successive chunks of `CHUNK_SIZE` bytes, in source
/// order; the final chunk covers any remainder and may be shorter.
pub open spec fn spec_chunks(p: Seq<u8>) -> Seq<Seq<u8>>
    decreases p.len(),
{
    if p.len() == 0 {
        Seq::empty()
    } else if p.len() <= CHUNK_SIZE {
        seq![p]
    } else {
        seq![p.take(CHUNK_SIZE as int)] + spec_chunks(p.skip(CHUNK_SIZE as int))
    }
}

/// The contents of a vector of chunks, as mathematical sequences.
pub open spec fn chunks_view(chunks: Seq<Vec<u8>>) -> Seq<Seq<u8>> {
    chunks.map_values(|c: Vec<u8>| c@)
}

/// The data events a payload produces: one per chunk, in source order.
pub open spec fn chunk_events(p: Seq<u8>) -> Seq<Event> {
    spec_chunks(p).map_values(|c: Seq<u8>| Event::Data(c))
}

/// Every callback one request produces, in order: the payload's chunks when
/// the source was readable, no data at all when it was not, and then the
/// completion signal.
pub open spec fn request_events(source: Option<Seq<u8>>) -> Seq<Event> {
    match source {
        Some(p) => chunk_events(p).push(Event::Complete),
        None => seq![Event::Complete],
    }
}

/// Chunking distributes over splitting the payload at a chunk boundary.
pub proof fn lemma_spec_chunks_append(p: Seq<u8>, q: Seq<u8>)
    requires
        p.len() as int % (CHUNK_SIZE as int) == 0,
    ensures
        spec_chunks(p + q) == spec_chunks(p) + spec_chunks(q),
    decreases p.len(),
{
    if p.len() == 0 {
        assert(p + q =~= q);
        assert(spec_chunks(p) + spec_chunks(q) =~= spec_chunks(q));
    } else if q.len() == 0 {
        assert(p + q =~= p);
        assert(spec_chunks(p) + spec_chunks(q) =~= spec_chunks(p));
    } else {
        assert(p.len() >= CHUNK_SIZE);
        assert((p + q).len() > CHUNK_SIZE);
        assert((p + q).take(CHUNK_SIZE as int) =~= p.take(CHUNK_SIZE as int));
        assert((p + q).skip(CHUNK_SIZE as int) =~= p.skip(CHUNK_SIZE as int) + q);
        lemma_spec_chunks_append(p.skip(CHUNK_SIZE as int), q);
        if p.len() == CHUNK_SIZE {
            assert(p.take(CHUNK_SIZE as int) =~= p);
            assert(p.skip(CHUNK_SIZE as int) =~= Seq::<u8>::empty());
            assert(spec_chunks(p) =~= seq![p]);
            assert(spec_chunks(p + q) =~= spec_chunks(p) + spec_chunks(q));
        } else {
            assert(spec_chunks(p + q) =~= spec_chunks(p) + spec_chunks(q));
        }
    }
}

/// A payload of at most one chunk is delivered as that single chunk.
pub proof fn lemma_spec_chunks_single(p: Seq<u8>)
    requires
        0 < p.len() <= CHUNK_SIZE,
    ensures
        spec_chunks(p) == seq![p],
{
}

/// The chunking of any payload has the documented shape: the number of
/// chunks is the payload length divided by `CHUNK_SIZE` rounded up; every
/// chunk except the last is exactly `CHUNK_SIZE` bytes; the last chunk is
/// the non-empty remainder; and in order the chunks concatenate back to the
/// payload exactly.
pub proof fn lemma_chunks_shape(p: Seq<u8>)
    ensures
        spec_chunks(p).len() == (p.len() as int + CHUNK_SIZE as int - 1) / (CHUNK_SIZE as int),
        forall|k: int|
            0 <= k < spec_chunks(p).len() - 1 ==> (#[trigger] spec_chunks(p)[k]).len()
                == CHUNK_SIZE,
        forall|k: int|
            0 <= k < spec_chunks(p).len() ==> 1 <= (#[trigger] spec_chunks(p)[k]).len()
                <= CHUNK_SIZE,
        p.len() > 0 ==> spec_chunks(p).last().len() == p.len() as int - (spec_chunks(p).len() as int
            - 1) * (CHUNK_SIZE as int),
        spec_chunks(p).flatten() == p,
    decreases p.len(),
{
    if p.len() == 0 {
        assert(spec_chunks(p).flatten() =~= p);
    } else if p.len() <= CHUNK_SIZE {
        assert(spec_chunks(p) == seq![p]);
        assert(seq![p].drop_first() =~= Seq::<Seq<u8>>::empty());
        assert(seq![p].flatten() == p + Seq::<Seq<u8>>::empty().flatten());
        assert(spec_chunks(p).flatten() =~= p);
    } else {
        let head = p.take(CHUNK_SIZE as int);
        let tail = p.skip(CHUNK_SIZE as int);
        lemma_chunks_shape(tail);
        assert(spec_chunks(p) == seq![head] + spec_chunks(tail));
        let n = spec_chunks(p).len();
        assert(n == 1 + spec_chunks(tail).len());
        assert forall|k: int| 0 <= k < n - 1 implies (#[trigger] spec_chunks(p)[k]).len()
            == CHUNK_SIZE by {
            if k == 0 {
                assert(spec_chunks(p)[0] == head);
            } else {
                assert(spec_chunks(p)[k] == spec_chunks(tail)[k - 1]);
            }
        }
        assert forall|k: int| 0 <= k < n implies 1 <= (#[trigger] spec_chunks(p)[k]).len()
            <= CHUNK_SIZE by {
            if k == 0 {
                assert(spec_chunks(p)[0] == head);
            } else {
                assert(spec_chunks(p)[k] == spec_chunks(tail)[k - 1]);
            }
        }
        assert(spec_chunks(p).last() == spec_chunks(tail).last());
        assert((seq![head] + spec_chunks(tail)).flatten() == head + spec_chunks(tail).flatten())
            by {
            assert((seq![head] + spec_chunks(tail)).drop_first() =~= spec_chunks(tail));
            assert((seq![head] + spec_chunks(tail)).first() == head);
        }
        assert(head + tail =~= p);
        assert(spec_chunks(p).flatten() =~= p);
    }
}

/// Concatenating the delivered chunks of any payload, in call order,
/// reproduces the payload exactly.
pub proof fn lemma_chunks_reassemble(p: Seq<u8>)
    ensures
        data_concat(chunk_events(p)) == p,
{
    lemma_data_concat_of_chunks(spec_chunks(p));
    lemma_chunks_shape(p);
}

/// The bytes accumulated from a pure sequence of data events are the
/// flattened chunks.
proof fn lemma_data_concat_of_chunks(cs: Seq<Seq<u8>>)
    ensures
        data_concat(cs.map_values(|c: Seq<u8>| Event::Data(c))) == cs.flatten(),
    decreases cs.len(),
{
    let t = cs.map_values(|c: Seq<u8>| Event::Data(c));
    if cs.len() == 0 {
        assert(data_concat(t) =~= cs.flatten());
    } else {
        lemma_data_concat_of_chunks(cs.drop_first());
        assert(t.skip(1) =~= cs.drop_first().map_values(|c: Seq<u8>| Event::Data(c)));
        assert(t[0] == Event::Data(cs[0]));
        assert(data_concat(t) == cs[0] + data_concat(t.skip(1)));
        assert(cs.flatten() == cs.first() + cs.drop_first().flatten());
        assert(data_concat(t) =~= cs.flatten());
    }
}

/// For every payload, the data callbacks a delivery makes are the payload
/// length divided by `CHUNK_SIZE` rounded up, one per chunk in source order;
/// every chunk except possibly the last is exactly `CHUNK_SIZE` bytes; and
/// concatenating the delivered chunks in call order reproduces the payload
/// exactly.
pub proof fn lemma_data_calls_shape(p: Seq<u8>)
    ensures
        chunk_events(p).len() == (p.len() as int + CHUNK_SIZE as int - 1) / (CHUNK_SIZE as int),
        forall|k: int|
            0 <= k < chunk_events(p).len() ==> (#[trigger] chunk_events(p)[k]) == Event::Data(
                spec_chunks(p)[k],
            ),
        forall|k: int|
            0 <= k < chunk_events(p).len() - 1 ==> (#[trigger] spec_chunks(p)[k]).len()
                == CHUNK_SIZE,
        forall|k: int|
            0 <= k < chunk_events(p).len() ==> 1 <= (#[trigger] spec_chunks(p)[k]).len()
                <= CHUNK_SIZE,
        data_concat(chunk_events(p)) == p,
{
    lemma_chunks_shape(p);
    lemma_chunks_reassemble(p);
}

/// For every request, the completion signal is delivered exactly once, as
/// the very last callback: every data chunk precedes it.
pub proof fn lemma_completion_last(source: Option<Seq<u8>>)
    ensures
        request_events(source).len() >= 1,
        request_events(source).last() is Complete,
        forall|k: int|
            0 <= k < request_events(source).len() - 1 ==> (#[trigger] request_events(
                source,
            )[k]) is Data,
{
    let t = request_events(source);
    match source {
        Some(p) => {
            assert forall|k: int| 0 <= k < t.len() - 1 implies (#[trigger] t[k]) is Data by {
                assert(t[k] == chunk_events(p)[k]);
                assert(chunk_events(p)[k] == Event::Data(spec_chunks(p)[k]));
            }
        },
        None => {},
    }
}

/// Split a payload into its delivery chunks.
pub fn chunk_payload(payload: &[u8]) -> (chunks: Vec<Vec<u8>>)
    ensures
        chunks_view(chunks@) == spec_chunks(payload@),
{
    let mut chunks: Vec<Vec<u8>> = Vec::new();
    let mut i: usize = 0;
    proof {
        assert(chunks_view(chunks@) =~= spec_chunks(payload@.take(0)));
    }
    while i < payload.len()
        invariant
            i <= payload@.len(),
            i as int % (CHUNK_SIZE as int) == 0 || i == payload@.len(),
            chunks_view(chunks@) == spec_chunks(payload@.take(i as int)),
        decreases payload@.len() - i,
    {
        let n: usize = payload.len() - i;
        let c: usize = if n < CHUNK_SIZE {
            n
        } else {
            CHUNK_SIZE
        };
        let chunk = slice_to_vec(slice_subrange(payload, i, i + c));
        let ghost pre = chunks@;
        chunks.push(chunk);
        proof {
            let piece = payload@.subrange(i as int, (i + c) as int);
            lemma_spec_chunks_append(payload@.take(i as int), piece);
            lemma_spec_chunks_single(piece);
            assert(payload@.take((i + c) as int) =~= payload@.take(i as int) + piece);
            assert(chunks_view(chunks@) =~= chunks_view(pre).push(piece));
            assert(chunks_view(pre).push(piece) =~= spec_chunks(payload@.take(i as int)) + seq![
                piece,
            ]);
            assert(chunks_view(chunks@) =~= spec_chunks(payload@.take((i + c) as int)));
        }
        i = i + c;
    }
    proof {
        assert(payload@.take(i as int) =~= payload@);
    }
    chunks
}

/// A spec-level look at an optional borrowed payload.
pub open spec fn source_view(source: Option<&[u8]>) -> Option<Seq<u8>> {
    match source {
        Some(p) => Some(p@),
        None => None,
    }
}

/// Drive one delegate through one whole request: when the source was
/// readable, deliver its payload in `CHUNK_SIZE`-byte chunks in source
/// order; when it was not, deliver no data at all; then signal completion —
/// exactly the trace that `request_events` describes, appended to whatever
/// the delegate had already observed.
pub fn deliver_request<D: Delegate>(source: Option<&[u8]>, delegate: &mut D)
    requires
        old(delegate).inv(),
        !trace_completed(old(delegate).events()),
    ensures
        final(delegate).inv(),
        final(delegate).events() == old(delegate).events() + request_events(source_view(source)),
{
    let ghost t0 = old(delegate).events();
    match source {
        Some(payload) => {
            let mut i: usize = 0;
            proof {
                assert(chunk_events(payload@.take(0)) =~= Seq::<Event>::empty());
                assert(delegate.events() =~= t0 + chunk_events(payload@.take(0)));
            }
            while i < payload.len()
                invariant
                    delegate.inv(),
                    i <= payload@.len(),
                    i as int % (CHUNK_SIZE as int) == 0 || i == payload@.len(),
                    delegate.events() == t0 + chunk_events(payload@.take(i as int)),
                    !trace_completed(delegate.events()),
                decreases payload@.len() - i,
            {
                let n: usize = payload.len() - i;
                let c: usize = if n < CHUNK_SIZE {
                    n
                } else {
                    CHUNK_SIZE
                };
                let ghost pre = delegate.events();
                delegate.got_data(slice_subrange(payload, i, i + c));
                proof {
                    let piece = payload@.subrange(i as int, (i + c) as int);
                    lemma_spec_chunks_append(payload@.take(i as int), piece);
                    lemma_spec_chunks_single(piece);
                    assert(payload@.take((i + c) as int) =~= payload@.take(i as int) + piece);
                    assert(chunk_events(payload@.take((i + c) as int)) =~= chunk_events(
                        payload@.take(i as int),
                    ).push(Event::Data(piece)));
                    assert(delegate.events() =~= t0 + chunk_events(payload@.take((i + c) as int)));
                    lemma_push_data_not_completed(pre, piece);
                }
                i = i + c;
            }
            proof {
                assert(payload@.take(i as int) =~= payload@);
            }
            delegate.complete();
            proof {
                assert(delegate.events() =~= t0 + request_events(source_view(source)));
            }
        },
        None => {
            delegate.complete();
            proof {
                assert(delegate.events() =~= t0 + request_events(source_view(source)));
            }
        },
    }
}

} // verus!
