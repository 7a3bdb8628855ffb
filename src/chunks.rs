//! Decoding input that arrives in chunks, as a framed reader does: append a
//! chunk, take events off the buffer until one must wait, repeat.

use vstd::prelude::*;
use termion::event::Event;
use crate::buffer::{append, buffered, empty_buffer};
use crate::decoder::{
    consumed, decode_step, decided, lone_escape, remainder, trace, Step,
    EventsAndRawDecoder,
};

verus! {

/// The chunks' bytes, joined in order.
pub open spec fn concat(chunks: Seq<Vec<u8>>) -> Seq<u8>
    decreases chunks.len(),
{
    if chunks.len() == 0 {
        seq![]
    } else {
        chunks[0]@ + concat(chunks.drop_first())
    }
}

/// Repeated decode attempts on `buf` come to a lone escape byte.
pub open spec fn reaches_lone_escape(buf: Seq<u8>) -> bool
    decreases buf.len(),
{
    let s = decode_step(buf);
    let n = consumed(s);
    if lone_escape(buf) {
        true
    } else if decided(s) && 1 <= n <= buf.len() {
        reaches_lone_escape(buf.skip(n as int))
    } else {
        false
    }
}

/// The buffer once the first `k` chunks have each been appended and decoded
/// until an attempt must wait.
pub open spec fn buffer_after(chunks: Seq<Vec<u8>>, k: nat) -> Seq<u8>
    decreases k,
{
    if k == 0 || k > chunks.len() {
        seq![]
    } else {
        remainder(buffer_after(chunks, (k - 1) as nat) + chunks[k - 1]@)
    }
}

/// No chunk boundary leaves the buffer at a lone escape byte with input still
/// to come: such a byte is taken as the key itself, so that is the one split
/// that can change the events.
pub open spec fn no_escape_split(chunks: Seq<Vec<u8>>) -> bool {
    forall|k: int|
        0 <= k < chunks.len() && #[trigger] reaches_lone_escape(
            buffer_after(chunks, k as nat) + chunks[k]@,
        ) ==> concat(chunks.subrange(k + 1, chunks.len() as int)).len() == 0
}

/// A decoded item shows a step of a trace: the same bytes, and the event, or
/// the bytes kept as unsupported.
pub open spec fn shows(item: (Event, Vec<u8>), t: (Step, Seq<u8>)) -> bool {
    item.1@ == t.1 && match t.0 {
        Step::Emit(e, _) => item.0 == e,
        Step::Reject(_) => match item.0 {
            Event::Unsupported(v) => v@ == t.1,
            _ => false,
        },
        Step::Wait => false,
    }
}

/// The bytes of the items, joined in order.
pub open spec fn raws_of(items: Seq<(Event, Vec<u8>)>) -> Seq<u8>
    decreases items.len(),
{
    if items.len() == 0 {
        seq![]
    } else {
        raws_of(items.drop_last()) + items.last().1@
    }
}

proof fn lemma_concat_front(chunks: Seq<Vec<u8>>, k: int)
    requires
        0 <= k < chunks.len(),
    ensures
        concat(chunks.subrange(k, chunks.len() as int)) == chunks[k]@ + concat(
            chunks.subrange(k + 1, chunks.len() as int),
        ),
{
    assert(chunks.subrange(k, chunks.len() as int).drop_first() =~= chunks.subrange(
        k + 1,
        chunks.len() as int,
    ));
}

/// Decodes `chunks` in order as they would arrive, appending each to the
/// buffer and taking events off it until one must wait. Where no chunk
/// boundary leaves a lone escape byte, the items are those of the input as a
/// single chunk, whatever the boundaries. In any case the items' bytes,
/// joined in order, are the input but for a tail on which a decode attempt
/// must wait.
pub fn decode_chunks(chunks: &Vec<Vec<u8>>) -> (r: Vec<(Event, Vec<u8>)>)
    ensures
        raws_of(r@).len() <= concat(chunks@).len(),
        raws_of(r@) == concat(chunks@).take(raws_of(r@).len() as int),
        decode_step(concat(chunks@).skip(raws_of(r@).len() as int)) is Wait,
        no_escape_split(chunks@) ==> r@.len() == trace(concat(chunks@)).len() && forall|i: int|
            0 <= i < r@.len() ==> shows(#[trigger] r@[i], trace(concat(chunks@))[i]),
{
    let ghost cs = chunks@;
    let ghost t = trace(concat(cs));
    let mut decoder = EventsAndRawDecoder;
    let mut buf = empty_buffer();
    let mut out: Vec<(Event, Vec<u8>)> = Vec::new();
    let mut k: usize = 0;
    proof {
        assert(cs.subrange(0, cs.len() as int) =~= cs);
        assert(buffered(buf) + concat(cs.subrange(0, cs.len() as int)) =~= concat(cs));
        assert(raws_of(out@) + buffered(buf) + concat(cs.subrange(0, cs.len() as int)) =~= concat(
            cs,
        ));
    }
    while k < chunks.len()
        invariant
            cs == chunks@,
            t == trace(concat(cs)),
            k <= cs.len(),
            k == 0 ==> buffered(buf).len() == 0,
            raws_of(out@) + buffered(buf) + concat(cs.subrange(k as int, cs.len() as int)) == concat(
                cs,
            ),
            buffered(buf) == buffer_after(cs, k as nat),
            no_escape_split(cs) ==> out@.len() <= t.len() && (forall|i: int|
                0 <= i < out@.len() ==> shows(#[trigger] out@[i], t[i])) && trace(
                buffered(buf) + concat(cs.subrange(k as int, cs.len() as int)),
            ) == t.skip(out@.len() as int),
            k > 0 ==> decode_step(buffered(buf)) is Wait,
        decreases cs.len() - k,
    {
        proof {
            lemma_concat_front(cs, k as int);
            assert(buffered(buf) + concat(cs.subrange(k as int, cs.len() as int)) =~= (buffered(
                buf,
            ) + cs[k as int]@) + concat(cs.subrange(k + 1, cs.len() as int)));
        }
        append(&mut buf, chunks[k].as_slice());
        let ghost x = buffered(buf);
        k = k + 1;
        let mut waiting = false;
        while !waiting
            invariant
                cs == chunks@,
                t == trace(concat(cs)),
                0 < k <= cs.len(),
                raws_of(out@) + buffered(buf) + concat(cs.subrange(k as int, cs.len() as int))
                    == concat(cs),
                x == buffer_after(cs, (k - 1) as nat) + cs[k - 1]@,
                remainder(buffered(buf)) == remainder(x),
                reaches_lone_escape(buffered(buf)) ==> reaches_lone_escape(x),
                no_escape_split(cs) ==> out@.len() <= t.len() && (forall|i: int|
                    0 <= i < out@.len() ==> shows(#[trigger] out@[i], t[i])) && trace(
                    buffered(buf) + concat(cs.subrange(k as int, cs.len() as int)),
                ) == t.skip(out@.len() as int),
                waiting ==> decode_step(buffered(buf)) is Wait,
            decreases buffered(buf).len(), if waiting { 0int } else { 1int },
        {
            let ghost before = buffered(buf);
            let ghost rest = concat(cs.subrange(k as int, cs.len() as int));
            let ghost s = decode_step(before);
            let ghost n = consumed(s);
            let item = decoder.decode(&mut buf);
            match item {
                Some(it) => {
                    proof {
                        if no_escape_split(cs) {
                            if lone_escape(before) {
                                assert(reaches_lone_escape(before));
                                assert(reaches_lone_escape(
                                    buffer_after(cs, (k - 1) as nat) + cs[k - 1]@,
                                ));
                                assert(rest.len() == 0);
                                assert(before + rest =~= before);
                            } else {
                                assert(decode_step(before + rest) == s);
                            }
                            let whole = before + rest;
                            assert(whole.take(n as int) =~= before.take(n as int));
                            assert(whole.skip(n as int) =~= before.skip(n as int) + rest);
                            assert(trace(whole) == seq![(s, whole.take(n as int))] + trace(
                                whole.skip(n as int),
                            ));
                            assert(t.skip(out@.len() as int)[0] == (s, before.take(n as int)));
                            assert(t.skip(out@.len() as int + 1) =~= t.skip(out@.len() as int).drop_first());
                        }
                    }
                    let ghost prev = out@;
                    out.push(it);
                    proof {
                        assert(buffered(buf) == before.skip(n as int));
                        assert(remainder(before) == remainder(before.skip(n as int)));
                        assert(reaches_lone_escape(before.skip(n as int)) ==> reaches_lone_escape(
                            before,
                        ));
                        assert(out@.drop_last() =~= prev);
                        assert(raws_of(out@) + buffered(buf) + rest =~= raws_of(prev) + before
                            + rest);
                    }
                },
                None => {
                    assert(before.skip(0) =~= before);
                    waiting = true;
                },
            }
        }
        proof {
            assert(remainder(buffered(buf)) == buffered(buf));
        }
    }
    proof {
        assert(cs.subrange(k as int, cs.len() as int).len() == 0);
        assert(raws_of(out@) + buffered(buf) =~= concat(cs));
        assert(concat(cs).skip(raws_of(out@).len() as int) =~= buffered(buf));
        assert(concat(cs).take(raws_of(out@).len() as int) =~= raws_of(out@));
        if no_escape_split(cs) {
            assert(buffered(buf) + concat(cs.subrange(k as int, cs.len() as int)) =~= buffered(
                buf,
            ));
            assert(t.skip(out@.len() as int).len() == 0);
        }
    }
    out
}

} // verus!
