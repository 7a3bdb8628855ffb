//! The incremental decoder: from the bytes buffered so far, at most one event
//! and the exact bytes that encoded it.

use vstd::prelude::*;
use vstd::slice::slice_to_vec;
use bytes::BytesMut;
use termion::event::{Event, Key};
use crate::buffer::{buffered, contents, drop_front};
use crate::event::ESC;
use crate::frame::{
    first_terminator, frame_len, frame_parsable, is_param_sequence, param_frame, parser_safe,
};
use crate::oracle::{parse, parsed, verdict_final};

verus! {

/// What one decode attempt decides about the front of the buffer.
#[derive(Debug, PartialEq, Eq)]
pub enum Step {
    /// The first `n` bytes encode this event.
    Emit(Event, usize),
    /// The first `n` bytes encode no event; they are kept verbatim as an
    /// unsupported sequence.
    Reject(usize),
    /// Nothing can be decided before more bytes arrive.
    Wait,
}

/// The number of bytes that a step takes from the front of the buffer.
pub open spec fn consumed(s: Step) -> nat {
    match s {
        Step::Emit(_, n) => n as nat,
        Step::Reject(n) => n as nat,
        Step::Wait => 0,
    }
}

/// The step for a buffer of `len` bytes, given the parser's verdict on them
/// (the event if any, the count of bytes it read after the first, whether it
/// asked past the end): wait if it ran out of bytes, or failed on a single
/// byte; else the event with the bytes it examined, or on a failure those
/// bytes as unsupported.
pub open spec fn settle_spec(len: nat, outcome: (Option<Event>, nat, bool)) -> Step {
    if len == 0 || outcome.1 + 1 > len || outcome.2 {
        Step::Wait
    } else {
        let n = (outcome.1 + 1) as usize;
        match outcome.0 {
            Some(e) => Step::Emit(e, n),
            None => if len > 1 {
                Step::Reject(n)
            } else {
                Step::Wait
            },
        }
    }
}

/// The parser's step on a non-empty buffer.
pub open spec fn parser_step(buf: Seq<u8>) -> Step {
    settle_spec(buf.len(), parsed(buf[0], buf.drop_first()))
}

/// The buffer is a single escape byte.
pub open spec fn lone_escape(buf: Seq<u8>) -> bool {
    buf.len() == 1 && buf[0] == ESC
}

/// The buffer is exactly `ESC [`, whose meaning rests on the next byte.
pub open spec fn bare_csi(buf: Seq<u8>) -> bool {
    buf.len() == 2 && buf[0] == ESC && buf[1] == 0x5B
}

/// One decode attempt on the buffered bytes.
pub open spec fn decode_step(buf: Seq<u8>) -> Step {
    if buf.len() == 0 {
        Step::Wait
    } else if lone_escape(buf) {
        Step::Emit(Event::Key(Key::Esc), 1)
    } else if bare_csi(buf) {
        Step::Wait
    } else if is_param_sequence(buf) {
        match frame_len(buf) {
            None => Step::Wait,
            Some(n) => if frame_parsable(buf, n) {
                parser_step(buf)
            } else {
                Step::Reject(n as usize)
            },
        }
    } else {
        parser_step(buf)
    }
}

/// The step settled: an event or a rejected frame.
pub open spec fn decided(s: Step) -> bool {
    s is Emit || s is Reject
}

/// What a decode attempt hands out for step `s` on buffer `buf`: the event
/// with its bytes, or the rejected bytes as an unsupported event.
pub open spec fn emitted(s: Step, buf: Seq<u8>, r: Option<(Event, Vec<u8>)>) -> bool {
    match s {
        Step::Emit(e, n) => match r {
            Some((e2, raw)) => e2 == e && raw@ == buf.take(n as int),
            None => false,
        },
        Step::Reject(n) => match r {
            Some((Event::Unsupported(v), raw)) => v@ == buf.take(n as int) && raw@ == buf.take(
                n as int,
            ),
            _ => false,
        },
        Step::Wait => r is None,
    }
}

proof fn lemma_first_terminator_bounds(buf: Seq<u8>, i: int)
    ensures
        match first_terminator(buf, i) {
            Some(j) => i <= j < buf.len(),
            None => true,
        },
    decreases buf.len() - i,
{
    if 0 <= i < buf.len() && !crate::frame::is_terminator(buf[2], buf[i]) {
        lemma_first_terminator_bounds(buf, i + 1);
    }
}

proof fn lemma_first_terminator_extends(buf: Seq<u8>, x: Seq<u8>, i: int)
    requires
        buf.len() >= 3,
        first_terminator(buf, i) is Some,
    ensures
        first_terminator(buf + x, i) == first_terminator(buf, i),
    decreases buf.len() - i,
{
    let b = buf + x;
    if 0 <= i < buf.len() {
        assert(b[i] == buf[i] && b[2] == buf[2]);
        if !crate::frame::is_terminator(buf[2], buf[i]) {
            lemma_first_terminator_extends(buf, x, i + 1);
        }
    }
}

/// A decided step takes between one byte and the whole buffer.
pub proof fn lemma_step_bounds(buf: Seq<u8>)
    requires
        buf.len() <= usize::MAX,
    ensures
        decided(decode_step(buf)) ==> 1 <= consumed(decode_step(buf)) <= buf.len(),
{
    if buf.len() >= 3 && is_param_sequence(buf) && buf[2] != 0x4D {
        lemma_first_terminator_bounds(buf, 3);
    }
}

/// A decision on `buf`, other than on a lone escape byte, stands whatever
/// bytes arrive after it, given that the parser's verdict on `buf` is final.
proof fn lemma_step_extends(buf: Seq<u8>, x: Seq<u8>)
    requires
        decided(decode_step(buf)),
        !lone_escape(buf),
        verdict_final(buf[0], buf.drop_first()),
    ensures
        decode_step(buf + x) == decode_step(buf),
{
    let b = buf + x;
    if x.len() == 0 {
        assert(b =~= buf);
    } else {
        assert(b.drop_first() =~= buf.drop_first() + x);
        assert(b[0] == buf[0]);
        assert(buf.len() >= 2 ==> b[1] == buf[1]);
        assert(buf.len() >= 3 ==> b[2] == buf[2]);
        if is_param_sequence(buf) {
            let n = frame_len(buf)->Some_0;
            if buf[2] != 0x4D {
                lemma_first_terminator_extends(buf, x, 3);
                lemma_first_terminator_bounds(buf, 3);
            }
            assert(b[3] == buf[3]);
            assert(b.subrange(3, n - 1) =~= buf.subrange(3, n - 1));
            assert(b.subrange(2, n - 1) =~= buf.subrange(2, n - 1));
            assert(b[n - 1] == buf[n - 1]);
        }
    }
}

/// Reads the parser's step on a non-empty buffer.
fn classify(buf: &[u8]) -> (r: Step)
    requires
        buf@.len() >= 1,
        parser_safe(buf@),
    ensures
        r == parser_step(buf@),
        verdict_final(buf@[0], buf@.drop_first()),
{
    let rest = &buf[1..buf.len()];
    assert(seq![buf@[0]] + rest@ =~= buf@);
    assert(rest@ =~= buf@.drop_first());
    let (event, puller) = parse(buf[0], rest);
    settle(buf.len(), (event, puller.pos, puller.dry))
}

/// The step for a buffer of `len` bytes, given the parser's verdict on them
/// (the event if any, the count of bytes read after the first, whether it
/// asked past the end).
pub fn settle(len: usize, outcome: (Option<Event>, usize, bool)) -> (r: Step)
    ensures
        r == settle_spec(len as nat, (outcome.0, outcome.1 as nat, outcome.2)),
{
    let (event, pulled, dry) = outcome;
    if len == 0 || pulled >= len || dry {
        Step::Wait
    } else {
        match event {
            Some(e) => Step::Emit(e, pulled + 1),
            None => if len > 1 {
                Step::Reject(pulled + 1)
            } else {
                Step::Wait
            },
        }
    }
}

/// One decode attempt on the buffered bytes `buf`.
pub fn decide(buf: &[u8]) -> (r: Step)
    ensures
        r == decode_step(buf@),
        decided(r) && !lone_escape(buf@) ==> forall|x: Seq<u8>|
            #[trigger] decode_step(buf@ + x) == r,
{
    let len = buf.len();
    if len == 0 {
        return Step::Wait;
    }
    if len == 1 && buf[0] == ESC {
        return Step::Emit(Event::Key(Key::Esc), 1);
    }
    if len == 2 && buf[0] == ESC && buf[1] == 0x5B {
        return Step::Wait;
    }
    let b2 = if len >= 3 { buf[2] } else { 0 };
    if len >= 3 && buf[0] == ESC && buf[1] == 0x5B && (b2 == 0x4D || b2 == 0x3C || (0x30 <= b2
        && b2 <= 0x39)) {
        match param_frame(buf) {
            None => Step::Wait,
            Some((n, ok)) => {
                if ok {
                    let r = classify(buf);
                    assert forall|x: Seq<u8>| decided(r) implies #[trigger] decode_step(buf@ + x)
                        == r by {
                        lemma_step_extends(buf@, x);
                    }
                    r
                } else {
                    let r = Step::Reject(n);
                    assert forall|x: Seq<u8>| #[trigger] decode_step(buf@ + x) == r by {
                        let b = buf@ + x;
                        lemma_first_terminator_bounds(buf@, 3);
                        if buf@[2] != 0x4D {
                            lemma_first_terminator_extends(buf@, x, 3);
                        }
                        assert(b[0] == buf@[0] && b[1] == buf@[1] && b[2] == buf@[2]);
                        assert(b[3] == buf@[3]);
                        assert(b.subrange(3, n - 1) =~= buf@.subrange(3, n - 1));
                        assert(b.subrange(2, n - 1) =~= buf@.subrange(2, n - 1));
                        assert(b[n - 1] == buf@[n - 1]);
                    }
                    r
                }
            },
        }
    } else {
        let r = classify(buf);
        assert forall|x: Seq<u8>| decided(r) implies #[trigger] decode_step(buf@ + x) == r by {
            lemma_step_extends(buf@, x);
        }
        r
    }
}

/// Decodes buffered terminal input into events paired with the bytes that
/// encoded them.
pub struct EventsAndRawDecoder;

impl EventsAndRawDecoder {
    /// Takes at most one event off the front of `src`, with the exact bytes
    /// that encoded it, and drops those bytes from `src`. `None` means that
    /// more bytes are needed; `src` is then left as it was.
    pub fn decode(&mut self, src: &mut BytesMut) -> (r: Option<(Event, Vec<u8>)>)
        ensures
            emitted(decode_step(buffered(*old(src))), buffered(*old(src)), r),
            buffered(*final(src)) == buffered(*old(src)).skip(
                consumed(decode_step(buffered(*old(src)))) as int,
            ),
            r matches Some((_, raw)) ==> buffered(*old(src)) == raw@ + buffered(*final(src)),
            decided(decode_step(buffered(*old(src)))) ==> 1 <= consumed(
                decode_step(buffered(*old(src))),
            ) <= buffered(*old(src)).len(),
            decided(decode_step(buffered(*old(src)))) && !lone_escape(buffered(*old(src)))
                ==> forall|x: Seq<u8>|
                #[trigger] decode_step(buffered(*old(src)) + x) == decode_step(
                    buffered(*old(src)),
                ),
    {
        let buf = contents(src);
        let step = decide(buf.as_slice());
        proof {
            assert(buf@.len() == buf.len());
            lemma_step_bounds(buf@);
        }
        match step {
            Step::Emit(e, n) => {
                let raw = slice_to_vec(&buf.as_slice()[0..n]);
                drop_front(src, n);
                assert(buf@ =~= raw@ + buf@.skip(n as int));
                Some((e, raw))
            },
            Step::Reject(n) => {
                let raw = slice_to_vec(&buf.as_slice()[0..n]);
                let kept = slice_to_vec(&buf.as_slice()[0..n]);
                drop_front(src, n);
                assert(buf@ =~= raw@ + buf@.skip(n as int));
                Some((Event::Unsupported(kept), raw))
            },
            Step::Wait => {
                proof {
                    assert(buf@.skip(0) =~= buf@);
                }
                None
            },
        }
    }

    /// Like `decode`, at the end of the input: bytes that cannot be decided
    /// will never be, so they are dropped without an event.
    pub fn decode_eof(&mut self, src: &mut BytesMut) -> (r: Option<(Event, Vec<u8>)>)
        ensures
            emitted(decode_step(buffered(*old(src))), buffered(*old(src)), r),
            decided(decode_step(buffered(*old(src)))) ==> buffered(*final(src)) == buffered(
                *old(src),
            ).skip(consumed(decode_step(buffered(*old(src)))) as int),
            !decided(decode_step(buffered(*old(src)))) ==> buffered(*final(src)).len() == 0,
    {
        let r = self.decode(src);
        match r {
            Some(_) => r,
            None => {
                let rest = contents(src);
                drop_front(src, rest.len());
                None
            },
        }
    }
}

/// The steps that repeated decode attempts take on `buf`, each with the bytes
/// it took, in order, until one must wait.
pub open spec fn trace(buf: Seq<u8>) -> Seq<(Step, Seq<u8>)>
    decreases buf.len(),
{
    let s = decode_step(buf);
    let n = consumed(s);
    if decided(s) && 1 <= n <= buf.len() {
        seq![(s, buf.take(n as int))] + trace(buf.skip(n as int))
    } else {
        seq![]
    }
}

/// What is left of `buf` when repeated decode attempts must wait.
pub open spec fn remainder(buf: Seq<u8>) -> Seq<u8>
    decreases buf.len(),
{
    let s = decode_step(buf);
    let n = consumed(s);
    if decided(s) && 1 <= n <= buf.len() {
        remainder(buf.skip(n as int))
    } else {
        buf
    }
}

/// The bytes of the steps of a trace, joined in order.
pub open spec fn joined(t: Seq<(Step, Seq<u8>)>) -> Seq<u8>
    decreases t.len(),
{
    if t.len() == 0 {
        seq![]
    } else {
        t[0].1 + joined(t.drop_first())
    }
}

/// No byte is lost, duplicated or reordered: the spans of the decoded events,
/// joined in order, followed by the undecided remainder, give back the input.
pub proof fn lemma_bytes_conserved(buf: Seq<u8>)
    ensures
        joined(trace(buf)) + remainder(buf) == buf,
    decreases buf.len(),
{
    let s = decode_step(buf);
    let n = consumed(s);
    if decided(s) && 1 <= n <= buf.len() {
        let f = trace(buf);
        lemma_bytes_conserved(buf.skip(n as int));
        assert(f.drop_first() =~= trace(buf.skip(n as int)));
        assert(buf.take(n as int) + buf.skip(n as int) =~= buf);
        assert(joined(f) + remainder(buf) =~= buf);
    } else {
        assert(joined(trace(buf)) =~= seq![]);
        assert(joined(trace(buf)) + remainder(buf) =~= buf);
    }
}

} // verus!
