//! Reading frames from a stream that arrives in pieces of any size.
//!
//! The decoder takes the stream byte by byte. It gathers a header until the
//! blank line, then as many body bytes as the header declares, hands the body
//! out as text and starts on the next header. A header that declares no
//! length, and a body that is no UTF-8, are reported and dropped: the decoder
//! does not look for the start of the next frame, it goes on with the next
//! byte as the start of a header.

use super::codec::{decoded, frame, lemma_frame_round_trip, ProtocolError};
use super::header::{closes_at, content_length, declared_length, header_end, lemma_first_close};
use crate::text::text_of_utf8;
use vstd::prelude::*;
use vstd::utf8::{decode_utf8, encode_utf8, valid_utf8};

verus! {

/// Where a decoder stands in the stream.
pub enum DecoderState {
    /// Inside a header, of which these bytes have come.
    Header(Seq<u8>),
    /// Inside a body of the given length, of which these bytes have come.
    Body(nat, Seq<u8>),
}

/// The state before any byte, and after each frame.
pub open spec fn idle() -> DecoderState {
    DecoderState::Header(Seq::empty())
}

/// What comes out of a stream: a message, or the reason why a header or a
/// body was dropped.
pub type Outcome = Result<Seq<char>, ProtocolError>;

/// What one byte does: the next state, and what the byte completes, if it
/// completes a body or a header without length.
pub open spec fn step(state: DecoderState, byte: u8) -> (DecoderState, Option<Outcome>) {
    match state {
        DecoderState::Header(seen) => {
            let block = seen.push(byte);
            if closes_at(block, block.len() as int) {
                if declared_length(block) == 0 {
                    (idle(), Some(Err(ProtocolError::MissingLength)))
                } else {
                    (DecoderState::Body(declared_length(block), Seq::empty()), None)
                }
            } else {
                (DecoderState::Header(block), None)
            }
        },
        DecoderState::Body(length, seen) => {
            let body = seen.push(byte);
            if body.len() < length {
                (DecoderState::Body(length, body), None)
            } else if valid_utf8(body) {
                (idle(), Some(Ok(decode_utf8(body))))
            } else {
                (idle(), Some(Err(ProtocolError::InvalidUtf8)))
            }
        },
    }
}

/// What a run of bytes does: the state after it, and what it completes, in
/// the order of the stream.
pub open spec fn run(state: DecoderState, bytes: Seq<u8>) -> (DecoderState, Seq<Outcome>)
    decreases bytes.len(),
{
    if bytes.len() == 0 {
        (state, Seq::empty())
    } else {
        let (before, messages) = run(state, bytes.drop_last());
        let (after, message) = step(before, bytes.last());
        (
            after,
            match message {
                Some(m) => messages.push(m),
                None => messages,
            },
        )
    }
}

/// What came out, with each message as its text.
pub open spec fn text_of(outcome: Result<String, ProtocolError>) -> Outcome {
    match outcome {
        Ok(message) => Ok(message@),
        Err(e) => Err(e),
    }
}

/// What came out, with each message as its text.
pub open spec fn texts(outcomes: Seq<Result<String, ProtocolError>>) -> Seq<Outcome> {
    outcomes.map_values(|o: Result<String, ProtocolError>| text_of(o))
}

/// The messages as they come out of a stream that holds nothing else.
pub open spec fn delivered(bodies: Seq<Seq<char>>) -> Seq<Outcome> {
    bodies.map_values(|b: Seq<char>| Ok::<Seq<char>, ProtocolError>(b))
}

/// A decoder of Content-Length frames.
pub struct FrameDecoder {
    in_body: bool,
    declared: usize,
    pending: Vec<u8>,
}

impl View for FrameDecoder {
    type V = DecoderState;

    closed spec fn view(&self) -> DecoderState {
        if self.in_body {
            DecoderState::Body(self.declared as nat, self.pending@)
        } else {
            DecoderState::Header(self.pending@)
        }
    }
}

impl FrameDecoder {
    #[verifier::type_invariant]
    spec fn well_formed(&self) -> bool {
        self.in_body ==> self.pending@.len() < self.declared
    }

    /// A decoder at the start of a stream.
    pub fn new() -> (decoder: FrameDecoder)
        ensures
            decoder@ == idle(),
    {
        FrameDecoder { in_body: false, declared: 0, pending: Vec::new() }
    }

    /// Takes one byte of the stream.
    pub fn push(&mut self, byte: u8) -> (outcome: Option<Result<String, ProtocolError>>)
        ensures
            final(self)@ == step(old(self)@, byte).0,
            match outcome {
                Some(o) => step(old(self)@, byte).1 == Some(text_of(o)),
                None => step(old(self)@, byte).1 is None,
            },
    {
        proof {
            use_type_invariant(&*self);
        }
        let mut block: Vec<u8> = Vec::new();
        std::mem::swap(&mut self.pending, &mut block);
        block.push(byte);
        let len: usize = block.len();
        if self.in_body {
            if len < self.declared {
                self.pending = block;
                None
            } else {
                self.in_body = false;
                match text_of_utf8(block) {
                    Some(message) => Some(Ok(message)),
                    None => Some(Err(ProtocolError::InvalidUtf8)),
                }
            }
        } else if len >= 4 && block[len - 4] == 13 && block[len - 3] == 10 && block[len - 2] == 13
            && block[len - 1] == 10 {
            let length: usize = content_length(block.as_slice());
            if length != 0 {
                self.declared = length;
                self.in_body = true;
                None
            } else {
                Some(Err(ProtocolError::MissingLength))
            }
        } else {
            self.pending = block;
            None
        }
    }

    /// Takes the next piece of the stream and hands out what it completes.
    pub fn feed(&mut self, chunk: &[u8]) -> (messages: Vec<Result<String, ProtocolError>>)
        ensures
            final(self)@ == run(old(self)@, chunk@).0,
            texts(messages@) == run(old(self)@, chunk@).1,
    {
        let mut messages: Vec<Result<String, ProtocolError>> = Vec::new();
        let mut i: usize = 0;
        proof {
            assert(chunk@.subrange(0, 0) =~= Seq::<u8>::empty());
            assert(texts(messages@) =~= Seq::<Outcome>::empty());
        }
        while i < chunk.len()
            invariant
                i <= chunk@.len(),
                self@ == run(old(self)@, chunk@.subrange(0, i as int)).0,
                texts(messages@) == run(old(self)@, chunk@.subrange(0, i as int)).1,
            decreases chunk@.len() - i,
        {
            let ghost before = messages@;
            proof {
                assert(chunk@.subrange(0, i + 1).drop_last() =~= chunk@.subrange(0, i as int));
            }
            match self.push(chunk[i]) {
                Some(m) => {
                    messages.push(m);
                    proof {
                        assert(texts(messages@) =~= texts(before).push(text_of(m)));
                    }
                },
                None => {},
            }
            i = i + 1;
        }
        proof {
            assert(chunk@.subrange(0, i as int) =~= chunk@);
        }
        messages
    }

    /// How many bytes the decoder can take before it may change from header
    /// to body or back: one inside a header, and what is left of the body
    /// inside a body.
    pub fn wanted(&self) -> (count: usize)
        ensures
            count as nat == wanted_after(self@),
            count >= 1,
    {
        proof {
            use_type_invariant(self);
        }
        if self.in_body {
            self.declared - self.pending.len()
        } else {
            1
        }
    }
}

/// The number of bytes that `wanted` names.
pub open spec fn wanted_after(state: DecoderState) -> nat {
    match state {
        DecoderState::Header(_) => 1,
        DecoderState::Body(length, seen) => (length - seen.len()) as nat,
    }
}

/// A stream may be cut anywhere: two pieces, one after the other, do what the
/// whole does.
pub proof fn lemma_run_split(state: DecoderState, first: Seq<u8>, second: Seq<u8>)
    ensures
        run(state, first + second).0 == run(run(state, first).0, second).0,
        run(state, first + second).1 == run(state, first).1 + run(run(state, first).0, second).1,
    decreases second.len(),
{
    if second.len() == 0 {
        assert(first + second =~= first);
        assert(run(state, first).1 + Seq::<Outcome>::empty() =~= run(state, first).1);
    } else {
        let whole = first + second;
        assert(whole.drop_last() =~= first + second.drop_last());
        assert(whole.last() == second.last());
        lemma_run_split(state, first, second.drop_last());
        let mid = run(state, first).0;
        let (before, messages) = run(mid, second.drop_last());
        match step(before, second.last()).1 {
            Some(m) => {
                assert(run(state, first).1 + messages.push(m) =~= (run(state, first).1
                    + messages).push(m));
            },
            None => {},
        }
    }
}

/// Inside a header nothing comes out, and the bytes gather, as long as no
/// blank line closes it.
proof fn lemma_run_header(seen: Seq<u8>, bytes: Seq<u8>)
    requires
        forall|k: int| seen.len() < k <= seen.len() + bytes.len() ==> !closes_at(seen + bytes, k),
    ensures
        run(DecoderState::Header(seen), bytes) == (
            DecoderState::Header(seen + bytes),
            Seq::<Outcome>::empty(),
        ),
    decreases bytes.len(),
{
    if bytes.len() == 0 {
        assert(seen + bytes =~= seen);
    } else {
        let shorter = bytes.drop_last();
        let whole = seen + bytes;
        assert forall|k: int| seen.len() < k <= seen.len() + shorter.len() implies !closes_at(
            seen + shorter,
            k,
        ) by {
            assert(!closes_at(whole, k));
            if 4 <= k {
                assert((seen + shorter)[k - 4] == whole[k - 4]);
                assert((seen + shorter)[k - 3] == whole[k - 3]);
                assert((seen + shorter)[k - 2] == whole[k - 2]);
                assert((seen + shorter)[k - 1] == whole[k - 1]);
            }
        }
        lemma_run_header(seen, shorter);
        assert((seen + shorter).push(bytes.last()) =~= whole);
        assert(!closes_at(whole, whole.len() as int));
    }
}

/// Inside a body nothing comes out, and the bytes gather, as long as the body
/// is not full.
proof fn lemma_run_body(length: nat, seen: Seq<u8>, bytes: Seq<u8>)
    requires
        seen.len() + bytes.len() < length,
    ensures
        run(DecoderState::Body(length, seen), bytes) == (
            DecoderState::Body(length, seen + bytes),
            Seq::<Outcome>::empty(),
        ),
    decreases bytes.len(),
{
    if bytes.len() == 0 {
        assert(seen + bytes =~= seen);
    } else {
        lemma_run_body(length, seen, bytes.drop_last());
        assert((seen + bytes.drop_last()).push(bytes.last()) =~= seen + bytes);
    }
}

/// The decoder reads the start of a stream as `decoded` does. Where one
/// frame can be read, the decoder hands out its text with the last byte of
/// the frame and is idle again; where the header declares no length, it
/// reports that with the last byte of the header; where the body is no
/// UTF-8, with the last byte of the body. Where the header or the body has
/// not come to its end, the decoder has handed out nothing and holds what
/// has come.
pub proof fn lemma_run_agrees(bytes: Seq<u8>)
    ensures
        match decoded(bytes) {
            Ok((text, used)) => run(idle(), bytes.take(used as int)) == (
                idle(),
                seq![Ok::<Seq<char>, ProtocolError>(text)],
            ),
            Err(ProtocolError::UnterminatedHeader) => run(idle(), bytes) == (
                DecoderState::Header(bytes),
                Seq::<Outcome>::empty(),
            ),
            Err(ProtocolError::MissingLength) => run(idle(), bytes.take(header_end(bytes)->0)) == (
                idle(),
                seq![Err::<Seq<char>, ProtocolError>(ProtocolError::MissingLength)],
            ),
            Err(ProtocolError::TruncatedBody) => run(idle(), bytes) == (
                DecoderState::Body(
                    declared_length(bytes.take(header_end(bytes)->0)),
                    bytes.skip(header_end(bytes)->0),
                ),
                Seq::<Outcome>::empty(),
            ),
            Err(ProtocolError::InvalidUtf8) => run(
                idle(),
                bytes.take(header_end(bytes)->0 + declared_length(bytes.take(header_end(bytes)->0))),
            ) == (idle(), seq![Err::<Seq<char>, ProtocolError>(ProtocolError::InvalidUtf8)]),
        },
{
    let empty = Seq::<u8>::empty();
    let none = Seq::<Outcome>::empty();
    lemma_first_close(bytes, 0);
    match header_end(bytes) {
        None => {
            assert(empty + bytes =~= bytes);
            lemma_run_header(empty, bytes);
        },
        Some(h) => {
            let head = bytes.take(h);
            let start = head.drop_last();
            assert(bytes.subrange(0, h) =~= head);
            assert(empty + start =~= start);
            assert forall|k: int| 0 < k <= start.len() implies !closes_at(empty + start, k) by {
                assert(!closes_at(bytes, k));
                if 4 <= k {
                    assert(start[k - 4] == bytes[k - 4]);
                    assert(start[k - 3] == bytes[k - 3]);
                    assert(start[k - 2] == bytes[k - 2]);
                    assert(start[k - 1] == bytes[k - 1]);
                }
            }
            lemma_run_header(empty, start);
            assert(start.push(head.last()) =~= head);
            assert(closes_at(head, h)) by {
                assert(head[h - 4] == bytes[h - 4]);
                assert(head[h - 3] == bytes[h - 3]);
                assert(head[h - 2] == bytes[h - 2]);
                assert(head[h - 1] == bytes[h - 1]);
            }
            let n = declared_length(head);
            if n == 0 {
                let out: Outcome = Err(ProtocolError::MissingLength);
                assert(none.push(out) =~= seq![out]);
                assert(run(idle(), head) == (idle(), seq![out]));
            } else {
                assert(run(idle(), head) == (DecoderState::Body(n, empty), none));
                if bytes.len() < h + n {
                    let rest = bytes.skip(h);
                    lemma_run_body(n, empty, rest);
                    lemma_run_split(idle(), head, rest);
                    assert(head + rest =~= bytes);
                    assert(empty + rest =~= rest);
                    assert(none + none =~= none);
                } else {
                    let body = bytes.subrange(h, h + n);
                    lemma_run_body(n, empty, body.drop_last());
                    assert(empty + body.drop_last() =~= body.drop_last());
                    assert(body.drop_last().push(body.last()) =~= body);
                    let out: Outcome = if valid_utf8(body) {
                        Ok(decode_utf8(body))
                    } else {
                        Err(ProtocolError::InvalidUtf8)
                    };
                    assert(none.push(out) =~= seq![out]);
                    assert(run(DecoderState::Body(n, empty), body) == (idle(), seq![out]));
                    lemma_run_split(idle(), head, body);
                    assert(head + body =~= bytes.take(h + n));
                    assert(none + seq![out] =~= seq![out]);
                }
            }
        },
    }
}

/// An idle decoder that takes the frame of a text hands out that text and
/// nothing else, and is idle again. The empty text is left out: its frame
/// declares the length zero, which counts as a missing length.
pub proof fn lemma_run_frame(body: Seq<char>)
    requires
        0 < encode_utf8(body).len() <= usize::MAX,
    ensures
        run(idle(), frame(encode_utf8(body))) == (idle(), delivered(seq![body])),
{
    let bytes = frame(encode_utf8(body));
    lemma_frame_round_trip(body, Seq::empty());
    assert(bytes + Seq::<u8>::empty() =~= bytes);
    lemma_run_agrees(bytes);
    assert(bytes.take(bytes.len() as int) =~= bytes);
    assert(delivered(seq![body]) =~= seq![Ok::<Seq<char>, ProtocolError>(body)]);
}

/// The frames of `bodies`, one after the other.
pub open spec fn frames(bodies: Seq<Seq<char>>) -> Seq<u8>
    decreases bodies.len(),
{
    if bodies.len() == 0 {
        Seq::empty()
    } else {
        frames(bodies.drop_last()) + frame(encode_utf8(bodies.last()))
    }
}

/// An idle decoder that takes the frames of some texts, none of them empty,
/// hands out those texts in their order, and is idle again.
pub proof fn lemma_run_frames(bodies: Seq<Seq<char>>)
    requires
        forall|i: int|
            0 <= i < bodies.len() ==> 0 < encode_utf8(#[trigger] bodies[i]).len() <= usize::MAX,
    ensures
        run(idle(), frames(bodies)) == (idle(), delivered(bodies)),
    decreases bodies.len(),
{
    if bodies.len() == 0 {
        assert(delivered(bodies) =~= Seq::<Outcome>::empty());
    } else {
        lemma_run_frames(bodies.drop_last());
        lemma_run_frame(bodies.last());
        lemma_run_split(idle(), frames(bodies.drop_last()), frame(encode_utf8(bodies.last())));
        assert(delivered(bodies.drop_last()) + delivered(seq![bodies.last()]) =~= delivered(bodies));
    }
}

} // verus!
