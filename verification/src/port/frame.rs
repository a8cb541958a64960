//! Length-prefixed stream framing: four bytes of length, most significant first, then that many
//! bytes of one value.

use vstd::prelude::*;
use crate::bytes::bytes_of;
use crate::bytes::law_number_bytes;
use crate::bytes::number_of;
use crate::bytes::push_number;
use crate::bytes::read_number;
use crate::port::codec::EncodeError;
use crate::port::codec::ProtocolFailure;
use crate::port::codec::ProtocolFailureView;
use crate::port::error::ProtocolCode;
use crate::port::error::ProtocolError;
use crate::port::error::ProtocolErrorView;
use crate::text::decimal;
use crate::text::push_decimal;

verus! {

/// Size of the length prefix, in bytes.
pub const LENGTH_PREFIX_LEN: usize = 4;

/// The largest frame body accepted or produced: 16 MiB.
pub const MAX_FRAME_LEN: usize = 16_777_216;

/// A body behind its length.
pub open spec fn framed(body: Seq<u8>) -> Seq<u8> {
    bytes_of(body.len(), 4) + body
}

fn append(out: &mut Vec<u8>, bytes: &Vec<u8>, from: usize, to: usize)
    requires
        from <= to <= bytes@.len(),
    ensures
        final(out)@ == old(out)@ + bytes@.subrange(from as int, to as int),
{
    let mut i: usize = from;
    proof {
        assert(out@ =~= old(out)@ + bytes@.subrange(from as int, i as int));
    }
    while i < to
        invariant
            from <= i <= to <= bytes@.len(),
            out@ == old(out)@ + bytes@.subrange(from as int, i as int),
        decreases to - i,
    {
        out.push(bytes[i]);
        i = i + 1;
        proof {
            assert(out@ =~= old(out)@ + bytes@.subrange(from as int, i as int));
        }
    }
}

/// Prefix a body with its length, unless it is longer than [`MAX_FRAME_LEN`].
pub fn encode_frame(body: &Vec<u8>) -> (r: Result<Vec<u8>, EncodeError>)
    ensures
        body@.len() <= MAX_FRAME_LEN ==> (r matches Ok(frame) && frame@ == framed(body@)),
        body@.len() > MAX_FRAME_LEN ==> (r matches Err(EncodeError::FrameTooLarge { len }) && len == body@.len()),
{
    if body.len() > MAX_FRAME_LEN {
        return Err(EncodeError::FrameTooLarge { len: body.len() });
    }
    let mut frame: Vec<u8> = Vec::new();
    push_number(&mut frame, body.len() as u64, LENGTH_PREFIX_LEN);
    append(&mut frame, body, 0, body.len());
    proof {
        assert(frame@ =~= framed(body@));
    }
    Ok(frame)
}

/// What a decoder is between two calls: the bytes not yet returned, and the length that poisoned
/// it.
#[verifier::ext_equal]
pub ghost struct DecoderView {
    pub pending: Seq<u8>,
    pub poisoned: Option<nat>,
}

/// What a stream yields next.
#[verifier::ext_equal]
pub ghost enum Yield {
    /// More bytes are needed.
    Wait,
    /// One complete body.
    Frame(Seq<u8>),
    /// A prefix claims this many bytes, which is too many.
    Oversized(nat),
}

/// What some bytes at the front of a stream yield.
pub open spec fn yielded(pending: Seq<u8>) -> Yield {
    if pending.len() < 4 {
        Yield::Wait
    } else {
        let len = number_of(pending.take(4)) as int;
        if len > MAX_FRAME_LEN {
            Yield::Oversized(len as nat)
        } else if pending.len() < 4 + len {
            Yield::Wait
        } else {
            Yield::Frame(pending.subrange(4, 4 + len))
        }
    }
}

impl DecoderView {
    /// Bytes arrive. A poisoned stream takes no more.
    pub open spec fn pushed(self, bytes: Seq<u8>) -> DecoderView {
        if self.poisoned is Some {
            self
        } else {
            DecoderView { pending: self.pending + bytes, ..self }
        }
    }

    /// What the stream yields next.
    pub open spec fn next(self) -> Yield {
        match self.poisoned {
            Some(len) => Yield::Oversized(len),
            None => yielded(self.pending),
        }
    }

    /// The decoder behind what it yielded.
    pub open spec fn after(self) -> DecoderView {
        match self.next() {
            Yield::Wait => self,
            Yield::Frame(body) => DecoderView { pending: self.pending.skip(4 + body.len() as int), ..self },
            Yield::Oversized(len) => DecoderView { pending: Seq::empty(), poisoned: Some(len) },
        }
    }
}

/// The failure on an oversized prefix.
pub open spec fn too_large_failure(len: nat) -> ProtocolFailureView {
    ProtocolFailureView {
        id: None,
        error: ProtocolErrorView {
            code: ProtocolCode::FrameTooLarge,
            message: "frame length "@ + decimal(len) + " exceeds the maximum of "@ + decimal(MAX_FRAME_LEN as nat)
                + " bytes"@,
        },
    }
}

fn too_large(len: u64) -> (r: ProtocolFailure)
    ensures
        r@ == too_large_failure(len as nat),
{
    let mut message = "frame length ".to_owned();
    push_decimal(&mut message, len);
    message.append(" exceeds the maximum of ");
    push_decimal(&mut message, MAX_FRAME_LEN as u64);
    message.append(" bytes");
    ProtocolFailure { id: None, error: ProtocolError::new(ProtocolCode::FrameTooLarge, message) }
}

/// Splits a byte stream into frame bodies.
///
/// Memory grows only with the bytes pushed, never with a length that a prefix merely claims. Once a
/// prefix is oversized the decoder is poisoned: the stream has no frame boundary to trust any more.
#[derive(Debug)]
pub struct FrameDecoder {
    buffer: Vec<u8>,
    consumed: usize,
    poisoned: Option<u64>,
}

impl View for FrameDecoder {
    type V = DecoderView;

    closed spec fn view(&self) -> DecoderView {
        DecoderView {
            pending: self.buffer@.skip(self.consumed as int),
            poisoned: match self.poisoned {
                Some(len) => Some(len as nat),
                None => None,
            },
        }
    }
}

impl FrameDecoder {
    #[verifier::type_invariant]
    spec fn inv(self) -> bool {
        &&& self.consumed <= self.buffer@.len()
        &&& self.poisoned is Some ==> self.buffer@.len() == 0
    }

    /// A decoder with nothing buffered.
    pub fn new() -> (r: Self)
        ensures
            r@ == (DecoderView { pending: Seq::empty(), poisoned: None }),
    {
        let r = FrameDecoder { buffer: Vec::new(), consumed: 0, poisoned: None };
        proof {
            assert(r@.pending =~= Seq::<u8>::empty());
        }
        r
    }

    /// Append bytes received from the stream. A poisoned decoder discards them.
    pub fn push(&mut self, bytes: &Vec<u8>)
        ensures
            final(self)@ == old(self)@.pushed(bytes@),
    {
        proof {
            use_type_invariant(&*self);
        }
        if self.poisoned.is_some() {
            return;
        }
        let mut buffer: Vec<u8> = Vec::new();
        append(&mut buffer, &self.buffer, self.consumed, self.buffer.len());
        append(&mut buffer, bytes, 0, bytes.len());
        proof {
            assert(buffer@ =~= self@.pending + bytes@);
            assert(buffer@.skip(0) =~= buffer@);
        }
        *self = FrameDecoder { buffer, consumed: 0, poisoned: None };
    }

    /// The next complete frame body, `Ok(None)` if more bytes are needed.
    pub fn next_frame(&mut self) -> (r: Result<Option<Vec<u8>>, ProtocolFailure>)
        ensures
            match old(self)@.next() {
                Yield::Wait => r matches Ok(None),
                Yield::Frame(body) => r matches Ok(Some(bytes)) && bytes@ == body,
                Yield::Oversized(len) => r matches Err(failure) && failure@ == too_large_failure(len),
            },
            final(self)@ == old(self)@.after(),
    {
        proof {
            use_type_invariant(&*self);
        }
        if let Some(len) = self.poisoned {
            proof {
                assert(self@ =~= self@.after());
            }
            return Err(too_large(len));
        }
        let start: usize = self.consumed;
        let ghost pending = self@.pending;
        if self.buffer.len() - start < LENGTH_PREFIX_LEN {
            return Ok(None);
        }
        let len = read_number(&self.buffer, start, start + LENGTH_PREFIX_LEN);
        proof {
            assert(self.buffer@.subrange(start as int, start + 4) =~= pending.take(4));
        }
        if len > MAX_FRAME_LEN as u64 {
            *self = FrameDecoder { buffer: Vec::new(), consumed: 0, poisoned: Some(len) };
            proof {
                assert(self@.pending =~= Seq::<u8>::empty());
            }
            return Err(too_large(len));
        }
        if ((self.buffer.len() - start - LENGTH_PREFIX_LEN) as u64) < len {
            return Ok(None);
        }
        let from: usize = start + LENGTH_PREFIX_LEN;
        let to: usize = from + len as usize;
        let mut body: Vec<u8> = Vec::new();
        append(&mut body, &self.buffer, from, to);
        self.consumed = to;
        proof {
            assert(body@ =~= pending.subrange(4, 4 + len));
            assert(self@.pending =~= pending.skip(4 + len));
        }
        Ok(Some(body))
    }

    /// Whether an oversized frame has made this stream unreadable.
    pub fn is_poisoned(&self) -> (r: bool)
        ensures
            r == self@.poisoned is Some,
    {
        self.poisoned.is_some()
    }

    /// Bytes pushed but not yet returned as a frame.
    pub fn buffered_len(&self) -> (r: usize)
        ensures
            r == self@.pending.len(),
    {
        proof {
            use_type_invariant(self);
        }
        self.buffer.len() - self.consumed
    }
}

impl Default for FrameDecoder {
    fn default() -> (r: Self)
        ensures
            r@ == (DecoderView { pending: Seq::empty(), poisoned: None }),
    {
        FrameDecoder::new()
    }
}

/// Some bodies one behind the other, each behind its length.
pub open spec fn stream_of(bodies: Seq<Seq<u8>>) -> Seq<u8>
    decreases bodies.len(),
{
    if bodies.len() == 0 {
        Seq::empty()
    } else {
        framed(bodies[0]) + stream_of(bodies.drop_first())
    }
}

/// Every body that a decoder yields before it waits or fails, at most `n`.
pub open spec fn drained(decoder: DecoderView, n: nat) -> Seq<Seq<u8>>
    decreases n,
{
    if n == 0 {
        Seq::empty()
    } else {
        match decoder.next() {
            Yield::Frame(body) => seq![body] + drained(decoder.after(), (n - 1) as nat),
            _ => Seq::empty(),
        }
    }
}

/// A frame at the front of a stream comes out as its body, and leaves the rest of the stream.
pub proof fn law_frame_round_trip(body: Seq<u8>, rest: Seq<u8>)
    requires
        body.len() <= MAX_FRAME_LEN,
    ensures
        yielded(framed(body) + rest) == Yield::Frame(body),
        (DecoderView { pending: framed(body) + rest, poisoned: None }).after() == (DecoderView {
            pending: rest,
            poisoned: None,
        }),
{
    let all = framed(body) + rest;
    reveal_with_fuel(crate::bytes::reach, 5);
    law_number_bytes(body.len(), 4, Seq::empty());
    assert(all.take(4) =~= bytes_of(body.len(), 4));
    assert(all.subrange(4, 4 + body.len() as int) =~= body);
    assert(all.skip(4 + body.len() as int) =~= rest);
}

/// A decoder gives back every body that was framed, in order.
pub proof fn law_stream_round_trip(bodies: Seq<Seq<u8>>)
    requires
        forall|i: int| 0 <= i < bodies.len() ==> (#[trigger] bodies[i]).len() <= MAX_FRAME_LEN,
    ensures
        drained((DecoderView { pending: stream_of(bodies), poisoned: None }), bodies.len()) == bodies,
    decreases bodies.len(),
{
    if bodies.len() > 0 {
        let rest = bodies.drop_first();
        law_frame_round_trip(bodies[0], stream_of(rest));
        assert forall|i: int| 0 <= i < rest.len() implies (#[trigger] rest[i]).len() <= MAX_FRAME_LEN by {
            assert(rest[i] == bodies[i + 1]);
        }
        law_stream_round_trip(rest);
        assert(seq![bodies[0]] + rest =~= bodies);
    }
}

/// However a stream is cut into pieces, the decoder comes to the same: pushing two pieces is
/// pushing them as one, and what was complete before more bytes came stays what it was.
pub proof fn law_pieces(decoder: DecoderView, first: Seq<u8>, second: Seq<u8>)
    ensures
        decoder.pushed(first).pushed(second) == decoder.pushed(first + second),
        decoder.next() != Yield::Wait ==> decoder.pushed(first).next() == decoder.next() && decoder.pushed(first).after()
            == decoder.after().pushed(first),
{
    assert((decoder.pending + first) + second =~= decoder.pending + (first + second));
    if decoder.poisoned is None && decoder.next() != Yield::Wait {
        let all = decoder.pending + first;
        assert(all.take(4) =~= decoder.pending.take(4));
        if let Yield::Frame(body) = decoder.next() {
            let len = number_of(decoder.pending.take(4)) as int;
            assert(all.subrange(4, 4 + len) =~= decoder.pending.subrange(4, 4 + len));
            assert(body.len() == len);
            assert(all.skip(4 + len) =~= decoder.pending.skip(4 + len) + first);
        }
    }
}

/// A poisoned decoder stays poisoned: it fails the same way for ever, and takes no more bytes.
pub proof fn law_poison_stays(decoder: DecoderView, bytes: Seq<u8>)
    requires
        decoder.poisoned is Some,
    ensures
        decoder.pushed(bytes) == decoder,
        decoder.next() == Yield::Oversized(decoder.poisoned->0),
        decoder.after().poisoned == decoder.poisoned,
{
}

} // verus!
