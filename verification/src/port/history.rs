//! What a frame decoder does over a whole stream, however pushes and reads follow one another.

use vstd::prelude::*;
use crate::port::frame::DecoderView;
use crate::port::frame::MAX_FRAME_LEN;
use crate::port::frame::Yield;
use crate::port::frame::drained;
use crate::port::frame::framed;
use crate::port::frame::law_frame_round_trip;
use crate::port::frame::law_pieces;
use crate::port::frame::law_stream_round_trip;
use crate::port::frame::stream_of;

verus! {

/// One use of a decoder.
#[verifier::ext_equal]
pub ghost enum Use {
    /// Bytes are pushed.
    Push(Seq<u8>),
    /// The next frame is read.
    Read,
}

/// A new decoder after some uses.
pub open spec fn used(uses: Seq<Use>) -> DecoderView
    decreases uses.len(),
{
    if uses.len() == 0 {
        DecoderView { pending: Seq::empty(), poisoned: None }
    } else {
        match uses.last() {
            Use::Push(bytes) => used(uses.drop_last()).pushed(bytes),
            Use::Read => used(uses.drop_last()).after(),
        }
    }
}

/// All bytes that were pushed.
pub open spec fn received(uses: Seq<Use>) -> Seq<u8>
    decreases uses.len(),
{
    if uses.len() == 0 {
        Seq::empty()
    } else {
        match uses.last() {
            Use::Push(bytes) => received(uses.drop_last()) + bytes,
            Use::Read => received(uses.drop_last()),
        }
    }
}

/// All bodies that reads returned.
pub open spec fn returned(uses: Seq<Use>) -> Seq<Seq<u8>>
    decreases uses.len(),
{
    if uses.len() == 0 {
        Seq::empty()
    } else {
        match uses.last() {
            Use::Push(_) => returned(uses.drop_last()),
            Use::Read => match used(uses.drop_last()).next() {
                Yield::Frame(body) => returned(uses.drop_last()).push(body),
                _ => returned(uses.drop_last()),
            },
        }
    }
}

/// Whether some read failed.
pub open spec fn failed(uses: Seq<Use>) -> bool {
    exists|k: int|
        0 <= k < uses.len() && (#[trigger] uses[k]) is Read && used(uses.take(k)).next() is Oversized
}

/// How many bytes some bodies take in a stream.
pub open spec fn framed_len(bodies: Seq<Seq<u8>>) -> int
    decreases bodies.len(),
{
    if bodies.len() == 0 {
        0
    } else {
        framed_len(bodies.drop_last()) + 4 + bodies.last().len()
    }
}

proof fn lemma_failed_grows(uses: Seq<Use>)
    requires
        uses.len() > 0,
    ensures
        failed(uses) <==> failed(uses.drop_last()) || (uses.last() is Read && used(uses.drop_last()).next() is Oversized),
{
    let before = uses.drop_last();
    let n = uses.len() - 1;
    assert(uses.take(n) =~= before);
    assert forall|k: int| 0 <= k < n implies #[trigger] uses.take(k) == before.take(k) by {
        assert(uses.take(k) =~= before.take(k));
    }
    if failed(before) {
        let k = choose|k: int|
            0 <= k < before.len() && (#[trigger] before[k]) is Read && used(before.take(k)).next() is Oversized;
        assert(uses[k] is Read);
        assert(uses.take(k) == before.take(k));
    }
    if failed(uses) {
        let k = choose|k: int|
            0 <= k < uses.len() && (#[trigger] uses[k]) is Read && used(uses.take(k)).next() is Oversized;
        if k < n {
            assert(before[k] is Read);
            assert(uses.take(k) == before.take(k));
        }
    }
}

/// A decoder is poisoned exactly when some read has failed. A push never poisons it.
pub proof fn law_poisoned_by_a_failed_read(uses: Seq<Use>)
    ensures
        used(uses).poisoned is Some <==> failed(uses),
        forall|bytes: Seq<u8>| (#[trigger] used(uses).pushed(bytes)).poisoned == used(uses).poisoned,
    decreases uses.len(),
{
    if uses.len() > 0 {
        law_poisoned_by_a_failed_read(uses.drop_last());
        lemma_failed_grows(uses);
    }
}

/// What is buffered is what was pushed without what the returned bodies took, and nothing once a
/// read has failed.
pub proof fn law_buffered_is_what_was_not_returned(uses: Seq<Use>)
    ensures
        !failed(uses) ==> used(uses).pending.len() == received(uses).len() - framed_len(returned(uses)),
        failed(uses) ==> used(uses).pending.len() == 0,
    decreases uses.len(),
{
    law_poisoned_by_a_failed_read(uses);
    if uses.len() > 0 {
        let before = uses.drop_last();
        law_buffered_is_what_was_not_returned(before);
        law_poisoned_by_a_failed_read(before);
        lemma_failed_grows(uses);
        if let Use::Read = uses.last() {
            if let Yield::Frame(body) = used(before).next() {
                assert(returned(before).push(body).drop_last() =~= returned(before));
            }
        }
    }
}

/// The state of a decoder that has received the start of a stream of frames.
proof fn lemma_follows(uses: Seq<Use>, bodies: Seq<Seq<u8>>, rest: Seq<u8>)
    requires
        forall|i: int| 0 <= i < bodies.len() ==> (#[trigger] bodies[i]).len() <= MAX_FRAME_LEN,
        received(uses) + rest == stream_of(bodies),
    ensures
        used(uses).poisoned is None,
        returned(uses).len() <= bodies.len(),
        returned(uses) == bodies.take(returned(uses).len() as int),
        used(uses).pending + rest == stream_of(bodies.skip(returned(uses).len() as int)),
    decreases uses.len(),
{
    if uses.len() == 0 {
        assert(bodies.skip(0) =~= bodies);
        assert(bodies.take(0) =~= returned(uses));
    } else {
        let before = uses.drop_last();
        match uses.last() {
            Use::Push(bytes) => {
                assert(received(before) + (bytes + rest) =~= received(uses) + rest);
                lemma_follows(before, bodies, bytes + rest);
                assert(used(uses).pending + rest =~= used(before).pending + (bytes + rest));
            },
            Use::Read => {
                lemma_follows(before, bodies, rest);
                let decoder = used(before);
                let k = returned(before).len() as int;
                let left = bodies.skip(k);
                if decoder.next() != Yield::Wait {
                    law_pieces(decoder, rest, Seq::empty());
                    assert(decoder.pushed(rest).pending == stream_of(left));
                    if k < bodies.len() {
                        assert(left[0] == bodies[k]);
                        assert(left.drop_first() =~= bodies.skip(k + 1));
                        law_frame_round_trip(left[0], stream_of(left.drop_first()));
                        assert(decoder.pushed(rest) == (DecoderView {
                            pending: framed(left[0]) + stream_of(left.drop_first()),
                            poisoned: None,
                        }));
                        assert(returned(uses) == returned(before).push(bodies[k]));
                        assert(bodies.take(k + 1) =~= bodies.take(k).push(bodies[k]));
                        assert(decoder.after().pushed(rest).pending == stream_of(bodies.skip(k + 1)));
                    } else {
                        assert(stream_of(left).len() == 0);
                        assert(decoder.pending.len() == 0);
                    }
                }
            },
        }
    }
}

/// A stream of frames comes back as it was framed, however it is cut into pushes and however reads
/// come between them. No read fails. The bodies come in order. Once everything is pushed, reading on
/// returns the rest; and when a read has to wait, every body has been returned and nothing is
/// buffered.
pub proof fn law_interleaved_round_trip(uses: Seq<Use>, bodies: Seq<Seq<u8>>)
    requires
        forall|i: int| 0 <= i < bodies.len() ==> (#[trigger] bodies[i]).len() <= MAX_FRAME_LEN,
        received(uses) == stream_of(bodies),
    ensures
        !failed(uses),
        returned(uses).len() <= bodies.len(),
        returned(uses) + drained(used(uses), (bodies.len() - returned(uses).len()) as nat) == bodies,
        used(uses).next() == Yield::Wait ==> returned(uses) == bodies && used(uses).pending.len() == 0,
        returned(uses).len() == bodies.len() ==> used(uses).pending.len() == 0,
{
    let none = Seq::<u8>::empty();
    assert(received(uses) + none =~= stream_of(bodies));
    lemma_follows(uses, bodies, none);
    law_poisoned_by_a_failed_read(uses);
    let k = returned(uses).len() as int;
    let left = bodies.skip(k);
    assert(used(uses).pending + none =~= used(uses).pending);
    assert forall|i: int| 0 <= i < left.len() implies (#[trigger] left[i]).len() <= MAX_FRAME_LEN by {
        assert(left[i] == bodies[k + i]);
    }
    law_stream_round_trip(left);
    assert(used(uses) == (DecoderView { pending: stream_of(left), poisoned: None }));
    assert(bodies.take(k) + left =~= bodies);
    if k < bodies.len() {
        law_frame_round_trip(left[0], stream_of(left.drop_first()));
    } else {
        assert(bodies.take(k) =~= bodies);
    }
}

} // verus!
