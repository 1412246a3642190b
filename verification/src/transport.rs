//! The framing interface: how a payload becomes wire bytes and how wire bytes
//! are cut back into payloads.

use vstd::prelude::*;

verus! {

/// Largest payload, in bytes, that any framing variant accepts or reports.
pub const MAX_PAYLOAD_LEN: usize = 0x100_0000;

/// Where one complete message lies inside a buffer of received bytes.
#[derive(Clone, Copy, Debug, PartialEq, Eq, Structural)]
pub struct UnpackedOffset {
    /// Index of the first payload byte.
    pub data_start: usize,
    /// Index one past the last payload byte.
    pub data_end: usize,
    /// Index at which the next message begins.
    pub next_offset: usize,
}

/// Why a buffer of received bytes yields no message.
#[derive(Clone, Copy, Debug, PartialEq, Eq, Structural)]
pub enum UnpackError {
    /// The buffer ends before the message does; read more and try again.
    NeedMoreData,
    /// The declared length is negative, too small or beyond the sanity bound.
    BadLen { got: u32 },
    /// The sequence number is not the one expected next.
    BadSeq { expected: u32, got: u32 },
    /// The checksum does not match the bytes it covers.
    BadCrc { expected: u32, got: u32 },
}

impl UnpackError {
    /// Whether the error condemns the connection, as opposed to asking for
    /// more bytes.
    pub open spec fn is_violation(&self) -> bool {
        !(self is NeedMoreData)
    }

    /// Whether the connection has to be reset and re-established.
    pub fn is_framing_violation(&self) -> (r: bool)
        ensures
            r == self.is_violation(),
    {
        match self {
            UnpackError::NeedMoreData => false,
            _ => true,
        }
    }
}

/// Why fresh obfuscation keys could not be produced.
#[derive(Clone, Copy, Debug, PartialEq, Eq, Structural)]
pub enum KeyError {
    /// The system's random source reported a failure.
    RandomSource,
    /// Every block drawn was one that may not open a connection.
    Rejected,
}

/// Whether `found` describes `payload` as the single message held by `wire`.
pub open spec fn delimits(found: UnpackedOffset, wire: Seq<u8>, payload: Seq<u8>) -> bool {
    &&& found.data_start <= found.data_end <= found.next_offset == wire.len()
    &&& wire.subrange(found.data_start as int, found.data_end as int) == payload
}

/// A framing discipline with its per-connection state.
///
/// Each method names, through a specification function of the same
/// implementation, the one result and the one next state that it may have.
pub trait Transport: Sized {
    /// The representation invariant.
    spec fn inv(&self) -> bool;

    /// Whether the variant identifies itself on the wire and may therefore
    /// be wrapped in obfuscation.
    spec fn tagged(&self) -> bool;

    /// The four bytes by which a tagged variant identifies itself.
    spec fn tag(&self) -> Seq<u8>;

    /// The state once the tag has been handed to a wrapper.
    spec fn after_tag(&self) -> Self;

    /// Whether `payload` can be framed in this state.
    spec fn accepts(&self, payload: Seq<u8>) -> bool;

    /// The wire bytes that framing `payload` yields in this state.
    spec fn wire(&self, payload: Seq<u8>) -> Seq<u8>;

    /// The state once `payload` has been framed.
    spec fn after_pack(&self, payload: Seq<u8>) -> Self;

    /// What a look at the received `bytes` reports in this state.
    spec fn scan(&self, bytes: Seq<u8>) -> Result<UnpackedOffset, UnpackError>;

    /// The state once `bytes` have been looked at.
    spec fn after_unpack(&self, bytes: Seq<u8>) -> Self;

    /// Whether `next` is a state in which a reset may leave this transport.
    spec fn resets_to(&self, next: Self) -> bool;

    /// Whether `n` more received bytes can be deobfuscated in this state.
    spec fn reveals(&self, n: nat) -> bool;

    /// The bytes that deobfuscating `bytes` yields in this state.
    spec fn clear(&self, bytes: Seq<u8>) -> Seq<u8>;

    /// The state once `n` received bytes have been deobfuscated.
    spec fn after_deobfuscate(&self, n: nat) -> Self;

    /// How many bytes at the start of the next wire output announce the
    /// connection to the peer and precede the frame proper.
    spec fn lead(&self) -> nat;

    /// Whether a receiver in this state is in step with `sender`: once the
    /// announcement is past, it deobfuscates what the sender emits next to
    /// the one message that it expects.
    spec fn in_step_with(&self, sender: &Self) -> bool;

    /// The round trip: from what a sender it is in step with emits behind
    /// its announcement, a receiver gets, by deobfuscating and then
    /// looking for a message, the bounds of exactly one message, the
    /// payload that was framed.
    proof fn lemma_in_step_round_trip(&self, sender: &Self, payload: Seq<u8>)
        requires
            self.inv(),
            sender.inv(),
            self.in_step_with(sender),
            sender.accepts(payload),
        ensures
            ({
                let sent = sender.wire(payload);
                let clear = self.clear(sent.subrange(sender.lead() as int, sent.len() as int));
                &&& sender.lead() <= sent.len()
                &&& self.scan(clear) matches Ok(found) && delimits(found, clear, payload)
            }),
    ;

    /// Tells whether `payload` can be framed in this state.
    fn can_pack(&self, payload: &[u8]) -> (r: bool)
        requires
            self.inv(),
        ensures
            r == self.accepts(payload@),
    ;

    /// Tells whether `payload` can be framed in this state into no more
    /// than `room` wire bytes.
    fn packs_within(&self, payload: &[u8], room: u64) -> (r: bool)
        requires
            self.inv(),
        ensures
            r == (self.accepts(payload@) && self.wire(payload@).len() <= room),
    ;

    /// Replaces the payload held by `buffer` with its wire bytes.
    fn pack(&mut self, buffer: &mut Vec<u8>)
        requires
            old(self).inv(),
            old(self).accepts(old(buffer)@),
        ensures
            final(self).inv(),
            final(buffer)@ == old(self).wire(old(buffer)@),
            *final(self) == old(self).after_pack(old(buffer)@),
            final(self).tagged() == old(self).tagged(),
            final(self).tag() == old(self).tag(),
    ;

    /// Looks for one complete message at the start of `buffer`.
    fn unpack(&mut self, buffer: &[u8]) -> (r: Result<UnpackedOffset, UnpackError>)
        requires
            old(self).inv(),
        ensures
            final(self).inv(),
            r == old(self).scan(buffer@),
            *final(self) == old(self).after_unpack(buffer@),
            final(self).tagged() == old(self).tagged(),
            final(self).tag() == old(self).tag(),
    ;

    /// Starts the per-connection state afresh, as after a reconnect. On
    /// failure the state is left as it was.
    fn reset(&mut self) -> (r: Result<(), KeyError>)
        requires
            old(self).inv(),
        ensures
            final(self).inv(),
            r is Ok ==> old(self).resets_to(*final(self)),
            r is Err ==> *final(self) == *old(self),
            final(self).tagged() == old(self).tagged(),
            final(self).tag() == old(self).tag(),
    ;

    /// Hands the variant's tag to a wrapper that will announce it.
    fn obfuscated_tag(&mut self) -> (r: [u8; 4])
        requires
            old(self).inv(),
            old(self).tagged(),
        ensures
            final(self).inv(),
            r@ == old(self).tag(),
            *final(self) == old(self).after_tag(),
            final(self).tagged(),
            final(self).tag() == old(self).tag(),
    ;

    /// Removes the obfuscation from received bytes, in place.
    fn deobfuscate(&mut self, buffer: &mut Vec<u8>)
        requires
            old(self).inv(),
            old(self).reveals(old(buffer)@.len()),
        ensures
            final(self).inv(),
            final(buffer)@ == old(self).clear(old(buffer)@),
            *final(self) == old(self).after_deobfuscate(old(buffer)@.len()),
            final(self).tagged() == old(self).tagged(),
            final(self).tag() == old(self).tag(),
    ;
}

/// Whether the transport leaves received bytes as they are when asked to
/// deobfuscate them, as every transport does that is not itself an
/// obfuscation.
pub open spec fn passes_through<T: Transport>(transport: T) -> bool {
    forall|bytes: Seq<u8>| #[trigger] transport.clear(bytes) == bytes
}

} // verus!
