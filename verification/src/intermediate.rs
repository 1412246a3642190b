//! The intermediate framing: a four-byte little-endian length in front of
//! every payload.

use crate::codec::{from_le32, get_le32, le32, lemma_le32_round_trip, prepend, put_le32};
use crate::transport::{
    delimits, KeyError, Transport, UnpackError, UnpackedOffset, MAX_PAYLOAD_LEN,
};
use vstd::prelude::*;

verus! {

/// The tag of the intermediate framing.
pub open spec fn intermediate_tag() -> Seq<u8> {
    seq![0xee, 0xee, 0xee, 0xee]
}

/// A payload behind its length.
pub open spec fn intermediate_frame(payload: Seq<u8>) -> Seq<u8> {
    le32(payload.len() as u32) + payload
}

/// What the intermediate framing makes of received bytes.
pub open spec fn intermediate_scan(bytes: Seq<u8>) -> Result<UnpackedOffset, UnpackError> {
    if bytes.len() < 4 {
        Err(UnpackError::NeedMoreData)
    } else {
        let n = from_le32(bytes.subrange(0, 4));
        if n > MAX_PAYLOAD_LEN {
            Err(UnpackError::BadLen { got: n })
        } else if bytes.len() < 4 + n {
            Err(UnpackError::NeedMoreData)
        } else {
            Ok(
                UnpackedOffset {
                    data_start: 4,
                    data_end: (4 + n) as usize,
                    next_offset: (4 + n) as usize,
                },
            )
        }
    }
}

/// The intermediate framing. The first packet of a connection is preceded
/// by the tag, unless a wrapper has taken the tag to announce it itself.
#[derive(Clone, Copy, Debug)]
pub struct Intermediate {
    /// Whether the tag has gone out or has been handed to a wrapper.
    pub announced: bool,
}

impl Intermediate {
    /// The framing at the start of a connection.
    pub fn new() -> (r: Self)
        ensures
            r == (Intermediate { announced: false }),
    {
        Intermediate { announced: false }
    }

    /// What precedes the next frame: the tag before the first, nothing
    /// afterwards.
    pub open spec fn preamble(&self) -> Seq<u8> {
        if self.announced {
            Seq::empty()
        } else {
            intermediate_tag()
        }
    }

    /// Every payload within the supported range comes back out of its own
    /// frame: the frame holds exactly one message, and that message is the
    /// payload.
    pub proof fn lemma_round_trip(payload: Seq<u8>)
        requires
            payload.len() <= MAX_PAYLOAD_LEN,
        ensures
            intermediate_scan(intermediate_frame(payload)) matches Ok(found) && delimits(
                found,
                intermediate_frame(payload),
                payload,
            ),
    {
        let n = payload.len() as u32;
        let frame = intermediate_frame(payload);
        lemma_le32_round_trip(n);
        assert(frame.subrange(0, 4) =~= le32(n));
        assert(frame.subrange(4, 4 + n) =~= payload);
    }

    /// A frame cut short asks for more bytes; it is never mistaken for a
    /// message or for a violation.
    pub proof fn lemma_partial_frame_waits(payload: Seq<u8>, cut: int)
        requires
            payload.len() <= MAX_PAYLOAD_LEN,
            0 <= cut < intermediate_frame(payload).len(),
        ensures
            intermediate_scan(intermediate_frame(payload).subrange(0, cut)) == Err::<
                UnpackedOffset,
                UnpackError,
            >(UnpackError::NeedMoreData),
    {
        let n = payload.len() as u32;
        let frame = intermediate_frame(payload);
        lemma_le32_round_trip(n);
        if cut >= 4 {
            assert(frame.subrange(0, cut).subrange(0, 4) =~= le32(n));
        }
    }
}

impl Transport for Intermediate {
    open spec fn inv(&self) -> bool {
        true
    }

    open spec fn tagged(&self) -> bool {
        true
    }

    open spec fn tag(&self) -> Seq<u8> {
        intermediate_tag()
    }

    open spec fn after_tag(&self) -> Self {
        Intermediate { announced: true }
    }

    open spec fn accepts(&self, payload: Seq<u8>) -> bool {
        payload.len() <= MAX_PAYLOAD_LEN
    }

    open spec fn wire(&self, payload: Seq<u8>) -> Seq<u8> {
        self.preamble() + intermediate_frame(payload)
    }

    open spec fn after_pack(&self, payload: Seq<u8>) -> Self {
        Intermediate { announced: true }
    }

    open spec fn scan(&self, bytes: Seq<u8>) -> Result<UnpackedOffset, UnpackError> {
        intermediate_scan(bytes)
    }

    open spec fn after_unpack(&self, bytes: Seq<u8>) -> Self {
        *self
    }

    open spec fn resets_to(&self, next: Self) -> bool {
        next == (Intermediate { announced: false })
    }

    open spec fn reveals(&self, n: nat) -> bool {
        true
    }

    open spec fn clear(&self, bytes: Seq<u8>) -> Seq<u8> {
        bytes
    }

    open spec fn after_deobfuscate(&self, n: nat) -> Self {
        *self
    }

    open spec fn lead(&self) -> nat {
        self.preamble().len()
    }

    open spec fn in_step_with(&self, sender: &Self) -> bool {
        true
    }

    proof fn lemma_in_step_round_trip(&self, sender: &Self, payload: Seq<u8>) {
        let sent = sender.wire(payload);
        Intermediate::lemma_round_trip(payload);
        assert(sent.subrange(sender.lead() as int, sent.len() as int) =~= intermediate_frame(
            payload,
        ));
    }

    fn can_pack(&self, payload: &[u8]) -> (r: bool) {
        payload.len() <= MAX_PAYLOAD_LEN
    }

    fn packs_within(&self, payload: &[u8], room: u64) -> (r: bool) {
        if payload.len() > MAX_PAYLOAD_LEN {
            return false;
        }
        let preamble: u64 = if self.announced {
            0
        } else {
            4
        };
        preamble + 4 + payload.len() as u64 <= room
    }

    fn pack(&mut self, buffer: &mut Vec<u8>) {
        let mut head: Vec<u8> = Vec::new();
        if !self.announced {
            head.push(0xee);
            head.push(0xee);
            head.push(0xee);
            head.push(0xee);
            self.announced = true;
        }
        assert(head@ =~= old(self).preamble());
        put_le32(&mut head, buffer.len() as u32);
        prepend(buffer, head.as_slice());
        assert(buffer@ =~= old(self).wire(old(buffer)@));
    }

    fn unpack(&mut self, buffer: &[u8]) -> (r: Result<UnpackedOffset, UnpackError>) {
        if buffer.len() < 4 {
            return Err(UnpackError::NeedMoreData);
        }
        let n = get_le32(buffer, 0);
        if n > MAX_PAYLOAD_LEN as u32 {
            return Err(UnpackError::BadLen { got: n });
        }
        let end = 4 + n as usize;
        if buffer.len() < end {
            return Err(UnpackError::NeedMoreData);
        }
        Ok(UnpackedOffset { data_start: 4, data_end: end, next_offset: end })
    }

    fn reset(&mut self) -> (r: Result<(), KeyError>)
        ensures
            r is Ok,
    {
        self.announced = false;
        Ok(())
    }

    fn obfuscated_tag(&mut self) -> (r: [u8; 4]) {
        self.announced = true;
        let tag = [0xeeu8; 4];
        assert(tag@ =~= intermediate_tag());
        tag
    }

    fn deobfuscate(&mut self, buffer: &mut Vec<u8>) {
    }
}

} // verus!
