//! The abridged framing: the payload's length in words, in one byte where
//! it is below 127 and in four bytes otherwise.

use crate::codec::prepend;
use crate::transport::{
    delimits, KeyError, Transport, UnpackError, UnpackedOffset, MAX_PAYLOAD_LEN,
};
use vstd::prelude::*;

verus! {

/// The tag of the abridged framing.
pub open spec fn abridged_tag() -> Seq<u8> {
    seq![0xef, 0xef, 0xef, 0xef]
}

/// The length header for a payload of `words` four-byte words.
pub open spec fn abridged_head(words: nat) -> Seq<u8> {
    if words < 127 {
        seq![words as u8]
    } else {
        seq![
            0x7f,
            (words % 256) as u8,
            ((words / 256) % 256) as u8,
            ((words / 65536) % 256) as u8,
        ]
    }
}

/// A payload behind its length header.
pub open spec fn abridged_frame(payload: Seq<u8>) -> Seq<u8> {
    abridged_head(payload.len() / 4) + payload
}

/// What is reported once the header, `skip` bytes long, has declared a
/// payload of `words` words.
pub open spec fn abridged_body(bytes: Seq<u8>, skip: nat, words: nat) -> Result<
    UnpackedOffset,
    UnpackError,
> {
    if 4 * words > MAX_PAYLOAD_LEN {
        Err(UnpackError::BadLen { got: (4 * words) as u32 })
    } else if bytes.len() < skip + 4 * words {
        Err(UnpackError::NeedMoreData)
    } else {
        Ok(
            UnpackedOffset {
                data_start: skip as usize,
                data_end: (skip + 4 * words) as usize,
                next_offset: (skip + 4 * words) as usize,
            },
        )
    }
}

/// What the abridged framing makes of received bytes.
pub open spec fn abridged_scan(bytes: Seq<u8>) -> Result<UnpackedOffset, UnpackError> {
    if bytes.len() == 0 {
        Err(UnpackError::NeedMoreData)
    } else if bytes[0] > 0x7f {
        Err(UnpackError::BadLen { got: bytes[0] as u32 })
    } else if bytes[0] < 0x7f {
        abridged_body(bytes, 1, bytes[0] as nat)
    } else if bytes.len() < 4 {
        Err(UnpackError::NeedMoreData)
    } else {
        abridged_body(bytes, 4, (bytes[1] + 256 * bytes[2] + 65536 * bytes[3]) as nat)
    }
}

/// The abridged framing. The first packet of a connection is preceded by
/// one tag byte, unless a wrapper has taken the tag to announce it itself.
#[derive(Clone, Copy, Debug)]
pub struct Abridged {
    /// Whether the tag has gone out or has been handed to a wrapper.
    pub announced: bool,
}

impl Abridged {
    /// The framing at the start of a connection.
    pub fn new() -> (r: Self)
        ensures
            r == (Abridged { announced: false }),
    {
        Abridged { announced: false }
    }

    /// What precedes the next frame: one tag byte before the first, nothing
    /// afterwards.
    pub open spec fn preamble(&self) -> Seq<u8> {
        if self.announced {
            Seq::empty()
        } else {
            seq![0xef]
        }
    }

    /// Every payload of whole words within the supported range comes back
    /// out of its own frame: the frame holds exactly one message, and that
    /// message is the payload.
    pub proof fn lemma_round_trip(payload: Seq<u8>)
        requires
            payload.len() % 4 == 0,
            payload.len() <= MAX_PAYLOAD_LEN,
        ensures
            abridged_scan(abridged_frame(payload)) matches Ok(found) && delimits(
                found,
                abridged_frame(payload),
                payload,
            ),
    {
        let words = payload.len() / 4;
        let frame = abridged_frame(payload);
        let skip: int = if words < 127 {
            1
        } else {
            4
        };
        assert(frame.subrange(skip, skip + payload.len()) =~= payload);
    }
}

impl Transport for Abridged {
    open spec fn inv(&self) -> bool {
        true
    }

    open spec fn tagged(&self) -> bool {
        true
    }

    open spec fn tag(&self) -> Seq<u8> {
        abridged_tag()
    }

    open spec fn after_tag(&self) -> Self {
        Abridged { announced: true }
    }

    open spec fn accepts(&self, payload: Seq<u8>) -> bool {
        payload.len() % 4 == 0 && payload.len() <= MAX_PAYLOAD_LEN
    }

    open spec fn wire(&self, payload: Seq<u8>) -> Seq<u8> {
        self.preamble() + abridged_frame(payload)
    }

    open spec fn after_pack(&self, payload: Seq<u8>) -> Self {
        Abridged { announced: true }
    }

    open spec fn scan(&self, bytes: Seq<u8>) -> Result<UnpackedOffset, UnpackError> {
        abridged_scan(bytes)
    }

    open spec fn after_unpack(&self, bytes: Seq<u8>) -> Self {
        *self
    }

    open spec fn resets_to(&self, next: Self) -> bool {
        next == (Abridged { announced: false })
    }

    open spec fn reveals(&self, n: nat) -> bool {
        true
    }

    open spec fn clear(&self, bytes: Seq<u8>) -> Seq<u8> {
        bytes
    }

    open spec fn after_deobfuscate(&self, n: nat) -> Self {
        *self
    }

    open spec fn lead(&self) -> nat {
        self.preamble().len()
    }

    open spec fn in_step_with(&self, sender: &Self) -> bool {
        true
    }

    proof fn lemma_in_step_round_trip(&self, sender: &Self, payload: Seq<u8>) {
        let sent = sender.wire(payload);
        Abridged::lemma_round_trip(payload);
        assert(sent.subrange(sender.lead() as int, sent.len() as int) =~= abridged_frame(
            payload,
        ));
    }

    fn can_pack(&self, payload: &[u8]) -> (r: bool) {
        payload.len() % 4 == 0 && payload.len() <= MAX_PAYLOAD_LEN
    }

    fn packs_within(&self, payload: &[u8], room: u64) -> (r: bool) {
        if payload.len() % 4 != 0 || payload.len() > MAX_PAYLOAD_LEN {
            return false;
        }
        let preamble: u64 = if self.announced {
            0
        } else {
            1
        };
        let head: u64 = if payload.len() / 4 < 127 {
            1
        } else {
            4
        };
        preamble + head + payload.len() as u64 <= room
    }

    fn pack(&mut self, buffer: &mut Vec<u8>) {
        let mut head: Vec<u8> = Vec::new();
        if !self.announced {
            head.push(0xef);
            self.announced = true;
        }
        assert(head@ =~= old(self).preamble());
        let words = buffer.len() / 4;
        if words < 127 {
            head.push(words as u8);
        } else {
            head.push(0x7f);
            head.push((words % 256) as u8);
            head.push(((words / 256) % 256) as u8);
            head.push(((words / 65536) % 256) as u8);
        }
        assert(head@ =~= old(self).preamble() + abridged_head(words as nat));
        prepend(buffer, head.as_slice());
        assert(buffer@ =~= old(self).wire(old(buffer)@));
    }

    fn unpack(&mut self, buffer: &[u8]) -> (r: Result<UnpackedOffset, UnpackError>) {
        if buffer.len() == 0 {
            return Err(UnpackError::NeedMoreData);
        }
        let first = buffer[0];
        if first > 0x7f {
            return Err(UnpackError::BadLen { got: first as u32 });
        }
        let skip: usize;
        let words: u32;
        if first < 0x7f {
            skip = 1;
            words = first as u32;
        } else {
            if buffer.len() < 4 {
                return Err(UnpackError::NeedMoreData);
            }
            skip = 4;
            words = buffer[1] as u32 + 256 * (buffer[2] as u32) + 65536 * (buffer[3] as u32);
        }
        let n = 4 * words;
        if n > MAX_PAYLOAD_LEN as u32 {
            return Err(UnpackError::BadLen { got: n });
        }
        let end = skip + n as usize;
        if buffer.len() < end {
            return Err(UnpackError::NeedMoreData);
        }
        Ok(UnpackedOffset { data_start: skip, data_end: end, next_offset: end })
    }

    fn reset(&mut self) -> (r: Result<(), KeyError>)
        ensures
            r is Ok,
    {
        self.announced = false;
        Ok(())
    }

    fn obfuscated_tag(&mut self) -> (r: [u8; 4]) {
        self.announced = true;
        let tag = [0xefu8; 4];
        assert(tag@ =~= abridged_tag());
        tag
    }

    fn deobfuscate(&mut self, buffer: &mut Vec<u8>) {
    }
}

} // verus!
