//! The full framing: total length, sequence number, payload and a CRC-32
//! over all that precedes it. It has no tag.

use crate::codec::{from_le32, get_le32, le32, lemma_le32_round_trip, prepend, put_le32};
use crate::transport::{
    delimits, KeyError, Transport, UnpackError, UnpackedOffset, MAX_PAYLOAD_LEN,
};
use vstd::prelude::*;
use vstd::slice::slice_subrange;

verus! {

/// One step of the checksum register: a shift to the right, with the
/// reflected polynomial folded in where a set bit falls out.
pub open spec fn crc_shift(state: u32) -> u32 {
    if (state & 1) == 1 {
        (state >> 1) ^ 0xedb8_8320
    } else {
        state >> 1
    }
}

/// The register after `n` steps.
pub open spec fn crc_shifts(state: u32, n: nat) -> u32
    decreases n,
{
    if n == 0 {
        state
    } else {
        crc_shift(crc_shifts(state, (n - 1) as nat))
    }
}

/// The register after one more byte has been taken in.
pub open spec fn crc_feed(state: u32, byte: u8) -> u32 {
    crc_shifts(state ^ (byte as u32), 8)
}

/// The register after `bytes` have been taken in, starting from all ones.
pub open spec fn crc_state(bytes: Seq<u8>) -> u32
    decreases bytes.len(),
{
    if bytes.len() == 0 {
        0xffff_ffff
    } else {
        crc_feed(crc_state(bytes.drop_last()), bytes.last())
    }
}

/// The CRC-32 of `bytes`: polynomial `0x04c11db7` in reflected form, the
/// register all ones at the start and inverted at the end.
pub open spec fn crc32(bytes: Seq<u8>) -> u32 {
    crc_state(bytes) ^ 0xffff_ffff
}

/// Computes the CRC-32 of `bytes`.
pub fn checksum(bytes: &[u8]) -> (r: u32)
    ensures
        r == crc32(bytes@),
{
    let mut state: u32 = 0xffff_ffff;
    let mut i: usize = 0;
    while i < bytes.len()
        invariant
            i <= bytes@.len(),
            state == crc_state(bytes@.subrange(0, i as int)),
        decreases bytes@.len() - i,
    {
        let ghost before = state;
        let byte = bytes[i];
        state = state ^ (byte as u32);
        let mut k: u32 = 0;
        while k < 8
            invariant
                k <= 8,
                state == crc_shifts(before ^ (byte as u32), k as nat),
            decreases 8 - k,
        {
            state = if (state & 1) == 1 {
                (state >> 1) ^ 0xedb8_8320
            } else {
                state >> 1
            };
            k += 1;
        }
        assert(bytes@.subrange(0, i + 1).drop_last() =~= bytes@.subrange(0, i as int));
        i += 1;
    }
    assert(bytes@.subrange(0, i as int) =~= bytes@);
    state ^ 0xffff_ffff
}

/// The sequence number that follows `seq`.
pub open spec fn next_seq(seq: u32) -> u32 {
    if seq == u32::MAX {
        0
    } else {
        (seq + 1) as u32
    }
}

/// The part of a frame that the checksum covers.
pub open spec fn full_body(payload: Seq<u8>, seq: u32) -> Seq<u8> {
    le32((payload.len() + 12) as u32) + le32(seq) + payload
}

/// The frame of `payload` under sequence number `seq`.
pub open spec fn full_frame(payload: Seq<u8>, seq: u32) -> Seq<u8> {
    full_body(payload, seq) + le32(crc32(full_body(payload, seq)))
}

/// The total length that received bytes declare, once it is plausible and
/// all of the frame has arrived.
pub open spec fn full_len(bytes: Seq<u8>) -> Result<u32, UnpackError> {
    if bytes.len() < 4 {
        Err(UnpackError::NeedMoreData)
    } else {
        let total = from_le32(bytes.subrange(0, 4));
        if total < 12 || total > MAX_PAYLOAD_LEN + 12 {
            Err(UnpackError::BadLen { got: total })
        } else if bytes.len() < total {
            Err(UnpackError::NeedMoreData)
        } else {
            Ok(total)
        }
    }
}

/// What is reported on a complete frame of `total` bytes, given the
/// sequence number expected and the checksum computed over the frame.
pub open spec fn full_check(bytes: Seq<u8>, total: u32, expected_seq: u32, computed: u32) -> Result<
    UnpackedOffset,
    UnpackError,
> {
    let seq = from_le32(bytes.subrange(4, 8));
    let stored = from_le32(bytes.subrange(total - 4, total as int));
    if seq != expected_seq {
        Err(UnpackError::BadSeq { expected: expected_seq, got: seq })
    } else if stored != computed {
        Err(UnpackError::BadCrc { expected: stored, got: computed })
    } else {
        Ok(
            UnpackedOffset {
                data_start: 8,
                data_end: (total - 4) as usize,
                next_offset: total as usize,
            },
        )
    }
}

/// What the full framing makes of received bytes when it expects the
/// sequence number `expected_seq`.
pub open spec fn full_scan(bytes: Seq<u8>, expected_seq: u32) -> Result<
    UnpackedOffset,
    UnpackError,
> {
    match full_len(bytes) {
        Err(e) => Err(e),
        Ok(total) => full_check(bytes, total, expected_seq, crc32(bytes.subrange(0, total - 4))),
    }
}

/// The full framing, with the sequence numbers of both directions.
#[derive(Clone, Copy, Debug)]
pub struct Full {
    /// The sequence number of the next frame sent.
    pub send_seq: u32,
    /// The sequence number expected of the next frame received.
    pub recv_seq: u32,
}

impl Full {
    /// The framing at the start of a connection.
    pub fn new() -> (r: Self)
        ensures
            r == (Full { send_seq: 0, recv_seq: 0 }),
    {
        Full { send_seq: 0, recv_seq: 0 }
    }

    /// Reads the total length that `buffer` declares.
    pub fn frame_len(buffer: &[u8]) -> (r: Result<u32, UnpackError>)
        ensures
            r == full_len(buffer@),
    {
        if buffer.len() < 4 {
            return Err(UnpackError::NeedMoreData);
        }
        let total = get_le32(buffer, 0);
        if total < 12 || total > MAX_PAYLOAD_LEN as u32 + 12 {
            return Err(UnpackError::BadLen { got: total });
        }
        if buffer.len() < total as usize {
            return Err(UnpackError::NeedMoreData);
        }
        Ok(total)
    }

    /// Judges a complete frame of `total` bytes by its sequence number and
    /// by the checksum computed over it.
    pub fn check_frame(buffer: &[u8], total: u32, expected_seq: u32, computed: u32) -> (r: Result<
        UnpackedOffset,
        UnpackError,
    >)
        requires
            12 <= total <= buffer@.len(),
        ensures
            r == full_check(buffer@, total, expected_seq, computed),
    {
        let seq = get_le32(buffer, 4);
        let end = total as usize;
        let stored = get_le32(buffer, end - 4);
        if seq != expected_seq {
            return Err(UnpackError::BadSeq { expected: expected_seq, got: seq });
        }
        if stored != computed {
            return Err(UnpackError::BadCrc { expected: stored, got: computed });
        }
        Ok(UnpackedOffset { data_start: 8, data_end: end - 4, next_offset: end })
    }

    /// Every payload within the supported range comes back out of its own
    /// frame when the receiver expects the sequence number that the sender
    /// used: the frame holds exactly one message, and that message is the
    /// payload.
    pub proof fn lemma_round_trip(payload: Seq<u8>, seq: u32)
        requires
            payload.len() <= MAX_PAYLOAD_LEN,
        ensures
            full_scan(full_frame(payload, seq), seq) matches Ok(found) && delimits(
                found,
                full_frame(payload, seq),
                payload,
            ),
    {
        let total = (payload.len() + 12) as u32;
        let body = full_body(payload, seq);
        let crc = crc32(body);
        let frame = full_frame(payload, seq);
        lemma_le32_round_trip(total);
        lemma_le32_round_trip(seq);
        lemma_le32_round_trip(crc);
        assert(frame.subrange(0, 4) =~= le32(total));
        assert(frame.subrange(4, 8) =~= le32(seq));
        assert(frame.subrange(0, total - 4) =~= body);
        assert(frame.subrange(total - 4, total as int) =~= le32(crc));
        assert(frame.subrange(8, total - 4) =~= payload);
    }

    /// The full framing has no tag in any state, so that it meets the
    /// precondition of no function that wraps a transport in obfuscation.
    pub proof fn lemma_never_tagged(&self)
        ensures
            !self.tagged(),
    {
    }

    /// A frame is turned down when the receiver expects another sequence
    /// number than the one it carries.
    pub proof fn lemma_out_of_step(payload: Seq<u8>, seq: u32, expected: u32)
        requires
            payload.len() <= MAX_PAYLOAD_LEN,
            seq != expected,
        ensures
            full_scan(full_frame(payload, seq), expected) == Err::<UnpackedOffset, UnpackError>(
                UnpackError::BadSeq { expected, got: seq },
            ),
    {
        let total = (payload.len() + 12) as u32;
        let frame = full_frame(payload, seq);
        lemma_le32_round_trip(total);
        lemma_le32_round_trip(seq);
        assert(frame.subrange(0, 4) =~= le32(total));
        assert(frame.subrange(4, 8) =~= le32(seq));
    }
}

impl Transport for Full {
    open spec fn inv(&self) -> bool {
        true
    }

    open spec fn tagged(&self) -> bool {
        false
    }

    open spec fn tag(&self) -> Seq<u8> {
        Seq::empty()
    }

    open spec fn after_tag(&self) -> Self {
        *self
    }

    open spec fn accepts(&self, payload: Seq<u8>) -> bool {
        payload.len() <= MAX_PAYLOAD_LEN
    }

    open spec fn wire(&self, payload: Seq<u8>) -> Seq<u8> {
        full_frame(payload, self.send_seq)
    }

    open spec fn after_pack(&self, payload: Seq<u8>) -> Self {
        Full { send_seq: next_seq(self.send_seq), recv_seq: self.recv_seq }
    }

    open spec fn scan(&self, bytes: Seq<u8>) -> Result<UnpackedOffset, UnpackError> {
        full_scan(bytes, self.recv_seq)
    }

    open spec fn after_unpack(&self, bytes: Seq<u8>) -> Self {
        if full_scan(bytes, self.recv_seq) is Ok {
            Full { send_seq: self.send_seq, recv_seq: next_seq(self.recv_seq) }
        } else {
            *self
        }
    }

    open spec fn resets_to(&self, next: Self) -> bool {
        next == (Full { send_seq: 0, recv_seq: 0 })
    }

    open spec fn reveals(&self, n: nat) -> bool {
        true
    }

    open spec fn clear(&self, bytes: Seq<u8>) -> Seq<u8> {
        bytes
    }

    open spec fn after_deobfuscate(&self, n: nat) -> Self {
        *self
    }

    open spec fn in_step_with(&self, sender: &Self) -> bool {
        self.recv_seq == sender.send_seq
    }

    open spec fn lead(&self) -> nat {
        0
    }

    proof fn lemma_in_step_round_trip(&self, sender: &Self, payload: Seq<u8>) {
        let sent = sender.wire(payload);
        Full::lemma_round_trip(payload, sender.send_seq);
        assert(sent.subrange(0, sent.len() as int) =~= sent);
    }

    fn can_pack(&self, payload: &[u8]) -> (r: bool) {
        payload.len() <= MAX_PAYLOAD_LEN
    }

    fn packs_within(&self, payload: &[u8], room: u64) -> (r: bool) {
        if payload.len() > MAX_PAYLOAD_LEN {
            return false;
        }
        payload.len() as u64 + 12 <= room
    }

    fn pack(&mut self, buffer: &mut Vec<u8>) {
        let mut head: Vec<u8> = Vec::new();
        put_le32(&mut head, (buffer.len() + 12) as u32);
        put_le32(&mut head, self.send_seq);
        prepend(buffer, head.as_slice());
        assert(buffer@ =~= full_body(old(buffer)@, self.send_seq));
        let crc = checksum(buffer.as_slice());
        put_le32(buffer, crc);
        self.send_seq = if self.send_seq == u32::MAX {
            0
        } else {
            self.send_seq + 1
        };
    }

    fn unpack(&mut self, buffer: &[u8]) -> (r: Result<UnpackedOffset, UnpackError>) {
        let total = match Self::frame_len(buffer) {
            Ok(total) => total,
            Err(e) => {
                return Err(e);
            },
        };
        let computed = checksum(slice_subrange(buffer, 0, total as usize - 4));
        let found = Self::check_frame(buffer, total, self.recv_seq, computed);
        if found.is_ok() {
            self.recv_seq = if self.recv_seq == u32::MAX {
                0
            } else {
                self.recv_seq + 1
            };
        }
        found
    }

    fn reset(&mut self) -> (r: Result<(), KeyError>)
        ensures
            r is Ok,
    {
        self.send_seq = 0;
        self.recv_seq = 0;
        Ok(())
    }

    /// The full framing has no tag and cannot be wrapped in obfuscation.
    fn obfuscated_tag(&mut self) -> (r: [u8; 4]) {
        vstd::pervasive::unreached()
    }

    fn deobfuscate(&mut self, buffer: &mut Vec<u8>) {
    }
}

} // verus!
