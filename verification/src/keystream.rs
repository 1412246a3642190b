//! AES-256 in counter mode, seen as a keystream addressed by absolute byte
//! position.

use aes::cipher::generic_array::GenericArray;
use aes::cipher::{KeyIvInit, StreamCipher, StreamCipherSeek};
use vstd::prelude::*;

verus! {

/// The byte found at absolute position `pos` of the AES-256-CTR keystream
/// (128-bit big-endian counter) that `key` and `iv` determine.
pub uninterp spec fn keystream_byte(key: Seq<u8>, iv: Seq<u8>, pos: int) -> u8;

/// The `len` keystream bytes of `key` and `iv` that start at `offset`.
pub open spec fn stretch(key: Seq<u8>, iv: Seq<u8>, offset: int, len: nat) -> Seq<u8> {
    Seq::new(len, |i: int| keystream_byte(key, iv, offset + i))
}

/// `data` combined bytewise, by exclusive or, with the stretch of the
/// keystream of `key` and `iv` that starts at `offset`.
pub open spec fn xor_keystream(key: Seq<u8>, iv: Seq<u8>, offset: int, data: Seq<u8>) -> Seq<u8> {
    Seq::new(data.len(), |i: int| data[i] ^ keystream_byte(key, iv, offset + i))
}

/// Calls `Ctr128BE::<Aes256>::new`, `seek` and `apply_keystream` of the `ctr`
/// and `aes` crates. Trusted: the call leaves the length of `data` as it was
/// and replaces byte `i` by its exclusive or with the keystream byte at
/// position `offset + i`, which depends on the key, the vector and that
/// position only.
#[verifier::external_body]
fn apply_keystream_at(key: &[u8; 32], iv: &[u8; 16], offset: u64, data: &mut Vec<u8>)
    ensures
        final(data)@.len() == old(data)@.len(),
        forall|i: int|
            0 <= i < old(data)@.len() ==> #[trigger] final(data)@[i] == old(data)@[i]
                ^ keystream_byte(key@, iv@, offset + i),
{
    let mut cipher = ctr::Ctr128BE::<aes::Aes256>::new(
        GenericArray::from_slice(key),
        GenericArray::from_slice(iv),
    );
    cipher.seek(offset);
    cipher.apply_keystream(data.as_mut_slice());
}

/// One direction of an obfuscated stream: a key, an initialisation vector
/// and the number of keystream bytes already consumed.
#[derive(Clone, Copy, Debug)]
pub struct Keystream {
    /// The AES-256 key.
    pub key: [u8; 32],
    /// The initial counter block.
    pub iv: [u8; 16],
    /// How many keystream bytes have been consumed.
    pub position: u64,
}

impl Keystream {
    /// The bytes that `apply` turns `data` into from this state.
    pub open spec fn mask(&self, data: Seq<u8>) -> Seq<u8> {
        xor_keystream(self.key@, self.iv@, self.position as int, data)
    }

    /// The next `n` bytes of this keystream.
    pub open spec fn next(&self, n: nat) -> Seq<u8> {
        stretch(self.key@, self.iv@, self.position as int, n)
    }

    /// Whether `n` more bytes can be processed without running past the
    /// last addressable position.
    pub open spec fn has_room(&self, n: nat) -> bool {
        self.position + n <= u64::MAX
    }

    /// This keystream once `n` more bytes have been consumed.
    pub open spec fn advanced(&self, n: nat) -> Keystream
        recommends
            self.has_room(n),
    {
        Keystream { key: self.key, iv: self.iv, position: (self.position + n) as u64 }
    }

    /// A keystream at position 0.
    pub fn new(key: [u8; 32], iv: [u8; 16]) -> (r: Self)
        ensures
            r == (Keystream { key, iv, position: 0 }),
    {
        Keystream { key, iv, position: 0 }
    }

    /// Whether `n` more bytes can be processed.
    pub fn can_apply(&self, n: usize) -> (r: bool)
        ensures
            r == self.has_room(n as nat),
    {
        n as u64 <= u64::MAX - self.position
    }

    /// Combines `data` in place with the next `data.len()` keystream bytes
    /// and advances the position by as many.
    pub fn apply(&mut self, data: &mut Vec<u8>)
        requires
            old(self).has_room(old(data)@.len()),
        ensures
            final(data)@ == old(self).mask(old(data)@),
            *final(self) == old(self).advanced(old(data)@.len()),
    {
        let n = data.len();
        apply_keystream_at(&self.key, &self.iv, self.position, data);
        self.position = self.position + n as u64;
    }
}

/// Applying the same stretch of keystream twice restores the data.
pub proof fn lemma_xor_keystream_involution(key: Seq<u8>, iv: Seq<u8>, offset: int, data: Seq<u8>)
    ensures
        xor_keystream(key, iv, offset, xor_keystream(key, iv, offset, data)) == data,
{
    let once = xor_keystream(key, iv, offset, data);
    let twice = xor_keystream(key, iv, offset, once);
    assert forall|i: int| 0 <= i < data.len() implies twice[i] == data[i] by {
        let d = data[i];
        let k = keystream_byte(key, iv, offset + i);
        assert((d ^ k) ^ k == d) by (bit_vector);
    }
    assert(twice =~= data);
}

/// A stream may be processed in pieces: applying the keystream to two
/// stretches of data one after the other gives what applying it to their
/// concatenation gives.
pub proof fn lemma_mask_in_pieces(stream: Keystream, first: Seq<u8>, second: Seq<u8>)
    requires
        stream.has_room(first.len() + second.len()),
    ensures
        stream.mask(first + second) == stream.mask(first) + stream.advanced(first.len()).mask(
            second,
        ),
{
    let whole = stream.mask(first + second);
    let pieces = stream.mask(first) + stream.advanced(first.len()).mask(second);
    assert forall|i: int| 0 <= i < whole.len() implies whole[i] == pieces[i] by {
        if i >= first.len() {
            assert((first + second)[i] == second[i - first.len()]);
            assert(stream.position + i == stream.advanced(first.len()).position + (i
                - first.len()));
        }
    }
    assert(whole =~= pieces);
}

} // verus!
