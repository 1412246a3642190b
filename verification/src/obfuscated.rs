//! Stream obfuscation: a wrapper around a tagged transport that passes every
//! byte through AES-256-CTR and opens the connection with a 64-byte header
//! from which the peer derives the same keys.

use crate::codec::prepend;
use crate::keystream::{keystream_byte, lemma_xor_keystream_involution, xor_keystream, Keystream};
use crate::transport::{
    delimits, passes_through, KeyError, Transport, UnpackError, UnpackedOffset,
};
use vstd::prelude::*;

verus! {

/// How many random blocks are drawn at most before key generation gives up.
/// A draw is turned down with probability below one in a hundred, so giving
/// up means that the random source is not random.
pub const MAX_DRAWS: usize = 256;

/// Whether the first four bytes of `block` open a connection of another
/// well-known protocol, or announce a transport without obfuscation.
pub open spec fn reserved_prefix(block: Seq<u8>) -> bool {
    ||| (block[0] == 0x44 && block[1] == 0x41 && block[2] == 0x45 && block[3] == 0x48)
    ||| (block[0] == 0x54 && block[1] == 0x53 && block[2] == 0x4f && block[3] == 0x50)
    ||| (block[0] == 0x20 && block[1] == 0x54 && block[2] == 0x45 && block[3] == 0x47)
    ||| (block[0] == 0x49 && block[1] == 0x54 && block[2] == 0x50 && block[3] == 0x4f)
    ||| (block[0] == 0x02 && block[1] == 0x01 && block[2] == 0x03 && block[3] == 0x16)
    ||| (block[0] == 0xdd && block[1] == 0xdd && block[2] == 0xdd && block[3] == 0xdd)
    ||| (block[0] == 0xee && block[1] == 0xee && block[2] == 0xee && block[3] == 0xee)
    ||| (block[0] == 0x50 && block[1] == 0x4f && block[2] == 0x53 && block[3] == 0x54)
    ||| (block[0] == 0x47 && block[1] == 0x45 && block[2] == 0x54 && block[3] == 0x20)
}

/// Whether `block` may open an obfuscated connection: 64 bytes, the first
/// not `0xef`, the first four not reserved, the next four not all zero.
pub open spec fn acceptable(block: Seq<u8>) -> bool {
    &&& block.len() == 64
    &&& block[0] != 0xef
    &&& !reserved_prefix(block)
    &&& !(block[4] == 0 && block[5] == 0 && block[6] == 0 && block[7] == 0)
}

/// `block` with the transport's tag written over bytes 56 to 59.
pub open spec fn with_tag(block: Seq<u8>, tag: Seq<u8>) -> Seq<u8> {
    Seq::new(64, |i: int| if 56 <= i < 60 { tag[i - 56] } else { block[i] })
}

/// The key of the sending direction: bytes 8 to 39 of the block.
pub open spec fn tx_key_of(block: Seq<u8>) -> Seq<u8> {
    block.subrange(8, 40)
}

/// The vector of the sending direction: bytes 40 to 55 of the block.
pub open spec fn tx_iv_of(block: Seq<u8>) -> Seq<u8> {
    block.subrange(40, 56)
}

/// The key of the receiving direction: bytes 8 to 39 of the block read
/// backwards.
pub open spec fn rx_key_of(block: Seq<u8>) -> Seq<u8> {
    block.reverse().subrange(8, 40)
}

/// The vector of the receiving direction: bytes 40 to 55 of the block read
/// backwards.
pub open spec fn rx_iv_of(block: Seq<u8>) -> Seq<u8> {
    block.reverse().subrange(40, 56)
}

/// The header as sent: the block in the clear up to byte 55, its last eight
/// bytes as the sending direction encrypts them at positions 56 to 63.
pub open spec fn sealed(block: Seq<u8>) -> Seq<u8> {
    block.subrange(0, 56) + xor_keystream(tx_key_of(block), tx_iv_of(block), 0, block).subrange(
        56,
        64,
    )
}

/// What the keys of a connection are made of: the header to send first and
/// the keystream of each direction.
#[derive(Clone, Copy, Debug)]
pub struct KeyMaterial {
    /// The 64 bytes that open the connection.
    pub header: [u8; 64],
    /// The keystream of received bytes, at position 0.
    pub rx: Keystream,
    /// The keystream of sent bytes, at position 64: the header used the
    /// first 64 bytes.
    pub tx: Keystream,
}

impl KeyMaterial {
    /// Whether this is what `block`, carrying `tag`, gives rise to.
    pub open spec fn derived_from(&self, block: Seq<u8>, tag: Seq<u8>) -> bool {
        let plain = with_tag(block, tag);
        &&& self.header@ == sealed(plain)
        &&& self.tx.key@ == tx_key_of(plain)
        &&& self.tx.iv@ == tx_iv_of(plain)
        &&& self.tx.position == 64
        &&& self.rx.key@ == rx_key_of(plain)
        &&& self.rx.iv@ == rx_iv_of(plain)
        &&& self.rx.position == 0
    }
}

/// Tells whether `block` may open an obfuscated connection.
pub fn is_acceptable(block: &[u8; 64]) -> (r: bool)
    ensures
        r == acceptable(block@),
{
    let a = block[0];
    let b = block[1];
    let c = block[2];
    let d = block[3];
    let reserved = (a == 0x44 && b == 0x41 && c == 0x45 && d == 0x48)
        || (a == 0x54 && b == 0x53 && c == 0x4f && d == 0x50)
        || (a == 0x20 && b == 0x54 && c == 0x45 && d == 0x47)
        || (a == 0x49 && b == 0x54 && c == 0x50 && d == 0x4f)
        || (a == 0x02 && b == 0x01 && c == 0x03 && d == 0x16)
        || (a == 0xdd && b == 0xdd && c == 0xdd && d == 0xdd)
        || (a == 0xee && b == 0xee && c == 0xee && d == 0xee)
        || (a == 0x50 && b == 0x4f && c == 0x53 && d == 0x54)
        || (a == 0x47 && b == 0x45 && c == 0x54 && d == 0x20);
    let zero = block[4] == 0 && block[5] == 0 && block[6] == 0 && block[7] == 0;
    a != 0xef && !reserved && !zero
}

/// Writes the tag over bytes 56 to 59 of the block.
pub fn tag_block(block: [u8; 64], tag: [u8; 4]) -> (r: [u8; 64])
    ensures
        r@ == with_tag(block@, tag@),
{
    let mut plain = block;
    plain[56] = tag[0];
    plain[57] = tag[1];
    plain[58] = tag[2];
    plain[59] = tag[3];
    assert(plain@ =~= with_tag(block@, tag@));
    plain
}

/// Reads the keystreams of both directions from a block: the sending one
/// from bytes 8 to 55, the receiving one from the same bytes backwards.
/// Both are at position 0.
pub fn directions(block: &[u8; 64]) -> (r: (Keystream, Keystream))
    ensures
        r.0.key@ == rx_key_of(block@),
        r.0.iv@ == rx_iv_of(block@),
        r.0.position == 0,
        r.1.key@ == tx_key_of(block@),
        r.1.iv@ == tx_iv_of(block@),
        r.1.position == 0,
{
    let mut tx_key = [0u8; 32];
    let mut rx_key = [0u8; 32];
    let mut i: usize = 0;
    while i < 32
        invariant
            i <= 32,
            forall|j: int| 0 <= j < i ==> tx_key@[j] == block@[8 + j],
            forall|j: int| 0 <= j < i ==> rx_key@[j] == block@[55 - j],
        decreases 32 - i,
    {
        tx_key[i] = block[8 + i];
        rx_key[i] = block[55 - i];
        i += 1;
    }
    let mut tx_iv = [0u8; 16];
    let mut rx_iv = [0u8; 16];
    let mut i: usize = 0;
    while i < 16
        invariant
            i <= 16,
            forall|j: int| 0 <= j < i ==> tx_iv@[j] == block@[40 + j],
            forall|j: int| 0 <= j < i ==> rx_iv@[j] == block@[23 - j],
        decreases 16 - i,
    {
        tx_iv[i] = block[40 + i];
        rx_iv[i] = block[23 - i];
        i += 1;
    }
    assert(tx_key@ =~= tx_key_of(block@));
    assert(tx_iv@ =~= tx_iv_of(block@));
    assert(rx_key@ =~= rx_key_of(block@));
    assert(rx_iv@ =~= rx_iv_of(block@));
    (Keystream::new(rx_key, rx_iv), Keystream::new(tx_key, tx_iv))
}

/// Replaces the last eight bytes of the block by those of its encrypted
/// copy.
pub fn splice_tail(block: [u8; 64], encrypted: &[u8]) -> (r: [u8; 64])
    requires
        encrypted@.len() == 64,
    ensures
        r@ == block@.subrange(0, 56) + encrypted@.subrange(56, 64),
{
    let mut header = block;
    let mut i: usize = 56;
    while i < 64
        invariant
            56 <= i <= 64,
            encrypted@.len() == 64,
            forall|j: int| 0 <= j < 56 ==> header@[j] == block@[j],
            forall|j: int| 56 <= j < i ==> header@[j] == encrypted@[j],
        decreases 64 - i,
    {
        header[i] = encrypted[i];
        i += 1;
    }
    assert(header@ =~= block@.subrange(0, 56) + encrypted@.subrange(56, 64));
    header
}

/// Derives the header and both keystreams from a random block and the tag
/// of the transport to be wrapped.
pub fn derive_keys(block: [u8; 64], tag: [u8; 4]) -> (r: KeyMaterial)
    ensures
        r.derived_from(block@, tag@),
{
    let plain = tag_block(block, tag);
    let (rx, mut tx) = directions(&plain);
    let mut encrypted: Vec<u8> = Vec::new();
    let mut i: usize = 0;
    while i < 64
        invariant
            i <= 64,
            encrypted@ == plain@.subrange(0, i as int),
        decreases 64 - i,
    {
        encrypted.push(plain[i]);
        i += 1;
    }
    assert(encrypted@ =~= plain@);
    tx.apply(&mut encrypted);
    let header = splice_tail(plain, encrypted.as_slice());
    KeyMaterial { header, rx, tx }
}

/// Whether `rx` and `tx` hold the keys that a peer reads from `header`.
pub open spec fn keyed_by(header: Seq<u8>, rx: Keystream, tx: Keystream) -> bool {
    &&& acceptable(header)
    &&& tx.key@ == tx_key_of(header)
    &&& tx.iv@ == tx_iv_of(header)
    &&& rx.key@ == rx_key_of(header)
    &&& rx.iv@ == rx_iv_of(header)
}

/// The header as the peer sees it after decrypting all 64 bytes with the
/// key and vector that it reads from them.
pub open spec fn unsealed(header: Seq<u8>) -> Seq<u8> {
    xor_keystream(tx_key_of(header), tx_iv_of(header), 0, header)
}

/// Whether the peer finds `tag` at bytes 56 to 59 of the decrypted header.
pub open spec fn carries_tag(header: Seq<u8>, tag: Seq<u8>) -> bool {
    unsealed(header).subrange(56, 60) == tag
}

impl KeyMaterial {
    /// Whether the header may open a connection, announces `tag` to the
    /// peer, and both keystreams are the ones the peer will derive, the
    /// sending one past the header and the receiving one at its start.
    pub open spec fn fits(&self, tag: Seq<u8>) -> bool {
        &&& keyed_by(self.header@, self.rx, self.tx)
        &&& carries_tag(self.header@, tag)
        &&& self.tx.position == 64
        &&& self.rx.position == 0
    }
}

/// Sealing keeps the first 56 bytes of a block, and with them everything
/// that decides whether the block may open a connection and which keys it
/// stands for.
pub proof fn lemma_sealed_keeps_keys(block: Seq<u8>)
    requires
        block.len() == 64,
    ensures
        sealed(block).len() == 64,
        sealed(block).subrange(0, 56) == block.subrange(0, 56),
        acceptable(sealed(block)) == acceptable(block),
        tx_key_of(sealed(block)) == tx_key_of(block),
        tx_iv_of(sealed(block)) == tx_iv_of(block),
        rx_key_of(sealed(block)) == rx_key_of(block),
        rx_iv_of(sealed(block)) == rx_iv_of(block),
{
    let s = sealed(block);
    assert(s.len() == 64);
    assert forall|i: int| 0 <= i < 56 implies s[i] == block[i] by {}
    assert(s.subrange(0, 56) =~= block.subrange(0, 56));
    assert(tx_key_of(s) =~= tx_key_of(block));
    assert(tx_iv_of(s) =~= tx_iv_of(block));
    assert(rx_key_of(s) =~= rx_key_of(block));
    assert(rx_iv_of(s) =~= rx_iv_of(block));
}

/// Decrypting a sealed header as the peer does restores the last eight
/// bytes of the block it was sealed from.
pub proof fn lemma_unsealed_tail(block: Seq<u8>)
    requires
        block.len() == 64,
    ensures
        unsealed(sealed(block)).subrange(56, 64) == block.subrange(56, 64),
{
    lemma_sealed_keeps_keys(block);
    let s = sealed(block);
    let key = tx_key_of(block);
    let iv = tx_iv_of(block);
    assert forall|i: int| 56 <= i < 64 implies unsealed(s)[i] == block[i] by {
        let b = block[i];
        let k = keystream_byte(key, iv, 0 + i);
        assert(s[i] == xor_keystream(key, iv, 0, block).subrange(56, 64)[i - 56]);
        assert(s[i] == b ^ k);
        assert((b ^ k) ^ k == b) by (bit_vector);
    }
    assert(unsealed(s).subrange(56, 64) =~= block.subrange(56, 64));
}

/// What is derived from an acceptable block is a header that may open a
/// connection and that carries the tag, with the keys that the peer will
/// read from it.
pub proof fn lemma_derived_fits(keys: KeyMaterial, block: Seq<u8>, tag: Seq<u8>)
    requires
        block.len() == 64,
        tag.len() == 4,
        keys.derived_from(block, tag),
    ensures
        acceptable(keys.header@) == acceptable(block),
        acceptable(block) ==> keys.fits(tag),
        with_tag(block, tag).subrange(56, 60) == tag,
{
    let plain = with_tag(block, tag);
    lemma_sealed_keeps_keys(plain);
    lemma_unsealed_tail(plain);
    assert(plain.subrange(56, 60) =~= tag);
    assert(unsealed(sealed(plain)).subrange(56, 60) =~= unsealed(sealed(plain)).subrange(
        56,
        64,
    ).subrange(0, 4));
    assert(plain.subrange(56, 60) =~= plain.subrange(56, 64).subrange(0, 4));
    assert(acceptable(plain) == acceptable(block));
}

/// The error of the system's random source, `getrandom::Error`. Nothing is
/// known of its values.
#[verifier::external_type_specification]
#[verifier::external_body]
pub struct ExRandomError(getrandom::Error);

/// Calls `getrandom::getrandom` on a buffer of 64 bytes. Trusted, and
/// nothing is claimed: the bytes are whatever the system's random source
/// gave, or its error.
#[verifier::external_body]
fn random_block() -> (r: Result<[u8; 64], getrandom::Error>) {
    let mut block = [0u8; 64];
    match getrandom::getrandom(&mut block) {
        Ok(()) => Ok(block),
        Err(e) => Err(e),
    }
}

/// Judges one draw from the random source: a block that may open a
/// connection is kept, any other block calls for another draw, and a
/// failure of the source ends the drawing.
pub fn judge_draw(drawn: Result<[u8; 64], getrandom::Error>) -> (r: Result<
    Option<[u8; 64]>,
    KeyError,
>)
    ensures
        match drawn {
            Ok(block) => r == Ok::<Option<[u8; 64]>, KeyError>(
                if acceptable(block@) {
                    Some(block)
                } else {
                    None
                },
            ),
            Err(_) => r == Err::<Option<[u8; 64]>, KeyError>(KeyError::RandomSource),
        },
{
    match drawn {
        Ok(block) => {
            if is_acceptable(&block) {
                Ok(Some(block))
            } else {
                Ok(None)
            }
        },
        Err(_) => Err(KeyError::RandomSource),
    }
}

/// What a draw leads to.
#[derive(Clone, Copy, Debug, PartialEq, Eq)]
pub enum Drawing {
    /// The block may open a connection and is the one to use.
    Keep([u8; 64]),
    /// The block was turned down; another one is to be drawn.
    Again,
    /// The drawing ends without a block.
    GiveUp(KeyError),
}

/// What a draw leads to when `left` draws, this one included, were still
/// allowed: a block that may open a connection is kept; any other block
/// is followed by another draw, unless it was the last one allowed, after
/// which the drawing is given up as rejected; a failure of the random
/// source ends the drawing at once.
pub open spec fn settled(drawn: Result<[u8; 64], getrandom::Error>, left: usize) -> Drawing {
    match drawn {
        Ok(block) => if acceptable(block@) {
            Drawing::Keep(block)
        } else if left <= 1 {
            Drawing::GiveUp(KeyError::Rejected)
        } else {
            Drawing::Again
        },
        Err(_) => Drawing::GiveUp(KeyError::RandomSource),
    }
}

/// Decides what follows a draw, given how many draws were still allowed
/// when it was made.
pub fn settle_draw(drawn: Result<[u8; 64], getrandom::Error>, left: usize) -> (r: Drawing)
    ensures
        r == settled(drawn, left),
{
    match judge_draw(drawn) {
        Ok(Some(block)) => Drawing::Keep(block),
        Ok(None) => {
            if left <= 1 {
                Drawing::GiveUp(KeyError::Rejected)
            } else {
                Drawing::Again
            }
        },
        Err(e) => Drawing::GiveUp(e),
    }
}

/// Draws random blocks until one may open a connection, and keeps the
/// first that may. Every block that is turned down is followed by another
/// draw, `MAX_DRAWS` draws at most; what each draw leads to is what
/// `settle_draw` says of it.
pub fn draw_block() -> (r: Result<[u8; 64], KeyError>)
    ensures
        r matches Ok(block) ==> acceptable(block@),
{
    let mut left: usize = MAX_DRAWS;
    loop
        invariant
            1 <= left <= MAX_DRAWS,
        decreases left,
    {
        match settle_draw(random_block(), left) {
            Drawing::Keep(block) => {
                return Ok(block);
            },
            Drawing::GiveUp(e) => {
                return Err(e);
            },
            Drawing::Again => {
                left -= 1;
            },
        }
    }
}

/// A transport wrapped in obfuscation.
///
/// Everything the inner transport frames is encrypted with the sending
/// keystream; the first packet is preceded by the header. Received bytes
/// are decrypted with the receiving keystream before the inner transport
/// looks at them.
pub struct Obfuscated<T: Transport> {
    inner: T,
    head: Option<[u8; 64]>,
    rx: Keystream,
    tx: Keystream,
}

impl<T: Transport> Obfuscated<T> {
    /// The wrapped transport.
    pub closed spec fn inner(&self) -> T {
        self.inner
    }

    /// The header, as long as it has not been sent.
    pub closed spec fn head(&self) -> Option<[u8; 64]> {
        self.head
    }

    /// The keystream of the receiving direction.
    pub closed spec fn rx(&self) -> Keystream {
        self.rx
    }

    /// The keystream of the sending direction.
    pub closed spec fn tx(&self) -> Keystream {
        self.tx
    }

    /// The bytes that precede the next packet: the header before the first
    /// packet, nothing afterwards.
    pub open spec fn prefix(&self) -> Seq<u8> {
        match self.head() {
            Some(h) => h@,
            None => Seq::empty(),
        }
    }

    /// Whether this is the state right after key generation for a transport
    /// with the given tag: the header is pending and fits the keystreams.
    pub open spec fn opens_with(&self, tag: Seq<u8>) -> bool {
        &&& self.head() matches Some(h)
        &&& (KeyMaterial { header: h, rx: self.rx(), tx: self.tx() }).fits(tag)
    }

    /// Whether the state is the one that `block` gives rise to.
    pub open spec fn made_from(&self, block: Seq<u8>, tag: Seq<u8>) -> bool {
        &&& self.head() matches Some(h)
        &&& (KeyMaterial { header: h, rx: self.rx(), tx: self.tx() }).derived_from(block, tag)
    }

    /// Draws a block that may open a connection, takes the tag of `inner`
    /// and derives the keys. On failure `inner` is left untouched.
    pub fn generate_keys(inner: &mut T) -> (r: Result<KeyMaterial, KeyError>)
        requires
            old(inner).inv(),
            old(inner).tagged(),
        ensures
            final(inner).inv(),
            final(inner).tagged(),
            final(inner).tag() == old(inner).tag(),
            r matches Ok(keys) ==> keys.fits(old(inner).tag()) && *final(inner) == old(
                inner,
            ).after_tag(),
            r is Err ==> *final(inner) == *old(inner),
    {
        match draw_block() {
            Ok(block) => {
                let tag = inner.obfuscated_tag();
                let keys = derive_keys(block, tag);
                proof {
                    lemma_derived_fits(keys, block@, tag@);
                }
                Ok(keys)
            },
            Err(e) => Err(e),
        }
    }

    /// Wraps `inner`, with keys from the system's random source.
    pub fn new(inner: T) -> (r: Result<Self, KeyError>)
        requires
            inner.inv(),
            inner.tagged(),
        ensures
            r matches Ok(o) ==> o.inv() && o.inner() == inner.after_tag() && o.opens_with(
                inner.tag(),
            ),
    {
        let mut inner = inner;
        match Self::generate_keys(&mut inner) {
            Ok(keys) => Ok(Obfuscated { inner, head: Some(keys.header), rx: keys.rx, tx: keys.tx }),
            Err(e) => Err(e),
        }
    }

    /// Wraps `inner`, with keys from the given block, which is turned down
    /// if it may not open a connection.
    pub fn from_block(inner: T, block: [u8; 64]) -> (r: Result<Self, KeyError>)
        requires
            inner.inv(),
            inner.tagged(),
        ensures
            r is Ok <==> acceptable(block@),
            r matches Err(e) ==> e == KeyError::Rejected,
            r matches Ok(o) ==> o.inv() && o.inner() == inner.after_tag() && o.made_from(
                block@,
                inner.tag(),
            ) && o.opens_with(inner.tag()),
    {
        if !is_acceptable(&block) {
            return Err(KeyError::Rejected);
        }
        let mut inner = inner;
        let tag = inner.obfuscated_tag();
        let keys = derive_keys(block, tag);
        proof {
            lemma_derived_fits(keys, block@, tag@);
        }
        Ok(Obfuscated { inner, head: Some(keys.header), rx: keys.rx, tx: keys.tx })
    }

    /// Whether the header is still to be sent.
    pub fn header_pending(&self) -> (r: bool)
        ensures
            r == self.head() is Some,
    {
        self.head.is_some()
    }

    /// The header, as long as it has not been sent.
    pub fn pending_header(&self) -> (r: Option<[u8; 64]>)
        ensures
            r == self.head(),
    {
        self.head
    }

    /// The keystream of the sending direction.
    pub fn tx_keystream(&self) -> (r: Keystream)
        ensures
            r == self.tx(),
    {
        self.tx
    }

    /// The keystream of the receiving direction.
    pub fn rx_keystream(&self) -> (r: Keystream)
        ensures
            r == self.rx(),
    {
        self.rx
    }

    /// The wrapped transport.
    pub fn get_ref(&self) -> (r: &T)
        ensures
            *r == self.inner(),
    {
        &self.inner
    }
}

impl<T: Transport> Transport for Obfuscated<T> {
    open spec fn inv(&self) -> bool {
        &&& self.inner().inv()
        &&& self.inner().tagged()
        &&& self.tx().position >= 64
        &&& (self.head() matches Some(h) ==> self.tx().position == 64 && keyed_by(
            h@,
            self.rx(),
            self.tx(),
        ))
    }

    open spec fn tagged(&self) -> bool {
        false
    }

    open spec fn tag(&self) -> Seq<u8> {
        Seq::empty()
    }

    open spec fn after_tag(&self) -> Self {
        *self
    }

    open spec fn accepts(&self, payload: Seq<u8>) -> bool {
        &&& self.inner().accepts(payload)
        &&& self.tx().has_room(self.inner().wire(payload).len())
    }

    open spec fn wire(&self, payload: Seq<u8>) -> Seq<u8> {
        self.prefix() + self.tx().mask(self.inner().wire(payload))
    }

    closed spec fn after_pack(&self, payload: Seq<u8>) -> Self {
        Obfuscated {
            inner: self.inner.after_pack(payload),
            head: None,
            rx: self.rx,
            tx: self.tx.advanced(self.inner.wire(payload).len()),
        }
    }

    open spec fn scan(&self, bytes: Seq<u8>) -> Result<UnpackedOffset, UnpackError> {
        self.inner().scan(bytes)
    }

    closed spec fn after_unpack(&self, bytes: Seq<u8>) -> Self {
        Obfuscated {
            inner: self.inner.after_unpack(bytes),
            head: self.head,
            rx: self.rx,
            tx: self.tx,
        }
    }

    open spec fn resets_to(&self, next: Self) -> bool {
        exists|r: T| #[trigger]
            self.inner().resets_to(r) && next.inner() == r.after_tag() && next.opens_with(r.tag())
    }

    open spec fn reveals(&self, n: nat) -> bool {
        self.rx().has_room(n)
    }

    open spec fn clear(&self, bytes: Seq<u8>) -> Seq<u8> {
        self.rx().mask(bytes)
    }

    closed spec fn after_deobfuscate(&self, n: nat) -> Self {
        Obfuscated { inner: self.inner, head: self.head, rx: self.rx.advanced(n), tx: self.tx }
    }

    open spec fn lead(&self) -> nat {
        self.prefix().len()
    }

    open spec fn in_step_with(&self, sender: &Self) -> bool {
        &&& self.rx() == sender.tx()
        &&& sender.inner().lead() == 0
        &&& self.inner().in_step_with(&sender.inner())
        &&& passes_through(self.inner())
    }

    proof fn lemma_in_step_round_trip(&self, sender: &Self, payload: Seq<u8>) {
        let frame = sender.inner().wire(payload);
        Self::lemma_round_trip(sender, self, payload);
        self.inner().lemma_in_step_round_trip(&sender.inner(), payload);
        assert(frame.subrange(0, frame.len() as int) =~= frame);
        assert(self.inner().clear(frame) == frame);
    }

    fn can_pack(&self, payload: &[u8]) -> (r: bool) {
        self.inner.packs_within(payload, u64::MAX - self.tx.position)
    }

    fn packs_within(&self, payload: &[u8], room: u64) -> (r: bool) {
        let skip: u64 = if self.head.is_some() {
            64
        } else {
            0
        };
        if room < skip {
            return false;
        }
        let most = if room - skip < u64::MAX - self.tx.position {
            room - skip
        } else {
            u64::MAX - self.tx.position
        };
        self.inner.packs_within(payload, most)
    }

    /// Frames the payload with the inner transport, encrypts the frame and,
    /// on the first packet only, puts the header in front.
    fn pack(&mut self, buffer: &mut Vec<u8>)
        ensures
            final(self).inner() == old(self).inner().after_pack(old(buffer)@),
            final(self).head() is None,
            final(self).rx() == old(self).rx(),
            final(self).tx() == old(self).tx().advanced(
                old(self).inner().wire(old(buffer)@).len(),
            ),
    {
        self.inner.pack(buffer);
        self.tx.apply(buffer);
        if let Some(head) = self.head.take() {
            prepend(buffer, head.as_slice());
        }
        assert(buffer@ =~= old(self).wire(old(buffer)@));
    }

    /// Looks for one message in bytes that have been deobfuscated already.
    fn unpack(&mut self, buffer: &[u8]) -> (r: Result<UnpackedOffset, UnpackError>)
        ensures
            final(self).inner() == old(self).inner().after_unpack(buffer@),
            final(self).head() == old(self).head(),
            final(self).rx() == old(self).rx(),
            final(self).tx() == old(self).tx(),
    {
        self.inner.unpack(buffer)
    }

    /// Resets the inner transport and replaces header and keystreams by
    /// newly generated ones; the new header carries the tag of the wrapped
    /// transport again.
    fn reset(&mut self) -> (r: Result<(), KeyError>)
        ensures
            r is Ok ==> final(self).opens_with(old(self).inner().tag()),
    {
        let block = match draw_block() {
            Ok(block) => block,
            Err(e) => {
                return Err(e);
            },
        };
        match self.inner.reset() {
            Ok(()) => {},
            Err(e) => {
                return Err(e);
            },
        }
        let ghost fresh = self.inner;
        let done = self.rekey(block);
        assert(old(self).inner().resets_to(fresh));
        done
    }

    /// An obfuscated transport has no tag and cannot be wrapped again.
    fn obfuscated_tag(&mut self) -> (r: [u8; 4]) {
        vstd::pervasive::unreached()
    }

    /// Decrypts received bytes in place. Every received byte has to pass
    /// here once, in the order of arrival.
    fn deobfuscate(&mut self, buffer: &mut Vec<u8>)
        ensures
            final(self).inner() == old(self).inner(),
            final(self).head() == old(self).head(),
            final(self).rx() == old(self).rx().advanced(old(buffer)@.len()),
            final(self).tx() == old(self).tx(),
    {
        self.rx.apply(buffer);
    }
}

impl<T: Transport> Obfuscated<T> {
    /// Replaces header and keystreams by those that `block` gives rise to,
    /// with the tag taken anew from the inner transport: the header is
    /// pending again, the sending keystream stands behind it and the
    /// receiving one at its start. A block that may not open a connection
    /// is turned down, and nothing changes.
    pub fn rekey(&mut self, block: [u8; 64]) -> (r: Result<(), KeyError>)
        requires
            old(self).inv(),
        ensures
            final(self).inv(),
            r is Ok <==> acceptable(block@),
            r matches Err(e) ==> e == KeyError::Rejected && *final(self) == *old(self),
            r is Ok ==> {
                &&& final(self).inner() == old(self).inner().after_tag()
                &&& final(self).made_from(block@, old(self).inner().tag())
                &&& final(self).opens_with(old(self).inner().tag())
            },
    {
        if !is_acceptable(&block) {
            return Err(KeyError::Rejected);
        }
        let tag = self.inner.obfuscated_tag();
        let keys = derive_keys(block, tag);
        proof {
            lemma_derived_fits(keys, block@, tag@);
        }
        self.head = Some(keys.header);
        self.rx = keys.rx;
        self.tx = keys.tx;
        Ok(())
    }

    /// What `pack` emits is the pending prefix followed by the inner frame
    /// under the sending keystream, and a peer that applies the same
    /// stretch of keystream to what follows the prefix holds the inner
    /// frame again.
    pub proof fn lemma_peer_recovers_frame(&self, payload: Seq<u8>)
        requires
            self.inv(),
            self.accepts(payload),
        ensures
            ({
                let sent = self.wire(payload);
                let skip = self.prefix().len() as int;
                let frame = self.inner().wire(payload);
                &&& sent.len() == skip + frame.len()
                &&& sent.subrange(0, skip) == self.prefix()
                &&& xor_keystream(
                    self.tx().key@,
                    self.tx().iv@,
                    self.tx().position as int,
                    sent.subrange(skip, sent.len() as int),
                ) == frame
            }),
    {
        let sent = self.wire(payload);
        let skip = self.prefix().len() as int;
        let frame = self.inner().wire(payload);
        let body = self.tx().mask(frame);
        assert(sent.subrange(0, skip) =~= self.prefix());
        assert(sent.subrange(skip, sent.len() as int) =~= body);
        lemma_xor_keystream_involution(
            self.tx().key@,
            self.tx().iv@,
            self.tx().position as int,
            frame,
        );
    }

    /// The first packet can be read by a peer that knows nothing but the
    /// bytes themselves: it takes key and vector from the 64 leading bytes,
    /// skips as many keystream bytes, and decrypts the rest to the inner
    /// frame.
    pub proof fn lemma_first_packet_self_describing(&self, payload: Seq<u8>)
        requires
            self.inv(),
            self.accepts(payload),
            self.head() is Some,
        ensures
            ({
                let sent = self.wire(payload);
                let header = sent.subrange(0, 64);
                &&& sent.len() == 64 + self.inner().wire(payload).len()
                &&& acceptable(header)
                &&& xor_keystream(
                    tx_key_of(header),
                    tx_iv_of(header),
                    64,
                    sent.subrange(64, sent.len() as int),
                ) == self.inner().wire(payload)
            }),
    {
        self.lemma_peer_recovers_frame(payload);
    }

    /// Bytes that the peer encrypted with the receiving keystream, at the
    /// position this side has reached, come out of `deobfuscate` as they
    /// went in, so that `unpack` reports on them what the inner transport
    /// reports on the peer's frame.
    pub proof fn lemma_deobfuscate_restores(&self, frame: Seq<u8>)
        ensures
            self.clear(self.rx().mask(frame)) == frame,
            self.scan(self.clear(self.rx().mask(frame))) == self.inner().scan(frame),
    {
        lemma_xor_keystream_involution(
            self.rx().key@,
            self.rx().iv@,
            self.rx().position as int,
            frame,
        );
    }

    /// The header goes out once: after a packet has been packed, nothing
    /// precedes the packets that follow, and the sending keystream goes on
    /// where the packet left it.
    pub proof fn lemma_header_once(&self, first: Seq<u8>, second: Seq<u8>)
        requires
            self.inv(),
            self.accepts(first),
        ensures
            ({
                let next = self.after_pack(first);
                &&& next.head() is None
                &&& next.tx() == self.tx().advanced(self.inner().wire(first).len())
                &&& next.wire(second) == next.tx().mask(next.inner().wire(second))
            }),
    {
        let next = self.after_pack(first);
        assert(next.wire(second) =~= next.tx().mask(next.inner().wire(second)));
    }

    /// What is wrapped is tagged: no obfuscated transport in good order
    /// holds a transport without a tag, at its making or after any number
    /// of packets and resets.
    pub proof fn lemma_wraps_tagged_only(&self)
        requires
            self.inv(),
        ensures
            self.inner().tagged(),
    {
    }

    /// An obfuscated transport has no tag, whatever it wraps and whatever
    /// has happened to it, so that it meets the precondition of no
    /// function that wraps a transport in obfuscation: obfuscation cannot
    /// be nested.
    pub proof fn lemma_never_tagged(&self)
        ensures
            !self.tagged(),
    {
    }

    /// What one side packs, the other side reads: a receiver whose
    /// receiving keystream is the sender's sending keystream, at the same
    /// position, deobfuscates what follows the prefix to the sender's inner
    /// frame, and its `unpack` reports on it what its inner transport
    /// reports on that frame.
    pub proof fn lemma_round_trip(sender: &Self, receiver: &Self, payload: Seq<u8>)
        requires
            sender.inv(),
            sender.accepts(payload),
            receiver.rx() == sender.tx(),
        ensures
            ({
                let sent = sender.wire(payload);
                let body = sent.subrange(sender.prefix().len() as int, sent.len() as int);
                &&& receiver.clear(body) == sender.inner().wire(payload)
                &&& receiver.scan(receiver.clear(body)) == receiver.inner().scan(
                    sender.inner().wire(payload),
                )
            }),
    {
        sender.lemma_peer_recovers_frame(payload);
    }

    /// On bytes that are deobfuscated already, `unpack` finds what the
    /// inner transport finds: given the frame of a sender that the inner
    /// transport is in step with, exactly one message, the payload.
    pub proof fn lemma_unpack_delimits(&self, sender: &T, payload: Seq<u8>)
        requires
            self.inv(),
            sender.inv(),
            sender.lead() == 0,
            self.inner().in_step_with(sender),
            passes_through(self.inner()),
            sender.accepts(payload),
        ensures
            self.scan(sender.wire(payload)) == self.inner().scan(sender.wire(payload)),
            self.scan(sender.wire(payload)) matches Ok(found) && delimits(
                found,
                sender.wire(payload),
                payload,
            ),
    {
        let frame = sender.wire(payload);
        self.inner().lemma_in_step_round_trip(sender, payload);
        assert(frame.subrange(0, frame.len() as int) =~= frame);
        assert(self.inner().clear(frame) == frame);
    }

    /// The first packet gives its payload to a reader that knows nothing
    /// but the bytes: with key and vector from the 64 leading bytes and the
    /// keystream taken from position 64, what follows the header decrypts
    /// to exactly one message of a framing in step with the sender's, the
    /// payload.
    pub proof fn lemma_first_packet_delimits(&self, reader: &T, payload: Seq<u8>)
        requires
            self.inv(),
            reader.inv(),
            self.accepts(payload),
            self.head() is Some,
            self.inner().lead() == 0,
            reader.in_step_with(&self.inner()),
            passes_through(*reader),
        ensures
            ({
                let sent = self.wire(payload);
                let header = sent.subrange(0, 64);
                let clear = xor_keystream(
                    tx_key_of(header),
                    tx_iv_of(header),
                    64,
                    sent.subrange(64, sent.len() as int),
                );
                reader.scan(clear) matches Ok(found) && delimits(found, clear, payload)
            }),
    {
        let frame = self.inner().wire(payload);
        self.lemma_first_packet_self_describing(payload);
        reader.lemma_in_step_round_trip(&self.inner(), payload);
        assert(frame.subrange(0, frame.len() as int) =~= frame);
        assert(reader.clear(frame) == frame);
    }

    /// The two directions are interchangeable on a frame exactly where
    /// their keystreams coincide: decrypting with the receiving keystream
    /// what the sending keystream encrypted restores the frame if and only
    /// if both yield the same bytes over its length.
    pub proof fn lemma_directions_not_interchangeable(&self, frame: Seq<u8>)
        ensures
            self.clear(self.tx().mask(frame)) == frame <==> self.tx().next(frame.len())
                == self.rx().next(frame.len()),
    {
        let tx = self.tx();
        let rx = self.rx();
        let n = frame.len();
        let crossed = self.clear(tx.mask(frame));
        assert forall|i: int| 0 <= i < n implies (crossed[i] == frame[i] <==> tx.next(n)[i]
            == rx.next(n)[i]) by {
            let d = frame[i];
            let a = keystream_byte(tx.key@, tx.iv@, tx.position + i);
            let b = keystream_byte(rx.key@, rx.iv@, rx.position + i);
            assert(((d ^ a) ^ b == d) <==> (a == b)) by (bit_vector);
        }
        if tx.next(n) == rx.next(n) {
            assert(crossed =~= frame);
        }
        if crossed == frame {
            assert forall|i: int| 0 <= i < n implies tx.next(n)[i] == rx.next(n)[i] by {
                assert(crossed[i] == frame[i]);
            }
            assert(tx.next(n) =~= rx.next(n));
        }
    }
}

/// Key material that fits a tag is key material derived from a block that
/// may open a connection: to say that it fits is to say all that can be
/// said of keys whose block nobody has seen.
pub proof fn lemma_fits_is_derived(keys: KeyMaterial, tag: Seq<u8>)
    requires
        tag.len() == 4,
        keys.fits(tag),
    ensures
        exists|block: Seq<u8>| acceptable(block) && #[trigger] keys.derived_from(block, tag),
{
    let header = keys.header@;
    let block = header.subrange(0, 56) + unsealed(header).subrange(56, 64);
    let plain = with_tag(block, tag);
    assert(unsealed(header).subrange(56, 60) == tag);
    assert forall|i: int| 0 <= i < 64 implies plain[i] == block[i] by {
        if 56 <= i < 60 {
            assert(unsealed(header).subrange(56, 60)[i - 56] == tag[i - 56]);
        }
    }
    assert(plain =~= block);
    assert(tx_key_of(block) =~= tx_key_of(header));
    assert(tx_iv_of(block) =~= tx_iv_of(header));
    assert(rx_key_of(block) =~= rx_key_of(header));
    assert(rx_iv_of(block) =~= rx_iv_of(header));
    let key = tx_key_of(header);
    let iv = tx_iv_of(header);
    assert forall|i: int| 0 <= i < 64 implies sealed(block)[i] == header[i] by {
        if i >= 56 {
            let h = header[i];
            let k = keystream_byte(key, iv, 0 + i);
            assert(block[i] == h ^ k);
            assert(sealed(block)[i] == xor_keystream(key, iv, 0, block).subrange(56, 64)[i - 56]);
            assert((h ^ k) ^ k == h) by (bit_vector);
        }
    }
    assert(sealed(block) =~= header);
    assert(keys.derived_from(block, tag));
}

} // verus!
