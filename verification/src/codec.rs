//! Little-endian integers and buffer surgery shared by the framing variants.

use vstd::prelude::*;

verus! {

/// The four bytes of `n`, least significant first.
pub open spec fn le32(n: u32) -> Seq<u8> {
    seq![
        (n % 256) as u8,
        ((n / 256) % 256) as u8,
        ((n / 65536) % 256) as u8,
        ((n / 16777216) % 256) as u8,
    ]
}

/// The number whose bytes, least significant first, are the first four of
/// `bytes`.
pub open spec fn from_le32(bytes: Seq<u8>) -> u32 {
    (bytes[0] + 256 * bytes[1] + 65536 * bytes[2] + 16777216 * bytes[3]) as u32
}

/// Reading back what was written gives the number written.
pub proof fn lemma_le32_round_trip(n: u32)
    ensures
        le32(n).len() == 4,
        from_le32(le32(n)) == n,
{
}

/// Appends the four bytes of `n`, least significant first.
pub fn put_le32(out: &mut Vec<u8>, n: u32)
    ensures
        final(out)@ == old(out)@ + le32(n),
{
    out.push((n % 256) as u8);
    out.push(((n / 256) % 256) as u8);
    out.push(((n / 65536) % 256) as u8);
    out.push(((n / 16777216) % 256) as u8);
    assert(out@ =~= old(out)@ + le32(n));
}

/// Reads the little-endian number held by the four bytes at `at`.
pub fn get_le32(buffer: &[u8], at: usize) -> (n: u32)
    requires
        at + 4 <= buffer@.len(),
    ensures
        n == from_le32(buffer@.subrange(at as int, at + 4)),
{
    let b0 = buffer[at] as u32;
    let b1 = buffer[at + 1] as u32;
    let b2 = buffer[at + 2] as u32;
    let b3 = buffer[at + 3] as u32;
    b0 + 256 * b1 + 65536 * b2 + 16777216 * b3
}

/// Puts `prefix` in front of what `buffer` holds.
pub fn prepend(buffer: &mut Vec<u8>, prefix: &[u8])
    ensures
        final(buffer)@ == prefix@ + old(buffer)@,
{
    let mut out: Vec<u8> = Vec::new();
    let mut i: usize = 0;
    while i < prefix.len()
        invariant
            i <= prefix@.len(),
            out@ == prefix@.subrange(0, i as int),
        decreases prefix@.len() - i,
    {
        out.push(prefix[i]);
        i += 1;
    }
    assert(out@ =~= prefix@);
    out.append(buffer);
    buffer.append(&mut out);
    assert(buffer@ =~= prefix@ + old(buffer)@);
}

} // verus!
