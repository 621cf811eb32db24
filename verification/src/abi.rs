//! The byte-level ABI layout the chain reads: 32-byte big-endian words for
//! integers, raw 32-byte words for digests. The journal and the claim
//! calldata are both spelled out over these, so the producer here and the
//! on-chain consumer agree on every byte.

use vstd::prelude::*;

verus! {

/// `n` zero bytes.
pub open spec fn zero_bytes(n: nat) -> Seq<u8> {
    Seq::new(n, |i: int| 0u8)
}

/// The eight big-endian bytes of a 64-bit integer.
pub open spec fn be_bytes_of_u64(v: u64) -> Seq<u8> {
    seq![
        ((v >> 56) & 0xff) as u8,
        ((v >> 48) & 0xff) as u8,
        ((v >> 40) & 0xff) as u8,
        ((v >> 32) & 0xff) as u8,
        ((v >> 24) & 0xff) as u8,
        ((v >> 16) & 0xff) as u8,
        ((v >> 8) & 0xff) as u8,
        (v & 0xff) as u8,
    ]
}

/// A 64-bit integer as one 32-byte big-endian ABI word.
pub open spec fn abi_word_of_u64(v: u64) -> Seq<u8> {
    zero_bytes(24) + be_bytes_of_u64(v)
}

/// A 256-bit value, given as four little-endian limbs, as one 32-byte
/// big-endian ABI word.
pub open spec fn abi_word_of_limbs(l: Seq<u64>) -> Seq<u8> {
    be_bytes_of_u64(l[3]) + be_bytes_of_u64(l[2]) + be_bytes_of_u64(l[1]) + be_bytes_of_u64(l[0])
}

/// Appends `n` zero bytes.
pub fn push_zero_bytes(dst: &mut Vec<u8>, n: usize)
    ensures
        final(dst)@ == old(dst)@ + zero_bytes(n as nat),
{
    let mut i: usize = 0;
    proof {
        assert(dst@ =~= old(dst)@ + zero_bytes(0));
    }
    while i < n
        invariant
            i <= n,
            dst@ == old(dst)@ + zero_bytes(i as nat),
        decreases n - i,
    {
        dst.push(0);
        proof {
            assert((old(dst)@ + zero_bytes(i as nat)).push(0u8) =~= old(dst)@ + zero_bytes(
                (i + 1) as nat,
            ));
        }
        i = i + 1;
    }
}

/// Appends the eight big-endian bytes of a 64-bit integer.
pub fn push_be_u64(dst: &mut Vec<u8>, v: u64)
    ensures
        final(dst)@ == old(dst)@ + be_bytes_of_u64(v),
{
    proof {
        assert(((v >> 56) & 0xff) < 256 && ((v >> 48) & 0xff) < 256 && ((v >> 40) & 0xff) < 256
            && ((v >> 32) & 0xff) < 256 && ((v >> 24) & 0xff) < 256 && ((v >> 16) & 0xff) < 256
            && ((v >> 8) & 0xff) < 256 && (v & 0xff) < 256) by (bit_vector);
    }
    dst.push(((v >> 56) & 0xff) as u8);
    dst.push(((v >> 48) & 0xff) as u8);
    dst.push(((v >> 40) & 0xff) as u8);
    dst.push(((v >> 32) & 0xff) as u8);
    dst.push(((v >> 24) & 0xff) as u8);
    dst.push(((v >> 16) & 0xff) as u8);
    dst.push(((v >> 8) & 0xff) as u8);
    dst.push((v & 0xff) as u8);
    proof {
        assert(dst@ =~= old(dst)@ + be_bytes_of_u64(v));
    }
}

/// Appends the contents of one byte buffer to another.
pub fn push_bytes(dst: &mut Vec<u8>, src: &Vec<u8>)
    ensures
        final(dst)@ == old(dst)@ + src@,
{
    let mut i: usize = 0;
    while i < src.len()
        invariant
            i <= src@.len(),
            dst@ == old(dst)@ + src@.take(i as int),
        decreases src@.len() - i,
    {
        dst.push(src[i]);
        proof {
            assert(old(dst)@ + src@.take(i as int).push(src@[i as int]) =~= old(dst)@ + src@.take(
                i + 1 as int,
            ));
        }
        i = i + 1;
    }
    proof {
        assert(src@.take(src@.len() as int) =~= src@);
    }
}

/// Appends a 64-bit integer as one 32-byte big-endian ABI word.
pub fn push_abi_u64(dst: &mut Vec<u8>, v: u64)
    ensures
        final(dst)@ == old(dst)@ + abi_word_of_u64(v),
{
    push_zero_bytes(dst, 24);
    push_be_u64(dst, v);
    proof {
        assert(dst@ =~= old(dst)@ + abi_word_of_u64(v));
    }
}

/// Appends a four-limb 256-bit value as one 32-byte big-endian ABI word.
pub fn push_abi_limbs(dst: &mut Vec<u8>, l: &Vec<u64>)
    requires
        l@.len() == 4,
    ensures
        final(dst)@ == old(dst)@ + abi_word_of_limbs(l@),
{
    push_be_u64(dst, l[3]);
    push_be_u64(dst, l[2]);
    push_be_u64(dst, l[1]);
    push_be_u64(dst, l[0]);
    proof {
        assert(dst@ =~= old(dst)@ + abi_word_of_limbs(l@));
    }
}

} // verus!
