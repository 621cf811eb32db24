//! Packing between 32-bit words and little-endian byte streams.
//!
//! The proving runtime consumes its input as a flat buffer; the host builds
//! that buffer out of 32-bit words and hands it over as bytes, and the guest
//! recovers the very same words before reading any typed value. Both
//! directions are stated here, together with the round-trip laws the rest of
//! the pipeline leans on.

use vstd::prelude::*;

verus! {

/// The four little-endian bytes of one word.
pub open spec fn bytes_of_word(w: u32) -> Seq<u8> {
    seq![
        (w & 0xff) as u8,
        ((w >> 8) & 0xff) as u8,
        ((w >> 16) & 0xff) as u8,
        ((w >> 24) & 0xff) as u8,
    ]
}

/// One word assembled from four bytes, least significant first.
pub open spec fn word_of_bytes(b0: u8, b1: u8, b2: u8, b3: u8) -> u32 {
    (b0 as u32) | ((b1 as u32) << 8) | ((b2 as u32) << 16) | ((b3 as u32) << 24)
}

/// The little-endian byte stream of a word sequence.
pub open spec fn le_bytes_of_words(ws: Seq<u32>) -> Seq<u8>
    decreases ws.len(),
{
    if ws.len() == 0 {
        Seq::empty()
    } else {
        bytes_of_word(ws[0]) + le_bytes_of_words(ws.skip(1))
    }
}

/// The word sequence read back from a little-endian byte stream whose
/// length is a multiple of four.
pub open spec fn words_of_le_bytes(bs: Seq<u8>) -> Seq<u32>
    decreases bs.len(),
{
    if bs.len() < 4 {
        Seq::empty()
    } else {
        seq![word_of_bytes(bs[0], bs[1], bs[2], bs[3])] + words_of_le_bytes(bs.skip(4))
    }
}

/// The two words of a 64-bit integer, low word first.
pub open spec fn words_of_u64(v: u64) -> Seq<u32> {
    seq![(v & 0xffffffff) as u32, ((v >> 32) & 0xffffffff) as u32]
}

/// One 64-bit integer assembled from two words, low word first.
pub open spec fn u64_of_words(lo: u32, hi: u32) -> u64 {
    (lo as u64) | ((hi as u64) << 32)
}

/// Rejoining the two words of a 64-bit integer gives the integer back.
pub proof fn lemma_u64_words_roundtrip(v: u64)
    ensures
        u64_of_words(words_of_u64(v)[0], words_of_u64(v)[1]) == v,
{
    assert((((v & 0xffffffff) as u32) as u64) | (((((v >> 32) & 0xffffffff) as u32) as u64) << 32)
        == v) by (bit_vector);
}

/// Splits a 64-bit integer into its two words, low word first.
pub fn split_u64(v: u64) -> (r: (u32, u32))
    ensures
        seq![r.0, r.1] == words_of_u64(v),
{
    proof {
        assert((v & 0xffffffff) < 0x100000000 && ((v >> 32) & 0xffffffff) < 0x100000000)
            by (bit_vector);
    }
    ((v & 0xffffffff) as u32, ((v >> 32) & 0xffffffff) as u32)
}

/// Joins two words into a 64-bit integer, low word first.
pub fn join_u64(lo: u32, hi: u32) -> (r: u64)
    ensures
        r == u64_of_words(lo, hi),
{
    (lo as u64) | ((hi as u64) << 32)
}

/// Appends the contents of one word buffer to another.
pub fn append_words(dst: &mut Vec<u32>, src: &Vec<u32>)
    ensures
        final(dst)@ == old(dst)@ + src@,
{
    let mut i: usize = 0;
    while i < src.len()
        invariant
            i <= src@.len(),
            dst@ == old(dst)@ + src@.take(i as int),
        decreases src@.len() - i,
    {
        dst.push(src[i]);
        proof {
            assert(old(dst)@ + src@.take(i as int).push(src@[i as int]) =~= old(dst)@ + src@.take(
                i + 1 as int,
            ));
        }
        i = i + 1;
    }
    proof {
        assert(src@.take(src@.len() as int) =~= src@);
    }
}

/// Copies `count` words starting at `from`.
pub fn copy_words(ws: &Vec<u32>, from: usize, count: usize) -> (r: Vec<u32>)
    requires
        from + count <= ws@.len(),
    ensures
        r@ == ws@.subrange(from as int, from + count),
{
    let n = ws.len();
    let mut out: Vec<u32> = Vec::new();
    let mut i: usize = 0;
    while i < count
        invariant
            i <= count,
            from + count <= n,
            n == ws@.len(),
            out@ == ws@.subrange(from as int, from + i),
        decreases count - i,
    {
        out.push(ws[from + i]);
        proof {
            assert(ws@.subrange(from as int, from + i).push(ws@[from + i]) =~= ws@.subrange(
                from as int,
                from + i + 1,
            ));
        }
        i = i + 1;
    }
    out
}

/// A byte stream whose length is a multiple of four reads as a quarter as
/// many words.
pub proof fn lemma_words_of_le_bytes_len(bs: Seq<u8>)
    requires
        bs.len() % 4 == 0,
    ensures
        4 * words_of_le_bytes(bs).len() == bs.len(),
    decreases bs.len(),
{
    if bs.len() >= 4 {
        lemma_words_of_le_bytes_len(bs.skip(4));
    }
}

/// Round trip: the byte stream of the words read from a well-sized byte
/// stream is that byte stream.
pub proof fn lemma_le_bytes_of_words_of_le_bytes(bs: Seq<u8>)
    requires
        bs.len() % 4 == 0,
    ensures
        le_bytes_of_words(words_of_le_bytes(bs)) == bs,
    decreases bs.len(),
{
    if bs.len() == 0 {
        assert(le_bytes_of_words(words_of_le_bytes(bs)) =~= bs);
    } else {
        assert(bs.len() >= 4);
        let ws = words_of_le_bytes(bs);
        assert(ws == seq![word_of_bytes(bs[0], bs[1], bs[2], bs[3])] + words_of_le_bytes(
            bs.skip(4),
        ));
        assert(ws.len() >= 1);
        assert(ws[0] == word_of_bytes(bs[0], bs[1], bs[2], bs[3]));
        assert(ws.skip(1) =~= words_of_le_bytes(bs.skip(4)));
        lemma_bytes_of_word_of_bytes(bs[0], bs[1], bs[2], bs[3]);
        lemma_le_bytes_of_words_of_le_bytes(bs.skip(4));
        assert(le_bytes_of_words(ws) == bytes_of_word(ws[0]) + le_bytes_of_words(ws.skip(1)));
        assert(le_bytes_of_words(ws) =~= bs);
    }
}

/// Reassembling the bytes of a word gives the word back.
proof fn lemma_word_of_bytes_of_word(w: u32)
    ensures
        word_of_bytes(
            (w & 0xff) as u8,
            ((w >> 8) & 0xff) as u8,
            ((w >> 16) & 0xff) as u8,
            ((w >> 24) & 0xff) as u8,
        ) == w,
{
    assert(((w & 0xff) as u8 as u32) | ((((w >> 8) & 0xff) as u8 as u32) << 8)
        | ((((w >> 16) & 0xff) as u8 as u32) << 16) | ((((w >> 24) & 0xff) as u8 as u32) << 24)
        == w) by (bit_vector);
}

/// Each byte of an assembled word is the byte it was assembled from.
proof fn lemma_bytes_of_word_of_bytes(b0: u8, b1: u8, b2: u8, b3: u8)
    ensures
        bytes_of_word(word_of_bytes(b0, b1, b2, b3)) =~= seq![b0, b1, b2, b3],
{
    let w = word_of_bytes(b0, b1, b2, b3);
    assert(((b0 as u32) | ((b1 as u32) << 8) | ((b2 as u32) << 16) | ((b3 as u32) << 24)) & 0xff
        == b0 as u32) by (bit_vector);
    assert((((b0 as u32) | ((b1 as u32) << 8) | ((b2 as u32) << 16) | ((b3 as u32) << 24)) >> 8)
        & 0xff == b1 as u32) by (bit_vector);
    assert((((b0 as u32) | ((b1 as u32) << 8) | ((b2 as u32) << 16) | ((b3 as u32) << 24)) >> 16)
        & 0xff == b2 as u32) by (bit_vector);
    assert((((b0 as u32) | ((b1 as u32) << 8) | ((b2 as u32) << 16) | ((b3 as u32) << 24)) >> 24)
        & 0xff == b3 as u32) by (bit_vector);
}

/// Appending one word appends its four bytes.
pub proof fn lemma_le_bytes_of_words_push(ws: Seq<u32>, w: u32)
    ensures
        le_bytes_of_words(ws.push(w)) == le_bytes_of_words(ws) + bytes_of_word(w),
    decreases ws.len(),
{
    if ws.len() == 0 {
        assert(ws.push(w)[0] == w);
        assert(ws.push(w).skip(1) =~= Seq::<u32>::empty());
        assert(le_bytes_of_words(Seq::<u32>::empty()) == Seq::<u8>::empty());
        assert(le_bytes_of_words(ws.push(w)) == bytes_of_word(w) + le_bytes_of_words(
            ws.push(w).skip(1),
        ));
        assert(le_bytes_of_words(ws.push(w)) =~= le_bytes_of_words(ws) + bytes_of_word(w));
    } else {
        lemma_le_bytes_of_words_push(ws.skip(1), w);
        assert(ws.push(w).skip(1) =~= ws.skip(1).push(w));
        assert(ws.push(w)[0] == ws[0]);
        assert(le_bytes_of_words(ws.push(w)) == bytes_of_word(ws[0]) + le_bytes_of_words(
            ws.skip(1).push(w),
        ));
        assert(le_bytes_of_words(ws.push(w)) =~= le_bytes_of_words(ws) + bytes_of_word(w));
    }
}

/// The byte stream of `n` words holds `4 * n` bytes.
pub proof fn lemma_le_bytes_of_words_len(ws: Seq<u32>)
    ensures
        le_bytes_of_words(ws).len() == 4 * ws.len(),
    decreases ws.len(),
{
    if ws.len() > 0 {
        lemma_le_bytes_of_words_len(ws.skip(1));
    }
}

/// Round trip: reading the byte stream of a word sequence gives the words back.
pub proof fn lemma_words_of_le_bytes_of_words(ws: Seq<u32>)
    ensures
        words_of_le_bytes(le_bytes_of_words(ws)) == ws,
    decreases ws.len(),
{
    if ws.len() == 0 {
        assert(words_of_le_bytes(le_bytes_of_words(ws)) =~= ws);
    } else {
        let bs = le_bytes_of_words(ws);
        lemma_le_bytes_of_words_len(ws.skip(1));
        assert(bs.len() >= 4);
        lemma_word_of_bytes_of_word(ws[0]);
        assert(bs.skip(4) =~= le_bytes_of_words(ws.skip(1)));
        lemma_words_of_le_bytes_of_words(ws.skip(1));
        assert(words_of_le_bytes(bs) =~= ws);
    }
}

/// Serializes a word buffer to its little-endian byte stream.
pub fn words_to_bytes(ws: &Vec<u32>) -> (r: Vec<u8>)
    ensures
        r@ == le_bytes_of_words(ws@),
{
    let mut out: Vec<u8> = Vec::new();
    let mut i: usize = 0;
    while i < ws.len()
        invariant
            i <= ws@.len(),
            out@ == le_bytes_of_words(ws@.take(i as int)),
        decreases ws@.len() - i,
    {
        let w = ws[i];
        proof {
            assert((w & 0xff) < 256 && ((w >> 8) & 0xff) < 256 && ((w >> 16) & 0xff) < 256 && ((
            w >> 24) & 0xff) < 256) by (bit_vector);
        }
        out.push((w & 0xff) as u8);
        out.push(((w >> 8) & 0xff) as u8);
        out.push(((w >> 16) & 0xff) as u8);
        out.push(((w >> 24) & 0xff) as u8);
        proof {
            assert(ws@.take(i as int).push(w) =~= ws@.take(i + 1 as int));
            lemma_le_bytes_of_words_push(ws@.take(i as int), w);
            assert(out@ =~= le_bytes_of_words(ws@.take(i + 1 as int)));
        }
        i = i + 1;
    }
    proof {
        assert(ws@.take(ws@.len() as int) =~= ws@);
    }
    out
}

/// Recovers the word buffer from a little-endian byte stream; refuses a
/// stream whose length is not a multiple of four.
pub fn bytes_to_words(bs: &Vec<u8>) -> (r: Option<Vec<u32>>)
    ensures
        bs@.len() % 4 == 0 ==> (r matches Some(ws) && ws@ == words_of_le_bytes(bs@)),
        bs@.len() % 4 != 0 ==> r is None,
{
    if bs.len() % 4 != 0 {
        return None;
    }
    let mut out: Vec<u32> = Vec::new();
    let mut i: usize = 0;
    while i < bs.len()
        invariant
            i <= bs@.len(),
            i % 4 == 0,
            bs@.len() % 4 == 0,
            out@ == words_of_le_bytes(bs@.take(i as int)),
        decreases bs@.len() - i,
    {
        let w = word_from_bytes(bs[i], bs[i + 1], bs[i + 2], bs[i + 3]);
        out.push(w);
        proof {
            lemma_words_of_le_bytes_snoc(bs@.take(i as int), bs@[i as int], bs@[i + 1], bs@[
            i + 2], bs@[i + 3]);
            assert(bs@.take(i as int) + seq![bs@[i as int], bs@[i + 1], bs@[i + 2], bs@[i + 3]]
                =~= bs@.take(i + 4 as int));
            assert(out@ =~= words_of_le_bytes(bs@.take(i + 4 as int)));
        }
        i = i + 4;
    }
    proof {
        assert(bs@.take(bs@.len() as int) =~= bs@);
    }
    Some(out)
}

/// Assembles one word out of four bytes, least significant first.
pub fn word_from_bytes(b0: u8, b1: u8, b2: u8, b3: u8) -> (r: u32)
    ensures
        r == word_of_bytes(b0, b1, b2, b3),
{
    (b0 as u32) | ((b1 as u32) << 8) | ((b2 as u32) << 16) | ((b3 as u32) << 24)
}

/// Reading four more bytes appends one more word.
proof fn lemma_words_of_le_bytes_snoc(bs: Seq<u8>, b0: u8, b1: u8, b2: u8, b3: u8)
    requires
        bs.len() % 4 == 0,
    ensures
        words_of_le_bytes(bs + seq![b0, b1, b2, b3]) == words_of_le_bytes(bs).push(
            word_of_bytes(b0, b1, b2, b3),
        ),
    decreases bs.len(),
{
    let ext = bs + seq![b0, b1, b2, b3];
    if bs.len() == 0 {
        assert(ext.skip(4) =~= Seq::<u8>::empty());
        assert(ext[0] == b0 && ext[1] == b1 && ext[2] == b2 && ext[3] == b3);
        assert(words_of_le_bytes(Seq::<u8>::empty()) == Seq::<u32>::empty());
        assert(words_of_le_bytes(ext) == seq![word_of_bytes(b0, b1, b2, b3)]
            + words_of_le_bytes(ext.skip(4)));
        assert(words_of_le_bytes(ext) =~= words_of_le_bytes(bs).push(
            word_of_bytes(b0, b1, b2, b3),
        ));
    } else {
        assert(bs.len() >= 4);
        lemma_words_of_le_bytes_snoc(bs.skip(4), b0, b1, b2, b3);
        assert(ext.skip(4) =~= bs.skip(4) + seq![b0, b1, b2, b3]);
        assert(ext[0] == bs[0] && ext[1] == bs[1] && ext[2] == bs[2] && ext[3] == bs[3]);
        assert(words_of_le_bytes(ext) == seq![word_of_bytes(bs[0], bs[1], bs[2], bs[3])]
            + words_of_le_bytes(ext.skip(4)));
        assert(words_of_le_bytes(ext) =~= words_of_le_bytes(bs).push(
            word_of_bytes(b0, b1, b2, b3),
        ));
    }
}

} // verus!
