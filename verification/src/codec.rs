//! Little-endian integers as they lie on disk.

use vstd::prelude::*;

verus! {

/// The two bytes of `x`, least significant first.
pub open spec fn u16_le(x: u16) -> Seq<u8> {
    seq![(x % 256) as u8, (x / 256) as u8]
}

/// The four bytes of `x`, least significant first.
pub open spec fn u32_le(x: u32) -> Seq<u8> {
    seq![
        (x % 256) as u8,
        (x / 256 % 256) as u8,
        (x / 65536 % 256) as u8,
        (x / 16777216) as u8,
    ]
}

/// The `u16` stored little-endian at `s[i]`, `s[i + 1]`.
pub open spec fn u16_at(s: Seq<u8>, i: int) -> u16 {
    (s[i] as int + 256 * (s[i + 1] as int)) as u16
}

/// The `u32` stored little-endian at `s[i] .. s[i + 3]`.
pub open spec fn u32_at(s: Seq<u8>, i: int) -> u32 {
    (s[i] as int + 256 * (s[i + 1] as int) + 65536 * (s[i + 2] as int) + 16777216 * (s[i
        + 3] as int)) as u32
}

/// The words of `ws`, each little-endian, one after another.
pub open spec fn words_le(ws: Seq<u32>) -> Seq<u8>
    decreases ws.len(),
{
    if ws.len() == 0 {
        Seq::empty()
    } else {
        words_le(ws.drop_last()) + u32_le(ws.last())
    }
}

/// `n` zero bytes.
pub open spec fn zeros(n: nat) -> Seq<u8> {
    Seq::new(n, |i: int| 0u8)
}

/// Decoding what was encoded gives the value back.
pub proof fn lemma_u16_round_trip(x: u16)
    ensures
        u16_le(x).len() == 2,
        u16_at(u16_le(x), 0) == x,
{
}

/// Decoding what was encoded gives the value back.
pub proof fn lemma_u32_round_trip(x: u32)
    ensures
        u32_le(x).len() == 4,
        u32_at(u32_le(x), 0) == x,
{
}

/// Encoding what was decoded gives the bytes back.
pub proof fn lemma_u16_bytes_round_trip(s: Seq<u8>, i: int)
    requires
        0 <= i,
        i + 2 <= s.len(),
    ensures
        u16_le(u16_at(s, i)) == s.subrange(i, i + 2),
{
    assert(u16_le(u16_at(s, i)) =~= s.subrange(i, i + 2));
}

/// Encoding what was decoded gives the bytes back.
pub proof fn lemma_u32_bytes_round_trip(s: Seq<u8>, i: int)
    requires
        0 <= i,
        i + 4 <= s.len(),
    ensures
        u32_le(u32_at(s, i)) == s.subrange(i, i + 4),
{
    assert(u32_le(u32_at(s, i)) =~= s.subrange(i, i + 4));
}

/// Byte `j` of `words_le(ws)` is byte `j % 4` of word `j / 4`.
pub proof fn lemma_words_le_index(ws: Seq<u32>, j: int)
    requires
        0 <= j < 4 * ws.len(),
    ensures
        words_le(ws).len() == 4 * ws.len(),
        words_le(ws)[j] == u32_le(ws[j / 4])[j % 4],
    decreases ws.len(),
{
    lemma_words_le_len(ws);
    lemma_words_le_len(ws.drop_last());
    if j < 4 * (ws.len() - 1) {
        lemma_words_le_index(ws.drop_last(), j);
    }
}

/// `words_le` writes four bytes for each word.
pub proof fn lemma_words_le_len(ws: Seq<u32>)
    ensures
        words_le(ws).len() == 4 * ws.len(),
    decreases ws.len(),
{
    if ws.len() > 0 {
        lemma_words_le_len(ws.drop_last());
    }
}

/// Words that read back from `s` at `base`, four bytes apart, encode to that
/// stretch of `s`.
pub proof fn lemma_words_le_of_bytes(ws: Seq<u32>, s: Seq<u8>, base: int)
    requires
        0 <= base,
        base + 4 * ws.len() <= s.len(),
        forall|k: int| 0 <= k < ws.len() ==> ws[k] == u32_at(s, base + 4 * k),
    ensures
        words_le(ws) == s.subrange(base, base + 4 * ws.len()),
    decreases ws.len(),
{
    if ws.len() > 0 {
        let n = ws.len() - 1;
        lemma_words_le_of_bytes(ws.drop_last(), s, base);
        lemma_u32_bytes_round_trip(s, base + 4 * n);
        assert(words_le(ws) =~= s.subrange(base, base + 4 * ws.len()));
    } else {
        assert(words_le(ws) =~= s.subrange(base, base + 4 * ws.len()));
    }
}

/// Words whose encodings agree are the same words.
pub proof fn lemma_words_le_injective(a: Seq<u32>, b: Seq<u32>)
    requires
        a.len() == b.len(),
        words_le(a) == words_le(b),
    ensures
        a == b,
{
    assert forall|k: int| 0 <= k < a.len() implies a[k] == b[k] by {
        lemma_words_le_index(a, 4 * k);
        lemma_words_le_index(a, 4 * k + 1);
        lemma_words_le_index(a, 4 * k + 2);
        lemma_words_le_index(a, 4 * k + 3);
        lemma_words_le_index(b, 4 * k);
        lemma_words_le_index(b, 4 * k + 1);
        lemma_words_le_index(b, 4 * k + 2);
        lemma_words_le_index(b, 4 * k + 3);
        lemma_u32_round_trip(a[k]);
        lemma_u32_round_trip(b[k]);
        assert(u32_le(a[k]) =~= u32_le(b[k]));
    }
    assert(a =~= b);
}

/// Appends `x` to `out`, little-endian.
pub fn push_u16(out: &mut Vec<u8>, x: u16)
    ensures
        final(out)@ == old(out)@ + u16_le(x),
{
    out.push((x % 256) as u8);
    out.push((x / 256) as u8);
    assert(out@ =~= old(out)@ + u16_le(x));
}

/// Appends `x` to `out`, little-endian.
pub fn push_u32(out: &mut Vec<u8>, x: u32)
    ensures
        final(out)@ == old(out)@ + u32_le(x),
{
    out.push((x % 256) as u8);
    out.push((x / 256 % 256) as u8);
    out.push((x / 65536 % 256) as u8);
    out.push((x / 16777216) as u8);
    assert(out@ =~= old(out)@ + u32_le(x));
}

/// Appends `n` zero bytes to `out`.
pub fn push_zeros(out: &mut Vec<u8>, n: usize)
    requires
        old(out)@.len() + n <= usize::MAX,
    ensures
        final(out)@ == old(out)@ + zeros(n as nat),
{
    let mut i: usize = 0;
    while i < n
        invariant
            i <= n,
            out@ == old(out)@ + zeros(i as nat),
            old(out)@.len() + n <= usize::MAX,
        decreases n - i,
    {
        out.push(0u8);
        i += 1;
        assert(out@ =~= old(out)@ + zeros(i as nat));
    }
}

/// Reads the `u16` stored little-endian at `buf[at]`.
pub fn read_u16(buf: &[u8], at: usize) -> (x: u16)
    requires
        at + 2 <= buf@.len(),
    ensures
        x == u16_at(buf@, at as int),
{
    (buf[at] as u16) + 256 * (buf[at + 1] as u16)
}

/// Reads the `u32` stored little-endian at `buf[at]`.
pub fn read_u32(buf: &[u8], at: usize) -> (x: u32)
    requires
        at + 4 <= buf@.len(),
    ensures
        x == u32_at(buf@, at as int),
{
    (buf[at] as u32) + 256 * (buf[at + 1] as u32) + 65536 * (buf[at + 2] as u32) + 16777216 * (
    buf[at + 3] as u32)
}

} // verus!
