//! Big-endian integers, as the message format lays them out.

use vstd::prelude::*;

verus! {

/// The two bytes of `v`, most significant first.
pub open spec fn be16(v: u16) -> Seq<u8> {
    seq![(v / 256) as u8, (v % 256) as u8]
}

/// The four bytes of `v`, most significant first.
pub open spec fn be32(v: u32) -> Seq<u8> {
    be16((v / 0x1_0000) as u16) + be16((v % 0x1_0000) as u16)
}

/// The integer whose big-endian bytes are `hi`, `lo`.
pub open spec fn from_be16(hi: u8, lo: u8) -> u16 {
    (hi * 256 + lo) as u16
}

/// The integer whose big-endian bytes are `b0` to `b3`.
pub open spec fn from_be32(b0: u8, b1: u8, b2: u8, b3: u8) -> u32 {
    (from_be16(b0, b1) * 0x1_0000 + from_be16(b2, b3)) as u32
}

/// The 16-bit integer that `buf` holds at `pos`.
pub open spec fn u16_at(buf: Seq<u8>, pos: int) -> u16 {
    from_be16(buf[pos], buf[pos + 1])
}

/// The 32-bit integer that `buf` holds at `pos`.
pub open spec fn u32_at(buf: Seq<u8>, pos: int) -> u32 {
    from_be32(buf[pos], buf[pos + 1], buf[pos + 2], buf[pos + 3])
}

/// Reading back what `be16` wrote gives the integer again.
pub proof fn lemma_be16_round_trip(v: u16)
    ensures
        be16(v).len() == 2,
        from_be16(be16(v)[0], be16(v)[1]) == v,
        u16_at(be16(v), 0) == v,
{
}

/// Writing what was read gives the same two bytes.
pub proof fn lemma_from_be16_round_trip(hi: u8, lo: u8)
    ensures
        be16(from_be16(hi, lo)) == seq![hi, lo],
{
    assert(be16(from_be16(hi, lo)) =~= seq![hi, lo]);
}

/// Reading back what `be32` wrote gives the integer again.
pub proof fn lemma_be32_round_trip(v: u32)
    ensures
        be32(v).len() == 4,
        from_be32(be32(v)[0], be32(v)[1], be32(v)[2], be32(v)[3]) == v,
        u32_at(be32(v), 0) == v,
{
    lemma_be16_round_trip((v / 0x1_0000) as u16);
    lemma_be16_round_trip((v % 0x1_0000) as u16);
}

/// Writing what was read gives the same four bytes.
pub proof fn lemma_from_be32_round_trip(b0: u8, b1: u8, b2: u8, b3: u8)
    ensures
        be32(from_be32(b0, b1, b2, b3)) == seq![b0, b1, b2, b3],
{
    lemma_from_be16_round_trip(b0, b1);
    lemma_from_be16_round_trip(b2, b3);
    let v = from_be32(b0, b1, b2, b3);
    assert((v / 0x1_0000) as u16 == from_be16(b0, b1));
    assert((v % 0x1_0000) as u16 == from_be16(b2, b3));
    assert(be32(v) =~= seq![b0, b1, b2, b3]);
}

/// Where `buf` holds `a + b` at `pos`, it holds `a` there and `b` behind it.
pub proof fn lemma_split_at(buf: Seq<u8>, pos: int, a: Seq<u8>, b: Seq<u8>)
    requires
        0 <= pos,
        pos + a.len() + b.len() <= buf.len(),
        buf.subrange(pos, pos + a.len() + b.len()) == a + b,
    ensures
        buf.subrange(pos, pos + a.len()) == a,
        buf.subrange(pos + a.len(), pos + a.len() + b.len()) == b,
{
    let whole = buf.subrange(pos, pos + a.len() + b.len());
    assert forall|i: int| 0 <= i < a.len() implies buf[pos + i] == a[i] by {
        assert(whole[i] == (a + b)[i]);
    }
    assert forall|i: int| 0 <= i < b.len() implies buf[pos + a.len() + i] == b[i] by {
        assert(whole[a.len() + i] == (a + b)[a.len() + i]);
    }
    assert(buf.subrange(pos, pos + a.len()) =~= a);
    assert(buf.subrange(pos + a.len(), pos + a.len() + b.len()) =~= b);
}

/// Where `buf` holds the two bytes of `v` at `pos`, `v` is read there.
pub proof fn lemma_u16_at(buf: Seq<u8>, pos: int, v: u16)
    requires
        0 <= pos,
        pos + 2 <= buf.len(),
        buf.subrange(pos, pos + 2) == be16(v),
    ensures
        u16_at(buf, pos) == v,
{
    assert(buf[pos] == buf.subrange(pos, pos + 2)[0]);
    assert(buf[pos + 1] == buf.subrange(pos, pos + 2)[1]);
    lemma_be16_round_trip(v);
}

/// Where `buf` holds the four bytes of `v` at `pos`, `v` is read there.
pub proof fn lemma_u32_at(buf: Seq<u8>, pos: int, v: u32)
    requires
        0 <= pos,
        pos + 4 <= buf.len(),
        buf.subrange(pos, pos + 4) == be32(v),
    ensures
        u32_at(buf, pos) == v,
{
    assert(buf[pos] == buf.subrange(pos, pos + 4)[0]);
    assert(buf[pos + 1] == buf.subrange(pos, pos + 4)[1]);
    assert(buf[pos + 2] == buf.subrange(pos, pos + 4)[2]);
    assert(buf[pos + 3] == buf.subrange(pos, pos + 4)[3]);
    lemma_be32_round_trip(v);
}

/// The two bytes at `pos` are those of the integer read there.
pub proof fn lemma_be16_of_u16_at(buf: Seq<u8>, pos: int)
    requires
        0 <= pos,
        pos + 2 <= buf.len(),
    ensures
        be16(u16_at(buf, pos)) == buf.subrange(pos, pos + 2),
{
    lemma_from_be16_round_trip(buf[pos], buf[pos + 1]);
    assert(buf.subrange(pos, pos + 2) =~= seq![buf[pos], buf[pos + 1]]);
}

/// The four bytes at `pos` are those of the integer read there.
pub proof fn lemma_be32_of_u32_at(buf: Seq<u8>, pos: int)
    requires
        0 <= pos,
        pos + 4 <= buf.len(),
    ensures
        be32(u32_at(buf, pos)) == buf.subrange(pos, pos + 4),
{
    lemma_from_be32_round_trip(buf[pos], buf[pos + 1], buf[pos + 2], buf[pos + 3]);
    assert(buf.subrange(pos, pos + 4) =~= seq![buf[pos], buf[pos + 1], buf[pos + 2], buf[pos + 3]]);
}

/// Reads the big-endian 16-bit integer at `pos`.
pub fn read_u16(buf: &[u8], pos: usize) -> (v: u16)
    requires
        pos + 2 <= buf.len(),
    ensures
        v == u16_at(buf@, pos as int),
{
    let hi: u16 = buf[pos] as u16;
    let lo: u16 = buf[pos + 1] as u16;
    hi * 256 + lo
}

/// Reads the big-endian 32-bit integer at `pos`.
pub fn read_u32(buf: &[u8], pos: usize) -> (v: u32)
    requires
        pos + 4 <= buf.len(),
    ensures
        v == u32_at(buf@, pos as int),
{
    let hi: u32 = read_u16(buf, pos) as u32;
    let lo: u32 = read_u16(buf, pos + 2) as u32;
    hi * 0x1_0000 + lo
}

/// Appends `v`, most significant byte first.
pub fn push_u16(buf: &mut Vec<u8>, v: u16)
    ensures
        final(buf)@ == old(buf)@ + be16(v),
{
    buf.push((v / 256) as u8);
    buf.push((v % 256) as u8);
    assert(buf@ =~= old(buf)@ + be16(v));
}

/// Appends `v`, most significant byte first.
pub fn push_u32(buf: &mut Vec<u8>, v: u32)
    ensures
        final(buf)@ == old(buf)@ + be32(v),
{
    push_u16(buf, (v / 0x1_0000) as u16);
    push_u16(buf, (v % 0x1_0000) as u16);
    assert(buf@ =~= old(buf)@ + be32(v));
}

/// Appends the bytes of `src`.
pub fn push_all(buf: &mut Vec<u8>, src: &[u8])
    ensures
        final(buf)@ == old(buf)@ + src@,
{
    let mut i: usize = 0;
    while i < src.len()
        invariant
            i <= src@.len(),
            buf@ == old(buf)@ + src@.subrange(0, i as int),
        decreases src@.len() - i,
    {
        buf.push(src[i]);
        i += 1;
    }
    assert(src@.subrange(0, i as int) =~= src@);
}

} // verus!
