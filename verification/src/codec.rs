use vstd::prelude::*;

verus! {

/// The eight big-endian bytes of a 64-bit integer.
pub open spec fn u64_be(x: u64) -> Seq<u8> {
    seq![
        (x / 0x100000000000000) as u8,
        ((x / 0x1000000000000) % 256) as u8,
        ((x / 0x10000000000) % 256) as u8,
        ((x / 0x100000000) % 256) as u8,
        ((x / 0x1000000) % 256) as u8,
        ((x / 0x10000) % 256) as u8,
        ((x / 0x100) % 256) as u8,
        (x % 256) as u8,
    ]
}

/// The integer read back from eight big-endian bytes.
pub open spec fn be64(s: Seq<u8>) -> nat
    recommends
        s.len() >= 8,
{
    (s[0] * 0x100000000000000 + s[1] * 0x1000000000000 + s[2] * 0x10000000000 + s[3] * 0x100000000
        + s[4] * 0x1000000 + s[5] * 0x10000 + s[6] * 0x100 + s[7]) as nat
}

/// Appends the eight big-endian bytes of `x` to `buf`.
pub fn push_u64_be(buf: &mut Vec<u8>, x: u64)
    ensures
        final(buf)@ == old(buf)@ + u64_be(x),
{
    buf.push((x / 0x100000000000000) as u8);
    buf.push(((x / 0x1000000000000) % 256) as u8);
    buf.push(((x / 0x10000000000) % 256) as u8);
    buf.push(((x / 0x100000000) % 256) as u8);
    buf.push(((x / 0x1000000) % 256) as u8);
    buf.push(((x / 0x10000) % 256) as u8);
    buf.push(((x / 0x100) % 256) as u8);
    buf.push((x % 256) as u8);
    proof {
        assert(buf@ =~= old(buf)@ + u64_be(x));
    }
}

/// Reads the integer encoded by eight big-endian bytes starting at `at`.
pub fn read_u64_be(buf: &[u8], at: usize) -> (r: u64)
    requires
        at + 8 <= buf@.len(),
    ensures
        r as nat == be64(buf@.subrange(at as int, at as int + 8)),
{
    let r: u64 = (buf[at] as u64) * 0x100000000000000 + (buf[at + 1] as u64) * 0x1000000000000 + (
    buf[at + 2] as u64) * 0x10000000000 + (buf[at + 3] as u64) * 0x100000000 + (buf[at + 4] as u64)
        * 0x1000000 + (buf[at + 5] as u64) * 0x10000 + (buf[at + 6] as u64) * 0x100 + (buf[at
        + 7] as u64);
    proof {
        let s = buf@.subrange(at as int, at as int + 8);
        assert(s[0] == buf@[at as int]);
        assert(s[1] == buf@[at as int + 1]);
        assert(s[2] == buf@[at as int + 2]);
        assert(s[3] == buf@[at as int + 3]);
        assert(s[4] == buf@[at as int + 4]);
        assert(s[5] == buf@[at as int + 5]);
        assert(s[6] == buf@[at as int + 6]);
        assert(s[7] == buf@[at as int + 7]);
    }
    r
}

/// Two byte strings agreeing on their first eight bytes decode to the same
/// integer.
pub proof fn lemma_be64_prefix(s1: Seq<u8>, s2: Seq<u8>)
    requires
        s1.len() >= 8,
        s2.len() >= 8,
        forall|i: int| 0 <= i < 8 ==> s1[i] == s2[i],
    ensures
        be64(s1) == be64(s2),
{
}

/// Round trip: the bytes written by `u64_be` read back as the same integer.
pub proof fn lemma_u64_be_round_trip(x: u64)
    ensures
        be64(u64_be(x)) == x as nat,
        u64_be(x).len() == 8,
{
    assert(x / 0x100000000000000 < 256) by (bit_vector);
    assert(((x / 0x100000000000000) % 0x100) * 0x100000000000000 + ((x / 0x1000000000000) % 0x100)
        * 0x1000000000000 + ((x / 0x10000000000) % 0x100) * 0x10000000000 + ((x / 0x100000000)
        % 0x100) * 0x100000000 + ((x / 0x1000000) % 0x100) * 0x1000000 + ((x / 0x10000) % 0x100)
        * 0x10000 + ((x / 0x100) % 0x100) * 0x100 + (x % 0x100) == x) by (bit_vector);
}

} // verus!
