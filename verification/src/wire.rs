//! Fixed-width integers as the bytes a protocol carries.

use vstd::prelude::*;

verus! {

/// `x` as two bytes, most significant first.
pub open spec fn be16(x: u16) -> Seq<u8> {
    seq![(x / 0x100) as u8, (x % 0x100) as u8]
}

/// `x` as four bytes, most significant first.
pub open spec fn be32(x: u32) -> Seq<u8> {
    seq![
        (x / 0x100_0000) as u8,
        (x / 0x1_0000 % 0x100) as u8,
        (x / 0x100 % 0x100) as u8,
        (x % 0x100) as u8,
    ]
}

/// `x` as eight bytes, most significant first.
pub open spec fn be64(x: u64) -> Seq<u8> {
    be32((x / 0x1_0000_0000) as u32) + be32((x % 0x1_0000_0000) as u32)
}

/// `x` as four bytes, least significant first.
pub open spec fn le32(x: u32) -> Seq<u8> {
    seq![
        (x % 0x100) as u8,
        (x / 0x100 % 0x100) as u8,
        (x / 0x1_0000 % 0x100) as u8,
        (x / 0x100_0000) as u8,
    ]
}

/// The number in the two bytes of `s` from `at`, most significant first.
pub open spec fn be16_at(s: Seq<u8>, at: int) -> int {
    s[at] * 0x100 + s[at + 1]
}

/// The number in the four bytes of `s` from `at`, most significant first.
pub open spec fn be32_at(s: Seq<u8>, at: int) -> int {
    s[at] * 0x100_0000 + s[at + 1] * 0x1_0000 + s[at + 2] * 0x100 + s[at + 3]
}

/// The number in the eight bytes of `s` from `at`, most significant first.
pub open spec fn be64_at(s: Seq<u8>, at: int) -> int {
    be32_at(s, at) * 0x1_0000_0000 + be32_at(s, at + 4)
}

/// The number in the four bytes of `s` from `at`, least significant first.
pub open spec fn le32_at(s: Seq<u8>, at: int) -> int {
    s[at] + s[at + 1] * 0x100 + s[at + 2] * 0x1_0000 + s[at + 3] * 0x100_0000
}

/// Append a copy of `more` to `out`.
pub fn append(out: &mut Vec<u8>, more: &[u8])
    ensures
        final(out)@ == old(out)@ + more@,
{
    out.extend_from_slice(more);
    assert(out@ =~= old(out)@ + more@);
}

/// Whether two byte strings are the same.
pub fn same_bytes(a: &[u8], b: &[u8]) -> (same: bool)
    ensures
        same == (a@ == b@),
{
    if a.len() != b.len() {
        return false;
    }
    let mut i: usize = 0;
    while i < a.len()
        invariant
            a@.len() == b@.len(),
            i <= a.len(),
            forall|k: int| 0 <= k < i ==> a@[k] == b@[k],
        decreases a.len() - i,
    {
        if a[i] != b[i] {
            return false;
        }
        i += 1;
    }
    assert(a@ =~= b@);
    true
}

/// Append `x`, most significant byte first.
pub fn push_be16(out: &mut Vec<u8>, x: u16)
    ensures
        final(out)@ == old(out)@ + be16(x),
{
    out.push((x / 0x100) as u8);
    out.push((x % 0x100) as u8);
    assert(out@ =~= old(out)@ + be16(x));
}

/// Append `x`, most significant byte first.
pub fn push_be32(out: &mut Vec<u8>, x: u32)
    ensures
        final(out)@ == old(out)@ + be32(x),
{
    out.push((x / 0x100_0000) as u8);
    out.push((x / 0x1_0000 % 0x100) as u8);
    out.push((x / 0x100 % 0x100) as u8);
    out.push((x % 0x100) as u8);
    assert(out@ =~= old(out)@ + be32(x));
}

/// Append `x`, most significant byte first.
pub fn push_be64(out: &mut Vec<u8>, x: u64)
    ensures
        final(out)@ == old(out)@ + be64(x),
{
    push_be32(out, (x / 0x1_0000_0000) as u32);
    push_be32(out, (x % 0x1_0000_0000) as u32);
    assert(out@ =~= old(out)@ + be64(x));
}

/// Append `x`, least significant byte first.
pub fn push_le32(out: &mut Vec<u8>, x: u32)
    ensures
        final(out)@ == old(out)@ + le32(x),
{
    out.push((x % 0x100) as u8);
    out.push((x / 0x100 % 0x100) as u8);
    out.push((x / 0x1_0000 % 0x100) as u8);
    out.push((x / 0x100_0000) as u8);
    assert(out@ =~= old(out)@ + le32(x));
}

/// Read two bytes, most significant first.
pub fn read_be16(s: &[u8], at: usize) -> (x: u16)
    requires
        at + 2 <= s.len(),
    ensures
        x == be16_at(s@, at as int),
{
    (s[at] as u16) * 0x100 + s[at + 1] as u16
}

/// Read four bytes, most significant first.
pub fn read_be32(s: &[u8], at: usize) -> (x: u32)
    requires
        at + 4 <= s.len(),
    ensures
        x == be32_at(s@, at as int),
{
    (s[at] as u32) * 0x100_0000 + (s[at + 1] as u32) * 0x1_0000 + (s[at + 2] as u32) * 0x100
        + s[at + 3] as u32
}

/// Read eight bytes, most significant first.
pub fn read_be64(s: &[u8], at: usize) -> (x: u64)
    requires
        at + 8 <= s.len(),
    ensures
        x == be64_at(s@, at as int),
{
    (read_be32(s, at) as u64) * 0x1_0000_0000 + read_be32(s, at + 4) as u64
}

/// Read four bytes, least significant first.
pub fn read_le32(s: &[u8], at: usize) -> (x: u32)
    requires
        at + 4 <= s.len(),
    ensures
        x == le32_at(s@, at as int),
{
    s[at] as u32 + (s[at + 1] as u32) * 0x100 + (s[at + 2] as u32) * 0x1_0000 + (s[at + 3] as u32)
        * 0x100_0000
}

/// A number written most significant byte first reads back as itself.
pub proof fn law_be16_reads_back(x: u16, before: Seq<u8>, after: Seq<u8>)
    ensures
        be16_at(before + be16(x) + after, before.len() as int) == x,
{
    let s = before + be16(x) + after;
    let n = before.len() as int;
    assert(s[n] == be16(x)[0] && s[n + 1] == be16(x)[1]);
}

/// A number written most significant byte first reads back as itself.
pub proof fn law_be32_reads_back(x: u32, before: Seq<u8>, after: Seq<u8>)
    ensures
        be32_at(before + be32(x) + after, before.len() as int) == x,
{
    let s = before + be32(x) + after;
    let n = before.len() as int;
    assert(s[n] == be32(x)[0] && s[n + 1] == be32(x)[1]);
    assert(s[n + 2] == be32(x)[2] && s[n + 3] == be32(x)[3]);
    lemma_four_digits(x as int);
}

/// A number written most significant byte first reads back as itself.
pub proof fn law_be64_reads_back(x: u64, before: Seq<u8>, after: Seq<u8>)
    ensures
        be64_at(before + be64(x) + after, before.len() as int) == x,
{
    let high = (x / 0x1_0000_0000) as u32;
    let low = (x % 0x1_0000_0000) as u32;
    law_be32_reads_back(high, before, be32(low) + after);
    law_be32_reads_back(low, before + be32(high), after);
    assert(before + be64(x) + after =~= before + be32(high) + (be32(low) + after));
    assert(before + be64(x) + after =~= before + be32(high) + be32(low) + after);
}

/// A number written least significant byte first reads back as itself.
pub proof fn law_le32_reads_back(x: u32, before: Seq<u8>, after: Seq<u8>)
    ensures
        le32_at(before + le32(x) + after, before.len() as int) == x,
{
    let s = before + le32(x) + after;
    let n = before.len() as int;
    assert(s[n] == le32(x)[0] && s[n + 1] == le32(x)[1]);
    assert(s[n + 2] == le32(x)[2] && s[n + 3] == le32(x)[3]);
    lemma_four_digits(x as int);
}

proof fn lemma_four_digits(x: int)
    requires
        0 <= x <= u32::MAX,
    ensures
        x == (x / 0x100_0000) * 0x100_0000 + (x / 0x1_0000 % 0x100) * 0x1_0000 + (x / 0x100 % 0x100)
            * 0x100 + x % 0x100,
{
    let a = x / 0x100;
    let b = x / 0x1_0000;
    assert(b == a / 0x100);
    assert(x / 0x100_0000 == b / 0x100);
}

} // verus!
