//! Byte strings: their order, and the little-endian integers of the table format.
use byteorder::{ByteOrder, LittleEndian, WriteBytesExt};
use vstd::prelude::*;
use vstd::utf8::{decode_utf8, valid_utf8};

verus! {

/// The number that the first four bytes of `s` spell, least significant byte first.
pub open spec fn u32_from_le(s: Seq<u8>) -> int
    recommends
        s.len() >= 4,
{
    s[0] + 0x100 * s[1] + 0x1_0000 * s[2] + 0x100_0000 * s[3]
}

/// The four bytes that spell `n`, least significant byte first.
#[verifier::opaque]
pub open spec fn u32_to_le(n: u32) -> Seq<u8> {
    seq![
        (n % 0x100) as u8,
        (n / 0x100 % 0x100) as u8,
        (n / 0x1_0000 % 0x100) as u8,
        (n / 0x100_0000 % 0x100) as u8,
    ]
}

/// The number that the first eight bytes of `s` spell, least significant byte first.
pub open spec fn u64_from_le(s: Seq<u8>) -> int
    recommends
        s.len() >= 8,
{
    u32_from_le(s) + 0x1_0000_0000 * u32_from_le(s.skip(4))
}

/// The eight bytes that spell `n`, least significant byte first.
#[verifier::opaque]
pub open spec fn u64_to_le(n: u64) -> Seq<u8> {
    u32_to_le((n % 0x1_0000_0000) as u32) + u32_to_le((n / 0x1_0000_0000) as u32)
}

/// Four bytes written for a number read back as that number.
pub proof fn lemma_u32_le_round_trip(n: u32)
    ensures
        u32_to_le(n).len() == 4,
        u32_from_le(u32_to_le(n)) == n,
{
    reveal(u32_to_le);
}

/// Any four bytes spell a number below 2^32.
pub proof fn lemma_u32_from_le_bound(s: Seq<u8>)
    ensures
        0 <= u32_from_le(s) <= u32::MAX,
{
}

/// Eight bytes written for a number read back as that number.
pub proof fn lemma_u64_le_round_trip(n: u64)
    ensures
        u64_to_le(n).len() == 8,
        u64_from_le(u64_to_le(n)) == n,
{
    reveal(u64_to_le);
    let lo = (n % 0x1_0000_0000) as u32;
    let hi = (n / 0x1_0000_0000) as u32;
    lemma_u32_le_round_trip(lo);
    lemma_u32_le_round_trip(hi);
    assert(u64_to_le(n).skip(4) =~= u32_to_le(hi));
    assert(u32_from_le(u64_to_le(n)) == u32_from_le(u32_to_le(lo)));
}

/// Any eight bytes spell a number below 2^64.
pub proof fn lemma_u64_from_le_bound(s: Seq<u8>)
    ensures
        0 <= u64_from_le(s) <= u64::MAX,
{
}

/// `byteorder::LittleEndian::read_u32`: the little-endian number in the first
/// four bytes of `buf`. The call panics on a shorter slice, which `requires`
/// leaves out.
#[verifier::external_body]
pub(crate) fn read_u32_le(buf: &[u8]) -> (n: u32)
    requires
        buf@.len() >= 4,
    ensures
        n == u32_from_le(buf@),
{
    LittleEndian::read_u32(buf)
}

/// `byteorder::LittleEndian::read_u64`: the little-endian number in the first
/// eight bytes of `buf`. The call panics on a shorter slice, which `requires`
/// leaves out.
#[verifier::external_body]
pub(crate) fn read_u64_le(buf: &[u8]) -> (n: u64)
    requires
        buf@.len() >= 8,
    ensures
        n == u64_from_le(buf@),
{
    LittleEndian::read_u64(buf)
}

/// `byteorder::WriteBytesExt::write_u32` on a `Vec<u8>`, little-endian: the
/// four bytes of `n` are appended to `out`, which is otherwise unchanged.
/// Writing to a vector does not fail.
#[verifier::external_body]
pub(crate) fn write_u32_le(out: &mut Vec<u8>, n: u32)
    ensures
        final(out)@ == old(out)@ + u32_to_le(n),
{
    out.write_u32::<LittleEndian>(n).unwrap()
}

/// `byteorder::WriteBytesExt::write_u64` on a `Vec<u8>`, little-endian: the
/// eight bytes of `n` are appended to `out`, which is otherwise unchanged.
/// Writing to a vector does not fail.
#[verifier::external_body]
pub(crate) fn write_u64_le(out: &mut Vec<u8>, n: u64)
    ensures
        final(out)@ == old(out)@ + u64_to_le(n),
{
    out.write_u64::<LittleEndian>(n).unwrap()
}

/// `String::from_utf8`: the text that `bytes` encode in UTF-8, and nothing
/// where they encode none.
#[verifier::external_body]
pub(crate) fn string_from_utf8(bytes: Vec<u8>) -> (text: Option<String>)
    ensures
        text is Some <==> valid_utf8(bytes@),
        text matches Some(s) ==> s@ == decode_utf8(bytes@),
{
    String::from_utf8(bytes).ok()
}

/// Lexicographic order on byte strings, bytes compared as unsigned numbers:
/// `a` comes strictly before `b`.
pub open spec fn lex_lt(a: Seq<u8>, b: Seq<u8>) -> bool
    decreases a.len(),
{
    if b.len() == 0 {
        false
    } else if a.len() == 0 {
        true
    } else if a[0] != b[0] {
        a[0] < b[0]
    } else {
        lex_lt(a.drop_first(), b.drop_first())
    }
}

/// No byte string comes before itself.
pub proof fn lemma_lex_lt_irreflexive(a: Seq<u8>)
    ensures
        !lex_lt(a, a),
    decreases a.len(),
{
    if a.len() > 0 {
        lemma_lex_lt_irreflexive(a.drop_first());
    }
}

/// Of two different byte strings exactly one comes before the other.
pub proof fn lemma_lex_lt_total(a: Seq<u8>, b: Seq<u8>)
    ensures
        lex_lt(a, b) || lex_lt(b, a) || a == b,
        !(lex_lt(a, b) && lex_lt(b, a)),
        lex_lt(a, b) ==> a != b,
    decreases a.len(),
{
    if a.len() > 0 && b.len() > 0 {
        lemma_lex_lt_total(a.drop_first(), b.drop_first());
        if a[0] == b[0] && a.drop_first() == b.drop_first() {
            assert(a =~= seq![a[0]] + a.drop_first());
            assert(b =~= seq![b[0]] + b.drop_first());
        }
    } else if a.len() == 0 && b.len() == 0 {
        assert(a =~= b);
    }
}

/// The order is transitive.
pub proof fn lemma_lex_lt_transitive(a: Seq<u8>, b: Seq<u8>, c: Seq<u8>)
    requires
        lex_lt(a, b),
        lex_lt(b, c),
    ensures
        lex_lt(a, c),
    decreases a.len(),
{
    if a.len() > 0 && b.len() > 0 && c.len() > 0 {
        if a[0] == b[0] && b[0] == c[0] {
            lemma_lex_lt_transitive(a.drop_first(), b.drop_first(), c.drop_first());
        }
    }
}

/// Whether `a` comes strictly before `b` in lexicographic order.
pub fn key_lt(a: &[u8], b: &[u8]) -> (r: bool)
    ensures
        r == lex_lt(a@, b@),
{
    let mut i: usize = 0;
    assert(a@.skip(0) =~= a@ && b@.skip(0) =~= b@);
    while i < a.len() && i < b.len()
        invariant
            i <= a@.len(),
            i <= b@.len(),
            lex_lt(a@, b@) == lex_lt(a@.skip(i as int), b@.skip(i as int)),
        decreases a@.len() - i,
    {
        proof {
            assert(a@.skip(i as int).drop_first() =~= a@.skip(i as int + 1));
            assert(b@.skip(i as int).drop_first() =~= b@.skip(i as int + 1));
        }
        if a[i] != b[i] {
            return a[i] < b[i];
        }
        i = i + 1;
    }
    i < b.len()
}

/// Whether `a` and `b` hold the same bytes.
pub fn key_eq(a: &[u8], b: &[u8]) -> (r: bool)
    ensures
        r == (a@ == b@),
{
    if a.len() != b.len() {
        return false;
    }
    let mut i: usize = 0;
    while i < a.len()
        invariant
            i <= a@.len(),
            a@.len() == b@.len(),
            forall|j: int| 0 <= j < i ==> a@[j] == b@[j],
        decreases a@.len() - i,
    {
        if a[i] != b[i] {
            return false;
        }
        i = i + 1;
    }
    assert(a@ =~= b@);
    true
}

/// A vector that owns a copy of `s`.
pub fn to_owned_bytes(s: &[u8]) -> (v: Vec<u8>)
    ensures
        v@ == s@,
{
    vstd::slice::slice_to_vec(s)
}

} // verus!
