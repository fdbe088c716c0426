//! Byte strings: comparing, copying and the two byte orders of unsigned integers.

use vstd::prelude::*;

verus! {

/// The `n` low bytes of `x`, the least significant first.
pub open spec fn le_bytes(x: nat, n: nat) -> Seq<u8>
    decreases n,
{
    if n == 0 {
        Seq::empty()
    } else {
        seq![(x % 256) as u8] + le_bytes(x / 256, (n - 1) as nat)
    }
}

/// The `n` low bytes of `x`, the most significant first.
pub open spec fn be_bytes(x: nat, n: nat) -> Seq<u8>
    decreases n,
{
    if n == 0 {
        Seq::empty()
    } else {
        be_bytes(x / 256, (n - 1) as nat).push((x % 256) as u8)
    }
}

/// The number whose bytes are `s`, the least significant first.
pub open spec fn from_le(s: Seq<u8>) -> nat
    decreases s.len(),
{
    if s.len() == 0 {
        0
    } else {
        s[0] as nat + 256 * from_le(s.drop_first())
    }
}

/// The number whose bytes are `s`, the most significant first.
pub open spec fn from_be(s: Seq<u8>) -> nat
    decreases s.len(),
{
    if s.len() == 0 {
        0
    } else {
        256 * from_be(s.drop_last()) + s.last() as nat
    }
}

/// 256 to the power of `n`: how many values `n` bytes can hold.
pub open spec fn values_of(n: nat) -> nat
    decreases n,
{
    if n == 0 {
        1
    } else {
        256 * values_of((n - 1) as nat)
    }
}

/// Reading back what was written gives the number, in either byte order.
pub proof fn law_bytes_read_back(x: nat, n: nat)
    requires
        x < values_of(n),
    ensures
        le_bytes(x, n).len() == n,
        be_bytes(x, n).len() == n,
        from_le(le_bytes(x, n)) == x,
        from_be(be_bytes(x, n)) == x,
    decreases n,
{
    if n > 0 {
        assert(x / 256 < values_of((n - 1) as nat));
        law_bytes_read_back(x / 256, (n - 1) as nat);
        assert(le_bytes(x, n).drop_first() =~= le_bytes(x / 256, (n - 1) as nat));
        assert(be_bytes(x, n).drop_last() =~= be_bytes(x / 256, (n - 1) as nat));
    }
}

/// Writing back what was read gives the bytes, in either byte order.
pub proof fn law_bytes_write_back(s: Seq<u8>)
    ensures
        le_bytes(from_le(s), s.len()) =~= s,
        be_bytes(from_be(s), s.len()) =~= s,
        from_le(s) < values_of(s.len()),
        from_be(s) < values_of(s.len()),
    decreases s.len(),
{
    if s.len() > 0 {
        law_bytes_write_back(s.drop_first());
        law_bytes_write_back(s.drop_last());
        assert(from_le(s) / 256 == from_le(s.drop_first()));
        assert(from_be(s) / 256 == from_be(s.drop_last()));
    }
}

/// The bytes of `x` in `n` places are as many as the places, whatever does not fit.
pub proof fn lemma_byte_counts(x: nat, n: nat)
    ensures
        le_bytes(x, n).len() == n,
        be_bytes(x, n).len() == n,
    decreases n,
{
    if n > 0 {
        lemma_byte_counts(x / 256, (n - 1) as nat);
    }
}

/// Appends the `n` low bytes of `x`, the least significant first.
pub fn push_le(out: &mut Vec<u8>, x: u64, n: usize)
    ensures
        final(out)@ == old(out)@ + le_bytes(x as nat, n as nat),
{
    let ghost start = out@;
    let mut rest: u64 = x;
    let mut i: usize = 0;
    while i < n
        invariant
            i <= n,
            start + le_bytes(x as nat, n as nat) =~= out@ + le_bytes(rest as nat, (n - i) as nat),
        decreases n - i,
    {
        out.push((rest % 256) as u8);
        rest = rest / 256;
        i += 1;
    }
    assert(le_bytes(rest as nat, 0) =~= Seq::empty());
}

/// Appends the `n` low bytes of `x`, the most significant first.
pub fn push_be(out: &mut Vec<u8>, x: u64, n: usize)
    ensures
        final(out)@ == old(out)@ + be_bytes(x as nat, n as nat),
    decreases n,
{
    if n > 0 {
        push_be(out, x / 256, n - 1);
        out.push((x % 256) as u8);
    }
}

/// The number that eight bytes hold, the most significant first.
pub fn read_be64(bytes: &[u8]) -> (x: u64)
    requires
        bytes@.len() == 8,
    ensures
        x as nat == from_be(bytes@),
{
    let mut x: u64 = 0;
    let mut i: usize = 0;
    proof {
        reveal_with_fuel(values_of, 9);
    }
    while i < 8
        invariant
            i <= 8,
            bytes@.len() == 8,
            x as nat == from_be(bytes@.take(i as int)),
            x < values_of(i as nat),
            values_of(8) == 0x1_0000_0000_0000_0000,
        decreases 8 - i,
    {
        assert(bytes@.take(i + 1).drop_last() =~= bytes@.take(i as int));
        proof {
            lemma_values_monotone((i + 1) as nat, 8);
        }
        x = x * 256 + bytes[i] as u64;
        i += 1;
    }
    assert(bytes@.take(8) =~= bytes@);
    x
}

proof fn lemma_values_monotone(a: nat, b: nat)
    requires
        a <= b,
    ensures
        values_of(a) <= values_of(b),
    decreases b,
{
    if a < b {
        lemma_values_monotone(a, (b - 1) as nat);
    }
}

/// Whether two byte strings are the same.
pub fn same_bytes(a: &[u8], b: &[u8]) -> (r: bool)
    ensures
        r == (a@ == b@),
{
    if a.len() != b.len() {
        return false;
    }
    let mut i: usize = 0;
    while i < a.len()
        invariant
            i <= a@.len(),
            a@.len() == b@.len(),
            forall|j: int| 0 <= j < i ==> a@[j] == b@[j],
        decreases a@.len() - i,
    {
        if a[i] != b[i] {
            return false;
        }
        i += 1;
    }
    assert(a@ =~= b@);
    true
}

/// Whether two keys are the same.
pub fn same_key(a: &[u8; 32], b: &[u8; 32]) -> (r: bool)
    ensures
        r == (a@ == b@),
        r == (*a == *b),
{
    let mut i: usize = 0;
    while i < 32
        invariant
            i <= 32,
            forall|j: int| 0 <= j < i ==> a@[j] == b@[j],
        decreases 32 - i,
    {
        if a[i] != b[i] {
            return false;
        }
        i += 1;
    }
    assert(a@ =~= b@);
    assert(*a =~= *b);
    true
}

/// Whether two texts are the same.
pub fn same_text(a: &str, b: &str) -> (r: bool)
    ensures
        r == (a@ == b@),
{
    proof {
        vstd::utf8::encode_utf8_decode_utf8(a@);
        vstd::utf8::encode_utf8_decode_utf8(b@);
    }
    same_bytes(a.as_bytes(), b.as_bytes())
}

/// A copy of a byte string.
pub fn copy_bytes(bytes: &[u8]) -> (out: Vec<u8>)
    ensures
        out@ == bytes@,
{
    let mut out: Vec<u8> = Vec::new();
    append_bytes(&mut out, bytes);
    assert(out@ =~= bytes@);
    out
}

/// Appends a byte string.
pub fn append_bytes(out: &mut Vec<u8>, bytes: &[u8])
    ensures
        final(out)@ == old(out)@ + bytes@,
{
    let ghost start = out@;
    let mut i: usize = 0;
    while i < bytes.len()
        invariant
            i <= bytes@.len(),
            out@ =~= start + bytes@.take(i as int),
        decreases bytes@.len() - i,
    {
        out.push(bytes[i]);
        i += 1;
    }
    assert(bytes@.take(bytes@.len() as int) =~= bytes@);
}

/// The 32 bytes at `from`.
pub fn key_at(bytes: &[u8], from: usize) -> (key: [u8; 32])
    requires
        from + 32 <= bytes@.len(),
    ensures
        key@ == bytes@.subrange(from as int, from + 32),
{
    let mut key: [u8; 32] = [0;32];
    let mut i: usize = 0;
    let len: usize = bytes.len();
    while i < 32
        invariant
            i <= 32,
            len == bytes@.len(),
            from + 32 <= len,
            forall|j: int| 0 <= j < i ==> key@[j] == bytes@[from + j],
        decreases 32 - i,
    {
        key[i] = bytes[from + i];
        i += 1;
    }
    assert(key@ =~= bytes@.subrange(from as int, from + 32));
    key
}

/// In one byte order the first byte counts least, in the other the last one does, and the rest are
/// the bytes of what is left of the number.
pub proof fn law_byte_orders(x: nat, n: nat)
    requires
        n > 0,
    ensures
        le_bytes(x, n)[0] == x % 256,
        be_bytes(x, n)[n - 1] == x % 256,
        le_bytes(x, n).drop_first() == le_bytes(x / 256, (n - 1) as nat),
        be_bytes(x, n).drop_last() == be_bytes(x / 256, (n - 1) as nat),
{
    lemma_byte_counts(x, n);
    assert(le_bytes(x, n).drop_first() =~= le_bytes(x / 256, (n - 1) as nat));
    assert(be_bytes(x, n).drop_last() =~= be_bytes(x / 256, (n - 1) as nat));
}

} // verus!
