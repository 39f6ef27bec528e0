//! Byte-level helpers shared by the frame formats: additive checksums,
//! little-endian 16-bit fields and copies of byte ranges.
use vstd::prelude::*;

verus! {

/// Sum of all bytes of `s`, as an unbounded integer.
pub open spec fn byte_sum(s: Seq<u8>) -> nat
    decreases s.len(),
{
    if s.len() == 0 {
        0
    } else {
        byte_sum(s.drop_last()) + s.last() as nat
    }
}

/// The 8-bit additive checksum of `s`: the sum of its bytes modulo 256.
pub open spec fn checksum_spec(s: Seq<u8>) -> u8 {
    (byte_sum(s) % 256) as u8
}

/// The value of a little-endian 16-bit field made of `lo` and `hi`.
pub open spec fn le16(lo: u8, hi: u8) -> int {
    lo as int + 256 * hi as int
}

/// The contents of each vector of `v`.
pub open spec fn byte_views(v: Seq<Vec<u8>>) -> Seq<Seq<u8>> {
    v.map_values(|x: Vec<u8>| x@)
}

/// The bytes a buffer holding `pending` scans after `data` arrives: when the two
/// together would not fit in `capacity` bytes, what was pending is dropped.
pub open spec fn arrive(pending: Seq<u8>, data: Seq<u8>, capacity: nat) -> Seq<u8> {
    if pending.len() + data.len() > capacity {
        data
    } else {
        pending + data
    }
}

/// The low byte of `v`.
pub open spec fn low_byte(v: int) -> u8 {
    (v % 256) as u8
}

/// The second byte of `v`, counted from the least significant one.
pub open spec fn high_byte(v: int) -> u8 {
    ((v / 256) % 256) as u8
}

/// A value below 65536 is given back by its two low bytes read as a
/// little-endian 16-bit field.
pub proof fn lemma_le16_of_bytes(v: int)
    requires
        0 <= v < 65536,
    ensures
        le16(low_byte(v), high_byte(v)) == v,
{
    vstd::arithmetic::div_mod::lemma_fundamental_div_mod(v, 256);
    vstd::arithmetic::div_mod::lemma_small_mod((v / 256) as nat, 256);
}

/// Changing one byte changes the sum of the bytes by the difference.
pub proof fn lemma_byte_sum_update(s: Seq<u8>, k: int, x: u8)
    requires
        0 <= k < s.len(),
    ensures
        byte_sum(s.update(k, x)) == byte_sum(s) - s[k] + x,
    decreases s.len(),
{
    let u = s.update(k, x);
    if k == s.len() - 1 {
        assert(u.drop_last() =~= s.drop_last());
    } else {
        assert(u.drop_last() =~= s.drop_last().update(k, x));
        lemma_byte_sum_update(s.drop_last(), k, x);
    }
}

/// Changing one byte always changes the checksum.
pub proof fn lemma_checksum_update(s: Seq<u8>, k: int, x: u8)
    requires
        0 <= k < s.len(),
        x != s[k],
    ensures
        checksum_spec(s.update(k, x)) != checksum_spec(s),
{
    lemma_byte_sum_update(s, k, x);
    let a = byte_sum(s) as int;
    let b = byte_sum(s.update(k, x)) as int;
    let d = b - a;
    assert(-256 < d < 256 && d != 0);
    vstd::arithmetic::div_mod::lemma_fundamental_div_mod(a, 256);
    vstd::arithmetic::div_mod::lemma_fundamental_div_mod(b, 256);
    vstd::arithmetic::div_mod::lemma_mod_bound(a, 256);
    vstd::arithmetic::div_mod::lemma_mod_bound(b, 256);
    if a % 256 == b % 256 {
        assert(d == 256 * (b / 256 - a / 256));
        assert(false) by (nonlinear_arith)
            requires
                d == 256 * (b / 256 - a / 256),
                -256 < d < 256,
                d != 0,
        ;
    }
}

/// Adding a byte to a running sum taken modulo 256 keeps it equal to the
/// full sum modulo 256.
pub proof fn lemma_checksum_step(s: Seq<u8>, i: int, acc: int)
    requires
        0 <= i < s.len(),
        acc == byte_sum(s.take(i)) % 256,
    ensures
        (acc + s[i]) % 256 == byte_sum(s.take(i + 1)) % 256,
{
    assert(s.take(i + 1).drop_last() =~= s.take(i));
    vstd::arithmetic::div_mod::lemma_add_mod_noop(byte_sum(s.take(i)) as int, s[i] as int, 256);
    vstd::arithmetic::div_mod::lemma_mod_twice(s[i] as int, 256);
}

/// The checksum of `data[from..to]`.
pub fn checksum_of_range(data: &[u8], from: usize, to: usize) -> (cs: u8)
    requires
        from <= to <= data@.len(),
    ensures
        cs == checksum_spec(data@.subrange(from as int, to as int)),
{
    let ghost s = data@.subrange(from as int, to as int);
    let mut acc: u32 = 0;
    let mut i: usize = from;
    while i < to
        invariant
            from <= i <= to <= data@.len(),
            s == data@.subrange(from as int, to as int),
            acc < 256,
            acc == byte_sum(s.take(i - from)) % 256,
        decreases to - i,
    {
        proof {
            lemma_checksum_step(s, i - from, acc as int);
        }
        acc = (acc + data[i] as u32) % 256;
        i = i + 1;
    }
    assert(s.take(to - from) =~= s);
    acc as u8
}

/// A fresh vector holding a copy of `data[from..to]`.
pub fn copy_range(data: &[u8], from: usize, to: usize) -> (out: Vec<u8>)
    requires
        from <= to <= data@.len(),
    ensures
        out@ == data@.subrange(from as int, to as int),
{
    let mut out: Vec<u8> = Vec::with_capacity(to - from);
    let mut i: usize = from;
    while i < to
        invariant
            from <= i <= to <= data@.len(),
            out@ == data@.subrange(from as int, i as int),
        decreases to - i,
    {
        out.push(data[i]);
        i = i + 1;
    }
    out
}

/// Appends all of `data` to `dst`.
pub fn append_bytes(dst: &mut Vec<u8>, data: &[u8])
    ensures
        final(dst)@ == old(dst)@ + data@,
{
    let mut i: usize = 0;
    while i < data.len()
        invariant
            0 <= i <= data@.len(),
            dst@ == old(dst)@ + data@.take(i as int),
        decreases data@.len() - i,
    {
        dst.push(data[i]);
        i = i + 1;
        assert(data@.take(i as int) =~= data@.take(i - 1).push(data@[i - 1]));
    }
    assert(data@.take(data@.len() as int) =~= data@);
}

} // verus!
