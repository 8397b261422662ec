//! Big-endian numbers and zero-padded fields as sequences of bytes.

use vstd::prelude::*;

verus! {

/// `256` raised to the power `n`.
pub open spec fn pow256(n: nat) -> nat
    decreases n,
{
    if n == 0 {
        1
    } else {
        256 * pow256((n - 1) as nat)
    }
}

/// The number that `bytes` spells in base 256, most significant byte first.
pub open spec fn be_value(bytes: Seq<u8>) -> nat
    decreases bytes.len(),
{
    if bytes.len() == 0 {
        0
    } else {
        be_value(bytes.drop_last()) * 256 + bytes.last() as nat
    }
}

/// The `width` low base-256 digits of `v`, most significant first.
pub open spec fn be_bytes(v: nat, width: nat) -> Seq<u8>
    decreases width,
{
    if width == 0 {
        Seq::empty()
    } else {
        be_bytes(v / 256, (width - 1) as nat).push((v % 256) as u8)
    }
}

/// `n` zero bytes.
pub open spec fn zeros(n: nat) -> Seq<u8> {
    Seq::new(n, |i: int| 0u8)
}

/// `bytes` filled up on the right with zero bytes to `width` bytes.
pub open spec fn pad(bytes: Seq<u8>, width: nat) -> Seq<u8> {
    bytes + zeros((width - bytes.len()) as nat)
}

/// Length of `bytes` without its trailing zero bytes.
pub open spec fn trimmed_len(bytes: Seq<u8>) -> nat
    decreases bytes.len(),
{
    if bytes.len() == 0 {
        0
    } else if bytes.last() != 0u8 {
        bytes.len()
    } else {
        trimmed_len(bytes.drop_last())
    }
}

/// `bytes` without its trailing zero bytes.
pub open spec fn trim(bytes: Seq<u8>) -> Seq<u8> {
    bytes.subrange(0, trimmed_len(bytes) as int)
}

/// `s` with the bytes from `at` on overwritten by `bytes`.
pub open spec fn splice(s: Seq<u8>, at: int, bytes: Seq<u8>) -> Seq<u8> {
    s.subrange(0, at) + bytes + s.subrange(at + bytes.len(), s.len() as int)
}

/// `bytes` neither is longer than `width` nor ends in a zero byte, so that
/// padding it to `width` loses nothing.
pub open spec fn fits_field(bytes: Seq<u8>, width: nat) -> bool {
    &&& bytes.len() <= width
    &&& bytes.len() > 0 ==> bytes.last() != 0u8
}

pub proof fn lemma_pow256_values()
    ensures
        pow256(0) == 1,
        pow256(1) == 0x100,
        pow256(2) == 0x1_0000,
        pow256(3) == 0x100_0000,
        pow256(4) == 0x1_0000_0000,
        pow256(5) == 0x100_0000_0000,
        pow256(6) == 0x1_0000_0000_0000,
        pow256(7) == 0x100_0000_0000_0000,
        pow256(8) == 0x1_0000_0000_0000_0000,
{
    reveal_with_fuel(pow256, 10);
}

pub proof fn lemma_be_bytes_len(v: nat, width: nat)
    ensures
        be_bytes(v, width).len() == width,
    decreases width,
{
    if width > 0 {
        lemma_be_bytes_len(v / 256, (width - 1) as nat);
    }
}

pub proof fn lemma_be_value_bound(bytes: Seq<u8>)
    ensures
        be_value(bytes) < pow256(bytes.len()),
    decreases bytes.len(),
{
    if bytes.len() > 0 {
        lemma_be_value_bound(bytes.drop_last());
    }
}

/// Spelling a number that fits in `width` digits and reading the digits
/// back gives the number.
pub proof fn lemma_be_value_of_bytes(v: nat, width: nat)
    requires
        v < pow256(width),
    ensures
        be_value(be_bytes(v, width)) == v,
    decreases width,
{
    if width > 0 {
        let rest = be_bytes(v / 256, (width - 1) as nat);
        lemma_be_value_of_bytes(v / 256, (width - 1) as nat);
        assert(be_bytes(v, width).drop_last() =~= rest);
    }
}

/// Reading digits and spelling the number again gives the digits.
pub proof fn lemma_be_bytes_of_value(bytes: Seq<u8>)
    ensures
        be_bytes(be_value(bytes), bytes.len()) == bytes,
    decreases bytes.len(),
{
    if bytes.len() > 0 {
        lemma_be_bytes_of_value(bytes.drop_last());
        let v = be_value(bytes);
        assert(v / 256 == be_value(bytes.drop_last()));
        assert(v % 256 == bytes.last() as nat);
        assert(be_bytes(v, bytes.len()) =~= bytes);
    } else {
        assert(be_bytes(be_value(bytes), 0) =~= bytes);
    }
}

pub proof fn lemma_trimmed_len_bound(bytes: Seq<u8>)
    ensures
        trimmed_len(bytes) <= bytes.len(),
        trimmed_len(bytes) > 0 ==> bytes[trimmed_len(bytes) - 1] != 0u8,
        forall|i: int| trimmed_len(bytes) <= i < bytes.len() ==> bytes[i] == 0u8,
    decreases bytes.len(),
{
    if bytes.len() > 0 && bytes.last() == 0u8 {
        let rest = bytes.drop_last();
        lemma_trimmed_len_bound(rest);
        assert forall|i: int| trimmed_len(bytes) <= i < bytes.len() implies bytes[i] == 0u8 by {
            if i < rest.len() {
                assert(rest[i] == 0u8);
            }
        }
    }
}

/// Trailing zero bytes do not change what is left after trimming.
pub proof fn lemma_trimmed_len_of_padded(bytes: Seq<u8>, n: nat)
    requires
        bytes.len() > 0 ==> bytes.last() != 0u8,
    ensures
        trimmed_len(bytes + zeros(n)) == bytes.len(),
    decreases n,
{
    if n == 0 {
        assert(bytes + zeros(0) =~= bytes);
    } else {
        let all = bytes + zeros(n);
        assert(all.last() == 0u8);
        assert(all.drop_last() =~= bytes + zeros((n - 1) as nat));
        lemma_trimmed_len_of_padded(bytes, (n - 1) as nat);
    }
}

/// Padding a field and trimming it again gives the field.
pub proof fn lemma_trim_of_pad(bytes: Seq<u8>, width: nat)
    requires
        fits_field(bytes, width),
    ensures
        pad(bytes, width).len() == width,
        trim(pad(bytes, width)) == bytes,
{
    lemma_trimmed_len_of_padded(bytes, (width - bytes.len()) as nat);
    assert(trim(pad(bytes, width)) =~= bytes);
}

/// What trimming leaves is a field that padding restores.
pub proof fn lemma_pad_of_trim(bytes: Seq<u8>)
    ensures
        fits_field(trim(bytes), bytes.len()),
        pad(trim(bytes), bytes.len()) == bytes,
{
    lemma_trimmed_len_bound(bytes);
    assert(pad(trim(bytes), bytes.len()) =~= bytes);
}

/// The number zero is spelled with zero bytes only.
pub proof fn lemma_be_bytes_of_zero(width: nat)
    ensures
        be_bytes(0, width) == zeros(width),
    decreases width,
{
    if width > 0 {
        lemma_be_bytes_of_zero((width - 1) as nat);
        lemma_be_bytes_len(0, (width - 1) as nat);
    }
    lemma_be_bytes_len(0, width);
    assert(be_bytes(0, width) =~= zeros(width));
}

/// The length of `bytes` without its trailing zero bytes.
pub fn trimmed_length(bytes: &[u8]) -> (n: usize)
    ensures
        n == trimmed_len(bytes@),
{
    let mut n: usize = bytes.len();
    assert(bytes@.subrange(0, n as int) =~= bytes@);
    while n > 0 && bytes[n - 1] == 0
        invariant
            n <= bytes@.len(),
            trimmed_len(bytes@) == trimmed_len(bytes@.subrange(0, n as int)),
        decreases n,
    {
        assert(bytes@.subrange(0, n as int).drop_last() =~= bytes@.subrange(0, n - 1));
        n -= 1;
    }
    n
}

/// Reads the eight bytes from `at` on as a big-endian number.
pub fn read_be(bytes: &[u8], at: usize) -> (v: u64)
    requires
        at + 8 <= bytes@.len(),
    ensures
        v == be_value(bytes@.subrange(at as int, at + 8)),
{
    let b0: u64 = bytes[at] as u64;
    let b1: u64 = bytes[at + 1] as u64;
    let b2: u64 = bytes[at + 2] as u64;
    let b3: u64 = bytes[at + 3] as u64;
    let b4: u64 = bytes[at + 4] as u64;
    let b5: u64 = bytes[at + 5] as u64;
    let b6: u64 = bytes[at + 6] as u64;
    let b7: u64 = bytes[at + 7] as u64;
    let v1: u64 = b0 * 256 + b1;
    let v2: u64 = v1 * 256 + b2;
    let v3: u64 = v2 * 256 + b3;
    let v4: u64 = v3 * 256 + b4;
    let v5: u64 = v4 * 256 + b5;
    let v6: u64 = v5 * 256 + b6;
    let v7: u64 = v6 * 256 + b7;
    proof {
        let s = bytes@.subrange(at as int, at + 8);
        let s7 = s.drop_last();
        let s6 = s7.drop_last();
        let s5 = s6.drop_last();
        let s4 = s5.drop_last();
        let s3 = s4.drop_last();
        let s2 = s3.drop_last();
        let s1 = s2.drop_last();
        assert(be_value(s1.drop_last()) == 0);
        assert(be_value(s1) == b0);
        assert(be_value(s2) == v1);
        assert(be_value(s3) == v2);
        assert(be_value(s4) == v3);
        assert(be_value(s5) == v4);
        assert(be_value(s6) == v5);
        assert(be_value(s7) == v6);
        assert(be_value(s) == v7);
    }
    v7
}

/// Spells `v` as eight big-endian bytes.
pub fn write_be(v: u64) -> (out: [u8; 8])
    ensures
        out@ == be_bytes(v as nat, 8),
{
    let b7: u8 = (v % 256) as u8;
    let v1: u64 = v / 256;
    let b6: u8 = (v1 % 256) as u8;
    let v2: u64 = v1 / 256;
    let b5: u8 = (v2 % 256) as u8;
    let v3: u64 = v2 / 256;
    let b4: u8 = (v3 % 256) as u8;
    let v4: u64 = v3 / 256;
    let b3: u8 = (v4 % 256) as u8;
    let v5: u64 = v4 / 256;
    let b2: u8 = (v5 % 256) as u8;
    let v6: u64 = v5 / 256;
    let b1: u8 = (v6 % 256) as u8;
    let v7: u64 = v6 / 256;
    let b0: u8 = (v7 % 256) as u8;
    let out: [u8; 8] = [b0, b1, b2, b3, b4, b5, b6, b7];
    proof {
        let n = v as nat;
        let e0 = be_bytes(v7 as nat / 256, 0);
        let e1 = be_bytes(v7 as nat, 1);
        let e2 = be_bytes(v6 as nat, 2);
        let e3 = be_bytes(v5 as nat, 3);
        let e4 = be_bytes(v4 as nat, 4);
        let e5 = be_bytes(v3 as nat, 5);
        let e6 = be_bytes(v2 as nat, 6);
        let e7 = be_bytes(v1 as nat, 7);
        let e8 = be_bytes(n, 8);
        assert(e0 =~= Seq::<u8>::empty());
        assert(e1 =~= seq![b0]);
        assert(e2 =~= seq![b0, b1]);
        assert(e3 =~= seq![b0, b1, b2]);
        assert(e4 =~= seq![b0, b1, b2, b3]);
        assert(e5 =~= seq![b0, b1, b2, b3, b4]);
        assert(e6 =~= seq![b0, b1, b2, b3, b4, b5]);
        assert(e7 =~= seq![b0, b1, b2, b3, b4, b5, b6]);
        assert(e8 =~= seq![b0, b1, b2, b3, b4, b5, b6, b7]);
        assert(out@ =~= e8);
    }
    out
}

} // verus!
