//! Little-endian, variable-width unsigned integers ("packed" integers).
use vstd::prelude::*;
use crate::byte_source::FakeArrSlice;

verus! {

/// `256` raised to the power `n`.
pub open spec fn pow256(n: nat) -> nat
    decreases n,
{
    if n == 0 {
        1
    } else {
        256 * pow256((n - 1) as nat)
    }
}

/// The value of a little-endian byte string.
pub open spec fn le_value(s: Seq<u8>) -> nat
    decreases s.len(),
{
    if s.len() == 0 {
        0
    } else {
        s[0] as nat + 256 * le_value(s.drop_first())
    }
}

/// The `w` low-order bytes of `v`, least significant first.
pub open spec fn pack_bytes(v: nat, w: nat) -> Seq<u8>
    decreases w,
{
    if w == 0 {
        Seq::empty()
    } else {
        seq![(v % 256) as u8] + pack_bytes(v / 256, (w - 1) as nat)
    }
}

/// The number of bytes `pack_size` chooses for `v`: the fewest, but at least
/// one, in which `v` fits.
pub open spec fn packed_width(v: nat) -> nat {
    if v < pow256(1) {
        1
    } else if v < pow256(2) {
        2
    } else if v < pow256(3) {
        3
    } else if v < pow256(4) {
        4
    } else if v < pow256(5) {
        5
    } else if v < pow256(6) {
        6
    } else if v < pow256(7) {
        7
    } else {
        8
    }
}

pub proof fn lemma_pow256_values()
    ensures
        pow256(0) == 1,
        pow256(1) == 0x100,
        pow256(2) == 0x1_0000,
        pow256(3) == 0x100_0000,
        pow256(4) == 0x1_0000_0000,
        pow256(5) == 0x100_0000_0000,
        pow256(6) == 0x1_0000_0000_0000,
        pow256(7) == 0x100_0000_0000_0000,
        pow256(8) == 0x1_0000_0000_0000_0000,
{
    reveal_with_fuel(pow256, 9);
}

pub proof fn lemma_pow256_positive(n: nat)
    ensures
        pow256(n) > 0,
    decreases n,
{
    if n > 0 {
        lemma_pow256_positive((n - 1) as nat);
    }
}

pub proof fn lemma_pow256_monotone(a: nat, b: nat)
    requires
        a <= b,
    ensures
        pow256(a) <= pow256(b),
    decreases b,
{
    if a < b {
        lemma_pow256_monotone(a, (b - 1) as nat);
    }
}

pub proof fn lemma_pack_bytes_len(v: nat, w: nat)
    ensures
        pack_bytes(v, w).len() == w,
    decreases w,
{
    if w > 0 {
        lemma_pack_bytes_len(v / 256, (w - 1) as nat);
    }
}

/// Packing a value that fits and reading it back gives the value.
pub proof fn lemma_pack_round_trip(v: nat, w: nat)
    requires
        v < pow256(w),
    ensures
        le_value(pack_bytes(v, w)) == v,
        pack_bytes(v, w).len() == w,
    decreases w,
{
    lemma_pack_bytes_len(v, w);
    if w > 0 {
        let rest = pack_bytes(v / 256, (w - 1) as nat);
        assert(v / 256 < pow256((w - 1) as nat)) by (nonlinear_arith)
            requires
                v < 256 * pow256((w - 1) as nat),
        ;
        lemma_pack_round_trip(v / 256, (w - 1) as nat);
        assert(pack_bytes(v, w).drop_first() =~= rest);
    }
}

/// The fewest bytes, at least one, in which `n` can be stored.
pub fn pack_size(n: u64) -> (r: u8)
    ensures
        r as nat == packed_width(n as nat),
        1 <= r <= 8,
        (n as nat) < pow256(r as nat),
{
    proof {
        lemma_pow256_values();
    }
    if n < 0x100 {
        1
    } else if n < 0x1_0000 {
        2
    } else if n < 0x100_0000 {
        3
    } else if n < 0x1_0000_0000 {
        4
    } else if n < 0x100_0000_0000 {
        5
    } else if n < 0x1_0000_0000_0000 {
        6
    } else if n < 0x100_0000_0000_0000 {
        7
    } else {
        8
    }
}

/// Appending one more byte to a packing of `n`: the next byte is the one at
/// position `i`.
pub proof fn lemma_pack_bytes_snoc(n: nat, i: nat)
    ensures
        pack_bytes(n, i + 1) =~= pack_bytes(n, i).push(((n / pow256(i)) % 256) as u8),
    decreases i,
{
    if i > 0 {
        lemma_pack_bytes_snoc(n / 256, (i - 1) as nat);
        lemma_pow256_positive((i - 1) as nat);
        assert(pow256(i) == 256 * pow256((i - 1) as nat));
        vstd::arithmetic::div_mod::lemma_div_denominator(n as int, 256, pow256((i - 1) as nat) as int);
        let x = ((n / pow256(i)) % 256) as u8;
        assert(pack_bytes(n / 256, i) =~= pack_bytes(n / 256, (i - 1) as nat).push(x));
        assert(pack_bytes(n, i + 1) == seq![(n % 256) as u8] + pack_bytes(n / 256, i));
        assert(pack_bytes(n, i) == seq![(n % 256) as u8] + pack_bytes(n / 256, (i - 1) as nat));
    } else {
        assert(pow256(0) == 1);
        assert(pack_bytes(n / 256, 0) =~= Seq::<u8>::empty());
        assert(pack_bytes(n, 0) =~= Seq::<u8>::empty());
    }
}

/// Appends the `nbytes` low-order bytes of `n` to `wtr`, least significant
/// first.
pub fn pack_uint_in(wtr: &mut Vec<u8>, n: u64, nbytes: u8)
    requires
        nbytes <= 8,
    ensures
        final(wtr)@ == old(wtr)@ + pack_bytes(n as nat, nbytes as nat),
{
    let mut v: u64 = n;
    let mut i: u8 = 0;
    proof {
        assert(pack_bytes(n as nat, 0) =~= Seq::<u8>::empty());
        assert(wtr@ =~= old(wtr)@ + pack_bytes(n as nat, 0));
        assert(pow256(0) == 1);
    }
    while i < nbytes
        invariant
            i <= nbytes,
            v as nat == n as nat / pow256(i as nat),
            wtr@ == old(wtr)@ + pack_bytes(n as nat, i as nat),
        decreases nbytes - i,
    {
        proof {
            lemma_pack_bytes_snoc(n as nat, i as nat);
            lemma_pow256_positive(i as nat);
            assert(pow256((i + 1) as nat) == 256 * pow256(i as nat));
            vstd::arithmetic::div_mod::lemma_div_denominator(n as int, pow256(i as nat) as int, 256);
        }
        wtr.push((v % 256) as u8);
        v = v / 256;
        i = i + 1;
        proof {
            assert(wtr@ =~= old(wtr)@ + pack_bytes(n as nat, i as nat));
        }
    }
}

/// Appends `n` in the fewest bytes that hold it (at least one) and returns
/// that number of bytes.
pub fn pack_uint(wtr: &mut Vec<u8>, n: u64) -> (r: u8)
    ensures
        r as nat == packed_width(n as nat),
        final(wtr)@ == old(wtr)@ + pack_bytes(n as nat, r as nat),
{
    let nbytes = pack_size(n);
    pack_uint_in(wtr, n, nbytes);
    nbytes
}

/// The little-endian value of the `nbytes` bytes at `at` in `data`.
pub fn unpack_uint(data: &FakeArrSlice, at: u64, nbytes: u64) -> (r: u64)
    requires
        data.wf(),
        nbytes <= 8,
        at + nbytes <= data@.len(),
    ensures
        r as nat == le_value(data@.subrange(at as int, at + nbytes)),
{
    let mut acc: u64 = 0;
    let mut i: u64 = nbytes;
    proof {
        assert(data@.subrange(at + i, at + nbytes) =~= Seq::<u8>::empty());
        data.lemma_len_fits();
        lemma_pow256_values();
    }
    while i > 0
        invariant
            i <= nbytes <= 8,
            at + nbytes <= data@.len(),
            data@.len() <= u64::MAX,
            data.wf(),
            acc as nat == le_value(data@.subrange(at + i, at + nbytes)),
            acc < pow256((nbytes - i) as nat),
        decreases i,
    {
        let b = data.get_byte(at + i - 1);
        proof {
            let s = data@.subrange(at + i - 1, at + nbytes);
            assert(s.drop_first() =~= data@.subrange(at + i, at + nbytes));
            assert(s[0] == b);
            let p = pow256((nbytes - i) as nat);
            lemma_pow256_monotone((nbytes - i) as nat, 7);
            lemma_pow256_values();
            assert(b + 256 * acc < 256 * p) by (nonlinear_arith)
                requires
                    acc < p,
                    b < 256,
            ;
            assert(pow256((nbytes - i + 1) as nat) == 256 * p);
        }
        acc = acc * 256 + b as u64;
        i = i - 1;
    }
    acc
}

} // verus!
