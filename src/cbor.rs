use vstd::prelude::*;

use crate::error::ErrorKind;
use crate::writer::BufWriter;

verus! {

/// `256` raised to the power `n`.
pub open spec fn pow256(n: nat) -> nat
    decreases n,
{
    if n == 0 {
        1
    } else {
        256 * pow256((n - 1) as nat)
    }
}

/// The unsigned integer that `s` writes in big-endian byte order.
pub open spec fn be_value(s: Seq<u8>) -> nat
    decreases s.len(),
{
    if s.len() == 0 {
        0
    } else {
        (be_value(s.drop_last()) * 256 + s.last()) as nat
    }
}

/// The `n` low-order bytes of `x`, most significant first.
pub open spec fn be_bytes(x: nat, n: nat) -> Seq<u8>
    decreases n,
{
    if n == 0 {
        Seq::empty()
    } else {
        be_bytes(x / 256, (n - 1) as nat).push((x % 256) as u8)
    }
}

/// The major type of an initial byte.
pub open spec fn major_of(ib: u8) -> u8 {
    ib / 32
}

/// The additional information of an initial byte.
pub open spec fn info_of(ib: u8) -> u8 {
    ib % 32
}

/// How many argument bytes follow an initial byte whose additional information is `info`.
pub open spec fn arg_width(info: u8) -> nat {
    if info == 24 {
        1
    } else if info == 25 {
        2
    } else if info == 26 {
        4
    } else if info == 27 {
        8
    } else {
        0
    }
}

/// The argument of the item header that starts at `pos`, and the position just after it.
///
/// Additional information 31 (indefinite length) yields the argument 0; the caller
/// decides whether it is allowed. The reserved values 28..=30 and a header cut short
/// by the end of input are malformed.
pub open spec fn read_arg(b: Seq<u8>, pos: int) -> Result<(nat, int), ErrorKind> {
    if pos < 0 || pos >= b.len() {
        Err(ErrorKind::InvalidCbor)
    } else {
        let info = info_of(b[pos]);
        if info < 24 {
            Ok((info as nat, pos + 1))
        } else if info < 28 {
            let w = arg_width(info);
            if pos + 1 + w > b.len() {
                Err(ErrorKind::InvalidCbor)
            } else {
                Ok((be_value(b.subrange(pos + 1, pos + 1 + w)), pos + 1 + w))
            }
        } else if info == 31 {
            Ok((0, pos + 1))
        } else {
            Err(ErrorKind::InvalidCbor)
        }
    }
}

/// The shortest item header of major type `major` with argument `arg`.
pub open spec fn enc_head(major: u8, arg: nat) -> Seq<u8> {
    let m = major as nat * 32;
    if arg < 24 {
        seq![(m + arg) as u8]
    } else if arg < 0x100 {
        seq![(m + 24) as u8] + be_bytes(arg, 1)
    } else if arg < 0x10000 {
        seq![(m + 25) as u8] + be_bytes(arg, 2)
    } else if arg < 0x1_0000_0000 {
        seq![(m + 26) as u8] + be_bytes(arg, 4)
    } else {
        seq![(m + 27) as u8] + be_bytes(arg, 8)
    }
}

/// Length-first order on map keys: shorter keys first, equal lengths by bytes.
pub open spec fn key_less(a: Seq<u8>, b: Seq<u8>) -> bool {
    a.len() < b.len() || (a.len() == b.len() && lex_less(a, b))
}

/// Byte-wise lexical order on sequences of one length.
pub open spec fn lex_less(a: Seq<u8>, b: Seq<u8>) -> bool
    decreases a.len(),
{
    if a.len() == 0 || b.len() == 0 {
        false
    } else if a[0] != b[0] {
        a[0] < b[0]
    } else {
        lex_less(a.drop_first(), b.drop_first())
    }
}

/// A binary32 bit pattern that is neither infinite nor NaN.
pub open spec fn f32_finite(bits: u32) -> bool {
    (bits >> 23u32) & 0xffu32 != 0xffu32
}

/// A binary64 bit pattern that is neither infinite nor NaN.
pub open spec fn f64_finite(bits: u64) -> bool {
    (bits >> 52u64) & 0x7ffu64 != 0x7ffu64
}

/// The position of the highest set bit of `m` (0 for 0 and 1).
pub open spec fn top_bit(m: u32) -> nat
    decreases m,
{
    if m <= 1 {
        0
    } else {
        1 + top_bit(m / 2)
    }
}

/// The binary64 bit pattern of the number that a finite binary32 bit pattern denotes.
///
/// Normal numbers move their exponent from bias 127 to bias 1023; subnormal ones
/// are normalised, their leading bit becoming the implicit one.
pub open spec fn widen_f32(bits: u32) -> u64 {
    let sign = ((bits >> 31u32) as u64) << 63u64;
    let e = (bits >> 23u32) & 0xffu32;
    let m = bits & 0x7f_ffffu32;
    if e != 0 {
        sign | (((e + 896u32) as u64) << 52u64) | ((m as u64) << 29u64)
    } else if m == 0 {
        sign
    } else {
        let k = top_bit(m);
        sign | (((k + 874) as u64) << 52u64) | (((m as u64) << ((52 - k) as u64))
            & 0xf_ffff_ffff_ffffu64)
    }
}

pub proof fn lemma_pow256_facts()
    ensures
        pow256(1) == 0x100,
        pow256(2) == 0x10000,
        pow256(4) == 0x1_0000_0000,
        pow256(7) == 0x100_0000_0000_0000,
        pow256(8) == 0x1_0000_0000_0000_0000,
{
    reveal_with_fuel(pow256, 9);
}

pub proof fn lemma_be_value_bound(s: Seq<u8>)
    ensures
        be_value(s) < pow256(s.len()),
    decreases s.len(),
{
    if s.len() > 0 {
        lemma_be_value_bound(s.drop_last());
        let a = be_value(s.drop_last());
        let p = pow256((s.len() - 1) as nat);
        assert(a * 256 + s.last() < 256 * p) by (nonlinear_arith)
            requires
                a < p,
                s.last() < 256,
        ;
    }
}

pub proof fn lemma_be_round_trip(x: nat, n: nat)
    requires
        x < pow256(n),
    ensures
        be_value(be_bytes(x, n)) == x,
        be_bytes(x, n).len() == n,
    decreases n,
{
    if n > 0 {
        let p = pow256((n - 1) as nat);
        assert(x / 256 < p) by (nonlinear_arith)
            requires
                x < 256 * p,
        ;
        lemma_be_round_trip(x / 256, (n - 1) as nat);
        let s = be_bytes(x, n);
        assert(s.drop_last() =~= be_bytes(x / 256, (n - 1) as nat));
        assert((x / 256) * 256 + x % 256 == x) by (nonlinear_arith);
    }
}

/// Reads `n` big-endian bytes at `start`.
pub fn read_be(b: &[u8], start: usize, n: usize) -> (r: u64)
    requires
        n <= 8,
        start + n <= b@.len(),
    ensures
        r as nat == be_value(b@.subrange(start as int, start + n)),
{
    let mut acc: u64 = 0;
    let mut i: usize = start;
    proof {
        lemma_pow256_facts();
    }
    let len = b.len();
    let end = start + n;
    while i < end
        invariant
            end == start + n,
            start <= i <= start + n,
            start + n <= b@.len(),
            n <= 8,
            acc as nat == be_value(b@.subrange(start as int, i as int)),
            pow256(8) == 0x1_0000_0000_0000_0000,
        decreases start + n - i,
    {
        proof {
            let s = b@.subrange(start as int, i as int);
            lemma_be_value_bound(s);
            lemma_pow256_mono((i - start) as nat, 7);
            lemma_pow256_facts();
            assert(b@.subrange(start as int, i + 1).drop_last() =~= s);
        }
        acc = acc * 256 + b[i] as u64;
        i = i + 1;
    }
    acc
}

pub proof fn lemma_pow256_mono(a: nat, b: nat)
    requires
        a <= b,
    ensures
        pow256(a) <= pow256(b),
    decreases b,
{
    if a < b {
        lemma_pow256_mono(a, (b - 1) as nat);
    }
}

/// Appends the `n` low-order bytes of `x`, most significant first.
pub fn push_be(out: &mut BufWriter, x: u64, n: usize)
    ensures
        final(out)@ == old(out)@ + be_bytes(x as nat, n as nat),
    decreases n,
{
    if n > 0 {
        push_be(out, x / 256, n - 1);
        out.push_byte((x % 256) as u8);
    }
}

/// Appends the shortest item header of major type `major` with argument `arg`.
pub fn write_head(out: &mut BufWriter, major: u8, arg: u64)
    requires
        major < 8,
    ensures
        final(out)@ == old(out)@ + enc_head(major, arg as nat),
{
    let m: u8 = major * 32;
    if arg < 24 {
        out.push_byte(m + arg as u8);
    } else if arg < 0x100 {
        out.push_byte(m + 24);
        push_be(out, arg, 1);
    } else if arg < 0x10000 {
        out.push_byte(m + 25);
        push_be(out, arg, 2);
    } else if arg < 0x1_0000_0000 {
        out.push_byte(m + 26);
        push_be(out, arg, 4);
    } else {
        out.push_byte(m + 27);
        push_be(out, arg, 8);
    }
    proof {
        assert(final(out)@ =~= old(out)@ + enc_head(major, arg as nat));
    }
}

pub proof fn lemma_top_bit_mono(m: u32, n: u32)
    requires
        m <= n,
    ensures
        top_bit(m) <= top_bit(n),
    decreases n,
{
    if m > 1 {
        lemma_top_bit_mono(m / 2, n / 2);
    }
}

/// Widening keeps a finite number finite.
pub proof fn lemma_widen_finite(bits: u32)
    requires
        f32_finite(bits),
    ensures
        f64_finite(widen_f32(bits)),
{
    let sign = ((bits >> 31u32) as u64) << 63u64;
    let e = (bits >> 23u32) & 0xffu32;
    let m = bits & 0x7f_ffffu32;
    assert(sign >> 52u64 & 0x7ffu64 == 0) by (bit_vector)
        requires
            sign == ((bits >> 31u32) as u64) << 63u64,
    ;
    if e != 0 {
        let w = sign | (((e + 896u32) as u64) << 52u64) | ((m as u64) << 29u64);
        assert((w >> 52u64) & 0x7ffu64 != 0x7ffu64) by (bit_vector)
            requires
                w == sign | (((e + 896u32) as u64) << 52u64) | ((m as u64) << 29u64),
                sign == ((bits >> 31u32) as u64) << 63u64,
                e == (bits >> 23u32) & 0xffu32,
                e != 0xffu32,
                m == bits & 0x7f_ffffu32,
        ;
    } else if m != 0 {
        assert(m <= 0x7f_ffffu32) by (bit_vector)
            requires
                m == bits & 0x7f_ffffu32,
        ;
        lemma_top_bit_mono(m, 0x7f_ffffu32);
        reveal_with_fuel(top_bit, 24);
        let k = top_bit(m) as u64;
        assert(k <= 22);
        assert(((top_bit(m) + 874) as u64) == ((k + 874u64) as u64));
        assert(((52 - top_bit(m)) as u64) == ((52u64 - k) as u64));
        let w = sign | (((k + 874u64) as u64) << 52u64) | (((m as u64) << ((52u64 - k) as u64)) & 0xf_ffff_ffff_ffffu64);
        assert((w >> 52u64) & 0x7ffu64 != 0x7ffu64) by (bit_vector)
            requires
                w == sign | (((k + 874u64) as u64) << 52u64) | (((m as u64) << ((52u64 - k) as u64)) & 0xf_ffff_ffff_ffffu64),
                sign == ((bits >> 31u32) as u64) << 63u64,
                k <= 22,
        ;
        assert(widen_f32(bits) == w);
    }
}

/// The binary64 bit pattern of a finite binary32 number.
pub fn widen_f32_bits(bits: u32) -> (r: u64)
    ensures
        r == widen_f32(bits),
{
    let sign = ((bits >> 31u32) as u64) << 63u64;
    let e = (bits >> 23u32) & 0xffu32;
    let m = bits & 0x7f_ffffu32;
    if e != 0 {
        assert(e <= 0xff) by (bit_vector)
            requires
                e == (bits >> 23u32) & 0xffu32,
        ;
        sign | (((e + 896u32) as u64) << 52u64) | ((m as u64) << 29u64)
    } else if m == 0 {
        sign
    } else {
        proof {
            assert(m <= 0x7f_ffffu32) by (bit_vector)
                requires
                    m == bits & 0x7f_ffffu32,
            ;
            lemma_top_bit_mono(m, 0x7f_ffffu32);
            reveal_with_fuel(top_bit, 24);
            assert(top_bit(0x7f_ffffu32) == 22);
        }
        let mut k: u32 = 0;
        let mut t: u32 = m;
        while t > 1
            invariant
                top_bit(m) == k + top_bit(t),
                top_bit(m) <= 22,
            decreases t,
        {
            t = t / 2;
            k = k + 1;
        }
        sign | (((k + 874) as u64) << 52u64) | (((m as u64) << ((52 - k) as u64))
            & 0xf_ffff_ffff_ffffu64)
    }
}

/// Whether `a` comes strictly before `b` in length-first key order.
pub fn key_lt(a: &[u8], b: &[u8]) -> (r: bool)
    ensures
        r == key_less(a@, b@),
{
    let n = a.len();
    if n != b.len() {
        return n < b.len();
    }
    let mut i: usize = 0;
    proof {
        assert(a@.subrange(0, n as int) =~= a@);
        assert(b@.subrange(0, n as int) =~= b@);
    }
    while i < n
        invariant
            n == a@.len() == b@.len(),
            i <= n,
            lex_less(a@, b@) == lex_less(a@.subrange(i as int, n as int), b@.subrange(i as int, n as int)),
        decreases n - i,
    {
        proof {
            assert(a@.subrange(i as int, n as int).drop_first() =~= a@.subrange(i + 1, n as int));
            assert(b@.subrange(i as int, n as int).drop_first() =~= b@.subrange(i + 1, n as int));
        }
        if a[i] != b[i] {
            return a[i] < b[i];
        }
        i = i + 1;
    }
    proof {
        assert(a@.subrange(n as int, n as int).len() == 0);
    }
    false
}

} // verus!
