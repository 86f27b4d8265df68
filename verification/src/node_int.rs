//! Integers and bit fields read from / written to a fixed range: the choice of
//! Rust type, the shape of the generated conversion code, and what that code
//! computes.
use vstd::prelude::*;
use vstd::arithmetic::div_mod::*;
use vstd::arithmetic::mul::*;
use crate::bvec::BVec;
use crate::error::SchemaError;

verus! {

/// Byte order of a multi-byte value.
#[derive(PartialEq, Eq, Structural, Clone, Copy, Debug)]
pub enum Endian {
    Big,
    Little,
}

/// The Rust integer type holding a value: `i`/`u` and a width in bits.
#[derive(PartialEq, Eq, Structural, Clone, Copy, Debug)]
pub struct IntType {
    pub signed: bool,
    pub rust_bits: usize,
}

/// The conversion the generated code performs between a fixed range buffer and
/// an integer.
#[derive(PartialEq, Eq, Structural, Clone, Copy, Debug)]
pub enum IntCode {
    /// A field inside a single byte: `(buf[byte] >> shift) & mask`.
    Bits { byte: usize, shift: usize, mask: u8 },
    /// Whole bytes `buf[start..start + len]`, widened to `pad_to` bytes when
    /// the Rust type is wider than the field (sign-extended for signed values,
    /// zero-extended otherwise).
    Bytes { start: usize, len: usize, pad_to: Option<usize> },
}

/// `256^n`
pub open spec fn pow256(n: nat) -> nat
    decreases n,
{
    if n == 0 {
        1
    } else {
        256 * pow256((n - 1) as nat)
    }
}

/// `2^n`
pub open spec fn pow2(n: nat) -> nat
    decreases n,
{
    if n == 0 {
        1
    } else {
        2 * pow2((n - 1) as nat)
    }
}

/// The smallest power of two that is at least `n` (1 for 0).
pub open spec fn next_power_of_two(n: nat) -> nat {
    pow2(log2_ceil(n))
}

/// The smallest `k` with `2^k >= n`.
pub open spec fn log2_ceil(n: nat) -> nat
    decreases n,
{
    if n <= 1 {
        0
    } else {
        1 + log2_ceil(((n + 1) / 2) as nat)
    }
}

/// The mask of the low `n` bits of a byte.
pub open spec fn low_mask(n: u16) -> u8 {
    ((1u16 << n) - 1) as u8
}

/// The Rust type chosen for an integer occupying `len`: the next power of two of
/// its bit width, at least 8 bits; `None` when wider than 64 bits.
pub open spec fn spec_int_type(len: BVec, signed: bool) -> Option<IntType> {
    let total = len.total() as nat;
    let p = next_power_of_two(total);
    if p > 64 {
        None
    } else {
        Some(IntType { signed, rust_bits: (if p < 8 { 8 } else { p }) as usize })
    }
}

/// The conversion code for an integer at `start` of length `len`, given the
/// byte width of its Rust type.
pub open spec fn spec_int_code(start: BVec, len: BVec, rust_bytes: usize) -> Result<
    IntCode,
    SchemaError,
> {
    if len.bits >= 8 || start.bits >= 8 {
        Err(SchemaError::ExcessBitsTooLarge)
    } else if len.bytes == 0 {
        if start.bits + len.bits > 8 {
            Err(SchemaError::BitFieldCrossesByte)
        } else {
            Ok(IntCode::Bits { byte: start.bytes, shift: start.bits, mask: low_mask(len.bits as u16) })
        }
    } else if start.bits != 0 {
        Err(SchemaError::IntNotByteAligned)
    } else if len.bits != 0 {
        Err(SchemaError::IntPartialByte)
    } else {
        Ok(
            IntCode::Bytes {
                start: start.bytes,
                len: len.bytes,
                pad_to: if len.bytes != rust_bytes {
                    Some(rust_bytes)
                } else {
                    None
                },
            },
        )
    }
}

// ## What the generated code computes
/// Little-endian value of a byte sequence.
pub open spec fn le_nat(s: Seq<u8>) -> nat
    decreases s.len(),
{
    if s.len() == 0 {
        0
    } else {
        s[0] as nat + 256 * le_nat(s.drop_first())
    }
}

/// The `n` little-endian bytes of `u`, dropping higher bytes.
pub open spec fn le_bytes(u: nat, n: nat) -> Seq<u8>
    decreases n,
{
    if n == 0 {
        Seq::empty()
    } else {
        seq![(u % 256) as u8] + le_bytes(u / 256, (n - 1) as nat)
    }
}

/// Unsigned value of bytes in the given order.
pub open spec fn endian_nat(s: Seq<u8>, endian: Endian) -> nat {
    match endian {
        Endian::Little => le_nat(s),
        Endian::Big => le_nat(s.reverse()),
    }
}

/// Two's complement reading of an `n` byte unsigned value.
pub open spec fn as_signed(u: nat, n: nat) -> int {
    if u >= pow256(n) / 2 {
        u - pow256(n)
    } else {
        u as int
    }
}

/// `from_be_bytes` / `from_le_bytes` of a signed or unsigned Rust integer.
pub open spec fn from_bytes(s: Seq<u8>, endian: Endian, signed: bool) -> int {
    if signed {
        as_signed(endian_nat(s, endian), s.len())
    } else {
        endian_nat(s, endian) as int
    }
}

/// `to_be_bytes` / `to_le_bytes` of a value in an `n` byte Rust integer.
pub open spec fn to_bytes(v: int, n: nat, endian: Endian) -> Seq<u8> {
    let u = (v % (pow256(n) as int)) as nat;
    match endian {
        Endian::Little => le_bytes(u, n),
        Endian::Big => le_bytes(u, n).reverse(),
    }
}

/// `u8::from_ne_bytes` / `i8::from_ne_bytes` of one byte.
pub open spec fn byte_value(b: u8, signed: bool) -> int {
    if signed && b >= 128 {
        b - 256
    } else {
        b as int
    }
}

/// Widens a field of bytes to `width` bytes: sign-extended when `signed`,
/// zero-extended otherwise.
pub open spec fn widen(src: Seq<u8>, width: nat, endian: Endian, signed: bool) -> Seq<u8> {
    let sign_byte = match endian {
        Endian::Big => src[0],
        Endian::Little => src[src.len() - 1],
    };
    let fill: u8 = if signed && sign_byte & 0x80u8 > 0 {
        255
    } else {
        0
    };
    let ext = Seq::new((width - src.len()) as nat, |i: int| fill);
    match endian {
        Endian::Big => ext + src,
        Endian::Little => src + ext,
    }
}

/// The value the generated read code produces from a buffer.
pub open spec fn code_read(code: IntCode, endian: Endian, signed: bool, buf: Seq<u8>) -> int {
    match code {
        IntCode::Bits { byte, shift, mask } => byte_value((buf[byte as int] >> shift) & mask, signed),
        IntCode::Bytes { start, len, pad_to } => {
            let src = buf.subrange(start as int, start + len);
            match pad_to {
                None => from_bytes(src, endian, signed),
                Some(width) => from_bytes(widen(src, width as nat, endian, signed), endian, signed),
            }
        },
    }
}

/// The buffer after the generated write code stores `v` into it.
pub open spec fn code_write(code: IntCode, endian: Endian, buf: Seq<u8>, v: int) -> Seq<u8> {
    match code {
        IntCode::Bits { byte, shift, mask } => {
            let raw = (v % 256) as u8;
            buf.update(byte as int, buf[byte as int] | (((raw & mask) << shift) as u8))
        },
        IntCode::Bytes { start, len, pad_to } => {
            let width: nat = match pad_to {
                None => len as nat,
                Some(w) => w as nat,
            };
            let full = to_bytes(v, width, endian);
            let piece = match pad_to {
                None => full,
                Some(w) => match endian {
                    Endian::Big => full.subrange(w - len, w as int),
                    Endian::Little => full.subrange(0, len as int),
                },
            };
            buf.subrange(0, start as int) + piece + buf.subrange(start + len, buf.len() as int)
        },
    }
}

/// The buffer positions a code reads and writes.
pub open spec fn code_end(code: IntCode) -> int {
    match code {
        IntCode::Bits { byte, .. } => byte + 1,
        IntCode::Bytes { start, len, .. } => start + len,
    }
}

/// The values that survive a write followed by a read.
pub open spec fn representable(code: IntCode, signed: bool, v: int) -> bool {
    match code {
        IntCode::Bits { mask, .. } => if signed && mask == 255 {
            -128 <= v < 128
        } else {
            0 <= v <= mask
        },
        IntCode::Bytes { len, .. } => {
            let half = pow256(len as nat) / 2;
            if signed {
                -half <= v < half
            } else {
                0 <= v < pow256(len as nat)
            }
        },
    }
}

// ## Computation
fn next_power_of_two_bounded(n: usize) -> (out: Option<usize>)
    requires
        n <= 64,
    ensures
        out == Some(next_power_of_two(n as nat) as usize),
        next_power_of_two(n as nat) <= 64,
{
    let mut p: usize = 1;
    let mut k: usize = 0;
    proof {
        lemma_log2_ceil_props(n as nat);
        lemma_pow2_monotone(log2_ceil(n as nat), 6);
        reveal_with_fuel(pow2, 7);
    }
    while p < n
        invariant
            p == pow2(k as nat),
            k <= log2_ceil(n as nat),
            n <= 64,
            log2_ceil(n as nat) <= 6,
            pow2(log2_ceil(n as nat)) >= n,
            pow2(log2_ceil(n as nat)) <= 64,
            forall|j: nat| j < log2_ceil(n as nat) ==> #[trigger] pow2(j) < n,
        decreases log2_ceil(n as nat) - k,
    {
        assert(k < log2_ceil(n as nat)) by {
            if k == log2_ceil(n as nat) {
            }
        }
        proof {
            lemma_pow2_monotone((k + 1) as nat, log2_ceil(n as nat));
        }
        assert(pow2((k + 1) as nat) == 2 * pow2(k as nat));
        p = p * 2;
        k = k + 1;
    }
    assert(k == log2_ceil(n as nat)) by {
        if k < log2_ceil(n as nat) {
            assert(pow2(k as nat) < n);
        }
    }
    Some(p)
}

proof fn lemma_pow2_monotone(a: nat, b: nat)
    requires
        a <= b,
    ensures
        pow2(a) <= pow2(b),
    decreases b,
{
    if a < b {
        lemma_pow2_monotone(a, (b - 1) as nat);
    }
}

/// `log2_ceil` gives the smallest exponent whose power covers `n`.
proof fn lemma_log2_ceil_props(n: nat)
    ensures
        pow2(log2_ceil(n)) >= n,
        forall|j: nat| j < log2_ceil(n) ==> #[trigger] pow2(j) < n,
        n <= 64 ==> log2_ceil(n) <= 6,
    decreases n,
{
    if n <= 1 {
    } else {
        let h = ((n + 1) / 2) as nat;
        lemma_log2_ceil_props(h);
        assert(pow2(log2_ceil(n)) == 2 * pow2(log2_ceil(h)));
        assert forall|j: nat| j < log2_ceil(n) implies #[trigger] pow2(j) < n by {
            if j > 0 {
                assert(pow2((j - 1) as nat) < h);
                assert(pow2(j) == 2 * pow2((j - 1) as nat));
            }
        }
        if n <= 64 {
            assert(h <= 32);
            if h > 1 {
                let h2 = ((h + 1) / 2) as nat;
                assert(h2 <= 16);
            }
            lemma_log2_ceil_small(h);
        }
    }
}

proof fn lemma_log2_ceil_small(h: nat)
    requires
        h <= 32,
    ensures
        log2_ceil(h) <= 5,
    decreases h,
{
    if h > 1 {
        let h2 = ((h + 1) / 2) as nat;
        if h2 <= 16 {
            lemma_log2_ceil_le4(h2);
        }
    }
}

proof fn lemma_log2_ceil_le4(h: nat)
    requires
        h <= 16,
    ensures
        log2_ceil(h) <= 4,
    decreases h,
{
    if h > 1 {
        let h2 = ((h + 1) / 2) as nat;
        lemma_log2_ceil_le3(h2);
    }
}

proof fn lemma_log2_ceil_le3(h: nat)
    requires
        h <= 8,
    ensures
        log2_ceil(h) <= 3,
    decreases h,
{
    reveal_with_fuel(log2_ceil, 5);
}

/// Chooses the Rust type for an integer occupying `len`.
pub fn int_type(len: BVec, signed: bool) -> (out: Result<IntType, SchemaError>)
    ensures
        match spec_int_type(len, signed) {
            Some(t) => out == Ok::<IntType, SchemaError>(t),
            None => out == Err::<IntType, SchemaError>(SchemaError::IntTooWide),
        },
        out matches Ok(t) ==> t.rust_bits % 8 == 0 && 8 <= t.rust_bits <= 64 && t.rust_bits
            >= len.total(),
{
    if len.bytes > 8 || len.bits > 64 {
        proof {
            lemma_log2_ceil_props(len.total() as nat);
            if log2_ceil(len.total() as nat) <= 6 {
                lemma_pow2_monotone(log2_ceil(len.total() as nat), 6);
                reveal_with_fuel(pow2, 7);
            }
            assert(next_power_of_two(len.total() as nat) > 64) by {
                if log2_ceil(len.total() as nat) >= 7 {
                    lemma_pow2_monotone(7, log2_ceil(len.total() as nat));
                    reveal_with_fuel(pow2, 8);
                }
            }
        }
        return Err(SchemaError::IntTooWide);
    }
    let total = len.bytes * 8 + len.bits;
    if total > 64 {
        proof {
            lemma_log2_ceil_props(total as nat);
            if log2_ceil(total as nat) <= 6 {
                lemma_pow2_monotone(log2_ceil(total as nat), 6);
                reveal_with_fuel(pow2, 7);
            }
        }
        return Err(SchemaError::IntTooWide);
    }
    let p = next_power_of_two_bounded(total).unwrap();
    proof {
        lemma_log2_ceil_props(total as nat);
        lemma_pow2_powers_of_two(log2_ceil(total as nat));
    }
    let rust_bits = if p < 8 {
        8
    } else {
        p
    };
    Ok(IntType { signed, rust_bits })
}

/// Powers of two up to 64 that are at least 8 are multiples of 8.
proof fn lemma_pow2_powers_of_two(k: nat)
    requires
        k <= 6,
    ensures
        pow2(k) >= 8 ==> pow2(k) % 8 == 0,
{
    reveal_with_fuel(pow2, 7);
}

/// The mask of the low `n` bits, built one bit at a time.
fn build_mask(n: usize) -> (mask: u8)
    requires
        n <= 8,
    ensures
        mask == low_mask(n as u16),
{
    let mut mask: u8 = 0;
    let mut i: usize = 0;
    assert(((1u16 << 0u16) - 1) as u8 == 0u8) by (bit_vector);
    while i < n
        invariant
            i <= n <= 8,
            mask == low_mask(i as u16),
        decreases n - i,
    {
        let ii = i as u16;
        assert(((((1u16 << ii) - 1) as u8) as u16) * 2 + 1 == (((1u16 << (ii + 1)) - 1) as u8) as u16)
            by (bit_vector)
            requires
                ii < 8,
        ;
        mask = mask * 2 + 1;
        i = i + 1;
    }
    mask
}

/// The conversion code for an integer at `start` of length `len`, whose Rust type
/// is `rust_bytes` wide (the decisions of the generated read and write code).
pub fn int_code(start: BVec, len: BVec, rust_bytes: usize) -> (out: Result<IntCode, SchemaError>)
    ensures
        out == spec_int_code(start, len, rust_bytes),
        out matches Ok(c) ==> (c is Bits ==> code_runs(c)),
{
    if len.bits >= 8 || start.bits >= 8 {
        Err(SchemaError::ExcessBitsTooLarge)
    } else if len.bytes == 0 {
        if start.bits + len.bits > 8 {
            return Err(SchemaError::BitFieldCrossesByte);
        }
        let mask = build_mask(len.bits);
        Ok(IntCode::Bits { byte: start.bytes, shift: start.bits, mask })
    } else if start.bits != 0 {
        Err(SchemaError::IntNotByteAligned)
    } else if len.bits != 0 {
        Err(SchemaError::IntPartialByte)
    } else {
        let pad_to = if len.bytes != rust_bytes {
            Some(rust_bytes)
        } else {
            None
        };
        Ok(IntCode::Bytes { start: start.bytes, len: len.bytes, pad_to })
    }
}

// ## Laws
proof fn lemma_pow256_pos(n: nat)
    ensures
        pow256(n) >= 1,
    decreases n,
{
    if n > 0 {
        lemma_pow256_pos((n - 1) as nat);
    }
}

proof fn lemma_pow256_add(a: nat, b: nat)
    ensures
        pow256(a + b) == pow256(a) * pow256(b),
    decreases a,
{
    if a > 0 {
        let a1 = (a - 1) as nat;
        lemma_pow256_add(a1, b);
        assert((a + b - 1) as nat == a1 + b);
        assert(pow256(a + b) == 256 * pow256(a1 + b));
        assert(pow256(a) == 256 * pow256(a1));
        let x = pow256(a1) as int;
        let y = pow256(b) as int;
        assert(256 * (x * y) == (256 * x) * y) by (nonlinear_arith);
    } else {
        assert(pow256(a) == 1);
        assert(a + b == b);
    }
}

proof fn lemma_le_bytes_len(u: nat, n: nat)
    ensures
        le_bytes(u, n).len() == n,
    decreases n,
{
    if n > 0 {
        lemma_le_bytes_len(u / 256, (n - 1) as nat);
    }
}

/// Reading the bytes of `u` gives `u` modulo the width.
proof fn lemma_le_nat_le_bytes(u: nat, n: nat)
    ensures
        le_nat(le_bytes(u, n)) == u % pow256(n),
    decreases n,
{
    lemma_le_bytes_len(u, n);
    if n == 0 {
    } else {
        let rest = le_bytes(u / 256, (n - 1) as nat);
        lemma_le_nat_le_bytes(u / 256, (n - 1) as nat);
        assert(le_bytes(u, n).drop_first() =~= rest);
        lemma_pow256_pos((n - 1) as nat);
        lemma_mod_breakdown(u as int, 256, pow256((n - 1) as nat) as int);
    }
}

/// A shorter byte string of `u` is a prefix of a longer one.
proof fn lemma_le_bytes_take(u: nat, m: nat, n: nat)
    requires
        n <= m,
    ensures
        le_bytes(u, m).take(n as int) =~= le_bytes(u, n),
    decreases n,
{
    lemma_le_bytes_len(u, m);
    lemma_le_bytes_len(u, n);
    if n > 0 {
        lemma_le_bytes_take(u / 256, (m - 1) as nat, (n - 1) as nat);
        lemma_le_bytes_len(u / 256, (m - 1) as nat);
        assert forall|i: int| 0 <= i < n implies le_bytes(u, m)[i] == le_bytes(u, n)[i] by {
            if i > 0 {
                assert(le_bytes(u, m)[i] == le_bytes(u / 256, (m - 1) as nat)[i - 1]);
                assert(le_bytes(u, n)[i] == le_bytes(u / 256, (n - 1) as nat)[i - 1]);
            }
        }
    }
}

/// The value of a concatenation.
proof fn lemma_le_nat_append(a: Seq<u8>, b: Seq<u8>)
    ensures
        le_nat(a + b) == le_nat(a) + pow256(a.len()) * le_nat(b),
    decreases a.len(),
{
    if a.len() == 0 {
        assert(a + b =~= b);
    } else {
        lemma_le_nat_append(a.drop_first(), b);
        assert((a + b).drop_first() =~= a.drop_first() + b);
        assert(pow256(a.len()) == 256 * pow256(a.drop_first().len()));
        lemma_mul_is_associative(256, pow256(a.drop_first().len()) as int, le_nat(b) as int);
        lemma_mul_is_distributive_add(
            256,
            le_nat(a.drop_first()) as int,
            (pow256(a.drop_first().len()) * le_nat(b)) as int,
        );
    }
}

/// The value of `k` equal fill bytes.
proof fn lemma_le_nat_fill(k: nat, f: u8)
    requires
        f == 0 || f == 255,
    ensures
        le_nat(Seq::new(k, |i: int| f)) == (if f == 0 {
            0
        } else {
            pow256(k) - 1
        }),
    decreases k,
{
    let s = Seq::new(k, |i: int| f);
    if k > 0 {
        lemma_le_nat_fill((k - 1) as nat, f);
        assert(s.drop_first() =~= Seq::new((k - 1) as nat, |i: int| f));
        lemma_pow256_pos((k - 1) as nat);
    }
}

/// The highest of the `n` bytes of `u` is `u / 256^(n-1)`.
proof fn lemma_le_bytes_top(u: nat, n: nat)
    requires
        n >= 1,
        u < pow256(n),
    ensures
        le_bytes(u, n)[n - 1] as nat == u / pow256((n - 1) as nat),
    decreases n,
{
    lemma_le_bytes_len(u, n);
    if n == 1 {
        assert(pow256(1) == 256) by {
            reveal_with_fuel(pow256, 2);
        }
        assert(pow256(0) == 1);
        lemma_small_mod(u, 256);
        assert(le_bytes(u, 1)[0] == (u % 256) as u8);
    } else {
        let n1 = (n - 1) as nat;
        let n2 = (n - 2) as nat;
        let p2 = pow256(n2);
        let p1 = pow256(n1);
        lemma_pow256_pos(n2);
        assert(p1 == 256 * p2);
        assert(pow256(n) == 256 * p1);
        lemma_div_denominator(u as int, 256, p2 as int);
        let q = u / 256;
        assert(q < p1) by {
            lemma_fundamental_div_mod(u as int, 256);
            lemma_mod_bound(u as int, 256);
            if q >= p1 {
                lemma_mul_inequality(p1 as int, q as int, 256);
            }
        }
        lemma_le_bytes_top(q, n1);
        lemma_le_bytes_len(q, n1);
        assert(le_bytes(u, n)[n - 1] == le_bytes(q, n1)[n - 2]);
    }
}

proof fn lemma_reverse_reverse(s: Seq<u8>)
    ensures
        s.reverse().reverse() =~= s,
{
    assert(s.reverse().len() == s.len());
}

proof fn lemma_reverse_append(a: Seq<u8>, b: Seq<u8>)
    ensures
        (a + b).reverse() =~= b.reverse() + a.reverse(),
{
}

proof fn lemma_reverse_suffix(s: Seq<u8>, n: int)
    requires
        0 <= n <= s.len(),
    ensures
        s.reverse().subrange(s.len() - n, s.len() as int) =~= s.take(n).reverse(),
{
}

/// The top bit of the highest byte is set exactly when the value is in the upper
/// half of its range.
proof fn lemma_sign_byte(u: nat, n: nat)
    requires
        n >= 1,
        u < pow256(n),
    ensures
        (le_bytes(u, n)[n - 1] & 0x80u8 > 0) <==> u >= pow256(n) / 2,
{
    lemma_le_bytes_top(u, n);
    let b = le_bytes(u, n)[n - 1];
    let p = pow256((n - 1) as nat);
    lemma_pow256_pos((n - 1) as nat);
    assert(pow256(n) == 256 * p);
    assert(pow256(n) / 2 == 128 * p) by {
        lemma_div_multiples_vanish_fancy((128 * p) as int, 0, 2);
    }
    assert((b & 0x80u8 > 0) <==> b >= 128) by (bit_vector);
    if u >= 128 * p {
        lemma_div_is_ordered((128 * p) as int, u as int, p as int);
        lemma_div_multiples_vanish(128, p as int);
    } else {
        lemma_fundamental_div_mod(u as int, p as int);
        lemma_mod_pos_bound(u as int, p as int);
        if u / p >= 128 {
            lemma_mul_inequality(128, (u / p) as int, p as int);
            lemma_mul_is_commutative(p as int, (u / p) as int);
        }
    }
}

/// Interpreting the widened low bytes of `v` gives `v`.
#[verifier::rlimit(50)]
#[verifier::spinoff_prover]
proof fn lemma_bytes_roundtrip_padded(v: int, n: nat, w: nat, endian: Endian, signed: bool)
    requires
        1 <= n < w,
        if signed {
            -(pow256(n) / 2) <= v < pow256(n) / 2
        } else {
            0 <= v < pow256(n)
        },
    ensures
        ({
            let full = to_bytes(v, w, endian);
            let piece = match endian {
                Endian::Big => full.subrange(w - n, w as int),
                Endian::Little => full.subrange(0, n as int),
            };
            from_bytes(widen(piece, w, endian, signed), endian, signed) == v
        }),
{
    let pn = pow256(n);
    let pw = pow256(w);
    lemma_pow256_pos(n);
    lemma_pow256_add(n, (w - n) as nat);
    lemma_pow256_pos((w - n) as nat);
    assert(pw == pn * pow256((w - n) as nat));
    assert(pn >= 256) by {
        lemma_pow256_pos((n - 1) as nat);
    }
    assert(pow256((w - n) as nat) >= 256) by {
        lemma_pow256_pos((w - n - 1) as nat);
    }
    assert(pn * 2 <= pw) by {
        lemma_mul_inequality(2, pow256((w - n) as nat) as int, pn as int);
        lemma_mul_is_commutative(pn as int, pow256((w - n) as nat) as int);
    }
    let uw = (v % (pw as int)) as nat;
    let un = (v % (pn as int)) as nat;
    lemma_mod_mod(v, pn as int, pow256((w - n) as nat) as int);
    lemma_mod_bound(v, pn as int);
    lemma_mod_bound(v, pw as int);
    lemma_le_bytes_len(uw, w);
    lemma_le_bytes_take(uw, w, n);
    lemma_le_bytes_len(uw, n);
    let low = le_bytes(uw, n);
    lemma_le_nat_le_bytes(uw, n);
    assert(le_nat(low) == un);
    let full = to_bytes(v, w, endian);
    let piece = match endian {
        Endian::Big => full.subrange(w - n, w as int),
        Endian::Little => full.subrange(0, n as int),
    };
    // The piece holds the low bytes of `v`, in the requested order.
    let sign_byte = match endian {
        Endian::Big => piece[0],
        Endian::Little => piece[piece.len() - 1],
    };
    match endian {
        Endian::Little => {
            assert(piece =~= low);
        },
        Endian::Big => {
            lemma_reverse_suffix(le_bytes(uw, w), n as int);
            assert(piece =~= low.reverse());
            assert(piece[0] == low[n - 1]);
        },
    }
    assert(sign_byte == low[n - 1]);
    // Note `un` is `v` wrapped into `n` bytes
    if v >= 0 {
        lemma_small_mod(v as nat, pn);
        assert(un == v);
    } else {
        lemma_mod_add_multiples_vanish(v, pn as int);
        lemma_small_mod((v + pn) as nat, pn);
        assert(un == v + pn);
    }
    assert(un < pn);
    lemma_sign_byte(uw % pn, n);
    lemma_mod_mod(uw as int, pn as int, pow256((w - n) as nat) as int);
    assert(low =~= le_bytes(uw, n));
    assert((sign_byte & 0x80u8 > 0) <==> un >= pn / 2) by {
        lemma_sign_byte(un, n);
        lemma_le_bytes_mod(uw, n);
    }
    let fill: u8 = if signed && sign_byte & 0x80u8 > 0 {
        255
    } else {
        0
    };
    let ext = Seq::new((w - n) as nat, |i: int| fill);
    lemma_le_nat_fill((w - n) as nat, fill);
    let ext_val: int = if fill == 0 {
        0
    } else {
        pow256((w - n) as nat) - 1
    };
    // The little-endian reading of the extended bytes.
    let ext_le = low + ext;
    lemma_le_nat_append(low, ext);
    assert(le_nat(ext_le) == un + pn * ext_val);
    let temp = widen(piece, w, endian, signed);
    assert(endian_nat(temp, endian) == le_nat(ext_le)) by {
        match endian {
            Endian::Little => {
                assert(temp =~= ext_le);
            },
            Endian::Big => {
                assert(temp =~= ext + piece);
                lemma_reverse_append(ext, piece);
                lemma_reverse_reverse(low);
                assert(ext.reverse() =~= ext);
                assert(temp.reverse() =~= ext_le);
            },
        }
    }
    assert(temp.len() == w);
    if fill == 0 {
        assert(le_nat(ext_le) == un);
        assert(un == v);
        assert(pn / 2 <= pw / 2);
    } else {
        assert(un == v + pn);
        assert(signed);
        lemma_mul_is_distributive_sub(pn as int, pow256((w - n) as nat) as int, 1);
        assert(le_nat(ext_le) == v + pw);
        assert(v + pw >= pw / 2);
    }
}

/// `le_bytes` only depends on `u` modulo the width.
proof fn lemma_le_bytes_mod(u: nat, n: nat)
    ensures
        le_bytes(u, n) =~= le_bytes(u % pow256(n), n),
    decreases n,
{
    lemma_le_bytes_len(u, n);
    lemma_le_bytes_len(u % pow256(n), n);
    if n > 0 {
        let p = pow256((n - 1) as nat);
        lemma_pow256_pos((n - 1) as nat);
        let m = u % pow256(n);
        lemma_mod_breakdown(u as int, 256, p as int);
        lemma_mod_bound(u as int, 256);
        assert(m == 256 * ((u / 256) % p) + u % 256);
        assert(m % 256 == u % 256) by {
            lemma_mod_multiples_vanish(((u / 256) % p) as int, (u % 256) as int, 256);
            lemma_small_mod(u % 256, 256);
        }
        assert(m / 256 == (u / 256) % p) by {
            lemma_div_multiples_vanish_fancy(((u / 256) % p) as int, (u % 256) as int, 256);
        }
        lemma_le_bytes_mod(u / 256, (n - 1) as nat);
        assert(le_bytes(u, n) =~= seq![(u % 256) as u8] + le_bytes(u / 256, (n - 1) as nat));
        assert(le_bytes(m, n) =~= seq![(m % 256) as u8] + le_bytes(m / 256, (n - 1) as nat));
    }
}

proof fn lemma_bits_roundtrip(code: IntCode, l: u16, endian: Endian, signed: bool, buf: Seq<u8>, v: int)
    requires
        code is Bits,
        l <= 8,
        code->shift + l <= 8,
        code->mask == low_mask(l),
        code_end(code) <= buf.len(),
        (buf[code->byte as int] >> code->shift) & code->mask == 0,
        representable(code, signed, v),
    ensures
        code_read(code, endian, signed, code_write(code, endian, buf, v)) == v,
{
    let b = buf[code->byte as int];
    let sh = code->shift;
    let m = code->mask;
    let raw = (v % 256) as u8;
    let nb = b | (((raw & m) << sh) as u8);
    assert((nb >> sh) & m == (raw & m)) by (bit_vector)
        requires
            m == ((1u16 << l) - 1) as u8,
            l <= 8,
            sh + l <= 8,
            (b >> sh) & m == 0,
            nb == b | (((raw & m) << sh) as u8),
    ;
    assert(m != 255 ==> m < 128) by (bit_vector)
        requires
            m == ((1u16 << l) - 1) as u8,
            l <= 8,
    ;
    assert(code_write(code, endian, buf, v)[code->byte as int] == nb);
    if signed && m == 255 {
        assert(raw & m == raw) by (bit_vector)
            requires
                m == 255u8,
        ;
        if v < 0 {
            lemma_mod_add_multiples_vanish(v, 256);
            lemma_small_mod((v + 256) as nat, 256);
        } else {
            lemma_small_mod(v as nat, 256);
        }
    } else {
        lemma_small_mod(v as nat, 256);
        assert(raw as int == v);
        assert(raw <= m ==> raw & m == raw) by (bit_vector)
            requires
                m == ((1u16 << l) - 1) as u8,
                l <= 8,
        ;
    }
}

/// Storing an integer in a field the schema accepts and reading it back gives
/// the value: for bit fields whose bits were clear and values within the mask (or
/// any byte value for a signed full byte), and for multi-byte fields every value
/// of the field's width, signed or unsigned.
pub proof fn lemma_int_roundtrip(
    start: BVec,
    len: BVec,
    signed: bool,
    endian: Endian,
    buf: Seq<u8>,
    v: int,
)
    requires
        len.bits <= 8,
        spec_int_type(len, signed) is Some,
        spec_int_code(start, len, (spec_int_type(len, signed)->0.rust_bits / 8) as usize) is Ok,
        ({
            let code = spec_int_code(start, len, (spec_int_type(len, signed)->0.rust_bits / 8) as usize)->Ok_0;
            &&& code_end(code) <= buf.len()
            &&& code is Bits ==> (buf[code->byte as int] >> code->shift) & code->mask == 0
            &&& representable(code, signed, v)
        }),
    ensures
        ({
            let code = spec_int_code(start, len, (spec_int_type(len, signed)->0.rust_bits / 8) as usize)->Ok_0;
            code_read(code, endian, signed, code_write(code, endian, buf, v)) == v
        }),
{
    let t = spec_int_type(len, signed)->0;
    let rb = (t.rust_bits / 8) as usize;
    let code = spec_int_code(start, len, rb)->Ok_0;
    if len.bytes == 0 {
        lemma_bits_roundtrip(code, len.bits as u16, endian, signed, buf, v);
    } else {
        lemma_log2_ceil_props(len.total() as nat);
        let p = next_power_of_two(len.total() as nat);
        assert(t.rust_bits >= len.total());
        assert(rb * 8 >= len.bytes * 8) by {
            assert(t.rust_bits % 8 == 0 || t.rust_bits == 8) by {
                lemma_pow2_powers_of_two_any(len.total() as nat);
            }
        }
        lemma_bytes_roundtrip(code, endian, signed, buf, v);
    }
}

/// The Rust width chosen for a field of at most 64 bits is a multiple of 8.
proof fn lemma_pow2_powers_of_two_any(total: nat)
    requires
        next_power_of_two(total) <= 64,
    ensures
        next_power_of_two(total) < 8 || next_power_of_two(total) % 8 == 0,
{
    lemma_log2_ceil_props(total);
    if log2_ceil(total) > 6 {
        lemma_pow2_monotone(7, log2_ceil(total));
        reveal_with_fuel(pow2, 8);
    }
    lemma_pow2_powers_of_two(log2_ceil(total));
}

proof fn lemma_bits_isolated(s1: u8, l1: u16, s2: u8, l2: u16, b: u8, raw: u8)
    requires
        l1 <= 8,
        l2 <= 8,
        s1 + l1 <= 8,
        s2 + l2 <= 8,
        s1 + l1 <= s2 || s2 + l2 <= s1,
    ensures
        ((b | (((raw & low_mask(l1)) << s1) as u8)) >> s2) & low_mask(l2) == (b >> s2) & low_mask(l2),
{
    let m1 = low_mask(l1);
    let m2 = low_mask(l2);
    assert(((b | (((raw & m1) << s1) as u8)) >> s2) & m2 == (b >> s2) & m2) by (bit_vector)
        requires
            m1 == ((1u16 << l1) - 1) as u8,
            m2 == ((1u16 << l2) - 1) as u8,
            l1 <= 8,
            l2 <= 8,
            s1 + l1 <= 8,
            s2 + l2 <= 8,
            s1 + l1 <= s2 || s2 + l2 <= s1,
    ;
}

/// An empty bit field write changes nothing and an empty bit field reads zero.
proof fn lemma_bits_empty(b: u8, raw: u8, s: u8)
    requires
        s <= 8,
    ensures
        b | (((raw & low_mask(0)) << s) as u8) == b,
        (b >> s) & low_mask(0) == 0,
{
    let m = low_mask(0);
    assert(b | (((raw & m) << s) as u8) == b && (b >> s) & m == 0) by (bit_vector)
        requires
            m == ((1u16 << 0u16) - 1) as u8,
            s <= 8,
    ;
}

/// Writing one integer field leaves what any other field reads unchanged, when
/// the two occupy disjoint bits.
pub proof fn lemma_int_write_isolated(
    start1: BVec,
    len1: BVec,
    rust_bytes1: usize,
    start2: BVec,
    len2: BVec,
    rust_bytes2: usize,
    endian: Endian,
    signed2: bool,
    buf: Seq<u8>,
    v: int,
)
    requires
        len1.bits <= 8,
        len2.bits <= 8,
        start1.bits < 8,
        start2.bits < 8,
        spec_int_code(start1, len1, rust_bytes1) is Ok,
        spec_int_code(start2, len2, rust_bytes2) is Ok,
        spec_int_code(start1, len1, rust_bytes1)->Ok_0 matches IntCode::Bytes { pad_to, len, .. } ==> (
        pad_to matches Some(w) ==> w >= len),
        code_end(spec_int_code(start1, len1, rust_bytes1)->Ok_0) <= buf.len(),
        code_end(spec_int_code(start2, len2, rust_bytes2)->Ok_0) <= buf.len(),
        start1.total() + len1.total() <= start2.total() || start2.total() + len2.total()
            <= start1.total(),
    ensures
        ({
            let c1 = spec_int_code(start1, len1, rust_bytes1)->Ok_0;
            let c2 = spec_int_code(start2, len2, rust_bytes2)->Ok_0;
            code_read(c2, endian, signed2, code_write(c1, endian, buf, v)) == code_read(
                c2,
                endian,
                signed2,
                buf,
            )
        }),
{
    let c1 = spec_int_code(start1, len1, rust_bytes1)->Ok_0;
    let c2 = spec_int_code(start2, len2, rust_bytes2)->Ok_0;
    let out = code_write(c1, endian, buf, v);
    let raw = (v % 256) as u8;
    match c1 {
        IntCode::Bits { byte: b1, shift: sh1, mask: m1 } => {
            let l1 = len1.bits as u16;
            if l1 == 0 {
                lemma_bits_empty(buf[b1 as int], raw, sh1 as u8);
                assert(out =~= buf);
            } else {
                match c2 {
                    IntCode::Bits { byte: b2, shift: sh2, mask: m2 } => {
                        if b1 == b2 {
                            lemma_bits_isolated(sh1 as u8, l1, sh2 as u8, len2.bits as u16, buf[b1 as int], raw);
                        }
                    },
                    IntCode::Bytes { start: s2, len: n2, .. } => {
                        assert(b1 < s2 || b1 >= s2 + n2);
                        assert(out.subrange(s2 as int, s2 + n2) =~= buf.subrange(s2 as int, s2 + n2));
                    },
                }
            }
        },
        IntCode::Bytes { start: s1, len: n1, pad_to } => {
            lemma_bytes_write_len(c1, endian, buf, v);
            assert forall|i: int| 0 <= i < buf.len() && (i < s1 || i >= s1 + n1) implies out[i] == buf[i] by {
                lemma_bytes_write_local(c1, endian, buf, v, i);
            }
            match c2 {
                IntCode::Bits { byte: b2, shift: sh2, mask: m2 } => {
                    if len2.bits == 0 {
                        lemma_bits_empty(out[b2 as int], 0, sh2 as u8);
                        lemma_bits_empty(buf[b2 as int], 0, sh2 as u8);
                    } else {
                        assert(b2 < s1 || b2 >= s1 + n1);
                    }
                },
                IntCode::Bytes { start: s2, len: n2, .. } => {
                    assert(out.subrange(s2 as int, s2 + n2) =~= buf.subrange(s2 as int, s2 + n2));
                },
            }
        },
    }
}

proof fn lemma_bytes_write_len(code: IntCode, endian: Endian, buf: Seq<u8>, v: int)
    requires
        code is Bytes,
        code->pad_to matches Some(w) ==> w >= code->len,
        code_end(code) <= buf.len(),
    ensures
        code_write(code, endian, buf, v).len() == buf.len(),
{
    let n = code->len as nat;
    let width: nat = match code->pad_to {
        None => n,
        Some(w) => w as nat,
    };
    let u = (v % (pow256(width) as int)) as nat;
    lemma_pow256_pos(width);
    lemma_mod_bound(v, pow256(width) as int);
    lemma_le_bytes_len(u, width);
}

/// Storing a multi-byte integer and reading it back gives the value, for every
/// value that fits the field.
pub proof fn lemma_bytes_roundtrip(code: IntCode, endian: Endian, signed: bool, buf: Seq<u8>, v: int)
    requires
        code is Bytes,
        code->len >= 1,
        code->pad_to matches Some(w) ==> w > code->len,
        code_end(code) <= buf.len(),
        representable(code, signed, v),
    ensures
        code_read(code, endian, signed, code_write(code, endian, buf, v)) == v,
        code_write(code, endian, buf, v).len() == buf.len(),
{
    let start = code->start as int;
    let n = code->len as nat;
    let out = code_write(code, endian, buf, v);
    lemma_pow256_pos(n);
    match code->pad_to {
        None => {
            let full = to_bytes(v, n, endian);
            let u = (v % (pow256(n) as int)) as nat;
            lemma_mod_bound(v, pow256(n) as int);
            lemma_le_bytes_len(u, n);
            assert(full.len() == n);
            assert(out.subrange(start, start + n) =~= full);
            lemma_le_nat_le_bytes(u, n);
            lemma_small_mod(u, pow256(n));
            assert(endian_nat(full, endian) == u) by {
                if endian == Endian::Big {
                    lemma_reverse_reverse(le_bytes(u, n));
                }
            }
            if v >= 0 {
                lemma_small_mod(v as nat, pow256(n));
            } else {
                lemma_mod_add_multiples_vanish(v, pow256(n) as int);
                lemma_small_mod((v + pow256(n)) as nat, pow256(n));
            }
        },
        Some(w) => {
            let full = to_bytes(v, w as nat, endian);
            let u = (v % (pow256(w as nat) as int)) as nat;
            lemma_pow256_pos(w as nat);
            lemma_mod_bound(v, pow256(w as nat) as int);
            lemma_le_bytes_len(u, w as nat);
            let piece = match endian {
                Endian::Big => full.subrange(w - n, w as int),
                Endian::Little => full.subrange(0, n as int),
            };
            assert(out.subrange(start, start + n) =~= piece);
            lemma_bytes_roundtrip_padded(v, n, w as nat, endian, signed);
        },
    }
}

/// A multi-byte integer write changes only the bytes of its own field.
pub proof fn lemma_bytes_write_local(code: IntCode, endian: Endian, buf: Seq<u8>, v: int, i: int)
    requires
        code is Bytes,
        code->pad_to matches Some(w) ==> w >= code->len,
        code_end(code) <= buf.len(),
        0 <= i < buf.len(),
        i < code->start || i >= code_end(code),
    ensures
        code_write(code, endian, buf, v).len() == buf.len(),
        code_write(code, endian, buf, v)[i] == buf[i],
{
    let n = code->len as nat;
    let width: nat = match code->pad_to {
        None => n,
        Some(w) => w as nat,
    };
    let u = (v % (pow256(width) as int)) as nat;
    lemma_pow256_pos(width);
    lemma_mod_bound(v, pow256(width) as int);
    lemma_le_bytes_len(u, width);
}


// ## Running the conversions
/// The codes the conversion functions run: a bit field inside one byte, or one to
/// eight whole bytes, widened to at most eight.
pub open spec fn code_runs(code: IntCode) -> bool {
    match code {
        IntCode::Bits { shift, .. } => shift < 8,
        IntCode::Bytes { len, pad_to, .. } => 1 <= len <= 8 && (pad_to matches Some(w) ==> len
            < w <= 8),
    }
}

proof fn lemma_pow256_monotone(a: nat, b: nat)
    requires
        a <= b,
    ensures
        pow256(a) <= pow256(b),
    decreases b,
{
    if a < b {
        lemma_pow256_monotone(a, (b - 1) as nat);
    }
}

proof fn lemma_pow256_eight()
    ensures
        pow256(8) == 0x1_0000_0000_0000_0000,
{
    reveal_with_fuel(pow256, 9);
}

/// `256^n`.
fn pow256_exec(n: usize) -> (p: u128)
    requires
        n <= 8,
    ensures
        p == pow256(n as nat),
        1 <= p <= 0x1_0000_0000_0000_0000,
{
    let mut p: u128 = 1;
    let mut i: usize = 0;
    proof {
        lemma_pow256_eight();
    }
    while i < n
        invariant
            i <= n <= 8,
            p == pow256(i as nat),
            pow256(8) == 0x1_0000_0000_0000_0000,
        decreases n - i,
    {
        proof {
            lemma_pow256_monotone((i + 1) as nat, 8);
        }
        p = p * 256;
        i = i + 1;
    }
    proof {
        lemma_pow256_pos(n as nat);
        lemma_pow256_monotone(n as nat, 8);
    }
    p
}

/// The little-endian value of at most eight bytes.
fn le_value(s: &Vec<u8>) -> (u: u128)
    requires
        s.len() <= 8,
    ensures
        u == le_nat(s@),
        u < pow256(s.len() as nat),
{
    let n = s.len();
    let mut acc: u128 = 0;
    let mut k: usize = n;
    proof {
        lemma_pow256_eight();
    }
    while k > 0
        invariant
            k <= n == s.len() <= 8,
            acc == le_nat(s@.subrange(k as int, n as int)),
            acc < pow256((n - k) as nat),
            pow256(8) == 0x1_0000_0000_0000_0000,
        decreases k,
    {
        k = k - 1;
        assert(s@.subrange(k as int, n as int).drop_first() =~= s@.subrange(k + 1, n as int));
        proof {
            lemma_pow256_monotone((n - k - 1) as nat, 8);
        }
        assert(pow256((n - k) as nat) == 256 * pow256((n - k - 1) as nat));
        acc = s[k] as u128 + 256 * acc;
    }
    assert(s@.subrange(0, n as int) =~= s@);
    acc
}

/// `v` modulo `m`, rounding toward negative infinity.
fn floor_mod(v: i128, m: u128) -> (r: u128)
    requires
        1 <= m <= 0x1_0000_0000_0000_0000,
        -0x1_0000_0000_0000_0000 <= v <= 0x1_0000_0000_0000_0000,
    ensures
        r as int == (v as int) % (m as int),
        r < m,
{
    if v >= 0 {
        let r = (v as u128) % m;
        r
    } else {
        let a = (-v) as u128;
        let r = a % m;
        let q = a / m;
        proof {
            lemma_fundamental_div_mod(a as int, m as int);
        }
        if r == 0 {
            proof {
                assert(v == (-(q as int)) * (m as int)) by (nonlinear_arith)
                    requires
                        a == (m as int) * (q as int) + 0,
                        v == -(a as int),
                ;
                lemma_fundamental_div_mod_converse(v as int, m as int, -(q as int), 0);
            }
            0
        } else {
            proof {
                assert(v == (-(q as int) - 1) * (m as int) + (m - r)) by (nonlinear_arith)
                    requires
                        a == (m as int) * (q as int) + r,
                        v == -(a as int),
                ;
                lemma_fundamental_div_mod_converse(v as int, m as int, -(q as int) - 1, (m - r) as int);
            }
            m - r
        }
    }
}

/// The `n` little-endian bytes of `u`.
fn le_bytes_exec(u: u128, n: usize) -> (out: Vec<u8>)
    ensures
        out@ == le_bytes(u as nat, n as nat),
{
    let mut out: Vec<u8> = Vec::new();
    let mut cur: u128 = u;
    let mut i: usize = 0;
    proof {
        lemma_le_bytes_len(u as nat, n as nat);
    }
    while i < n
        invariant
            i <= n,
            out@ + le_bytes(cur as nat, (n - i) as nat) =~= le_bytes(u as nat, n as nat),
        decreases n - i,
    {
        let ghost before = out@;
        assert(le_bytes(cur as nat, (n - i) as nat) =~= seq![(cur % 256) as u8] + le_bytes(
            (cur / 256) as nat,
            (n - i - 1) as nat,
        ));
        out.push((cur % 256) as u8);
        assert(out@ + le_bytes((cur / 256) as nat, (n - i - 1) as nat) =~= before + (seq![
            (cur % 256) as u8,
        ] + le_bytes((cur / 256) as nat, (n - i - 1) as nat)));
        cur = cur / 256;
        i = i + 1;
    }
    assert(le_bytes(cur as nat, 0) =~= Seq::<u8>::empty());
    assert(out@ + Seq::<u8>::empty() =~= out@);
    out
}

/// Runs the read conversion of `code` on `buf`: the value the generated read code
/// produces.
pub fn decode_int(code: IntCode, endian: Endian, signed: bool, buf: &[u8]) -> (v: i128)
    requires
        code_runs(code),
        code_end(code) <= buf@.len(),
    ensures
        v == code_read(code, endian, signed, buf@),
{
    match code {
        IntCode::Bits { byte, shift, mask } => {
            let b: u8 = (buf[byte] >> shift) & mask;
            assert(b == (buf@[byte as int] >> shift) & mask);
            if signed && b >= 128 {
                b as i128 - 256
            } else {
                b as i128
            }
        },
        IntCode::Bytes { start, len, pad_to } => {
            let mut src: Vec<u8> = Vec::new();
            let mut j: usize = 0;
            while j < len
                invariant
                    j <= len,
                    start + len <= buf@.len(),
                    buf@.len() == buf.len(),
                    src@ =~= buf@.subrange(start as int, start + j),
                decreases len - j,
            {
                src.push(buf[start + j]);
                j = j + 1;
            }
            let full: Vec<u8> = match pad_to {
                None => src,
                Some(w) => {
                    let sign_byte = match endian {
                        Endian::Big => src[0],
                        Endian::Little => src[len - 1],
                    };
                    let fill: u8 = if signed && sign_byte & 0x80u8 > 0 {
                        255
                    } else {
                        0
                    };
                    let ghost ext = Seq::new((w - len) as nat, |i: int| fill);
                    let mut out: Vec<u8> = Vec::new();
                    match endian {
                        Endian::Big => {
                            let mut k: usize = 0;
                            while k < w - len
                                invariant
                                    k <= w - len,
                                    len < w,
                                    out@ =~= ext.take(k as int),
                                    ext == Seq::new((w - len) as nat, |i: int| fill),
                                decreases w - len - k,
                            {
                                out.push(fill);
                                k = k + 1;
                            }
                            let mut k: usize = 0;
                            while k < len
                                invariant
                                    k <= len,
                                    len == src.len(),
                                    out@ =~= ext + src@.take(k as int),
                                decreases len - k,
                            {
                                out.push(src[k]);
                                k = k + 1;
                            }
                        },
                        Endian::Little => {
                            let mut k: usize = 0;
                            while k < len
                                invariant
                                    k <= len,
                                    len == src.len(),
                                    out@ =~= src@.take(k as int),
                                decreases len - k,
                            {
                                out.push(src[k]);
                                k = k + 1;
                            }
                            let mut k: usize = 0;
                            while k < w - len
                                invariant
                                    k <= w - len,
                                    len < w,
                                    len == src.len(),
                                    out@ =~= src@ + ext.take(k as int),
                                    ext == Seq::new((w - len) as nat, |i: int| fill),
                                decreases w - len - k,
                            {
                                out.push(fill);
                                k = k + 1;
                            }
                        },
                    }
                    assert(out@ =~= widen(src@, w as nat, endian, signed));
                    out
                },
            };
            assert(full@ == match pad_to {
                None => buf@.subrange(start as int, start + len),
                Some(w) => widen(buf@.subrange(start as int, start + len), w as nat, endian, signed),
            });
            let n = full.len();
            let u: u128 = match endian {
                Endian::Little => le_value(&full),
                Endian::Big => {
                    let mut rev: Vec<u8> = Vec::new();
                    let mut k: usize = 0;
                    while k < n
                        invariant
                            k <= n == full.len(),
                            rev@.len() == k,
                            forall|i: int| 0 <= i < k ==> rev@[i] == full@[n - 1 - i],
                        decreases n - k,
                    {
                        rev.push(full[n - 1 - k]);
                        k = k + 1;
                    }
                    assert(rev@ =~= full@.reverse());
                    let r = le_value(&rev);
                    assert(r < pow256(n as nat));
                    r
                },
            };
            assert(u == endian_nat(full@, endian));
            proof {
                lemma_pow256_monotone(n as nat, 8);
                lemma_pow256_eight();
            }
            assert(u < 0x1_0000_0000_0000_0000);
            if signed {
                let p = pow256_exec(n);
                if u >= p / 2 {
                    u as i128 - p as i128
                } else {
                    u as i128
                }
            } else {
                u as i128
            }
        },
    }
}


/// Runs the write conversion of `code`: stores `v`, a value of a Rust integer type
/// of at most 64 bits, into `buf` as the generated write code does.
pub fn encode_int(code: IntCode, endian: Endian, buf: &mut Vec<u8>, v: i128)
    requires
        code_runs(code),
        code_end(code) <= old(buf)@.len(),
        -0x8000_0000_0000_0000 <= v < 0x1_0000_0000_0000_0000,
    ensures
        final(buf)@ == code_write(code, endian, old(buf)@, v as int),
{
    let ghost old_buf = buf@;
    match code {
        IntCode::Bits { byte, shift, mask } => {
            let raw = floor_mod(v, 256) as u8;
            let b: u8 = buf[byte] | ((raw & mask) << shift);
            buf.set(byte, b);
        },
        IntCode::Bytes { start, len, pad_to } => {
            let width: usize = match pad_to {
                None => len,
                Some(w) => w,
            };
            let m = pow256_exec(width);
            let u = floor_mod(v, m);
            let lb = le_bytes_exec(u, width);
            proof {
                lemma_le_bytes_len(u as nat, width as nat);
            }
            let ghost full = to_bytes(v as int, width as nat, endian);
            let ghost piece = match pad_to {
                None => full,
                Some(w) => match endian {
                    Endian::Big => full.subrange(w - len, w as int),
                    Endian::Little => full.subrange(0, len as int),
                },
            };
            assert(piece.len() == len);
            let mut j: usize = 0;
            while j < len
                invariant
                    j <= len <= width,
                    lb@.len() == width,
                    start + len <= old_buf.len(),
                    buf@.len() == old_buf.len(),
                    start + len <= buf.len(),
                    piece.len() == len,
                    forall|i: int| 0 <= i < len ==> #[trigger] piece[i] == (match endian {
                        Endian::Little => lb@[i],
                        Endian::Big => lb@[len - 1 - i],
                    }),
                    forall|k: int|
                        0 <= k < old_buf.len() ==> #[trigger] buf@[k] == (if start <= k < start + j {
                            piece[k - start]
                        } else {
                            old_buf[k]
                        }),
                decreases len - j,
            {
                let x: u8 = match endian {
                    Endian::Little => lb[j],
                    Endian::Big => lb[len - 1 - j],
                };
                assert(x == piece[j as int]);
                buf.set(start + j, x);
                j = j + 1;
            }
            assert(buf@ =~= old_buf.subrange(0, start as int) + piece + old_buf.subrange(
                start + len,
                old_buf.len() as int,
            ));
        },
    }
}


/// The conversion code of an integer covers exactly its part of the range: a
/// bit field starts at the part's first bit and its mask has one bit per bit
/// of the part; whole bytes start and end where the part does.
pub proof fn lemma_int_code_covers_part(start: BVec, len: BVec, rust_bytes: usize)
    ensures
        spec_int_code(start, len, rust_bytes) matches Ok(code) ==> match code {
            IntCode::Bits { byte, shift, mask } => {
                &&& byte * 8 + shift == start.total()
                &&& shift + len.bits <= 8
                &&& len.bytes == 0
                &&& mask == low_mask(len.bits as u16)
            },
            IntCode::Bytes { start: s, len: l, .. } => {
                &&& s * 8 == start.total()
                &&& (s + l) * 8 == start.total() + len.total()
            },
        },
{
}


/// The Rust type chosen for an integer is the narrowest Rust integer type that
/// holds all its bits: 8, 16, 32 or 64 bits wide, at least as wide as the
/// field, and no wider than needed (8 bits, or less than twice the field).
pub proof fn lemma_int_type_fits(len: BVec, signed: bool)
    ensures
        spec_int_type(len, signed) matches Some(t) ==> {
            &&& t.signed == signed
            &&& t.rust_bits == 8 || t.rust_bits == 16 || t.rust_bits == 32 || t.rust_bits == 64
            &&& t.rust_bits >= len.total()
            &&& t.rust_bits == 8 || t.rust_bits < 2 * len.total()
        },
        spec_int_type(len, signed) is None ==> len.total() > 64,
{
    let total = len.total() as nat;
    lemma_log2_ceil_props(total);
    let k = log2_ceil(total);
    if k <= 6 {
        reveal_with_fuel(pow2, 7);
        if k > 0 {
            assert(pow2((k - 1) as nat) < total);
            assert(pow2(k) == 2 * pow2((k - 1) as nat));
        }
    } else {
        lemma_pow2_monotone(7, k);
        reveal_with_fuel(pow2, 8);
        assert(pow2((k - 1) as nat) < total);
        lemma_pow2_monotone(6, (k - 1) as nat);
    }
}

} // verus!
