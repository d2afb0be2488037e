//! Reading a field's value out of report bytes.
//!
//! Report bytes are read as one little-endian integer: bit `k` of the report
//! is bit `k % 8` of byte `k / 8`. A field's raw value is the run of its bits
//! taken from that integer, lowest bit first.
use vstd::arithmetic::div_mod::*;
use vstd::arithmetic::power2::*;
use vstd::prelude::*;

use crate::layout::{FieldKind, FieldLayout};

verus! {

/// Why a field's value could not be read.
#[derive(Clone, Copy, Debug, PartialEq, Eq, Structural)]
pub enum DecodeError {
    /// The field is neither a variable nor an array field.
    NotDecodable,
    /// An array field that declares no elements.
    EmptyArray,
    /// The value would be wider than 32 bits, or has no bits at all.
    UnsupportedWidth,
    /// The buffer ends before the last byte of the value.
    BufferTooShort,
}

/// The little-endian integer made of `n` bytes of `bytes` from index `from`.
pub open spec fn le_value(bytes: Seq<u8>, from: int, n: nat) -> nat
    decreases n,
{
    if n == 0 {
        0
    } else {
        le_value(bytes, from, (n - 1) as nat) + bytes[from + n - 1] as nat * pow2(
            (8 * (n - 1)) as nat,
        )
    }
}

/// The `width` bits of `bytes` that start at bit `start`, as an unsigned
/// integer whose lowest bit is bit `start`.
pub open spec fn raw_bits(bytes: Seq<u8>, start: nat, width: nat) -> nat {
    let first = start / 8;
    let last = (start + width - 1) / 8;
    (le_value(bytes, first as int, (last - first + 1) as nat) / pow2(start % 8)) % pow2(width)
}

/// The integer that a raw value of `width` bits stands for. A signed value
/// narrower than 32 bits is a two's complement number of its own width;
/// any 32-bit pattern is read as a two's complement `i32`.
pub open spec fn signed_value(raw: int, width: nat, signed: bool) -> int {
    if signed && width < 32 && raw >= pow2((width - 1) as nat) {
        raw - pow2(width)
    } else if raw >= 0x8000_0000 {
        raw - 0x1_0000_0000
    } else {
        raw
    }
}

/// The number of bits of the decoded value: the whole field, or the first
/// element of an array field.
pub open spec fn value_width(f: FieldLayout) -> int {
    if f.kind is Array {
        f.width() as int / f.report_count as int
    } else {
        f.width() as int
    }
}

/// The error that decoding `f` from a buffer of `len` bytes gives, if any.
pub open spec fn decode_error(f: FieldLayout, len: int) -> Option<DecodeError> {
    if f.kind is Other {
        Some(DecodeError::NotDecodable)
    } else if f.kind is Array && f.report_count == 0 {
        Some(DecodeError::EmptyArray)
    } else if value_width(f) == 0 || value_width(f) > 32 {
        Some(DecodeError::UnsupportedWidth)
    } else if (f.bit_start + value_width(f) - 1) / 8 >= len {
        Some(DecodeError::BufferTooShort)
    } else {
        None
    }
}

/// The value of `f` in `bytes`: sign-extended when the logical minimum is
/// negative. An array element is sign-extended at its own width, not at the
/// width of the whole array field.
pub open spec fn decoded_value(f: FieldLayout, bytes: Seq<u8>) -> int {
    let w = value_width(f) as nat;
    signed_value(raw_bits(bytes, f.bit_start as nat, w) as int, w, f.logical_minimum < 0)
}

proof fn lemma_pow2_le(e1: nat, e2: nat)
    requires
        e1 <= e2,
    ensures
        pow2(e1) <= pow2(e2),
{
    if e1 < e2 {
        lemma_pow2_strictly_increases(e1, e2);
    }
}

fn pow2_u64(e: usize) -> (r: u64)
    requires
        e <= 40,
    ensures
        r == pow2(e as nat),
{
    let mut r: u64 = 1;
    let mut i: usize = 0;
    proof {
        lemma2_to64();
        lemma2_to64_rest();
    }
    while i < e
        invariant
            i <= e <= 40,
            r == pow2(i as nat),
            pow2(40) == 0x100_0000_0000,
        decreases e - i,
    {
        proof {
            lemma_pow2_unfold((i + 1) as nat);
            lemma_pow2_le((i + 1) as nat, 40);
        }
        r = r * 2;
        i = i + 1;
    }
    r
}

proof fn lemma_le_value_bound(bytes: Seq<u8>, from: int, n: nat)
    ensures
        le_value(bytes, from, n) < pow2(8 * n),
    decreases n,
{
    if n == 0 {
        lemma2_to64();
    } else {
        let m = (n - 1) as nat;
        lemma_le_value_bound(bytes, from, m);
        lemma_pow2_adds(8 * m, 8);
        lemma2_to64();
        let a = le_value(bytes, from, m);
        let b = bytes[from + n - 1] as nat;
        let p = pow2(8 * m);
        assert(a + b * p < p * 256) by (nonlinear_arith)
            requires
                a < p,
                b <= 255,
        ;
        assert(8 * m + 8 == 8 * n);
    }
}

/// Reads `width` bits from bit `start` on; the caller has checked that the
/// buffer holds them.
fn extract_bits(bytes: &[u8], start: usize, width: usize) -> (r: u64)
    requires
        1 <= width <= 32,
        (start + width - 1) / 8 < bytes@.len(),
    ensures
        r == raw_bits(bytes@, start as nat, width as nat),
{
    let first = start / 8;
    let last = first + (start % 8 + width - 1) / 8;
    proof {
        lemma_fundamental_div_mod(start as int, 8);
        lemma_hoist_over_denominator((start % 8 + width - 1) as int, first as int, 8);
        assert(last == (start + width - 1) / 8);
    }
    let n = last - first + 1;
    assert(n <= 5);
    let mut acc: u64 = 0;
    let mut weight: u64 = 1;
    let mut i: usize = 0;
    proof {
        lemma2_to64();
        lemma2_to64_rest();
    }
    while i < n
        invariant
            n <= 5,
            first + n <= bytes.len(),
            i <= n,
            acc == le_value(bytes@, first as int, i as nat),
            weight == pow2(8 * i as nat),
            acc < weight,
            pow2(8) == 256,
            pow2(40) == 0x100_0000_0000,
        decreases n - i,
    {
        let b = bytes[first + i];
        proof {
            lemma_pow2_adds(8 * i as nat, 8);
            lemma_le_value_bound(bytes@, first as int, (i + 1) as nat);
            assert(8 * i as nat + 8 == 8 * (i + 1) as nat);
            lemma_pow2_le(8 * (i + 1) as nat, 40);
            lemma_pow2_le(8 * i as nat, 32);
        }
        assert(b as u64 * weight <= 255 * 0x1_0000_0000) by (nonlinear_arith)
            requires
                b <= 255,
                weight <= 0x1_0000_0000,
        ;
        acc = acc + b as u64 * weight;
        weight = weight * 256;
        i = i + 1;
    }
    let shifted = acc / pow2_u64(start % 8);
    shifted % pow2_u64(width)
}

proof fn lemma_raw_bits_bound(bytes: Seq<u8>, start: nat, width: nat)
    ensures
        raw_bits(bytes, start, width) < pow2(width),
{
    lemma_pow2_pos(width);
    lemma_mod_bound(
        (le_value(bytes, (start / 8) as int, ((start + width - 1) / 8 - start / 8 + 1) as nat)
            / pow2(start % 8)) as int,
        pow2(width) as int,
    );
}

/// Turns a raw value of `width` bits into the integer it stands for.
fn to_signed(raw: u64, width: usize, signed: bool) -> (r: i32)
    requires
        1 <= width <= 32,
        raw < pow2(width as nat),
    ensures
        r == signed_value(raw as int, width as nat, signed),
{
    proof {
        lemma2_to64();
        lemma_pow2_le(width as nat, 32);
    }
    if signed && width < 32 {
        let half = pow2_u64(width - 1);
        if raw >= half {
            let full = pow2_u64(width);
            proof {
                lemma_pow2_unfold(width as nat);
                lemma_pow2_le((width - 1) as nat, 30);
            }
            return (raw as i64 - full as i64) as i32;
        }
    }
    if raw >= 0x8000_0000 {
        (raw as i64 - 0x1_0000_0000i64) as i32
    } else {
        raw as i32
    }
}

impl FieldLayout {
    /// Decodes the field's value from report bytes: the whole field for a
    /// variable field, the first element for an array field. Other kinds of
    /// field are refused, as is a buffer that ends before the value does.
    pub fn decode(&self, bytes: &[u8]) -> (r: Result<i32, DecodeError>)
        requires
            self.wf(),
        ensures
            match decode_error(*self, bytes@.len() as int) {
                Some(e) => r == Err::<i32, DecodeError>(e),
                None => r matches Ok(v) && v == decoded_value(*self, bytes@),
            },
    {
        let width = match self.kind {
            FieldKind::Other => {
                return Err(DecodeError::NotDecodable);
            },
            FieldKind::Array => {
                if self.report_count == 0 {
                    return Err(DecodeError::EmptyArray);
                }
                (self.bit_end - self.bit_start) / self.report_count
            },
            FieldKind::Variable => self.bit_end - self.bit_start,
        };
        if width == 0 || width > 32 {
            return Err(DecodeError::UnsupportedWidth);
        }
        let last = self.bit_start / 8 + (self.bit_start % 8 + width - 1) / 8;
        proof {
            lemma_fundamental_div_mod(self.bit_start as int, 8);
            lemma_hoist_over_denominator(
                (self.bit_start % 8 + width - 1) as int,
                (self.bit_start / 8) as int,
                8,
            );
        }
        if last >= bytes.len() {
            return Err(DecodeError::BufferTooShort);
        }
        let raw = extract_bits(bytes, self.bit_start, width);
        proof {
            lemma_raw_bits_bound(bytes@, self.bit_start as nat, width as nat);
        }
        Ok(to_signed(raw, width, self.logical_minimum < 0))
    }
}

proof fn lemma_le_value_zero(bytes: Seq<u8>, from: int, n: nat)
    requires
        forall|i: int| 0 <= i < bytes.len() ==> bytes[i] == 0,
        0 <= from,
        from + n <= bytes.len(),
    ensures
        le_value(bytes, from, n) == 0,
    decreases n,
{
    if n > 0 {
        lemma_le_value_zero(bytes, from, (n - 1) as nat);
    }
}

/// A variable field read from a buffer of zero bytes is zero.
pub proof fn lemma_zero_bytes_decode_to_zero(f: FieldLayout, bytes: Seq<u8>)
    requires
        f.wf(),
        f.kind is Variable,
        decode_error(f, bytes.len() as int) is None,
        forall|i: int| 0 <= i < bytes.len() ==> bytes[i] == 0,
    ensures
        decoded_value(f, bytes) == 0,
{
    let w = value_width(f) as nat;
    let start = f.bit_start as nat;
    let first = start / 8;
    let last = (start + w - 1) / 8;
    lemma_le_value_zero(bytes, first as int, (last - first + 1) as nat);
    lemma_pow2_pos(start % 8);
    lemma_pow2_pos(w);
    lemma_pow2_pos((w - 1) as nat);
    lemma_div_of0(pow2(start % 8) as int);
    lemma_small_mod(0, pow2(w));
}

/// A variable field that starts on a byte boundary holds the low `w` bits of
/// the little-endian integer made of the `(w + 7) / 8` bytes from its first
/// byte on, where `w` is its width.
pub proof fn lemma_byte_aligned_read(f: FieldLayout, bytes: Seq<u8>)
    requires
        f.wf(),
        f.kind is Variable,
        f.bit_start % 8 == 0,
        decode_error(f, bytes.len() as int) is None,
    ensures
        ({
            let w = f.width();
            decoded_value(f, bytes) == signed_value(
                (le_value(bytes, f.bit_start as int / 8, (w + 7) / 8) % pow2(w)) as int,
                w,
                f.logical_minimum < 0,
            )
        }),
{
    let w = f.width();
    let start = f.bit_start as int;
    lemma_fundamental_div_mod(start, 8);
    lemma_hoist_over_denominator(w - 1, start / 8, 8);
    assert((start + w - 1) / 8 - start / 8 + 1 == (w + 7) / 8);
    lemma2_to64();
}

} // verus!
