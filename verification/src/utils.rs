use crate::bignum::BigNat;
use vstd::arithmetic::power2::pow2;
use vstd::prelude::*;

verus! {

/// Value of the first four bytes of `b`, read as a little-endian `u32`.
pub open spec fn le_u32_value(b: Seq<u8>) -> int {
    b[0] + b[1] * 256 + b[2] * 65536 + b[3] * 16777216
}

/// The four little-endian bytes of `v`.
pub open spec fn u32_le_bytes(v: u32) -> Seq<u8> {
    seq![
        (v % 256) as u8,
        ((v / 256) % 256) as u8,
        ((v / 65536) % 256) as u8,
        (v / 16777216) as u8,
    ]
}

/// Reading back the bytes of `v` gives `v`.
pub proof fn lemma_u32_le_roundtrip(v: u32)
    ensures
        u32_le_bytes(v).len() == 4,
        le_u32_value(u32_le_bytes(v)) == v,
{
    assert(le_u32_value(u32_le_bytes(v)) == v) by (nonlinear_arith)
        requires
            u32_le_bytes(v)[0] == v % 256,
            u32_le_bytes(v)[1] == (v / 256) % 256,
            u32_le_bytes(v)[2] == (v / 65536) % 256,
            u32_le_bytes(v)[3] == v / 16777216,
    ;
}

/// Writing the value of four bytes gives those four bytes back.
pub proof fn lemma_le_u32_bytes_roundtrip(b: Seq<u8>)
    requires
        b.len() == 4,
    ensures
        0 <= le_u32_value(b) <= u32::MAX,
        u32_le_bytes(le_u32_value(b) as u32) == b,
{
    let v = le_u32_value(b);
    let b0 = b[0] as int;
    let b1 = b[1] as int;
    let b2 = b[2] as int;
    let b3 = b[3] as int;
    assert(v % 256 == b0 && (v / 256) % 256 == b1 && (v / 65536) % 256 == b2 && v / 16777216
        == b3) by (nonlinear_arith)
        requires
            v == b0 + b1 * 256 + b2 * 65536 + b3 * 16777216,
            0 <= b0 < 256,
            0 <= b1 < 256,
            0 <= b2 < 256,
            0 <= b3 < 256,
    ;
    assert(u32_le_bytes(v as u32) =~= b);
}

/// Reads a little-endian `u32` from the first four bytes of `bytes`.
pub fn bytes_to_u32_le(bytes: &[u8]) -> (value: u32)
    requires
        bytes@.len() >= 4,
    ensures
        value == le_u32_value(bytes@),
{
    (bytes[0] as u32) + (bytes[1] as u32) * 256 + (bytes[2] as u32) * 65536 + (bytes[3] as u32)
        * 16777216
}

/// The little-endian bytes of `v`.
pub fn u32_to_le_bytes(v: u32) -> (bytes: [u8; 4])
    ensures
        bytes@ == u32_le_bytes(v),
{
    let bytes = [(v % 256) as u8, ((v / 256) % 256) as u8, ((v / 65536) % 256) as u8, (v
        / 16777216) as u8];
    assert(bytes@ =~= u32_le_bytes(v));
    bytes
}


/// Exponent (base 256) of a compact difficulty encoding: its most significant byte.
pub open spec fn compact_exponent(bits: u32) -> nat {
    (bits / 0x1000000) as nat
}

/// Coefficient of a compact difficulty encoding: its low 23 bits (the sign bit is dropped).
pub open spec fn compact_coefficient(bits: u32) -> nat {
    (bits % 0x800000) as nat
}

/// The full target that a compact encoding stands for:
/// `coefficient * 256^(exponent - 3)`, rounded down when the exponent is below 3.
pub open spec fn target_value(bits: u32) -> nat {
    let e = compact_exponent(bits);
    let c = compact_coefficient(bits);
    if e <= 3 {
        c / pow2((8 * (3 - e)) as nat)
    } else {
        c * pow2((8 * (e - 3)) as nat)
    }
}

/// The work that a header of difficulty `bits` stands for: `2^256 / (target + 1)`.
pub open spec fn work_value(bits: u32) -> nat {
    pow2(256) / (target_value(bits) + 1)
}

/// Converts Bitcoin compact difficulty target (bits) to the full target.
pub fn bits_to_target(bits: u32) -> (target: BigNat)
    ensures
        target@ == target_value(bits),
        (bits >> 24u32) > 3 ==> target@ == (bits & 0x007fffffu32) * pow2(
            (8 * ((bits >> 24u32) - 3)) as nat,
        ),
        (bits >> 24u32) <= 3 ==> target@ == ((bits & 0x007fffffu32) as nat) / pow2(
            (8 * (3 - (bits >> 24u32))) as nat,
        ),
{
    proof {
        lemma_target_of_bits(bits);
    }
    let exponent: u32 = (bits >> 24u32) & 0xff;
    let coefficient: u32 = bits & 0x007fffff;
    assert((bits >> 24u32) & 0xff == bits / 0x1000000) by (bit_vector);
    assert(bits & 0x007fffff == bits % 0x800000) by (bit_vector);
    let coefficient_big = BigNat::from_u32(coefficient);
    if exponent <= 3 {
        coefficient_big.shr((8 * (3 - exponent)) as usize)
    } else {
        coefficient_big.shl((8 * (exponent - 3)) as usize)
    }
}

/// Calculates the work done for a given difficulty (bits):
/// `2^256 / (target + 1)`, rounded down.
pub fn calculate_work(bits: u32) -> (work: BigNat)
    ensures
        work@ == work_value(bits),
        work@ * (target_value(bits) + 1) <= pow2(256) < (work@ + 1) * (target_value(bits) + 1),
{
    proof {
        lemma_work_is_floor_division(bits);
    }
    let target = bits_to_target(bits);
    let dividend = BigNat::from_u32(1).shl(256);
    let divisor = target.add(&BigNat::from_u32(1));
    dividend.div(&divisor)
}

/// A higher target never stands for more work: work falls as the target rises.
pub proof fn lemma_work_decreases_as_target_rises(easier: u32, harder: u32)
    requires
        target_value(harder) <= target_value(easier),
    ensures
        work_value(easier) <= work_value(harder),
{
    vstd::arithmetic::div_mod::lemma_div_is_ordered_by_denominator(
        pow2(256) as int,
        (target_value(harder) + 1) as int,
        (target_value(easier) + 1) as int,
    );
}

/// The target of compact bits, read straight off their bit fields: the coefficient is the
/// low 23 bits, the exponent the top byte, and the coefficient is shifted by 8 bits per
/// unit of exponent above 3 (or right, for each unit below).
pub proof fn lemma_target_of_bits(bits: u32)
    ensures
        (bits >> 24u32) > 3 ==> target_value(bits) == (bits & 0x007fffffu32) * pow2(
            (8 * ((bits >> 24u32) - 3)) as nat,
        ),
        (bits >> 24u32) <= 3 ==> target_value(bits) == ((bits & 0x007fffffu32) as nat) / pow2(
            (8 * (3 - (bits >> 24u32))) as nat,
        ),
{
    assert(bits >> 24u32 == bits / 0x1000000) by (bit_vector);
    assert(bits & 0x007fffffu32 == bits % 0x800000) by (bit_vector);
}

/// Raising the exponent by one, with the same coefficient, multiplies the target by 256
/// (from exponent 3 upwards, where no bits are shifted out).
pub proof fn lemma_target_exponent_step(bits: u32)
    requires
        3 <= bits / 0x1000000 < 255,
    ensures
        target_value((bits + 0x1000000) as u32) == 256 * target_value(bits),
{
    let next = (bits + 0x1000000) as u32;
    let e = bits / 0x1000000;
    assert(next / 0x1000000 == e + 1);
    assert(next % 0x800000 == bits % 0x800000);
    vstd::arithmetic::power2::lemma2_to64();
    let k = (8 * (e - 3)) as nat;
    vstd::arithmetic::power2::lemma_pow2_adds(k, 8);
    assert((8 * (e + 1 - 3)) as nat == k + 8);
    let c = (bits % 0x800000) as int;
    if e == 3 {
        assert(target_value(bits) == c / 1);
    }
    assert(c * (pow2(k) * 256) == 256 * (c * pow2(k))) by (nonlinear_arith);
}

/// The work is the floor of `2^256 / (target + 1)`: the largest number whose product
/// with `target + 1` does not pass `2^256`.
pub proof fn lemma_work_is_floor_division(bits: u32)
    ensures
        work_value(bits) * (target_value(bits) + 1) <= pow2(256) < (work_value(bits) + 1) * (
        target_value(bits) + 1),
{
    let d = (target_value(bits) + 1) as int;
    let n = pow2(256) as int;
    let w = work_value(bits) as int;
    vstd::arithmetic::div_mod::lemma_fundamental_div_mod(n, d);
    vstd::arithmetic::div_mod::lemma_mod_bound(n, d);
    assert(w == n / d);
    assert(n == d * w + n % d);
    assert(w * d <= n < (w + 1) * d) by (nonlinear_arith)
        requires
            n == d * w + n % d,
            0 <= n % d < d,
    ;
}

} // verus!
