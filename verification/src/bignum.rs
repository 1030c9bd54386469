use num_bigint::BigUint;
use vstd::arithmetic::power2::pow2;
use vstd::prelude::*;

verus! {

/// The natural number whose base-256 digits, least significant first, are `digits`.
pub open spec fn le_nat(digits: Seq<u8>) -> nat
    decreases digits.len(),
{
    if digits.len() == 0 {
        0
    } else {
        (digits[0] + 256 * le_nat(digits.drop_first())) as nat
    }
}

/// Four digits have the value of the little-endian `u32` they spell.
pub proof fn lemma_le_nat_four(digits: Seq<u8>)
    requires
        digits.len() == 4,
    ensures
        le_nat(digits) == digits[0] + digits[1] * 256 + digits[2] * 65536 + digits[3] * 16777216,
{
    reveal_with_fuel(le_nat, 5);
    assert(digits.drop_first().drop_first().drop_first().drop_first() =~= Seq::<u8>::empty());
}

/// The value of a byte string is 0 when it is empty, and appending a byte `b` as the new
/// most significant digit adds `b * 2^(8 * len)`: the bytes are read little-endian, every
/// one of them counted.
pub proof fn lemma_le_nat_push(digits: Seq<u8>, b: u8)
    ensures
        le_nat(Seq::<u8>::empty()) == 0,
        le_nat(digits.push(b)) == le_nat(digits) + b * pow2(8 * digits.len()),
    decreases digits.len(),
{
    vstd::arithmetic::power2::lemma2_to64();
    if digits.len() == 0 {
        assert(digits.push(b).drop_first() =~= Seq::<u8>::empty());
        assert(pow2(0) == 1);
        assert(le_nat(digits.push(b)) == b + 256 * le_nat(Seq::<u8>::empty()));
        assert(le_nat(digits.push(b)) == le_nat(digits) + b * pow2(8 * digits.len()));
    } else {
        let rest = digits.drop_first();
        assert(digits.push(b).drop_first() =~= rest.push(b));
        lemma_le_nat_push(rest, b);
        let p = pow2(8 * rest.len());
        vstd::arithmetic::power2::lemma_pow2_adds(8 * rest.len(), 8);
        assert(8 * rest.len() + 8 == 8 * digits.len());
        assert(pow2(8 * digits.len()) == p * 256);
        let x = le_nat(rest);
        assert(le_nat(digits) == digits[0] + 256 * x);
        assert(le_nat(digits.push(b)) == digits[0] + 256 * le_nat(rest.push(b)));
        assert(256 * (x + b * p) == 256 * x + b * (p * 256)) by (nonlinear_arith);
        assert(le_nat(digits.push(b)) == le_nat(digits) + b * pow2(8 * digits.len()));
    }
}

/// Every byte counts at its place: the value is at least `digits[i] * 2^(8 * i)`.
pub proof fn lemma_le_nat_at_least_each_byte(digits: Seq<u8>, i: int)
    requires
        0 <= i < digits.len(),
    ensures
        le_nat(digits) >= digits[i] * pow2((8 * i) as nat),
    decreases digits.len(),
{
    vstd::arithmetic::power2::lemma2_to64();
    if i > 0 {
        let rest = digits.drop_first();
        lemma_le_nat_at_least_each_byte(rest, i - 1);
        assert(rest[i - 1] == digits[i]);
        let p = pow2((8 * (i - 1)) as nat);
        vstd::arithmetic::power2::lemma_pow2_adds((8 * (i - 1)) as nat, 8);
        assert((8 * (i - 1)) as nat + 8 == (8 * i) as nat);
        assert(pow2((8 * i) as nat) == p * 256);
        let x = le_nat(rest);
        let d = digits[i] as int;
        assert(le_nat(digits) == digits[0] + 256 * x);
        assert(x >= d * p ==> 256 * x >= d * (p * 256)) by (nonlinear_arith);
        assert(le_nat(digits) >= d * pow2((8 * i) as nat));
    } else {
        assert(le_nat(digits) == digits[0] + 256 * le_nat(digits.drop_first()));
        assert(pow2(0) == 1);
        assert(digits[0] * pow2(0) == digits[0]);
    }
}

/// An unsigned integer of any size, held as its little-endian bytes so that its value
/// can be stated. Its arithmetic is done by `num_bigint::BigUint`: each operation turns
/// the bytes into a `BigUint` (`from_bytes_le`), applies the operator, and turns the result
/// back (`to_bytes_le`), both in little-endian order as the crate documents.
#[derive(Debug, Clone)]
pub struct BigNat {
    digits: Vec<u8>,
}

impl View for BigNat {
    type V = nat;

    closed spec fn view(&self) -> nat {
        le_nat(self.digits@)
    }
}

impl BigNat {
    /// The number `v`.
    pub fn from_u32(v: u32) -> (n: BigNat)
        ensures
            n@ == v,
    {
        let bytes = crate::utils::u32_to_le_bytes(v);
        let mut digits: Vec<u8> = Vec::new();
        digits.push(bytes[0]);
        digits.push(bytes[1]);
        digits.push(bytes[2]);
        digits.push(bytes[3]);
        proof {
            lemma_le_nat_four(digits@);
            crate::utils::lemma_u32_le_roundtrip(v);
        }
        BigNat { digits }
    }

    /// The number whose little-endian bytes are `bytes`.
    pub fn from_le_bytes(bytes: &[u8]) -> (n: BigNat)
        ensures
            n@ == le_nat(bytes@),
    {
        let mut digits: Vec<u8> = Vec::new();
        digits.extend_from_slice(bytes);
        assert(digits@ =~= bytes@);
        BigNat { digits }
    }

    /// The little-endian bytes of the number.
    pub fn to_le_bytes(&self) -> (bytes: Vec<u8>)
        ensures
            le_nat(bytes@) == self@,
    {
        self.digits.clone()
    }

    /// `self * 2^shift`. Calls `Shl<usize>` (`<<`) of `num_bigint::BigUint`; trusted to
    /// multiply by `2^shift` as documented. The shift is bounded so that the result's
    /// allocation stays small.
    #[verifier::external_body]
    pub(crate) fn shl(&self, shift: usize) -> (r: BigNat)
        requires
            shift <= 0x10000,
        ensures
            r@ == self@ * pow2(shift as nat),
    {
        BigNat { digits: (BigUint::from_bytes_le(&self.digits) << shift).to_bytes_le() }
    }

    /// `self / 2^shift`, rounded down. Calls `Shr<usize>` (`>>`) of `num_bigint::BigUint`;
    /// trusted to divide by `2^shift` as documented.
    #[verifier::external_body]
    pub(crate) fn shr(&self, shift: usize) -> (r: BigNat)
        ensures
            r@ == self@ / pow2(shift as nat),
    {
        BigNat { digits: (BigUint::from_bytes_le(&self.digits) >> shift).to_bytes_le() }
    }

    /// `self + other`. Calls `Add` (`+`) of `num_bigint::BigUint`; trusted to be exact
    /// addition.
    #[verifier::external_body]
    pub(crate) fn add(&self, other: &BigNat) -> (r: BigNat)
        ensures
            r@ == self@ + other@,
    {
        BigNat {
            digits: (BigUint::from_bytes_le(&self.digits) + BigUint::from_bytes_le(
                &other.digits,
            )).to_bytes_le(),
        }
    }

    /// `self / other`, rounded down. Calls `Div` (`/`) of `num_bigint::BigUint`, which
    /// panics on a zero divisor (hence the `requires`); trusted to be floor division.
    #[verifier::external_body]
    pub(crate) fn div(&self, other: &BigNat) -> (r: BigNat)
        requires
            other@ > 0,
        ensures
            r@ == self@ / other@,
    {
        BigNat {
            digits: (BigUint::from_bytes_le(&self.digits) / BigUint::from_bytes_le(
                &other.digits,
            )).to_bytes_le(),
        }
    }

    /// Whether `self <= other`. Calls `PartialOrd::le` of `num_bigint::BigUint` on the two
    /// numbers; trusted to be the order of natural numbers.
    #[verifier::external_body]
    pub(crate) fn le(&self, other: &BigNat) -> (r: bool)
        ensures
            r == (self@ <= other@),
    {
        BigUint::from_bytes_le(&self.digits) <= BigUint::from_bytes_le(&other.digits)
    }

    /// Whether `self > other`. Calls `PartialOrd::gt` of `num_bigint::BigUint` on the two
    /// numbers; trusted to be the order of natural numbers.
    #[verifier::external_body]
    pub(crate) fn gt(&self, other: &BigNat) -> (r: bool)
        ensures
            r == (self@ > other@),
    {
        BigUint::from_bytes_le(&self.digits) > BigUint::from_bytes_le(&other.digits)
    }
}

} // verus!
