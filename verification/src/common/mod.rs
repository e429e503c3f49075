//! Untyped addresses, object references and small bit helpers.

use vstd::prelude::*;
use vstd::arithmetic::power2::{is_pow2, is_pow2_equiv, pow2, lemma2_to64, lemma_pow2_strictly_increases};
use vstd::arithmetic::power::pow;
use vstd::bits::{low_bits_mask, lemma_u64_low_bits_mask_is_mod, lemma_u64_shl_is_mul};
use vstd::layout::size_of;

pub mod address_bitmap;
pub mod address_map;
pub mod bitmap;
pub mod coverage;
mod order;

pub use self::address_bitmap::AddressBitmap;
pub use self::address_map::AddressMap;

verus! {

pub const LOG_POINTER_SIZE: usize = 3;

pub const POINTER_SIZE: usize = 8;

/// The least multiple of `align` that is not below `x`.
pub open spec fn align_up_spec(x: int, align: int) -> int {
    if x % align == 0 {
        x
    } else {
        x + align - x % align
    }
}

/// A power of two that fits a machine word is `2^e` for some `e < 64`.
pub proof fn lemma_pow2_exponent(a: usize) -> (e: nat)
    requires
        is_pow2(a as int),
    ensures
        e < 64,
        a == pow2(e),
{
    is_pow2_equiv(a as int);
    let e = choose|i: nat| pow(2, i) == a as int;
    lemma2_to64();
    if e >= 64 {
        if e > 64 {
            lemma_pow2_strictly_increases(64, e);
        }
    }
    e
}

/// A power of two divides every power of two that is not below it.
pub proof fn lemma_pow2_divides(small: usize, big: usize)
    requires
        is_pow2(small as int),
        is_pow2(big as int),
        small <= big,
    ensures
        big % small == 0,
{
    let e = lemma_pow2_exponent(small);
    let f = lemma_pow2_exponent(big);
    lemma_pow2_single_bit(small);
    if f < e {
        lemma_pow2_strictly_increases(f, e);
    }
    vstd::arithmetic::power2::lemma_pow2_adds(e, (f - e) as nat);
    let rest = pow2((f - e) as nat) as int;
    assert(big as int == rest * (small as int)) by (nonlinear_arith)
        requires
            big as int == (small as int) * rest,
    ;
    vstd::arithmetic::div_mod::lemma_mod_multiples_basic(rest, small as int);
}

/// A power of two has a single bit set.
pub proof fn lemma_pow2_single_bit(a: usize)
    requires
        is_pow2(a as int),
    ensures
        a != 0,
        a & ((a - 1) as usize) == 0,
{
    let e = lemma_pow2_exponent(a);
    assert(forall|k: u64|
        k < 64 ==> #[trigger] (1u64 << k) != 0 && (1u64 << k) & (((1u64 << k) - 1) as u64) == 0)
        by (bit_vector);
    lemma2_to64();
    lemma_u64_shl_is_mul(1, e as u64);
    assert(a as u64 == 1u64 << (e as u64));
    assert((a as u64) & ((a - 1) as u64) == 0);
}

/// Masking with `align - 1` takes the remainder by a power of two `align`.
pub proof fn lemma_mask_is_mod(x: usize, align: usize)
    requires
        is_pow2(align as int),
    ensures
        x & ((align - 1) as usize) == x % align,
{
    let e = lemma_pow2_exponent(align);
    lemma_u64_low_bits_mask_is_mod(x as u64, e);
    assert(align >= 1) by {
        lemma_pow2_single_bit(align);
    }
    assert(low_bits_mask(e) == align - 1);
    assert((x as u64) & ((align - 1) as u64) == x & ((align - 1) as usize));
}

proof fn lemma_single_bit_shift(a: u64)
    requires
        a != 0 && a & ((a - 1) as u64) == 0,
    ensures
        exists|k: u64| k < 64 && a == #[trigger] (1u64 << k),
{
    assert(a != 0 && a & ((a - 1) as u64) == 0 ==> {
        ||| a == 1u64 << 0u64 ||| a == 1u64 << 1u64 ||| a == 1u64 << 2u64 ||| a == 1u64 << 3u64
        ||| a == 1u64 << 4u64 ||| a == 1u64 << 5u64 ||| a == 1u64 << 6u64 ||| a == 1u64 << 7u64
        ||| a == 1u64 << 8u64 ||| a == 1u64 << 9u64 ||| a == 1u64 << 10u64 ||| a == 1u64 << 11u64
        ||| a == 1u64 << 12u64 ||| a == 1u64 << 13u64 ||| a == 1u64 << 14u64 ||| a == 1u64 << 15u64
        ||| a == 1u64 << 16u64 ||| a == 1u64 << 17u64 ||| a == 1u64 << 18u64 ||| a == 1u64 << 19u64
        ||| a == 1u64 << 20u64 ||| a == 1u64 << 21u64 ||| a == 1u64 << 22u64 ||| a == 1u64 << 23u64
        ||| a == 1u64 << 24u64 ||| a == 1u64 << 25u64 ||| a == 1u64 << 26u64 ||| a == 1u64 << 27u64
        ||| a == 1u64 << 28u64 ||| a == 1u64 << 29u64 ||| a == 1u64 << 30u64 ||| a == 1u64 << 31u64
        ||| a == 1u64 << 32u64 ||| a == 1u64 << 33u64 ||| a == 1u64 << 34u64 ||| a == 1u64 << 35u64
        ||| a == 1u64 << 36u64 ||| a == 1u64 << 37u64 ||| a == 1u64 << 38u64 ||| a == 1u64 << 39u64
        ||| a == 1u64 << 40u64 ||| a == 1u64 << 41u64 ||| a == 1u64 << 42u64 ||| a == 1u64 << 43u64
        ||| a == 1u64 << 44u64 ||| a == 1u64 << 45u64 ||| a == 1u64 << 46u64 ||| a == 1u64 << 47u64
        ||| a == 1u64 << 48u64 ||| a == 1u64 << 49u64 ||| a == 1u64 << 50u64 ||| a == 1u64 << 51u64
        ||| a == 1u64 << 52u64 ||| a == 1u64 << 53u64 ||| a == 1u64 << 54u64 ||| a == 1u64 << 55u64
        ||| a == 1u64 << 56u64 ||| a == 1u64 << 57u64 ||| a == 1u64 << 58u64 ||| a == 1u64 << 59u64
        ||| a == 1u64 << 60u64 ||| a == 1u64 << 61u64 ||| a == 1u64 << 62u64 ||| a == 1u64 << 63u64
    }) by (bit_vector);
}

/// A nonzero word with a single bit set is a power of two.
pub proof fn lemma_single_bit_pow2(a: usize)
    requires
        a != 0,
        a & ((a - 1) as usize) == 0,
    ensures
        is_pow2(a as int),
{
    assert((a as u64) & ((a - 1) as u64) == 0);
    lemma_single_bit_shift(a as u64);
    let k = choose|k: u64| k < 64 && a as u64 == #[trigger] (1u64 << k);
    lemma2_to64();
    vstd::arithmetic::power2::lemma2_to64_rest();
    lemma_u64_shl_is_mul(1, k);
    assert(pow2(k as nat) == a as int);
    vstd::arithmetic::power::lemma_pow_positive(2, k as nat);
    assert(pow(2, k as nat) == a as int);
    is_pow2_equiv(a as int);
}

/// Whether `n` is a power of two.
pub fn is_power_of_two(n: usize) -> (r: bool)
    ensures
        r == is_pow2(n as int),
{
    if n == 0 {
        proof {
            reveal(is_pow2);
        }
        false
    } else if n & (n - 1) == 0 {
        proof {
            lemma_single_bit_pow2(n);
        }
        true
    } else {
        proof {
            if is_pow2(n as int) {
                lemma_pow2_single_bit(n);
            }
        }
        false
    }
}

proof fn lemma_round_up_bits(x: usize, a: usize)
    by (bit_vector)
    requires
        a != 0 && a & ((a - 1) as usize) == 0,
        ((x + a - 1) as usize) == x + a - 1,
    ensures
        (((x + a - 1) as usize) & !((a - 1) as usize)) & ((a - 1) as usize) == 0,
        x <= (((x + a - 1) as usize) & !((a - 1) as usize)),
        (((x + a - 1) as usize) & !((a - 1) as usize)) - x < a,
{
}

/// A multiple of `align` in `[x, x + align)` is `align_up_spec(x, align)`.
pub proof fn lemma_align_up_unique(x: int, align: int, r: int)
    requires
        align > 0,
        r % align == 0,
        x <= r < x + align,
    ensures
        r == align_up_spec(x, align),
{
    let d = r - x;
    let m = x % align;
    vstd::arithmetic::div_mod::lemma_fundamental_div_mod(x, align);
    vstd::arithmetic::div_mod::lemma_fundamental_div_mod(r, align);
    let qx = x / align;
    let qr = r / align;
    assert(r == align * qr);
    assert(x == align * qx + m);
    assert(0 <= m < align);
    // align * (qr - qx) == d + m, with 0 <= d + m < 2 * align
    assert(align * (qr - qx) == d + m) by (nonlinear_arith)
        requires
            r == align * qr,
            x == align * qx + m,
            d == r - x,
    ;
    assert(qr - qx == 0 || qr - qx == 1) by (nonlinear_arith)
        requires
            align * (qr - qx) == d + m,
            0 <= d + m < 2 * align,
            align > 0,
    ;
    if qr - qx == 0 {
        assert(align * (qr - qx) == 0) by (nonlinear_arith)
            requires
                qr - qx == 0,
        ;
    } else {
        assert(align * (qr - qx) == align) by (nonlinear_arith)
            requires
                qr - qx == 1,
        ;
    }
}

/// `align_up_spec` yields a multiple of `align` in `[x, x + align)`.
pub proof fn lemma_align_up_spec(x: int, align: int)
    requires
        align > 0,
    ensures
        align_up_spec(x, align) % align == 0,
        x <= align_up_spec(x, align) < x + align,
{
    let m = x % align;
    vstd::arithmetic::div_mod::lemma_fundamental_div_mod(x, align);
    if m != 0 {
        let q = x / align;
        assert(x + align - m == align * (q + 1)) by (nonlinear_arith)
            requires
                x == align * q + m,
        ;
        vstd::arithmetic::div_mod::lemma_mod_multiples_basic(q + 1, align);
        assert((q + 1) * align == align * (q + 1)) by (nonlinear_arith);
    }
}

/// No multiple of `align` at or above `x` lies below `align_up_spec(x, align)`.
pub proof fn lemma_align_up_least(x: int, align: int, other: int)
    requires
        align > 0,
        x <= other,
        other % align == 0,
    ensures
        align_up_spec(x, align) <= other,
{
    lemma_align_up_spec(x, align);
    let r = align_up_spec(x, align);
    if other < r {
        lemma_align_up_unique(x, align, other);
    }
}

/// An untyped byte address. Address 0 is the null sentinel.
#[derive(Copy, Clone, Debug, PartialEq, Eq, Hash, Structural)]
pub struct Address(usize);

impl View for Address {
    type V = int;

    closed spec fn view(&self) -> int {
        self.0 as int
    }
}

impl Address {
    /// Every address is a machine word.
    pub proof fn lemma_view_range(self)
        ensures
            0 <= self@ <= usize::MAX,
    {
    }

    /// The address with the given value.
    pub fn from_usize(raw: usize) -> (r: Address)
        ensures
            r@ == raw,
    {
        Address(raw)
    }

    pub fn plus(&self, bytes: usize) -> (r: Address)
        requires
            self@ + bytes <= usize::MAX,
        ensures
            r@ == self@ + bytes,
    {
        Address(self.0 + bytes)
    }

    pub fn sub(&self, bytes: usize) -> (r: Address)
        requires
            bytes <= self@,
        ensures
            r@ == self@ - bytes,
    {
        Address(self.0 - bytes)
    }

    /// Moves by `offset` elements of type `T`; `offset` may be negative.
    pub fn offset<T>(&self, offset: isize) -> (r: Address)
        requires
            0 <= self@ + size_of::<T>() * offset <= usize::MAX,
        ensures
            r@ == self@ + size_of::<T>() * offset,
    {
        let width: usize = core::mem::size_of::<T>();
        if width == 0 {
            assert(size_of::<T>() * offset == 0) by (nonlinear_arith)
                requires
                    size_of::<T>() == 0,
            ;
            Address(self.0)
        } else if offset >= 0 {
            let count: usize = offset as usize;
            assert(width * count <= usize::MAX - self.0) by (nonlinear_arith)
                requires
                    self.0 + width * count <= usize::MAX,
            ;
            Address(self.0 + width * count)
        } else {
            let count: usize = (-(offset + 1)) as usize + 1;
            assert(count == -offset);
            assert(width * count == -(width * offset)) by (nonlinear_arith)
                requires
                    count == -offset,
            ;
            assert(width * count <= self.0);
            Address(self.0 - width * count)
        }
    }

    /// The distance from `another` up to `self`.
    pub fn diff(&self, another: Address) -> (r: usize)
        requires
            another@ <= self@,
        ensures
            r == self@ - another@,
    {
        self.0 - another.0
    }

    pub fn is_zero(&self) -> (r: bool)
        ensures
            r == (self@ == 0),
    {
        self.0 == 0
    }

    /// Rounds up to the next multiple of `align`, a power of two.
    pub fn align_up(&self, align: usize) -> (r: Address)
        requires
            is_pow2(align as int),
            self@ + align - 1 <= usize::MAX,
        ensures
            r@ == align_up_spec(self@, align as int),
            r@ == ((self@ + align - 1) as usize) & !((align - 1) as usize),
            r@ % (align as int) == 0,
            self@ <= r@ < self@ + align,
    {
        proof {
            lemma_pow2_single_bit(align);
        }
        let r: usize = (self.0 + (align - 1)) & !(align - 1);
        proof {
            lemma_round_up_bits(self.0, align);
            lemma_mask_is_mod(r, align);
            lemma_align_up_unique(self.0 as int, align as int, r as int);
        }
        Address(r)
    }

    /// Rounds up to the next multiple of `align`, a power of two, where
    /// that does not pass `limit`.
    pub fn align_up_bounded(&self, align: usize, limit: Address) -> (r: Option<Address>)
        requires
            is_pow2(align as int),
        ensures
            match r {
                Some(a) => a@ == align_up_spec(self@, align as int) && a@ <= limit@,
                None => align_up_spec(self@, align as int) > limit@,
            },
    {
        proof {
            lemma_pow2_single_bit(align);
            lemma_mask_is_mod(self.0, align);
        }
        let rest: usize = self.0 & (align - 1);
        let pad: usize = if rest == 0 {
            0
        } else {
            align - rest
        };
        if limit.0 < self.0 || limit.0 - self.0 < pad {
            None
        } else {
            Some(Address(self.0 + pad))
        }
    }

    pub fn is_aligned_to(&self, align: usize) -> (r: bool)
        requires
            align != 0,
        ensures
            r == (self@ % (align as int) == 0),
    {
        self.0 % align == 0
    }

    /// The object reference with this address as its base.
    pub closed spec fn to_object_reference_spec(&self) -> ObjectReference {
        ObjectReference(self.0)
    }

    /// The object reference with this address as its base.
    #[verifier::when_used_as_spec(to_object_reference_spec)]
    pub fn to_object_reference(&self) -> (r: ObjectReference)
        ensures
            r == self.to_object_reference_spec(),
            r@ == self@,
    {
        ObjectReference(self.0)
    }

    pub fn as_usize(&self) -> (r: usize)
        ensures
            r == self@,
    {
        self.0
    }

    /// The null address.
    pub fn zero() -> (r: Address)
        ensures
            r@ == 0,
    {
        Address(0)
    }
}

/// A reference to an object, by the address of its base. The value 0 is null.
#[derive(Copy, Clone, Debug, PartialEq, Eq, Hash, Structural)]
pub struct ObjectReference(usize);

impl View for ObjectReference {
    type V = int;

    closed spec fn view(&self) -> int {
        self.0 as int
    }
}

impl ObjectReference {
    pub fn to_address(&self) -> (r: Address)
        ensures
            r@ == self@,
    {
        Address(self.0)
    }

    pub fn is_null(&self) -> (r: bool)
        ensures
            r == (self@ == 0),
    {
        self.0 == 0
    }

    pub fn value(&self) -> (r: usize)
        ensures
            r == self@,
    {
        self.0
    }
}

/// Bit `index` of `value`, counted from the least significant bit.
pub open spec fn nth_bit(value: u8, index: nat) -> bool {
    (value as nat / pow2(index)) % 2 == 1
}

pub fn test_nth_bit(value: u8, index: usize) -> (r: bool)
    requires
        index < 8,
    ensures
        r == nth_bit(value, index as nat),
{
    proof {
        lemma2_to64();
        assert(index < 8 ==> ((value & (1u8 << index) != 0) <==> ((value >> index) & 1u8 == 1u8)))
            by (bit_vector);
        assert((value >> 0usize) & 1u8 == (value / 1) % 2) by (bit_vector);
        assert((value >> 1usize) & 1u8 == (value / 2) % 2) by (bit_vector);
        assert((value >> 2usize) & 1u8 == (value / 4) % 2) by (bit_vector);
        assert((value >> 3usize) & 1u8 == (value / 8) % 2) by (bit_vector);
        assert((value >> 4usize) & 1u8 == (value / 16) % 2) by (bit_vector);
        assert((value >> 5usize) & 1u8 == (value / 32) % 2) by (bit_vector);
        assert((value >> 6usize) & 1u8 == (value / 64) % 2) by (bit_vector);
        assert((value >> 7usize) & 1u8 == (value / 128) % 2) by (bit_vector);
    }
    value & (1u8 << index) != 0
}

pub fn lower_bits(value: u8, len: usize) -> (r: u8)
    requires
        len < 8,
    ensures
        r == value as nat % pow2(len as nat),
{
    proof {
        lemma2_to64();
        assert(value & (((1u8 << 0usize) - 1) as u8) == value % 1) by (bit_vector);
        assert(value & (((1u8 << 1usize) - 1) as u8) == value % 2) by (bit_vector);
        assert(value & (((1u8 << 2usize) - 1) as u8) == value % 4) by (bit_vector);
        assert(value & (((1u8 << 3usize) - 1) as u8) == value % 8) by (bit_vector);
        assert(value & (((1u8 << 4usize) - 1) as u8) == value % 16) by (bit_vector);
        assert(value & (((1u8 << 5usize) - 1) as u8) == value % 32) by (bit_vector);
        assert(value & (((1u8 << 6usize) - 1) as u8) == value % 64) by (bit_vector);
        assert(value & (((1u8 << 7usize) - 1) as u8) == value % 128) by (bit_vector);
        assert(len < 8 ==> (1u8 << len) >= 1) by (bit_vector);
    }
    value & ((1u8 << len) - 1)
}

} // verus!
