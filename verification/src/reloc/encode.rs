//! Writing numbers into the places that relocations name.
use crate::reloc::info::RelocationType;
use vstd::arithmetic::div_mod::{lemma_div_denominator, lemma_fundamental_div_mod};
use vstd::prelude::*;

verus! {

/// Powers of a base.
pub open spec fn power(base: int, i: nat) -> int
    decreases i,
{
    if i == 0 {
        1
    } else {
        base * power(base, (i - 1) as nat)
    }
}

/// Powers of a positive base are positive.
pub proof fn lemma_power_positive(base: int, i: nat)
    requires
        base > 0,
    ensures
        power(base, i) > 0,
    decreases i,
{
    if i > 0 {
        lemma_power_positive(base, (i - 1) as nat);
        let rest = power(base, (i - 1) as nat);
        assert(base * rest > 0) by (nonlinear_arith)
            requires
                base > 0,
                rest > 0,
        ;
    }
}

/// Dividing by a power and then by the base is dividing by the next power.
proof fn lemma_next_digit(value: int, base: int, i: nat)
    requires
        base > 0,
        value >= 0,
    ensures
        value / power(base, i) / base == value / power(base, i + 1),
{
    lemma_power_positive(base, i);
    lemma_div_denominator(value, power(base, i), base);
    let p = power(base, i);
    assert(p * base == base * p) by (nonlinear_arith);
}

/// A digit of a number; negative numbers have infinitely many leading digits `base - 1`.
pub open spec fn digit_at(value: int, base: int, i: nat) -> int {
    (value / power(base, i)) % base
}

/// The byte at position `i` of a number that is written as LEB128 with `n` bytes: seven bits of the
/// number, and the mark that more bytes follow.
pub open spec fn leb_byte(value: int, i: int, n: int) -> int {
    digit_at(value, 128, i as nat) + if i < n - 1 {
        128int
    } else {
        0int
    }
}

/// `bytes` is a number as LEB128.
pub open spec fn is_leb(value: int, bytes: Seq<u8>) -> bool {
    forall|i: int|
        0 <= i < bytes.len() ==> #[trigger] bytes[i] == leb_byte(value, i, bytes.len() as int)
}

/// `bytes` is a number, the least significant byte first.
pub open spec fn is_le(value: int, bytes: Seq<u8>) -> bool {
    forall|i: int|
        0 <= i < bytes.len() ==> #[trigger] bytes[i] == digit_at(value, 256, i as nat)
}

/// Writes a number as LEB128 into all bytes of an array.
fn put_leb<const N: usize>(value: u128, buf: &mut [u8; N])
    ensures
        is_leb(value as int, final(buf)@),
{
    let mut rest: u128 = value;
    for i in 0..N
        invariant
            rest == value as int / power(128, i as nat),
            forall|j: int|
                0 <= j < i ==> #[trigger] buf@[j] == leb_byte(value as int, j, N as int),
    {
        let low: u8 = (rest % 128) as u8;
        buf[i] = if i + 1 < N {
            low + 128
        } else {
            low
        };
        rest = rest / 128;
        proof {
            lemma_next_digit(value as int, 128, i as nat);
        }
    }
}

/// Writes a number into all bytes of an array, the least significant byte first.
fn put_le<const N: usize>(value: u64, buf: &mut [u8; N])
    ensures
        is_le(value as int, final(buf)@),
{
    let mut rest: u64 = value;
    for i in 0..N
        invariant
            rest == value as int / power(256, i as nat),
            forall|j: int|
                0 <= j < i ==> #[trigger] buf@[j] == digit_at(value as int, 256, j as nat),
    {
        buf[i] = (rest % 256) as u8;
        rest = rest / 256;
        proof {
            lemma_next_digit(value as int, 256, i as nat);
        }
    }
}

/// Adding a power of the base does not change the digits below it.
proof fn lemma_digits_below(value: int, base: int, n: nat, i: nat)
    requires
        base > 1,
        i < n,
    ensures
        digit_at(value + power(base, n), base, i) == digit_at(value, base, i),
{
    let p = power(base, i);
    let q = power(base, (n - i) as nat);
    let r = power(base, (n - i - 1) as nat);
    lemma_power_positive(base, i);
    lemma_power_split(base, i, (n - i) as nat);
    assert(q == base * r);
    assert((value + p * q) / p == value / p + q) by {
        vstd::arithmetic::div_mod::lemma_hoist_over_denominator(value, q, p as nat);
    }
    assert(p * q == q * p) by (nonlinear_arith);
    assert((value / p + base * r) % base == (value / p) % base) by {
        vstd::arithmetic::div_mod::lemma_mod_multiples_vanish(r, value / p, base);
    }
    assert(power(base, n) == p * q);
}

/// A power is the product of two smaller ones.
proof fn lemma_power_split(base: int, i: nat, j: nat)
    ensures
        power(base, i + j) == power(base, i) * power(base, j),
    decreases i,
{
    if i == 0 {
        assert(power(base, 0) == 1);
    } else {
        lemma_power_split(base, (i - 1) as nat, j);
        let a = power(base, (i - 1) as nat);
        let b = power(base, j);
        assert(power(base, i + j) == base * power(base, ((i - 1) as nat + j) as nat));
        assert(base * (a * b) == (base * a) * b) by (nonlinear_arith);
    }
}

/// Writes an unsigned 32-bit number as LEB128 with five bytes.
pub fn encode_leb128_u32_5byte(value: u32, buf: &mut [u8; 5])
    ensures
        is_leb(value as int, final(buf)@),
{
    put_leb(value as u128, buf);
}

/// Writes a signed 32-bit number as LEB128 with five bytes.
pub fn encode_leb128_i32_5byte(value: i32, buf: &mut [u8; 5])
    ensures
        is_leb(value as int, final(buf)@),
{
    // 128 to the fifth does not change the digits, and makes the number positive.
    put_leb((value as i128 + 0x8_0000_0000) as u128, buf);
    proof {
        assert(power(128, 5) == 0x8_0000_0000) by {
            reveal_with_fuel(power, 6);
        }
        assert forall|i: int| 0 <= i < 5 implies #[trigger] buf@[i] == leb_byte(
            value as int,
            i,
            5,
        ) by {
            lemma_digits_below(value as int, 128, 5, i as nat);
        }
    }
}

/// Writes an unsigned 64-bit number as LEB128 with ten bytes.
pub fn encode_leb128_u64_10byte(value: u64, buf: &mut [u8; 10])
    ensures
        is_leb(value as int, final(buf)@),
{
    put_leb(value as u128, buf);
}

/// Writes a signed 64-bit number as LEB128 with ten bytes.
pub fn encode_leb128_i64_10byte(value: i64, buf: &mut [u8; 10])
    ensures
        is_leb(value as int, final(buf)@),
{
    // 128 to the tenth does not change the digits, and makes the number positive.
    put_leb((value as i128 + 0x40_0000_0000_0000_0000) as u128, buf);
    proof {
        assert(power(128, 10) == 0x40_0000_0000_0000_0000) by {
            reveal_with_fuel(power, 11);
        }
        assert forall|i: int| 0 <= i < 10 implies #[trigger] buf@[i] == leb_byte(
            value as int,
            i,
            10,
        ) by {
            lemma_digits_below(value as int, 128, 10, i as nat);
        }
    }
}

/// Writes a 32-bit number, the least significant byte first.
pub fn encode_u32(value: u32, buf: &mut [u8; 4])
    ensures
        is_le(value as int, final(buf)@),
{
    put_le(value as u64, buf);
}

/// Writes a 64-bit number, the least significant byte first.
pub fn encode_u64(value: u64, buf: &mut [u8; 8])
    ensures
        is_le(value as int, final(buf)@),
{
    put_le(value, buf);
}

/// The number that digits stand for, the least significant one first.
pub open spec fn number_of(digits: Seq<int>, base: int) -> int
    decreases digits.len(),
{
    if digits.len() == 0 {
        0
    } else {
        number_of(digits.drop_last(), base) + digits.last() * power(
            base,
            (digits.len() - 1) as nat,
        )
    }
}

/// The digits of a number stand for what is left of it when it is divided by the next power.
proof fn lemma_number_of(value: int, base: int, digits: Seq<int>)
    requires
        base > 1,
        forall|i: int|
            0 <= i < digits.len() ==> #[trigger] digits[i] == digit_at(value, base, i as nat),
    ensures
        number_of(digits, base) == value % power(base, digits.len()),
    decreases digits.len(),
{
    let n = digits.len();
    lemma_power_positive(base, n);
    if n == 0 {
        assert(value % 1 == 0);
    } else {
        let rest = digits.drop_last();
        assert forall|i: int| 0 <= i < rest.len() implies #[trigger] rest[i] == digit_at(
            value,
            base,
            i as nat,
        ) by {
            assert(rest[i] == digits[i]);
        }
        lemma_number_of(value, base, rest);
        let a = power(base, (n - 1) as nat);
        lemma_power_positive(base, (n - 1) as nat);
        let q = value / a;
        let r = value % a;
        let h = q / base;
        let d = q % base;
        lemma_fundamental_div_mod(value, a);
        lemma_fundamental_div_mod(q, base);
        assert(digits.last() == d);
        let m = base * a;
        assert(value == h * m + (d * a + r)) by (nonlinear_arith)
            requires
                value == a * q + r,
                q == base * h + d,
                m == base * a,
        ;
        assert(0 <= d * a + r < m) by (nonlinear_arith)
            requires
                0 <= d < base,
                0 <= r < a,
                m == base * a,
        ;
        vstd::arithmetic::div_mod::lemma_fundamental_div_mod_converse(value, m, h, d * a + r);
    }
}

/// The number that LEB128 bytes stand for, without a sign.
pub open spec fn leb_value(bytes: Seq<u8>) -> int {
    number_of(Seq::new(bytes.len(), |i: int| bytes[i] as int % 128), 128)
}

/// The number that LEB128 bytes stand for, with a sign.
pub open spec fn signed_leb_value(bytes: Seq<u8>) -> int {
    let all = power(128, bytes.len());
    if 2 * leb_value(bytes) >= all {
        leb_value(bytes) - all
    } else {
        leb_value(bytes)
    }
}

/// The number that bytes stand for, the least significant one first.
pub open spec fn le_value(bytes: Seq<u8>) -> int {
    number_of(Seq::new(bytes.len(), |i: int| bytes[i] as int), 256)
}

/// Reading a number that was written as LEB128 gives the number back, if the bytes have room for
/// it: as unsigned number, or as signed one.
pub proof fn lemma_leb_round_trip(value: int, bytes: Seq<u8>)
    requires
        is_leb(value, bytes),
    ensures
        0 <= value < power(128, bytes.len()) ==> leb_value(bytes) == value,
        -power(128, bytes.len()) <= 2 * value < power(128, bytes.len()) ==> signed_leb_value(bytes)
            == value,
{
    let n = bytes.len();
    let all = power(128, n);
    let digits = Seq::new(n, |i: int| bytes[i] as int % 128);
    lemma_power_positive(128, n);
    assert forall|i: int| 0 <= i < n implies #[trigger] digits[i] == digit_at(
        value,
        128,
        i as nat,
    ) by {
        let d = digit_at(value, 128, i as nat);
        assert(bytes[i] == leb_byte(value, i, n as int));
        assert(0 <= d < 128);
    }
    lemma_number_of(value, 128, digits);
    if 0 <= value < all {
        vstd::arithmetic::div_mod::lemma_small_mod(value as nat, all as nat);
    }
    if -all <= 2 * value < 0 {
        vstd::arithmetic::div_mod::lemma_fundamental_div_mod_converse(value, all, -1, value + all);
    }
}

/// Reading a number that was written with its least significant byte first gives the number back,
/// if the bytes have room for it.
pub proof fn lemma_le_round_trip(value: int, bytes: Seq<u8>)
    requires
        is_le(value, bytes),
        0 <= value < power(256, bytes.len()),
    ensures
        le_value(bytes) == value,
{
    let n = bytes.len();
    let digits = Seq::new(n, |i: int| bytes[i] as int);
    lemma_number_of(value, 256, digits);
    vstd::arithmetic::div_mod::lemma_small_mod(value as nat, power(256, n) as nat);
}

/// How a relocation writes a value.
#[derive(Debug, PartialEq, Eq, Clone, Copy, Structural)]
pub enum Encoding {
    /// As unsigned 32-bit number, the least significant byte first.
    U32,
    /// As unsigned 32-bit number, as LEB128 with five bytes.
    Leb32,
    /// As signed 32-bit number, as LEB128 with five bytes.
    Sleb32,
    /// As unsigned 64-bit number, the least significant byte first.
    U64,
    /// As unsigned 64-bit number, as LEB128 with ten bytes.
    Leb64,
    /// As signed 64-bit number, as LEB128 with ten bytes.
    Sleb64,
}

impl Encoding {
    /// How many bytes are written.
    pub open spec fn size(self) -> nat {
        match self {
            Encoding::U32 => 4,
            Encoding::Leb32 | Encoding::Sleb32 => 5,
            Encoding::U64 => 8,
            Encoding::Leb64 | Encoding::Sleb64 => 10,
        }
    }

    /// Whether a value can be written.
    pub open spec fn fits(self, value: int) -> bool {
        match self {
            Encoding::U32 | Encoding::Leb32 => 0 <= value <= u32::MAX,
            Encoding::Sleb32 => i32::MIN <= value <= i32::MAX,
            Encoding::U64 | Encoding::Leb64 => 0 <= value <= u64::MAX,
            Encoding::Sleb64 => i64::MIN <= value <= i64::MAX,
        }
    }

    /// `bytes` are what is written for a value.
    pub open spec fn writes(self, value: int, bytes: Seq<u8>) -> bool {
        &&& bytes.len() == self.size()
        &&& match self {
            Encoding::U32 | Encoding::U64 => is_le(value, bytes),
            _ => is_leb(value, bytes),
        }
    }

    /// How many bytes are written.
    pub fn len(self) -> (len: usize)
        ensures
            len == self.size(),
    {
        match self {
            Encoding::U32 => 4,
            Encoding::Leb32 | Encoding::Sleb32 => 5,
            Encoding::U64 => 8,
            Encoding::Leb64 | Encoding::Sleb64 => 10,
        }
    }

    /// Whether a value can be written.
    pub fn can_write(self, value: i64) -> (fits: bool)
        ensures
            fits == self.fits(value as int),
    {
        match self {
            Encoding::U32 | Encoding::Leb32 => 0 <= value && value <= 0xffff_ffff,
            Encoding::Sleb32 => -0x8000_0000 <= value && value <= 0x7fff_ffff,
            Encoding::U64 | Encoding::Leb64 => 0 <= value,
            Encoding::Sleb64 => true,
        }
    }

    /// Writes a value over the bytes at `at`.
    pub fn write(self, value: i64, data: &mut Vec<u8>, at: usize)
        requires
            self.fits(value as int),
            at + self.size() <= old(data)@.len(),
        ensures
            final(data)@.len() == old(data)@.len(),
            self.writes(value as int, final(data)@.subrange(at as int, at + self.size())),
            forall|i: int|
                0 <= i < at || at + self.size() <= i < old(data)@.len() ==> final(data)@[i] == old(
                    data,
                )@[i],
    {
        match self {
            Encoding::U32 => {
                let mut buf: [u8; 4] = [0; 4];
                encode_u32(value as u32, &mut buf);
                copy_to(&buf, data, at);
            },
            Encoding::Leb32 => {
                let mut buf: [u8; 5] = [0; 5];
                encode_leb128_u32_5byte(value as u32, &mut buf);
                copy_to(&buf, data, at);
            },
            Encoding::Sleb32 => {
                let mut buf: [u8; 5] = [0; 5];
                encode_leb128_i32_5byte(value as i32, &mut buf);
                copy_to(&buf, data, at);
            },
            Encoding::U64 => {
                let mut buf: [u8; 8] = [0; 8];
                encode_u64(value as u64, &mut buf);
                copy_to(&buf, data, at);
            },
            Encoding::Leb64 => {
                let mut buf: [u8; 10] = [0; 10];
                encode_leb128_u64_10byte(value as u64, &mut buf);
                copy_to(&buf, data, at);
            },
            Encoding::Sleb64 => {
                let mut buf: [u8; 10] = [0; 10];
                encode_leb128_i64_10byte(value, &mut buf);
                copy_to(&buf, data, at);
            },
        }
    }
}

/// Copies an array over the bytes at `at`.
fn copy_to<const N: usize>(buf: &[u8; N], data: &mut Vec<u8>, at: usize)
    requires
        at + N <= old(data)@.len(),
    ensures
        final(data)@.len() == old(data)@.len(),
        final(data)@.subrange(at as int, at + N) == buf@,
        forall|i: int|
            0 <= i < at || at + N <= i < old(data)@.len() ==> final(data)@[i] == old(data)@[i],
{
    let total: usize = data.len();
    for k in 0..N
        invariant
            at + N <= total,
            data@.len() == total,
            data@.len() == old(data)@.len(),
            forall|i: int| 0 <= i < k ==> #[trigger] data@[at + i] == buf@[i],
            forall|i: int|
                0 <= i < at || at + N <= i < old(data)@.len() ==> data@[i] == old(data)@[i],
    {
        data[at + k] = buf[k];
    }
    proof {
        let copy = data@.subrange(at as int, at + N);
        assert forall|i: int| 0 <= i < N implies #[trigger] copy[i] == buf@[i] by {
            assert(data@[at + i] == buf@[i]);
        }
        assert(copy =~= buf@);
    }
}

/// How a relocation type writes its value.
pub open spec fn encoding_of(ty: RelocationType) -> Encoding {
    match ty {
        RelocationType::TableIndexI32
        | RelocationType::MemoryAddrI32
        | RelocationType::FunctionOffsetI32
        | RelocationType::SectionOffsetI32
        | RelocationType::GlobalIndexI32
        | RelocationType::FunctionIndexI32
        | RelocationType::MemoryAddrLocrelI32 => Encoding::U32,
        RelocationType::FunctionIndexLeb
        | RelocationType::MemoryAddrLeb
        | RelocationType::TypeIndexLeb
        | RelocationType::GlobalIndexLeb
        | RelocationType::EventIndexLeb
        | RelocationType::TableNumberLeb => Encoding::Leb32,
        RelocationType::TableIndexSleb
        | RelocationType::MemoryAddrSleb
        | RelocationType::MemoryAddrRelSleb
        | RelocationType::TableIndexRelSleb
        | RelocationType::MemoryAddrTlsSleb => Encoding::Sleb32,
        RelocationType::FunctionOffsetI64
        | RelocationType::MemoryAddrI64
        | RelocationType::TableIndexI64 => Encoding::U64,
        RelocationType::MemoryAddrLeb64 => Encoding::Leb64,
        RelocationType::MemoryAddrRelSleb64
        | RelocationType::TableIndexSleb64
        | RelocationType::TableIndexRelSleb64
        | RelocationType::MemoryAddrTlsSleb64
        | RelocationType::MemoryAddrSleb64 => Encoding::Sleb64,
    }
}

/// Finds how a relocation type writes its value.
pub fn encode_for_ty(ty: RelocationType) -> (encoding: Encoding)
    ensures
        encoding == encoding_of(ty),
{
    match ty {
        RelocationType::TableIndexI32
        | RelocationType::MemoryAddrI32
        | RelocationType::FunctionOffsetI32
        | RelocationType::SectionOffsetI32
        | RelocationType::GlobalIndexI32
        | RelocationType::FunctionIndexI32
        | RelocationType::MemoryAddrLocrelI32 => Encoding::U32,
        RelocationType::FunctionIndexLeb
        | RelocationType::MemoryAddrLeb
        | RelocationType::TypeIndexLeb
        | RelocationType::GlobalIndexLeb
        | RelocationType::EventIndexLeb
        | RelocationType::TableNumberLeb => Encoding::Leb32,
        RelocationType::TableIndexSleb
        | RelocationType::MemoryAddrSleb
        | RelocationType::MemoryAddrRelSleb
        | RelocationType::TableIndexRelSleb
        | RelocationType::MemoryAddrTlsSleb => Encoding::Sleb32,
        RelocationType::FunctionOffsetI64
        | RelocationType::MemoryAddrI64
        | RelocationType::TableIndexI64 => Encoding::U64,
        RelocationType::MemoryAddrLeb64 => Encoding::Leb64,
        RelocationType::MemoryAddrRelSleb64
        | RelocationType::TableIndexSleb64
        | RelocationType::TableIndexRelSleb64
        | RelocationType::MemoryAddrTlsSleb64
        | RelocationType::MemoryAddrSleb64 => Encoding::Sleb64,
    }
}

} // verus!
