//! What numbers that are written out stand for.
use crate::text::{decimal, digit, digits, hexadecimal, signed};
use vstd::prelude::*;
use vstd::string::*;

verus! {

/// What a digit stands for.
pub open spec fn digit_value(c: char) -> int {
    if '0' <= c && c <= '9' {
        c as int - '0' as int
    } else {
        c as int - 'a' as int + 10
    }
}

/// What digits stand for, the most significant one first.
pub open spec fn number(text: Seq<char>, base: int) -> int
    decreases text.len(),
{
    if text.len() == 0 {
        0
    } else {
        number(text.drop_last(), base) * base + digit_value(text.last())
    }
}

/// Whether a character is one of the ten digits.
pub open spec fn is_decimal(c: char) -> bool {
    '0' <= c && c <= '9'
}

/// Whether a character is one of the sixteen digits.
pub open spec fn is_hexadecimal(c: char) -> bool {
    ('0' <= c && c <= '9') || ('a' <= c && c <= 'f')
}

/// What a digit looks like.
proof fn lemma_digit(d: nat)
    requires
        d < 16,
    ensures
        digit_value(digit(d)) == d,
        d < 10 ==> is_decimal(digit(d)),
        is_hexadecimal(digit(d)),
        digit(d) == '0' <==> d == 0,
{
    reveal_strlit("0123456789abcdef");
}

/// What the digits of a number stand for.
proof fn lemma_digits(n: nat, base: nat)
    requires
        2 <= base <= 16,
    ensures
        digits(n, base).len() >= 1,
        number(digits(n, base), base as int) == n,
        forall|i: int|
            0 <= i < digits(n, base).len() ==> is_hexadecimal(#[trigger] digits(n, base)[i]) && (
            base <= 10 ==> is_decimal(digits(n, base)[i])),
        digits(n, base)[0] == '0' <==> n == 0,
        n == 0 ==> digits(n, base).len() == 1,
    decreases n,
{
    let text = digits(n, base);
    if n < base {
        lemma_digit(n);
        assert(text.drop_last() =~= Seq::<char>::empty());
        assert(number(text.drop_last(), base as int) == 0);
    } else {
        let q = n / base;
        let r = n % base;
        assert(q < n && 1 <= q && q * base + r == n && r < base) by (nonlinear_arith)
            requires
                2 <= base <= n,
                q == n / base,
                r == n % base,
        ;
        lemma_digits(q, base);
        lemma_digit(r);
        assert(text.drop_last() =~= digits(q, base));
        assert(text[0] == digits(q, base)[0]);
        assert forall|i: int| 0 <= i < text.len() implies is_hexadecimal(#[trigger] text[i]) && (
        base <= 10 ==> is_decimal(text[i])) by {
            if i < text.len() - 1 {
                assert(text[i] == digits(q, base)[i]);
            }
        }
    }
}

/// A number in decimal notation is made of decimal digits, which stand for it, and has no leading
/// zero.
pub proof fn lemma_decimal(n: nat)
    ensures
        number(decimal(n), 10) == n,
        decimal(n).len() >= 1,
        forall|i: int| 0 <= i < decimal(n).len() ==> is_decimal(#[trigger] decimal(n)[i]),
        decimal(n)[0] == '0' ==> decimal(n).len() == 1,
{
    lemma_digits(n, 10);
}

/// A number in hexadecimal notation is made of hexadecimal digits, which stand for it, and has no
/// leading zero.
pub proof fn lemma_hexadecimal(n: nat)
    ensures
        number(hexadecimal(n), 16) == n,
        hexadecimal(n).len() >= 1,
        forall|i: int|
            0 <= i < hexadecimal(n).len() ==> is_hexadecimal(#[trigger] hexadecimal(n)[i]),
        hexadecimal(n)[0] == '0' ==> hexadecimal(n).len() == 1,
{
    lemma_digits(n, 16);
}

/// A number with a sign has its sign first, and then its size.
pub proof fn lemma_signed(n: int)
    ensures
        signed(n).len() >= 2,
        signed(n)[0] == if n < 0 {
            '-'
        } else {
            '+'
        },
        number(signed(n).drop_first(), 10) == if n < 0 {
            -n
        } else {
            n
        },
        forall|i: int| 1 <= i < signed(n).len() ==> is_decimal(#[trigger] signed(n)[i]),
        signed(n)[1] == '0' ==> n == 0,
{
    reveal_strlit("-");
    reveal_strlit("+");
    let size: nat = if n < 0 {
        (-n) as nat
    } else {
        n as nat
    };
    lemma_digits(size, 10);
    assert(signed(n).drop_first() =~= decimal(size));
    assert forall|i: int| 1 <= i < signed(n).len() implies is_decimal(#[trigger] signed(n)[i]) by {
        assert(signed(n)[i] == decimal(size)[i - 1]);
    }
}

/// Different numbers are written differently.
pub proof fn lemma_decimal_distinct(a: nat, b: nat)
    ensures
        decimal(a) == decimal(b) <==> a == b,
        hexadecimal(a) == hexadecimal(b) <==> a == b,
{
    lemma_decimal(a);
    lemma_decimal(b);
    lemma_hexadecimal(a);
    lemma_hexadecimal(b);
}

} // verus!
