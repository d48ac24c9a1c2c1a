//! Numbers and other values as text.
use vstd::prelude::*;
use vstd::string::*;

verus! {

/// The digit for a number less than sixteen.
pub open spec fn digit(d: nat) -> char {
    "0123456789abcdef"@[d as int]
}

/// The digits of a number, the most significant one first, without leading zeros.
pub open spec fn digits(n: nat, base: nat) -> Seq<char>
    recommends
        2 <= base <= 16,
    decreases n,
{
    if n < base || base < 2 {
        seq![digit(n)]
    } else {
        proof {
            assert(n / base < n) by (nonlinear_arith)
                requires
                    2 <= base <= n,
            ;
        }
        digits(n / base, base).push(digit(n % base))
    }
}

/// Writes out a number.
fn write_digits(n: u128, base: u128) -> (text: String)
    requires
        2 <= base <= 16,
    ensures
        text@ == digits(n as nat, base as nat),
    decreases n,
{
    let all = "0123456789abcdef";
    proof {
        reveal_strlit("0123456789abcdef");
        vstd::arithmetic::div_mod::lemma_fundamental_div_mod(n as int, base as int);
    }
    if n < base {
        let d: usize = n as usize;
        let last = all.substring_ascii(d, d + 1);
        assert(last@ =~= seq![digit(n as nat)]);
        last.to_owned()
    } else {
        assert(n / base < n) by (nonlinear_arith)
            requires
                2 <= base <= n,
        ;
        let mut text = write_digits(n / base, base);
        let d: usize = (n % base) as usize;
        let last = all.substring_ascii(d, d + 1);
        assert(last@ =~= seq![digit((n % base) as nat)]);
        let ghost before = text@;
        text.append(last);
        assert(text@ =~= before.push(digit((n % base) as nat)));
        text
    }
}

/// A number in decimal notation.
pub open spec fn decimal(n: nat) -> Seq<char> {
    digits(n, 10)
}

/// Writes out a number in decimal notation.
pub fn to_decimal(n: usize) -> (text: String)
    ensures
        text@ == decimal(n as nat),
{
    write_digits(n as u128, 10)
}

/// Writes out a large number in decimal notation.
pub fn to_decimal_wide(n: u128) -> (text: String)
    ensures
        text@ == decimal(n as nat),
{
    write_digits(n, 10)
}

/// A number in hexadecimal notation, with lower case letters.
pub open spec fn hexadecimal(n: nat) -> Seq<char> {
    digits(n, 16)
}

/// Writes out a number in hexadecimal notation.
pub fn to_hexadecimal(n: u64) -> (text: String)
    ensures
        text@ == hexadecimal(n as nat),
{
    write_digits(n as u128, 16)
}

/// A number in decimal notation, with its sign.
pub open spec fn signed(n: int) -> Seq<char> {
    if n < 0 {
        "-"@ + decimal((-n) as nat)
    } else {
        "+"@ + decimal(n as nat)
    }
}

/// Writes out a number in decimal notation, with its sign.
pub fn to_signed(n: i64) -> (text: String)
    ensures
        text@ == signed(n as int),
{
    let (sign, size): (&str, u64) = if n == i64::MIN {
        ("-", 0x8000_0000_0000_0000)
    } else if n < 0 {
        ("-", (-n) as u64)
    } else {
        ("+", n as u64)
    };
    let mut text = sign.to_owned();
    text.append(write_digits(size as u128, 10).as_str());
    text
}

/// How a text is printed for debugging: in quotation marks, with escapes.
pub uninterp spec fn quoted(text: Seq<char>) -> Seq<char>;

/// Prints a text for debugging, as `std::fmt::Debug` does for `str`.
///
/// What is printed is named, not described.
#[verifier::external_body]
pub(crate) fn quote(text: &str) -> (quoted_text: String)
    ensures
        quoted_text@ == quoted(text@),
{
    format!("{text:?}")
}

/// How a text that may be missing is printed for debugging.
pub open spec fn optional_text(text: Option<Seq<char>>) -> Seq<char> {
    match text {
        Some(text) => "Some("@ + quoted(text) + ")"@,
        None => "None"@,
    }
}

/// Prints a text that may be missing for debugging.
pub fn print_optional(text: Option<&str>) -> (printed: String)
    ensures
        printed@ == optional_text(
            match text {
                Some(text) => Some(text@),
                None => None,
            },
        ),
{
    match text {
        Some(text) => {
            let mut printed = "Some(".to_owned();
            printed.append(quote(text).as_str());
            printed.append(")");
            printed
        },
        None => "None".to_owned(),
    }
}

} // verus!
