//! Building the labels of derived nodes.
use vstd::prelude::*;

verus! {

/// Trusted: `String::push_str` of the standard library, which appends the
/// whole of `tail` to the end of `text` and changes nothing else.
#[verifier::external_body]
pub(crate) fn append(text: &mut String, tail: &str)
    ensures
        final(text)@ == old(text)@ + tail@,
{
    text.push_str(tail);
}

/// The label of a node with two operands: `(left symbol right)`, where
/// `symbol` carries its own surrounding blanks.
pub open spec fn binary_text(left: Seq<char>, symbol: Seq<char>, right: Seq<char>) -> Seq<char> {
    "("@ + left + symbol + right + ")"@
}

/// The label of a hyperbolic tangent node: `tanh(inner)`.
pub open spec fn tanh_text(inner: Seq<char>) -> Seq<char> {
    "tanh("@ + inner + ")"@
}

/// The label of a power node: `base^exponent`.
pub open spec fn power_text(base: Seq<char>, exponent: Seq<char>) -> Seq<char> {
    base + "^"@ + exponent
}

/// The label of a neuron's weight: `w_` and then the digits of its
/// position.
pub open spec fn weight_text(digits: Seq<char>) -> Seq<char> {
    "w_"@ + digits
}

pub fn binary_label(left: &str, symbol: &str, right: &str) -> (r: String)
    ensures
        r@ == binary_text(left@, symbol@, right@),
{
    let mut r = String::new();
    append(&mut r, "(");
    append(&mut r, left);
    append(&mut r, symbol);
    append(&mut r, right);
    append(&mut r, ")");
    r
}

pub fn tanh_label(inner: &str) -> (r: String)
    ensures
        r@ == tanh_text(inner@),
{
    let mut r = String::new();
    append(&mut r, "tanh(");
    append(&mut r, inner);
    append(&mut r, ")");
    r
}

pub fn power_label(base: &str, exponent: &str) -> (r: String)
    ensures
        r@ == power_text(base@, exponent@),
{
    let mut r = String::new();
    append(&mut r, base);
    append(&mut r, "^");
    append(&mut r, exponent);
    r
}

pub fn weight_label(digits: &str) -> (r: String)
    ensures
        r@ == weight_text(digits@),
{
    let mut r = String::new();
    append(&mut r, "w_");
    append(&mut r, digits);
    r
}

/// The character of one decimal digit.
pub open spec fn digit_text(d: nat) -> Seq<char> {
    if d == 0 {
        "0"@
    } else if d == 1 {
        "1"@
    } else if d == 2 {
        "2"@
    } else if d == 3 {
        "3"@
    } else if d == 4 {
        "4"@
    } else if d == 5 {
        "5"@
    } else if d == 6 {
        "6"@
    } else if d == 7 {
        "7"@
    } else if d == 8 {
        "8"@
    } else {
        "9"@
    }
}

/// A number in decimal digits, without leading zeros; zero is `0`.
pub open spec fn decimal_text(n: nat) -> Seq<char>
    decreases n,
{
    if n < 10 {
        digit_text(n)
    } else {
        decimal_text(n / 10) + digit_text(n % 10)
    }
}

/// Appends `n` in decimal digits to `text`.
pub fn append_decimal(text: &mut String, n: usize)
    ensures
        final(text)@ == old(text)@ + decimal_text(n as nat),
    decreases n,
{
    if n >= 10 {
        append_decimal(text, n / 10);
    }
    let d: usize = n % 10;
    let digit = if d == 0 {
        "0"
    } else if d == 1 {
        "1"
    } else if d == 2 {
        "2"
    } else if d == 3 {
        "3"
    } else if d == 4 {
        "4"
    } else if d == 5 {
        "5"
    } else if d == 6 {
        "6"
    } else if d == 7 {
        "7"
    } else if d == 8 {
        "8"
    } else {
        "9"
    };
    append(text, digit);
    assert(text@ =~= old(text)@ + decimal_text(n as nat));
}

} // verus!
