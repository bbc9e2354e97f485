//! Small helpers on strings: comparing, appending a character, rendering a
//! number in decimal and quoting text the way the standard formatter does.
use vstd::prelude::*;
use vstd::string::StringExecFns;

verus! {

/// `String::push` appends the character to the end of the string.
pub assume_specification[ String::push ](s: &mut String, ch: char)
    ensures
        final(s)@ == old(s)@.push(ch),
;

/// `str`'s `==` compares the two texts character by character.
pub assume_specification[ <str as PartialEq>::eq ](a: &str, b: &str) -> (same: bool)
    ensures
        same == (a@ == b@),
;

/// The decimal digit for a value below ten.
pub open spec fn digit_char(d: nat) -> char {
    if d == 0 {
        '0'
    } else if d == 1 {
        '1'
    } else if d == 2 {
        '2'
    } else if d == 3 {
        '3'
    } else if d == 4 {
        '4'
    } else if d == 5 {
        '5'
    } else if d == 6 {
        '6'
    } else if d == 7 {
        '7'
    } else if d == 8 {
        '8'
    } else {
        '9'
    }
}

/// The decimal numeral of `n`, most significant digit first, without
/// leading zeros.
pub open spec fn decimal_digits(n: nat) -> Seq<char>
    decreases n,
{
    if n < 10 {
        seq![digit_char(n)]
    } else {
        decimal_digits(n / 10).push(digit_char(n % 10))
    }
}

fn digit(d: u32) -> (c: char)
    requires
        d < 10,
    ensures
        c == digit_char(d as nat),
{
    if d == 0 {
        '0'
    } else if d == 1 {
        '1'
    } else if d == 2 {
        '2'
    } else if d == 3 {
        '3'
    } else if d == 4 {
        '4'
    } else if d == 5 {
        '5'
    } else if d == 6 {
        '6'
    } else if d == 7 {
        '7'
    } else if d == 8 {
        '8'
    } else {
        '9'
    }
}

/// Appends the decimal numeral of `n` to `out`.
pub fn push_decimal(out: &mut String, n: u32)
    ensures
        final(out)@ == old(out)@ + decimal_digits(n as nat),
    decreases n,
{
    if n >= 10 {
        push_decimal(out, n / 10);
    }
    out.push(digit(n % 10));
    proof {
        if n >= 10 {
            assert(old(out)@ + decimal_digits((n / 10) as nat).push(digit_char((n % 10) as nat))
                =~= (old(out)@ + decimal_digits((n / 10) as nat)).push(
                digit_char((n % 10) as nat),
            ));
        } else {
            assert(old(out)@ + seq![digit_char(n as nat)] =~= old(out)@.push(
                digit_char(n as nat),
            ));
        }
    }
}

/// The decimal numeral of `n`.
pub fn decimal(n: u32) -> (text: String)
    ensures
        text@ == decimal_digits(n as nat),
{
    let mut text = String::new();
    push_decimal(&mut text, n);
    assert(Seq::<char>::empty() + decimal_digits(n as nat) =~= decimal_digits(n as nat));
    text
}

/// What the standard formatter prints for a character under `{:?}`: the
/// character between single quotes, escaped where it is not printable.
pub uninterp spec fn quoted_char(c: char) -> Seq<char>;

/// What the standard formatter prints for a text under `{:?}`: the text
/// between double quotes, escaped where it is not printable.
pub uninterp spec fn quoted_text(s: Seq<char>) -> Seq<char>;

/// Formats the character with `{:?}`. The result is taken on trust to be
/// a function of the character alone, named `quoted_char`.
#[verifier::external_body]
pub(crate) fn quote_char(c: char) -> (text: String)
    ensures
        text@ == quoted_char(c),
{
    format!("{:?}", c)
}

/// Formats the text with `{:?}`. The result is taken on trust to be a
/// function of the text alone, named `quoted_text`.
#[verifier::external_body]
pub(crate) fn quote_text(s: &str) -> (text: String)
    ensures
        text@ == quoted_text(s@),
{
    format!("{:?}", s)
}

/// Tells whether the string reads exactly `word`.
pub fn reads(s: &String, word: &str) -> (same: bool)
    ensures
        same == (s@ == word@),
{
    s.as_str().eq(word)
}

/// A fresh string that reads `word`.
pub fn text_of(word: &str) -> (s: String)
    ensures
        s@ == word@,
{
    String::from_str(word)
}

} // verus!
