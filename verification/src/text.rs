//! Small helpers on text: the characters of a string slice, appending a character, decimal numerals, and the
//! `Debug` form of a character.

use vstd::prelude::*;
use vstd::std_specs::iter::IteratorSpec;

verus! {

/// The characters of `s`, in order.
pub fn chars_of(s: &str) -> (r: Vec<char>)
    ensures
        r@ == s@,
{
    let mut r: Vec<char> = Vec::new();
    let mut it = s.chars();
    proof {
        broadcast use vstd::string::axiom_spec_iter;
        assert(it.remaining() == s@);
    }
    loop
        invariant
            it.obeys_prophetic_iter_laws(),
            r@ + it.remaining() == s@,
            it.decrease() is Some,
        ensures
            r@ == s@,
        decreases it.decrease()->0,
    {
        let next = it.next();
        proof {
            broadcast use vstd::string::next_postcondition;
        }
        match next {
            Some(c) => {
                r.push(c);
            },
            None => {
                proof {
                    assert(r@ + it.remaining() =~= r@);
                }
                break;
            },
        }
    }
    r
}

/// `String::push`: appends one character at the end.
pub assume_specification[ std::string::String::push ](s: &mut String, ch: char)
    ensures
        final(s)@ == old(s)@.push(ch),
;

/// The text that `format!("{:?}", c)` produces for the character `c`: the character between single quotes, escaped as
/// `char`'s `Debug` escapes it (much as `char::escape_debug` does, except that a double quote stays as it is).
pub uninterp spec fn char_debug_text(c: char) -> Seq<char>;

/// The `Debug` rendering of `c` (std's `format!("{:?}", c)`). Its text is named by [`char_debug_text`]; nothing more
/// is claimed of it.
#[verifier::external_body]
pub(crate) fn char_debug(c: char) -> (r: String)
    ensures
        r@ == char_debug_text(c),
{
    format!("{:?}", c)
}

/// The text that `format!("{:?}", s)` produces for the string `s`: the string between double quotes, escaped as
/// `str`'s `Debug` escapes it (much as `char::escape_debug` escapes each character, except that a single quote stays as
/// it is).
pub uninterp spec fn str_debug_text(s: Seq<char>) -> Seq<char>;

/// The `Debug` rendering of `s` (std's `format!("{:?}", s)`). Its text is named by [`str_debug_text`]; nothing more
/// is claimed of it.
#[verifier::external_body]
pub(crate) fn str_debug(s: &str) -> (r: String)
    ensures
        r@ == str_debug_text(s@),
{
    format!("{:?}", s)
}

/// The decimal digit of `d` (below ten).
pub open spec fn digit_char(d: nat) -> char {
    if d == 0 { '0' } else if d == 1 { '1' } else if d == 2 { '2' } else if d == 3 { '3' } else if d == 4 { '4' }
    else if d == 5 { '5' } else if d == 6 { '6' } else if d == 7 { '7' } else if d == 8 { '8' } else { '9' }
}

/// The decimal numeral of `n`, without leading zeros (`"0"` for zero).
pub open spec fn decimal_text(n: nat) -> Seq<char>
    decreases n,
{
    if n < 10 {
        seq![digit_char(n)]
    } else {
        decimal_text(n / 10).push(digit_char(n % 10))
    }
}

fn digit(d: usize) -> (c: char)
    requires
        d < 10,
    ensures
        c == digit_char(d as nat),
{
    if d == 0 { '0' } else if d == 1 { '1' } else if d == 2 { '2' } else if d == 3 { '3' } else if d == 4 { '4' }
    else if d == 5 { '5' } else if d == 6 { '6' } else if d == 7 { '7' } else if d == 8 { '8' } else { '9' }
}

/// Appends the decimal numeral of `n` to `s`.
pub fn push_decimal(s: &mut String, n: usize)
    ensures
        final(s)@ == old(s)@ + decimal_text(n as nat),
    decreases n,
{
    if n >= 10 {
        push_decimal(s, n / 10);
    }
    s.push(digit(n % 10));
    proof {
        if n >= 10 {
            assert(old(s)@ + decimal_text(n as nat) =~= old(s)@ + decimal_text((n / 10) as nat) + seq![digit_char(
                (n % 10) as nat,
            )]);
        } else {
            assert(old(s)@ + decimal_text(n as nat) =~= old(s)@.push(digit_char(n as nat)));
        }
    }
}

} // verus!
