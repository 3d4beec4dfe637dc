//! Decimal digits as text: spec-level digit arithmetic and the few string
//! operations the renderers need.

use vstd::prelude::*;

verus! {

/// Relies on String::push: appends the given character to the end of the
/// string.
pub assume_specification[ String::push ](s: &mut String, ch: char)
    ensures
        final(s)@ == old(s)@.push(ch),
;

/// The character for one decimal digit.
pub open spec fn digit_char(d: nat) -> char {
    if d == 0 {
        '0'
    } else if d == 1 {
        '1'
    } else if d == 2 {
        '2'
    } else if d == 3 {
        '3'
    } else if d == 4 {
        '4'
    } else if d == 5 {
        '5'
    } else if d == 6 {
        '6'
    } else if d == 7 {
        '7'
    } else if d == 8 {
        '8'
    } else {
        '9'
    }
}

/// Whether `c` is an ASCII decimal digit.
pub open spec fn is_digit(c: char) -> bool {
    48 <= c as u32 <= 57
}

/// The numeric value of a digit character.
pub open spec fn digit_val(c: char) -> nat {
    (c as u32 - 48) as nat
}

/// Every character of `s` is an ASCII decimal digit.
pub open spec fn all_digits(s: Seq<char>) -> bool {
    forall|i: int| 0 <= i < s.len() ==> is_digit(#[trigger] s[i])
}

/// The number a sequence of digit characters denotes, most significant
/// digit first; leading zeros carry no value.
pub open spec fn digits_val(s: Seq<char>) -> nat
    decreases s.len(),
{
    if s.len() == 0 {
        0
    } else {
        digits_val(s.drop_last()) * 10 + digit_val(s.last())
    }
}

/// The decimal digits of `n`, most significant first, without leading
/// zeros (a single '0' for zero).
pub open spec fn spec_digits(n: nat) -> Seq<char>
    decreases n,
{
    if n < 10 {
        seq![digit_char(n)]
    } else {
        spec_digits(n / 10).push(digit_char(n % 10))
    }
}

/// 10 to the `n`th power.
pub open spec fn pow10(n: nat) -> nat
    decreases n,
{
    if n == 0 {
        1
    } else {
        10 * pow10((n - 1) as nat)
    }
}

/// A string of digits denotes less than 10 to its length.
pub proof fn lemma_digits_val_bound(s: Seq<char>)
    requires
        all_digits(s),
    ensures
        digits_val(s) < pow10(s.len()),
    decreases s.len(),
{
    if s.len() > 0 {
        assert(all_digits(s.drop_last()));
        lemma_digits_val_bound(s.drop_last());
        assert(digit_val(s.last()) <= 9);
    }
}

/// A digit string's value only grows as it gets longer.
pub proof fn lemma_digits_val_prefix(s: Seq<char>, i: int)
    requires
        all_digits(s),
        0 <= i <= s.len(),
    ensures
        digits_val(s.take(i)) <= digits_val(s),
    decreases s.len() - i,
{
    if i == s.len() {
        assert(s.take(i) =~= s);
    } else {
        assert(all_digits(s.drop_last()));
        assert(s.take(i) =~= s.drop_last().take(i));
        lemma_digits_val_prefix(s.drop_last(), i);
    }
}

/// The character for one decimal digit.
pub fn digit_to_char(d: u64) -> (c: char)
    requires
        d < 10,
    ensures
        c == digit_char(d as nat),
{
    match d {
        0 => '0',
        1 => '1',
        2 => '2',
        3 => '3',
        4 => '4',
        5 => '5',
        6 => '6',
        7 => '7',
        8 => '8',
        _ => '9',
    }
}

/// Appends the decimal digits of `n` to `out`.
pub fn push_u64(out: &mut String, n: u64)
    ensures
        final(out)@ == old(out)@ + spec_digits(n as nat),
{
    let mut rev: Vec<char> = Vec::new();
    let mut rem: u64 = n;
    loop
        invariant_except_break
            spec_digits(n as nat) == spec_digits(rem as nat) + rev@.reverse(),
        ensures
            spec_digits(n as nat) == rev@.reverse(),
        decreases rem,
    {
        proof {
            assert(spec_digits(rem as nat) + rev@.reverse() =~= spec_digits(rem as nat)
                + rev@.reverse());
        }
        let ghost rev0 = rev@;
        let d = rem % 10;
        rev.push(digit_to_char(d));
        proof {
            assert(rev@.reverse() =~= seq![digit_char(d as nat)] + rev0.reverse());
        }
        rem = rem / 10;
        if rem == 0 {
            proof {
                assert(spec_digits((d as nat)) == seq![digit_char(d as nat)]);
                assert(spec_digits(n as nat) =~= rev@.reverse());
            }
            break ;
        }
        proof {
            assert(spec_digits((rem * 10 + d) as nat) == spec_digits(rem as nat).push(
                digit_char(d as nat),
            ));
            assert(spec_digits(rem as nat).push(digit_char(d as nat)) + rev0.reverse()
                =~= spec_digits(rem as nat) + rev@.reverse());
        }
    }
    let mut k = rev.len();
    loop
        invariant
            k <= rev.len(),
            spec_digits(n as nat) == rev@.reverse(),
            out@ == old(out)@ + rev@.reverse().take(rev@.len() - k),
        ensures
            out@ == old(out)@ + spec_digits(n as nat),
        decreases k,
    {
        if k == 0 {
            proof {
                assert(rev@.reverse().take(rev@.len() - 0) =~= rev@.reverse());
            }
            break ;
        }
        let ghost out0 = out@;
        k = k - 1;
        let c = rev[k];
        out.push(c);
        proof {
            assert(rev@.reverse()[rev@.len() - k - 1] == c);
            assert(out@ =~= old(out)@ + rev@.reverse().take(rev@.len() - k));
        }
    }
}

} // verus!
