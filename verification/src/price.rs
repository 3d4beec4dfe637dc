//! Fixed-point price: an integral part and a fractional part normalized to
//! five decimal digits, totally ordered by (integral, fractional).

use crate::text::all_digits;
use crate::text::digit_char;
use crate::text::digit_to_char;
use crate::text::digits_val;
use crate::text::is_digit;
use crate::text::lemma_digits_val_bound;
use crate::text::lemma_digits_val_prefix;
use crate::text::pow10;
use crate::text::push_u64;
use crate::text::spec_digits;
use vstd::prelude::*;
use vstd::string::StrSliceExecFns;

verus! {

/// How many decimal digits the fractional part is normalized to.
pub const FRACTIONAL_MAX_LENGTH: usize = 5;

/// One unit of the integral part, counted in fractional units.
pub const FRACTIONAL_SCALAR: u64 = 100000;

/// Why a price string was rejected.
#[derive(Debug, Clone, Copy, PartialEq, Eq, Structural)]
pub enum ParseError {
    /// The integral part is empty, holds a non-digit, or exceeds `u64::MAX`.
    BadIntegral,
    /// The fractional part is empty or holds a non-digit.
    BadFractional,
    /// The fractional part has more than five digits.
    FractionalTooLong,
}

/// A price. The invariant [`Price::inv`] keeps `fractional` below
/// [`FRACTIONAL_SCALAR`]; every constructor of this crate establishes it.
#[derive(Debug, Clone, Copy, PartialEq, Eq, PartialOrd, Ord, Hash, Structural)]
pub struct Price {
    pub integral: u64,
    pub fractional: u64,
}

impl Price {
    /// The fractional part is a five-digit value.
    pub open spec fn inv(self) -> bool {
        self.fractional < FRACTIONAL_SCALAR
    }

    /// Strict total order by (integral, fractional).
    pub open spec fn spec_lt(&self, rhs: &Price) -> bool {
        self.integral < rhs.integral || (self.integral == rhs.integral
            && self.fractional < rhs.fractional)
    }

    pub open spec fn spec_le(&self, rhs: &Price) -> bool {
        self.spec_lt(rhs) || self == rhs
    }

    #[verifier::when_used_as_spec(spec_lt)]
    pub fn lt(&self, rhs: &Price) -> (r: bool)
        ensures
            r == self.spec_lt(rhs),
    {
        self.integral < rhs.integral || (self.integral == rhs.integral
            && self.fractional < rhs.fractional)
    }

    #[verifier::when_used_as_spec(spec_le)]
    pub fn le(&self, rhs: &Price) -> (r: bool)
        ensures
            r == self.spec_le(rhs),
    {
        self.integral < rhs.integral || (self.integral == rhs.integral
            && self.fractional <= rhs.fractional)
    }

    /// Parses "I.F": digits before the first '.' as the integral part,
    /// digits between the first and a second '.' (or the end) as the
    /// fractional part, scaled up to five digits — exactly
    /// [`spec_parse_price`]. The result always satisfies the invariant.
    pub fn try_from(input: &str) -> (r: Result<Price, ParseError>)
        ensures
            r == spec_parse_price(input@),
            r matches Ok(p) ==> p.inv(),
    {
        let n = input.unicode_len();
        let mut i: usize = 0;
        loop
            invariant
                i <= n,
                n == input@.len(),
                forall|j: int| 0 <= j < i ==> input@[j] != '.',
            ensures
                i <= n,
                n == input@.len(),
                forall|j: int| 0 <= j < i ==> input@[j] != '.',
                i == n || input@[i as int] == '.',
            decreases n - i,
        {
            if i == n {
                break ;
            }
            let c = input.get_char(i);
            if c == '.' {
                break ;
            }
            i = i + 1;
        }
        proof {
            lemma_find_char_at(input@, '.', i as int);
        }
        let integral = match parse_digits(input, 0, i) {
            Some(v) => v,
            None => {
                proof {
                    assert(input@.subrange(0, i as int) =~= input@.take(i as int));
                }
                return Err(ParseError::BadIntegral);
            },
        };
        proof {
            assert(input@.subrange(0, i as int) =~= input@.take(i as int));
        }
        if i == n {
            return Ok(Price { integral, fractional: 0 });
        }
        let mut j: usize = i + 1;
        loop
            invariant
                i + 1 <= j <= n,
                n == input@.len(),
                forall|k: int| i + 1 <= k < j ==> input@[k] != '.',
            ensures
                i + 1 <= j <= n,
                n == input@.len(),
                forall|k: int| i + 1 <= k < j ==> input@[k] != '.',
                j == n || input@[j as int] == '.',
            decreases n - j,
        {
            if j == n {
                break ;
            }
            let c = input.get_char(j);
            if c == '.' {
                break ;
            }
            j = j + 1;
        }
        let ghost rest = input@.skip(i + 1);
        proof {
            assert(forall|k: int| 0 <= k < rest.len() ==> rest[k] == input@[k + i + 1]);
            lemma_find_char_at(rest, '.', j - i - 1);
            assert(input@.subrange(i + 1, j as int) =~= rest.take(j - i - 1));
        }
        let frac_len = j - (i + 1);
        if frac_len > FRACTIONAL_MAX_LENGTH {
            return Err(ParseError::FractionalTooLong);
        }
        let frac = match parse_digits(input, i + 1, j) {
            Some(v) => v,
            None => {
                proof {
                    let part = input@.subrange(i + 1, j as int);
                    if all_digits(part) && part.len() > 0 {
                        lemma_digits_val_bound(part);
                        assert(pow10(5) == 100000) by {
                            reveal_with_fuel(pow10, 6);
                        }
                        if part.len() < 5 {
                            lemma_pow10_le(part.len(), 5);
                        }
                        assert(digits_val(part) <= u64::MAX);
                    }
                }
                return Err(ParseError::BadFractional);
            },
        };
        let ghost fd = rest.take(j - i - 1);
        let scale: u64 = if frac_len == 1 {
            10000
        } else if frac_len == 2 {
            1000
        } else if frac_len == 3 {
            100
        } else if frac_len == 4 {
            10
        } else {
            1
        };
        proof {
            lemma_digits_val_bound(fd);
            assert(pow10(1) == 10 && pow10(2) == 100 && pow10(3) == 1000 && pow10(4) == 10000
                && pow10(5) == 100000) by {
                reveal_with_fuel(pow10, 6);
            }
            assert(scale == frac_scale(fd.len()));
            assert(digits_val(fd) * scale < 100000) by {
                if fd.len() == 1 {
                    assert(digits_val(fd) <= 9);
                } else if fd.len() == 2 {
                    assert(digits_val(fd) <= 99);
                } else if fd.len() == 3 {
                    assert(digits_val(fd) <= 999);
                } else if fd.len() == 4 {
                    assert(digits_val(fd) <= 9999);
                } else {
                    assert(digits_val(fd) <= 99999);
                }
            }
        }
        let fractional = frac * scale;
        Ok(Price { integral, fractional })
    }

    /// Renders as "I.FFFFF": the integral digits, a dot, and exactly five
    /// fractional digits, zero-padded on the left — exactly
    /// [`spec_display`].
    pub fn to_string(&self) -> (s: String)
        requires
            self.inv(),
        ensures
            s@ == spec_display(*self),
    {
        let mut s = String::new();
        push_u64(&mut s, self.integral);
        s.push('.');
        let f = self.fractional;
        s.push(digit_to_char((f / 10000) % 10));
        s.push(digit_to_char((f / 1000) % 10));
        s.push(digit_to_char((f / 100) % 10));
        s.push(digit_to_char((f / 10) % 10));
        s.push(digit_to_char(f % 10));
        proof {
            assert(s@ =~= spec_display(*self));
        }
        s
    }
}

/// The index of the first occurrence of `c` in `s`, or `s.len()` when `s`
/// does not hold it.
pub open spec fn find_char(s: Seq<char>, c: char) -> int
    decreases s.len(),
{
    if s.len() == 0 {
        0
    } else if s[0] == c {
        0
    } else {
        1 + find_char(s.drop_first(), c)
    }
}

/// Ten to a smaller power is no larger.
proof fn lemma_pow10_le(a: nat, b: nat)
    requires
        a <= b,
    ensures
        pow10(a) <= pow10(b),
    decreases b,
{
    if a < b {
        lemma_pow10_le(a, (b - 1) as nat);
    }
}

/// [`find_char`] finds the first occurrence.
proof fn lemma_find_char_at(s: Seq<char>, c: char, i: int)
    requires
        0 <= i <= s.len(),
        forall|j: int| 0 <= j < i ==> s[j] != c,
        i < s.len() ==> s[i] == c,
    ensures
        find_char(s, c) == i,
    decreases i,
{
    if s.len() == 0 {
    } else if i == 0 {
    } else {
        lemma_find_char_at(s.drop_first(), c, i - 1);
    }
}

/// 10 to the power of five minus `len`, for `len` between 1 and 5: the
/// factor that scales `len` fractional digits up to five.
pub open spec fn frac_scale(len: nat) -> nat {
    if len <= 1 {
        10000
    } else if len == 2 {
        1000
    } else if len == 3 {
        100
    } else if len == 4 {
        10
    } else {
        1
    }
}

/// What parsing a price string yields. The integral part runs to the first
/// '.', the fractional part from there to a second '.' or the end —
/// anything after a second '.' is ignored. An integral part that is empty,
/// holds a non-digit or exceeds `u64::MAX` is `BadIntegral`; a fractional
/// part longer than five digits is `FractionalTooLong`, never rounded; one
/// that is empty or holds a non-digit is `BadFractional`. A fractional part
/// shorter than five digits is scaled up, so "1.5" parses as 1.50000.
pub open spec fn spec_parse_price(s: Seq<char>) -> Result<Price, ParseError> {
    let i = find_char(s, '.');
    let integral = s.take(i);
    if integral.len() == 0 || !all_digits(integral) || digits_val(integral) > u64::MAX {
        Err(ParseError::BadIntegral)
    } else if i == s.len() {
        Ok(Price { integral: digits_val(integral) as u64, fractional: 0 })
    } else {
        let rest = s.skip(i + 1);
        let frac = rest.take(find_char(rest, '.'));
        if frac.len() > 5 {
            Err(ParseError::FractionalTooLong)
        } else if frac.len() == 0 || !all_digits(frac) {
            Err(ParseError::BadFractional)
        } else {
            Ok(
                Price {
                    integral: digits_val(integral) as u64,
                    fractional: (digits_val(frac) * frac_scale(frac.len())) as u64,
                },
            )
        }
    }
}

/// The text "I.FFFFF" a price renders to: the integral part's decimal
/// digits, a dot, and the five fractional digits, most significant first.
pub open spec fn spec_display(p: Price) -> Seq<char> {
    spec_digits(p.integral as nat) + seq!['.'] + seq![
        digit_char(((p.fractional as nat) / 10000) % 10),
        digit_char(((p.fractional as nat) / 1000) % 10),
        digit_char(((p.fractional as nat) / 100) % 10),
        digit_char(((p.fractional as nat) / 10) % 10),
        digit_char((p.fractional as nat) % 10),
    ]
}

/// Parses `s[from..to]` as a decimal number: `None` when the range is
/// empty, holds a non-digit, or overflows `u64`.
fn parse_digits(s: &str, from: usize, to: usize) -> (r: Option<u64>)
    requires
        from <= to <= s@.len(),
    ensures
        ({
            let part = s@.subrange(from as int, to as int);
            match r {
                Some(v) => part.len() > 0 && all_digits(part) && digits_val(part) == v,
                None => part.len() == 0 || !all_digits(part) || digits_val(part) > u64::MAX,
            }
        }),
{
    let ghost part = s@.subrange(from as int, to as int);
    if from == to {
        return None;
    }
    let mut acc: u64 = 0;
    let mut k = from;
    loop
        invariant
            from <= k <= to <= s@.len(),
            part == s@.subrange(from as int, to as int),
            all_digits(s@.subrange(from as int, k as int)),
            digits_val(s@.subrange(from as int, k as int)) == acc,
        ensures
            k == to,
            all_digits(part),
            digits_val(part) == acc,
        decreases to - k,
    {
        if k == to {
            proof {
                assert(s@.subrange(from as int, k as int) =~= part);
            }
            break ;
        }
        let c = s.get_char(k);
        let code = c as u32;
        if code < 48 || code > 57 {
            proof {
                assert(part[k - from] == c);
                assert(!is_digit(c));
            }
            return None;
        }
        let d = (code - 48) as u64;
        let ghost prefix = s@.subrange(from as int, k as int);
        proof {
            assert(s@.subrange(from as int, k + 1).drop_last() =~= prefix);
            assert(s@.subrange(from as int, k + 1).last() == c);
        }
        if acc > (u64::MAX - d) / 10 {
            proof {
                if all_digits(part) {
                    assert(part.take(k + 1 - from) =~= s@.subrange(from as int, k + 1));
                    lemma_digits_val_prefix(part, k + 1 - from);
                    assert((u64::MAX - d) / 10 * 10 + 10 > u64::MAX - d);
                    assert(acc * 10 >= ((u64::MAX - d) / 10 + 1) * 10);
                    assert(digits_val(s@.subrange(from as int, k + 1)) > u64::MAX);
                }
            }
            return None;
        }
        proof {
            assert(acc * 10 <= (u64::MAX - d) / 10 * 10 <= u64::MAX - d);
            assert forall|m: int|
                0 <= m < s@.subrange(from as int, k + 1).len() implies is_digit(
                #[trigger] s@.subrange(from as int, k + 1)[m],
            ) by {
                if m < k - from {
                    assert(s@.subrange(from as int, k + 1)[m] == prefix[m]);
                } else {
                    assert(s@.subrange(from as int, k + 1)[m] == c);
                }
            }
        }
        acc = acc * 10 + d;
        k = k + 1;
    }
    Some(acc)
}

} // verus!
