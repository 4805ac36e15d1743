//! Exact decimal money values.
//!
//! A monetary amount is held as a signed count of millionths of a unit,
//! so that sums and comparisons are exact: no rounding, no tolerance.
//! A token is accepted when it is an optional sign, digits, and at most
//! one point with at most six fraction digits, and its magnitude stays
//! below ten to the twelfth units; anything else is rejected rather than
//! coerced or truncated.

use vstd::prelude::*;
use vstd::string::StringExecFns;
use vstd::string::StrSliceExecFns;
use crate::digits::{
    all_digits, digits_val, is_digit, pow10, lemma_digits_val_bound, lemma_digits_val_prefix_le,
    dec_rep, digit_char, fmt_u128, digit_str,
};
use crate::errors::{ParserError, ParserErrorType, expected_found};
use crate::digits::{lemma_pow10_mono, lemma_pow10_adds};
use vstd::arithmetic::mul::lemma_mul_upper_bound;

verus! {

/// Magnitude cap of a decimal value, in millionths: ten to the eighteenth.
pub const MAX_MICROS: i64 = 1_000_000_000_000_000_000;

/// One currency unit, in millionths.
pub const UNIT_MICROS: u64 = 1_000_000;

/// An exact decimal amount: `micros` millionths of a currency unit.
#[derive(Debug, Clone, Copy, PartialEq, Eq, Structural)]
pub struct Decimal {
    pub micros: i64,
}

impl Decimal {
    /// Every decoded amount stays strictly below the magnitude cap.
    pub open spec fn wf(self) -> bool {
        -(MAX_MICROS as int) < (self.micros as int) < (MAX_MICROS as int)
    }
}

/// Splits an optional leading sign from a token: whether the token is
/// negative, and the rest of it.
pub open spec fn sign_split(s: Seq<char>) -> (bool, Seq<char>) {
    if s.len() > 0 && s[0] == '-' {
        (true, s.drop_first())
    } else if s.len() > 0 && s[0] == '+' {
        (false, s.drop_first())
    } else {
        (false, s)
    }
}

/// Index of the first point in the sequence, or its length if none.
pub open spec fn first_dot(s: Seq<char>) -> int
    decreases s.len(),
{
    if s.len() == 0 {
        0
    } else if s[0] == '.' {
        0
    } else {
        1 + first_dot(s.drop_first())
    }
}

pub proof fn lemma_first_dot_props(s: Seq<char>)
    ensures
        0 <= first_dot(s) <= s.len(),
        first_dot(s) < s.len() ==> s[first_dot(s)] == '.',
        forall|i: int| 0 <= i < first_dot(s) ==> s[i] != '.',
    decreases s.len(),
{
    if s.len() > 0 && s[0] != '.' {
        lemma_first_dot_props(s.drop_first());
        assert forall|i: int| 0 <= i < first_dot(s) implies s[i] != '.' by {
            if i > 0 {
                assert(s[i] == s.drop_first()[i - 1]);
            }
        }
    }
}

/// The millionths a decimal token denotes, or `None` when the token is
/// not an accepted decimal.
pub open spec fn decimal_token_micros(s: Seq<char>) -> Option<int> {
    let (neg, body) = sign_split(s);
    let d = first_dot(body);
    let intpart = body.subrange(0, d);
    let frac = if d < body.len() {
        body.subrange(d + 1, body.len() as int)
    } else {
        Seq::<char>::empty()
    };
    if all_digits(intpart) && all_digits(frac) && intpart.len() + frac.len() >= 1 && frac.len()
        <= 6 && digits_val(intpart) < 1_000_000_000_000 {
        let mag = digits_val(intpart) * (UNIT_MICROS as nat) + digits_val(frac) * pow10(
            (6 - frac.len()) as nat,
        );
        if neg {
            Some(-(mag as int))
        } else {
            Some(mag as int)
        }
    } else {
        None
    }
}

pub proof fn lemma_pow10_6()
    ensures
        pow10(0) == 1,
        pow10(1) == 10,
        pow10(2) == 100,
        pow10(3) == 1000,
        pow10(4) == 10000,
        pow10(5) == 100000,
        pow10(6) == 1000000,
{
    assert(pow10(0) == 1);
    assert(pow10(1) == 10);
    assert(pow10(2) == 100);
    assert(pow10(3) == 1000);
    assert(pow10(4) == 10000);
    assert(pow10(5) == 100000);
    assert(pow10(6) == 1000000);
}

/// Ten to the power `k`, executable.
pub fn pow10_u64(k: u32) -> (r: u64)
    requires
        k <= 6,
    ensures
        r as nat == pow10(k as nat),
{
    proof {
        lemma_pow10_6();
    }
    match k {
        0 => 1,
        1 => 10,
        2 => 100,
        3 => 1000,
        4 => 10000,
        5 => 100000,
        _ => 1000000,
    }
}

/// Exactly `width` digits: the base-ten rendering of `f` modulo ten to
/// the `width`, with leading zeros kept.
pub open spec fn fixed_rep(f: nat, width: nat) -> Seq<char>
    decreases width,
{
    if width == 0 {
        Seq::<char>::empty()
    } else {
        fixed_rep(f / 10, (width - 1) as nat).push(digit_char((f % 10) as int))
    }
}

/// The fraction digits as printed: `width` digits of `f`, with the
/// trailing zeros dropped.
pub open spec fn frac_rep(f: nat, width: nat) -> Seq<char>
    decreases width,
{
    if width == 0 {
        Seq::<char>::empty()
    } else if f % 10 == 0 {
        frac_rep(f / 10, (width - 1) as nat)
    } else {
        fixed_rep(f, width)
    }
}

/// The canonical rendering of a count of millionths: an optional minus
/// sign, the units, and the non-zero fraction digits if any.
pub open spec fn decimal_rep(m: int) -> Seq<char> {
    let mag = (if m < 0 {
        -m
    } else {
        m
    }) as nat;
    let units = mag / 1000000;
    let fracv = mag % 1000000;
    let sign: Seq<char> = if m < 0 {
        seq!['-']
    } else {
        Seq::<char>::empty()
    };
    if fracv == 0 {
        sign + dec_rep(units)
    } else {
        sign + dec_rep(units) + seq!['.'] + frac_rep(fracv, 6)
    }
}

/// Renders exactly `width` digits of `f`, leading zeros kept.
pub fn fmt_fixed(f: u64, width: u32) -> (s: String)
    ensures
        s@ == fixed_rep(f as nat, width as nat),
    decreases width,
{
    if width == 0 {
        proof {
            reveal_strlit("");
        }
        let s = "".to_owned();
        proof {
            assert(s@ =~= fixed_rep(f as nat, 0));
        }
        s
    } else {
        let mut s = fmt_fixed(f / 10, width - 1);
        s.append(digit_str((f % 10) as u128));
        proof {
            assert(s@ =~= fixed_rep(f as nat, width as nat));
        }
        s
    }
}

/// Renders a count of millionths the way the validator's messages show
/// amounts.
#[verifier::loop_isolation(false)]
pub fn fmt_decimal_micros(m: i128) -> (s: String)
    requires
        m != i128::MIN,
    ensures
        s@ == decimal_rep(m as int),
{
    proof {
        lemma_pow10_6();
        reveal_strlit("");
        reveal_strlit("-");
        reveal_strlit(".");
    }
    let neg = m < 0;
    let mag: u128 = if m < 0 {
        (-m) as u128
    } else {
        m as u128
    };
    let units: u128 = mag / 1000000;
    let fracv: u64 = (mag % 1000000) as u64;
    let mut s = if neg {
        "-".to_owned()
    } else {
        "".to_owned()
    };
    let digits = fmt_u128(units);
    s.append(digits.as_str());
    if fracv > 0 {
        s.append(".");
        let mut f = fracv;
        let mut width: u32 = 6;
        while f % 10 == 0
            invariant
                1 <= width <= 6,
                0 < f,
                (f as nat) < pow10(width as nat),
                frac_rep(fracv as nat, 6) == frac_rep(f as nat, width as nat),
            decreases width,
        {
            proof {
                assert(pow10(width as nat) == 10 * pow10((width - 1) as nat));
            }
            f = f / 10;
            width = width - 1;
        }
        let tail = fmt_fixed(f, width);
        s.append(tail.as_str());
        proof {
            assert(frac_rep(f as nat, width as nat) == fixed_rep(f as nat, width as nat));
            assert(s@ =~= decimal_rep(m as int));
        }
    } else {
        proof {
            assert(s@ =~= decimal_rep(m as int));
        }
    }
    s
}

/// Decodes a decimal token into millionths, classifying any rejection
/// as `ParseFloat` with the raw text in the message.
#[verifier::loop_isolation(false)]
#[verifier::rlimit(100)]
pub fn parse_decimal(s: &str) -> (r: Result<Decimal, ParserError>)
    ensures
        match decimal_token_micros(s@) {
            Some(m) => r matches Ok(d) && d.micros as int == m && d.wf(),
            None => r matches Err(e) && e.kind == ParserErrorType::ParseFloat && e.message@
                == expected_found("decimal"@, s@),
        },
{
    let n = s.unicode_len();
    let mut i: usize = 0;
    let mut neg = false;
    if n > 0 {
        let c0 = s.get_char(0);
        if c0 == '-' {
            neg = true;
            i = 1;
        } else if c0 == '+' {
            i = 1;
        }
    }
    let ghost body = s@.skip(i as int);
    proof {
        assert(s@.drop_first() =~= s@.skip(1));
        assert(s@.skip(0) =~= s@);
        assert(sign_split(s@) == (neg, body));
        lemma_first_dot_props(body);
        lemma_pow10_6();
    }
    let ghost fd = first_dot(body);
    let ghost intpart = body.subrange(0, fd);
    let mut j: usize = i;
    let mut val: u64 = 0;
    loop
        invariant
            i <= j <= n,
            i <= 1,
            n == s@.len(),
            body == s@.skip(i as int),
            fd == first_dot(body),
            intpart == body.subrange(0, fd),
            0 <= fd <= body.len(),
            fd < body.len() ==> body[fd] == '.',
            forall|t: int| 0 <= t < fd ==> body[t] != '.',
            forall|t: int| i <= t < j ==> is_digit(#[trigger] s@[t]),
            val as nat == digits_val(s@.subrange(i as int, j as int)),
            val < 1_000_000_000_000,
            sign_split(s@) == (neg, body),
            pow10(6) == 1000000,
        decreases n - j,
    {
        proof {
            assert(forall|t: int| 0 <= t < body.len() ==> body[t] == s@[t + i]);
        }
        if j >= n {
            // no point: the whole body is the integer part
            proof {
                assert(fd >= j - i) by {
                    if fd < j - i {
                        assert(is_digit(body[fd]));
                    }
                }
                assert(fd == body.len());
                assert(intpart =~= body);
                assert(s@.subrange(i as int, j as int) =~= body);
            }
            if j == i {
                // empty token (or a bare sign)
                return Err(ParserError::new(ParserErrorType::ParseFloat, "decimal", s));
            }
            proof {
                assert(all_digits(intpart));
                assert(digits_val(Seq::<char>::empty()) == 0);
                assert(digits_val(intpart) == val as nat);
                assert(intpart.len() >= 1);
                assert(digits_val(intpart) * (UNIT_MICROS as nat) == val as nat * 1000000);
                assert(digits_val(Seq::<char>::empty()) * pow10(6) == 0);
                let m0: int = if neg {
                    -((val as nat * 1000000) as int)
                } else {
                    (val as nat * 1000000) as int
                };
                assert(decimal_token_micros(s@) == Some(m0));
            }
            let mag = val * 1000000;
            let micros: i64 = if neg {
                -(mag as i64)
            } else {
                mag as i64
            };
            return Ok(Decimal { micros });
        }
        let c = s.get_char(j);
        let u = c as u32;
        if !(48 <= u && u <= 57) {
            // not a digit: either the point or a rejected character
            proof {
                assert(fd >= j - i) by {
                    if fd < j - i {
                        assert(is_digit(body[fd]));
                    }
                }
            }
            if c != '.' {
                proof {
                    assert(!all_digits(intpart) || fd <= j - i) by {
                        if fd > j - i {
                            assert(intpart[j - i] == body[j - i]);
                            assert(!is_digit(intpart[j - i]));
                        }
                    }
                    assert(fd != j - i);
                    assert(decimal_token_micros(s@) is None);
                }
                return Err(ParserError::new(ParserErrorType::ParseFloat, "decimal", s));
            }
            // the first point: the rest is the fraction
            return parse_decimal_frac(s, i, j, neg, val);
        }
        let d = (u - 48) as u64;
        proof {
            let pre = s@.subrange(i as int, j as int);
            let ext = s@.subrange(i as int, j + 1 as int);
            assert(ext.drop_last() =~= pre);
            assert(ext.last() == s@[j as int]);
        }
        let newval = val * 10 + d;
        if newval >= 1_000_000_000_000 {
            // the integer part alone tops the magnitude cap
            proof {
                assert(fd >= j + 1 - i) by {
                    if fd < j + 1 - i {
                        assert(is_digit(body[fd]));
                    }
                }
                lemma_digits_val_prefix_le(intpart, j + 1 - i);
                assert(intpart.subrange(0, j + 1 - i) =~= s@.subrange(i as int, j + 1 as int));
                assert(digits_val(intpart) >= 1_000_000_000_000);
                assert(decimal_token_micros(s@) is None);
            }
            return Err(ParserError::new(ParserErrorType::ParseFloat, "decimal", s));
        }
        val = newval;
        j = j + 1;
    }
}

/// Decodes the fraction that follows the point at position `j`, the
/// integer part before it having the value `val`.
#[verifier::loop_isolation(false)]
#[verifier::rlimit(100)]
fn parse_decimal_frac(s: &str, i: usize, j: usize, neg: bool, val: u64) -> (r: Result<
    Decimal,
    ParserError,
>)
    requires
        i <= 1,
        i <= j < s@.len(),
        sign_split(s@) == (neg, s@.skip(i as int)),
        s@[j as int] == '.',
        forall|t: int| i <= t < j ==> is_digit(#[trigger] s@[t]),
        val as nat == digits_val(s@.subrange(i as int, j as int)),
        val < 1_000_000_000_000,
    ensures
        match decimal_token_micros(s@) {
            Some(m) => r matches Ok(d) && d.micros as int == m && d.wf(),
            None => r matches Err(e) && e.kind == ParserErrorType::ParseFloat && e.message@
                == expected_found("decimal"@, s@),
        },
{
    let n = s.unicode_len();
    let ghost body = s@.skip(i as int);
    proof {
        lemma_first_dot_props(body);
        lemma_pow10_6();
        assert(forall|t: int| 0 <= t < body.len() ==> body[t] == s@[t + i]);
    }
    let ghost fd = first_dot(body);
    let ghost intpart = body.subrange(0, fd);
    proof {
        assert(fd >= j - i) by {
            if fd < j - i {
                assert(is_digit(body[fd]));
            }
        }
        assert(fd <= j - i) by {
            if fd > j - i {
                assert(body[j - i] != '.');
            }
        }
        assert(intpart =~= s@.subrange(i as int, j as int));
        assert(all_digits(intpart));
    }
    let ghost frac = body.subrange(fd + 1, body.len() as int);
    proof {
        assert(frac =~= s@.subrange(j + 1 as int, n as int));
    }
    let fraclen = n - (j + 1);
    if fraclen > 6 {
        return Err(ParserError::new(ParserErrorType::ParseFloat, "decimal", s));
    }
    if j == i && fraclen == 0 {
        // a lone point carries no digits
        return Err(ParserError::new(ParserErrorType::ParseFloat, "decimal", s));
    }
    let mut k = j + 1;
    let mut fval: u64 = 0;
    while k < n
        invariant
            j + 1 <= k <= n,
            forall|t: int| j + 1 <= t < k ==> is_digit(#[trigger] s@[t]),
            fval as nat == digits_val(s@.subrange(j + 1 as int, k as int)),
            fval < 1000000,
        decreases n - k,
    {
        let c2 = s.get_char(k);
        let u2 = c2 as u32;
        if !(48 <= u2 && u2 <= 57) {
            proof {
                assert(!is_digit(frac[k - (j + 1)]));
                assert(decimal_token_micros(s@) is None);
            }
            return Err(ParserError::new(ParserErrorType::ParseFloat, "decimal", s));
        }
        let d2 = (u2 - 48) as u64;
        proof {
            let pre = s@.subrange(j + 1 as int, k as int);
            let ext = s@.subrange(j + 1 as int, k + 1 as int);
            assert(ext.drop_last() =~= pre);
            assert(ext.last() == s@[k as int]);
            assert(all_digits(ext));
            lemma_digits_val_bound(ext);
            lemma_pow10_mono(ext.len(), 6);
        }
        fval = fval * 10 + d2;
        k = k + 1;
    }
    proof {
        assert(s@.subrange(j + 1 as int, k as int) =~= frac);
        assert(all_digits(frac));
    }
    let p = pow10_u64(6 - (fraclen as u32));
    proof {
        lemma_digits_val_bound(frac);
        lemma_pow10_adds(frac.len(), (6 - frac.len()) as nat);
        lemma_mul_upper_bound(
            fval as int,
            pow10(frac.len()) - 1,
            p as int,
            pow10((6 - frac.len()) as nat) as int,
        );
        assert((pow10(frac.len()) - 1) * pow10((6 - frac.len()) as nat) == pow10(
            frac.len(),
        ) * pow10((6 - frac.len()) as nat) - pow10((6 - frac.len()) as nat))
            by (nonlinear_arith);
    }
    let scaled = fval * p;
    let mag = val * 1000000 + scaled;
    proof {
        assert(decimal_token_micros(s@) matches Some(m) && m == if neg {
            -(mag as int)
        } else {
            mag as int
        });
    }
    let micros: i64 = if neg {
        -(mag as i64)
    } else {
        mag as i64
    };
    return Ok(Decimal { micros });
}

} // verus!
