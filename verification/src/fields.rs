//! The field decoder: fixed-width substrings and whitespace tokens
//! become typed scalars — signed and unsigned integers, exact decimals,
//! currency codes and calendar dates — with a classified error for
//! every rejected token.  Each decoder has an encoding counterpart, and
//! decoding an encoded value gives the value back.

use vstd::prelude::*;
use vstd::string::StringExecFns;
use vstd::string::StrSliceExecFns;
use vstd::arithmetic::div_mod::lemma_mod_breakdown;
use crate::digits::{
    all_digits, digits_val, is_digit, pow10, dec_rep, lemma_digits_val_bound,
    lemma_digits_val_prefix_le, lemma_dec_rep_digits, lemma_dec_rep_val, lemma_pow10_mono,
    fmt_u128,
};
use crate::decimal::{Decimal, decimal_token_micros, parse_decimal, fixed_rep, fmt_fixed};
use crate::errors::{ParserError, ParserErrorType, expected_found};

verus! {

/// The closed set of invoice currencies.
#[derive(Debug, Clone, Copy, PartialEq, Eq, Structural)]
pub enum Currencies {
    Mxn,
    Usd,
    Eur,
}

/// A calendar date, held as plain year, month and day numbers.
#[derive(Debug, Clone, Copy, PartialEq, Eq, Structural)]
pub struct Date {
    pub year: u32,
    pub month: u32,
    pub day: u32,
}

/// Whether a year is a leap year of the proleptic Gregorian calendar.
pub open spec fn is_leap_year(y: int) -> bool {
    y % 4 == 0 && (y % 100 != 0 || y % 400 == 0)
}

/// The number of days in the given month of the given year.
pub open spec fn days_in_month(y: int, m: int) -> int {
    if m == 2 {
        if is_leap_year(y) {
            29
        } else {
            28
        }
    } else if m == 4 || m == 6 || m == 9 || m == 11 {
        30
    } else {
        31
    }
}

impl Date {
    /// A well-formed date: a real day of a real month, with the year
    /// within the four digits the record format can carry.
    pub open spec fn wf(self) -> bool {
        self.year <= 9999 && 1 <= self.month <= 12 && 1 <= self.day <= days_in_month(
            self.year as int,
            self.month as int,
        )
    }
}

/// The value of an unsigned-integer token: an optional plus sign, then
/// digits, the value fitting the type.
pub open spec fn u32_token_val(s: Seq<char>) -> Option<u32> {
    let body = if s.len() > 0 && s[0] == '+' {
        s.drop_first()
    } else {
        s
    };
    if body.len() > 0 && all_digits(body) && digits_val(body) <= u32::MAX {
        Some(digits_val(body) as u32)
    } else {
        None
    }
}

/// The value of a signed-integer token: an optional sign, then digits,
/// the value fitting the type.
pub open spec fn i32_token_val(s: Seq<char>) -> Option<i32> {
    let neg = s.len() > 0 && s[0] == '-';
    let body = if s.len() > 0 && (s[0] == '-' || s[0] == '+') {
        s.drop_first()
    } else {
        s
    };
    if body.len() > 0 && all_digits(body) && (if neg {
        digits_val(body) <= 0x8000_0000
    } else {
        digits_val(body) <= 0x7fff_ffff
    }) {
        Some(
            (if neg {
                -(digits_val(body) as int)
            } else {
                digits_val(body) as int
            }) as i32,
        )
    } else {
        None
    }
}

/// The currency a token names, if it is one of the three codes.
pub open spec fn currency_token(s: Seq<char>) -> Option<Currencies> {
    if s == "USD"@ {
        Some(Currencies::Usd)
    } else if s == "MXN"@ {
        Some(Currencies::Mxn)
    } else if s == "EUR"@ {
        Some(Currencies::Eur)
    } else {
        None
    }
}

/// The date an eight-character `YYYYMMDD` field denotes, if the digits
/// name a real calendar day.
pub open spec fn date_token(s: Seq<char>) -> Option<Date> {
    if s.len() == 8 && all_digits(s) {
        let y = digits_val(s.subrange(0, 4));
        let m = digits_val(s.subrange(4, 6));
        let d = digits_val(s.subrange(6, 8));
        if 1 <= m <= 12 && 1 <= d <= days_in_month(y as int, m as int) {
            Some(Date { year: y as u32, month: m as u32, day: d as u32 })
        } else {
            None
        }
    } else {
        None
    }
}

/// Reads the digits of `s` between `from` and `to` as a number, after
/// the caller has checked they are digits.
#[verifier::loop_isolation(false)]
fn read_digits(s: &str, from: usize, to: usize) -> (v: u32)
    requires
        from <= to <= s@.len(),
        to - from <= 8,
        forall|t: int| from <= t < to ==> is_digit(#[trigger] s@[t]),
    ensures
        v as nat == digits_val(s@.subrange(from as int, to as int)),
{
    let mut k = from;
    let mut v: u32 = 0;
    proof {
        lemma_digits_val_bound(s@.subrange(from as int, to as int));
        lemma_pow10_mono((to - from) as nat, 8);
        assert(pow10(0) == 1);
        assert(pow10(1) == 10);
        assert(pow10(2) == 100);
        assert(pow10(3) == 1000);
        assert(pow10(4) == 10000);
        assert(pow10(5) == 100000);
        assert(pow10(6) == 1000000);
        assert(pow10(7) == 10000000);
        assert(pow10(8) == 100000000);
    }
    while k < to
        invariant
            from <= k <= to,
            v as nat == digits_val(s@.subrange(from as int, k as int)),
            v < 100000000,
        decreases to - k,
    {
        let c = s.get_char(k);
        let d = (c as u32) - 48;
        proof {
            let pre = s@.subrange(from as int, k as int);
            let ext = s@.subrange(from as int, k + 1 as int);
            assert(ext.drop_last() =~= pre);
            assert(ext.last() == s@[k as int]);
            lemma_digits_val_bound(ext);
            lemma_pow10_mono(ext.len(), 8);
        }
        v = v * 10 + d;
        k = k + 1;
    }
    v
}

/// Decodes an unsigned-integer token, classifying any rejection as
/// `ParseInteger` with the raw text in the message.
#[verifier::loop_isolation(false)]
#[verifier::rlimit(60)]
pub fn parse_u32(s: &str) -> (r: Result<u32, ParserError>)
    ensures
        match u32_token_val(s@) {
            Some(v) => r matches Ok(x) && x == v,
            None => r matches Err(e) && e.kind == ParserErrorType::ParseInteger && e.message@
                == expected_found("u32"@, s@),
        },
{
    let n = s.unicode_len();
    let mut i: usize = 0;
    if n > 0 && s.get_char(0) == '+' {
        i = 1;
    }
    let ghost body = if i == 1 {
        s@.drop_first()
    } else {
        s@
    };
    proof {
        assert(body =~= s@.subrange(i as int, n as int));
        assert(forall|t: int| 0 <= t < body.len() ==> body[t] == s@[t + i]);
    }
    if i >= n {
        return Err(ParserError::new(ParserErrorType::ParseInteger, "u32", s));
    }
    let mut j = i;
    let mut val: u64 = 0;
    while j < n
        invariant
            i <= j <= n,
            forall|t: int| i <= t < j ==> is_digit(#[trigger] s@[t]),
            val as nat == digits_val(s@.subrange(i as int, j as int)),
            val <= u32::MAX,
        decreases n - j,
    {
        let c = s.get_char(j);
        let u = c as u32;
        if !(48 <= u && u <= 57) {
            proof {
                assert(!is_digit(body[j - i]));
            }
            return Err(ParserError::new(ParserErrorType::ParseInteger, "u32", s));
        }
        proof {
            let pre = s@.subrange(i as int, j as int);
            let ext = s@.subrange(i as int, j + 1 as int);
            assert(ext.drop_last() =~= pre);
            assert(ext.last() == s@[j as int]);
        }
        let newval = val * 10 + ((u - 48) as u64);
        if newval > 0xffff_ffff {
            proof {
                lemma_digits_val_prefix_le(body, j + 1 - i);
                assert(body.subrange(0, j + 1 - i) =~= s@.subrange(i as int, j + 1 as int));
                assert(digits_val(body) > u32::MAX);
            }
            return Err(ParserError::new(ParserErrorType::ParseInteger, "u32", s));
        }
        val = newval;
        j = j + 1;
    }
    proof {
        assert(s@.subrange(i as int, n as int) =~= body);
        assert(all_digits(body));
    }
    Ok(val as u32)
}

/// Decodes a signed-integer token, classifying any rejection as
/// `ParseInteger` with the raw text in the message.
#[verifier::loop_isolation(false)]
#[verifier::rlimit(60)]
pub fn parse_i32(s: &str) -> (r: Result<i32, ParserError>)
    ensures
        match i32_token_val(s@) {
            Some(v) => r matches Ok(x) && x == v,
            None => r matches Err(e) && e.kind == ParserErrorType::ParseInteger && e.message@
                == expected_found("i32"@, s@),
        },
{
    let n = s.unicode_len();
    let mut i: usize = 0;
    let mut neg = false;
    if n > 0 {
        let c0 = s.get_char(0);
        if c0 == '-' {
            neg = true;
            i = 1;
        } else if c0 == '+' {
            i = 1;
        }
    }
    let ghost body = if i == 1 {
        s@.drop_first()
    } else {
        s@
    };
    let ghost bound: nat = if neg {
        0x8000_0000
    } else {
        0x7fff_ffff
    };
    proof {
        assert(body =~= s@.subrange(i as int, n as int));
        assert(forall|t: int| 0 <= t < body.len() ==> body[t] == s@[t + i]);
    }
    if i >= n {
        return Err(ParserError::new(ParserErrorType::ParseInteger, "i32", s));
    }
    let mut j = i;
    let mut val: u64 = 0;
    while j < n
        invariant
            i <= j <= n,
            forall|t: int| i <= t < j ==> is_digit(#[trigger] s@[t]),
            val as nat == digits_val(s@.subrange(i as int, j as int)),
            val as nat <= bound,
        decreases n - j,
    {
        let c = s.get_char(j);
        let u = c as u32;
        if !(48 <= u && u <= 57) {
            proof {
                assert(!is_digit(body[j - i]));
            }
            return Err(ParserError::new(ParserErrorType::ParseInteger, "i32", s));
        }
        proof {
            let pre = s@.subrange(i as int, j as int);
            let ext = s@.subrange(i as int, j + 1 as int);
            assert(ext.drop_last() =~= pre);
            assert(ext.last() == s@[j as int]);
        }
        let newval = val * 10 + ((u - 48) as u64);
        let over = if neg {
            newval > 0x8000_0000
        } else {
            newval > 0x7fff_ffff
        };
        if over {
            proof {
                lemma_digits_val_prefix_le(body, j + 1 - i);
                assert(body.subrange(0, j + 1 - i) =~= s@.subrange(i as int, j + 1 as int));
                assert(digits_val(body) > bound);
            }
            return Err(ParserError::new(ParserErrorType::ParseInteger, "i32", s));
        }
        val = newval;
        j = j + 1;
    }
    proof {
        assert(s@.subrange(i as int, n as int) =~= body);
        assert(all_digits(body));
    }
    if neg {
        let m: i64 = -(val as i64);
        Ok(m as i32)
    } else {
        Ok(val as i32)
    }
}

/// Decodes a currency code, any other token giving `CurrencyError`.
pub fn parse_currency(s: &str) -> (r: Result<Currencies, ParserError>)
    ensures
        match currency_token(s@) {
            Some(c) => r matches Ok(x) && x == c,
            None => r matches Err(e) && e.kind == ParserErrorType::CurrencyError && e.message@
                == expected_found("Currency"@, s@),
        },
{
    proof {
        reveal_strlit("USD");
        reveal_strlit("MXN");
        reveal_strlit("EUR");
    }
    let n = s.unicode_len();
    if n == 3 {
        let c0 = s.get_char(0);
        let c1 = s.get_char(1);
        let c2 = s.get_char(2);
        if c0 == 'U' && c1 == 'S' && c2 == 'D' {
            proof {
                assert(s@ =~= "USD"@);
            }
            return Ok(Currencies::Usd);
        }
        if c0 == 'M' && c1 == 'X' && c2 == 'N' {
            proof {
                assert(s@ =~= "MXN"@);
            }
            return Ok(Currencies::Mxn);
        }
        if c0 == 'E' && c1 == 'U' && c2 == 'R' {
            proof {
                assert(s@ =~= "EUR"@);
            }
            return Ok(Currencies::Eur);
        }
    }
    proof {
        assert(s@ != "USD"@ && s@ != "MXN"@ && s@ != "EUR"@);
    }
    Err(ParserError::new(ParserErrorType::CurrencyError, "Currency", s))
}

/// The number of days in the given month, executable.
pub fn days_in_month_u32(y: u32, m: u32) -> (r: u32)
    requires
        1 <= m <= 12,
    ensures
        r as int == days_in_month(y as int, m as int),
{
    if m == 2 {
        if y % 4 == 0 && (y % 100 != 0 || y % 400 == 0) {
            29
        } else {
            28
        }
    } else if m == 4 || m == 6 || m == 9 || m == 11 {
        30
    } else {
        31
    }
}

/// Decodes a `YYYYMMDD` date field, any other shape or an impossible
/// calendar day giving `InvalidDate`.
#[verifier::loop_isolation(false)]
pub fn parse_date(s: &str) -> (r: Result<Date, ParserError>)
    ensures
        match date_token(s@) {
            Some(d) => r matches Ok(x) && x == d && x.wf(),
            None => r matches Err(e) && e.kind == ParserErrorType::InvalidDate && e.message@
                == expected_found("%Y%m%d"@, s@),
        },
{
    let n = s.unicode_len();
    if n != 8 {
        return Err(ParserError::new(ParserErrorType::InvalidDate, "%Y%m%d", s));
    }
    let mut k: usize = 0;
    while k < 8
        invariant
            k <= 8,
            forall|t: int| 0 <= t < k ==> is_digit(#[trigger] s@[t]),
        decreases 8 - k,
    {
        let c = s.get_char(k);
        let u = c as u32;
        if !(48 <= u && u <= 57) {
            return Err(ParserError::new(ParserErrorType::InvalidDate, "%Y%m%d", s));
        }
        k = k + 1;
    }
    let y = read_digits(s, 0, 4);
    let m = read_digits(s, 4, 6);
    let d = read_digits(s, 6, 8);
    proof {
        lemma_digits_val_bound(s@.subrange(0, 4));
        assert(pow10(0) == 1);
        assert(pow10(1) == 10);
        assert(pow10(2) == 100);
        assert(pow10(3) == 1000);
        assert(pow10(4) == 10000);
        assert(all_digits(s@.subrange(0, 4)));
        assert(all_digits(s@));
    }
    if m < 1 || m > 12 {
        return Err(ParserError::new(ParserErrorType::InvalidDate, "%Y%m%d", s));
    }
    let dim = days_in_month_u32(y, m);
    if d < 1 || d > dim {
        return Err(ParserError::new(ParserErrorType::InvalidDate, "%Y%m%d", s));
    }
    Ok(Date { year: y, month: m, day: d })
}

/// The code a currency is written as.
pub open spec fn currency_code(c: Currencies) -> Seq<char> {
    match c {
        Currencies::Usd => "USD"@,
        Currencies::Mxn => "MXN"@,
        Currencies::Eur => "EUR"@,
    }
}

/// Writes a currency back as its code.
pub fn encode_currency(c: &Currencies) -> (s: &'static str)
    ensures
        s@ == currency_code(*c),
{
    match c {
        Currencies::Usd => "USD",
        Currencies::Mxn => "MXN",
        Currencies::Eur => "EUR",
    }
}

/// The eight digits a date is written as.
pub open spec fn date_digits(d: Date) -> Seq<char> {
    fixed_rep(d.year as nat, 4) + fixed_rep(d.month as nat, 2) + fixed_rep(d.day as nat, 2)
}

/// Writes a date back as `YYYYMMDD`.
pub fn encode_date(d: &Date) -> (s: String)
    ensures
        s@ == date_digits(*d),
{
    let mut s = fmt_fixed(d.year as u64, 4);
    let mm = fmt_fixed(d.month as u64, 2);
    let dd = fmt_fixed(d.day as u64, 2);
    s.append(mm.as_str());
    s.append(dd.as_str());
    s
}

/// The canonical rendering of a signed integer.
pub open spec fn i32_rep(n: int) -> Seq<char> {
    if n < 0 {
        seq!['-'] + dec_rep((-n) as nat)
    } else {
        dec_rep(n as nat)
    }
}

/// Writes a signed integer back in base ten.
pub fn fmt_i32(n: i32) -> (s: String)
    ensures
        s@ == i32_rep(n as int),
{
    if n < 0 {
        proof {
            reveal_strlit("-");
        }
        let mut s = "-".to_owned();
        let mag: i64 = -(n as i64);
        let digits = fmt_u128(mag as u128);
        s.append(digits.as_str());
        proof {
            assert(s@ =~= i32_rep(n as int));
        }
        s
    } else {
        fmt_u128(n as u128)
    }
}

/// `fixed_rep` writes exactly `width` digit characters whose value is
/// the written number modulo ten to the `width`.
pub proof fn lemma_fixed_rep_digits(f: nat, w: nat)
    ensures
        fixed_rep(f, w).len() == w,
        all_digits(fixed_rep(f, w)),
        digits_val(fixed_rep(f, w)) == f % pow10(w),
    decreases w,
{
    if w == 0 {
        assert(pow10(0) == 1);
    } else {
        lemma_fixed_rep_digits(f / 10, (w - 1) as nat);
        crate::digits::lemma_digit_char_val((f % 10) as int);
        let s = fixed_rep(f, w);
        let pre = fixed_rep(f / 10, (w - 1) as nat);
        assert(s.drop_last() =~= pre);
        assert(s.last() == crate::digits::digit_char((f % 10) as int));
        assert forall|t: int| 0 <= t < s.len() implies is_digit(#[trigger] s[t]) by {
            if t < w - 1 {
                assert(s[t] == pre[t]);
            }
        }
        lemma_pow10_mono(0, (w - 1) as nat);
        lemma_mod_breakdown(f as int, 10, pow10((w - 1) as nat) as int);
        assert(pow10(w) == 10 * pow10((w - 1) as nat));
    }
}

/// A value below the modulus is unchanged by it.
proof fn lemma_small_mod_here(x: nat, m: nat)
    requires
        x < m,
    ensures
        x % m == x,
{
    vstd::arithmetic::div_mod::lemma_small_mod(x, m);
}

/// Law: an unsigned integer written in base ten reads back as itself.
pub proof fn lemma_u32_round_trip(n: u32)
    ensures
        u32_token_val(dec_rep(n as nat)) == Some(n),
{
    lemma_dec_rep_digits(n as nat);
    lemma_dec_rep_val(n as nat);
    let s = dec_rep(n as nat);
    assert(is_digit(s[0]));
    assert(s[0] != '+');
}

/// Law: a signed integer written in base ten reads back as itself.
pub proof fn lemma_i32_round_trip(n: i32)
    ensures
        i32_token_val(i32_rep(n as int)) == Some(n),
{
    let s = i32_rep(n as int);
    if n < 0 {
        let mag = (-(n as int)) as nat;
        lemma_dec_rep_digits(mag);
        lemma_dec_rep_val(mag);
        assert(s[0] == '-');
        assert(s.drop_first() =~= dec_rep(mag));
    } else {
        lemma_dec_rep_digits(n as nat);
        lemma_dec_rep_val(n as nat);
        assert(is_digit(s[0]));
        assert(s[0] != '+' && s[0] != '-');
    }
}

/// Law: a date written as `YYYYMMDD` reads back as the same date.
pub proof fn lemma_date_round_trip(d: Date)
    requires
        d.wf(),
    ensures
        date_token(date_digits(d)) == Some(d),
{
    let s = date_digits(d);
    let ys = fixed_rep(d.year as nat, 4);
    let ms = fixed_rep(d.month as nat, 2);
    let ds = fixed_rep(d.day as nat, 2);
    lemma_fixed_rep_digits(d.year as nat, 4);
    lemma_fixed_rep_digits(d.month as nat, 2);
    lemma_fixed_rep_digits(d.day as nat, 2);
    assert(pow10(0) == 1);
    assert(pow10(1) == 10);
    assert(pow10(2) == 100);
    assert(pow10(3) == 1000);
    assert(pow10(4) == 10000);
    assert(s.subrange(0, 4) =~= ys);
    assert(s.subrange(4, 6) =~= ms);
    assert(s.subrange(6, 8) =~= ds);
    assert forall|t: int| 0 <= t < s.len() implies is_digit(#[trigger] s[t]) by {
        if t < 4 {
            assert(s[t] == ys[t]);
        } else if t < 6 {
            assert(s[t] == ms[t - 4]);
        } else {
            assert(s[t] == ds[t - 6]);
        }
    }
    lemma_small_mod_here(d.year as nat, 10000);
    lemma_small_mod_here(d.month as nat, 100);
    lemma_small_mod_here(d.day as nat, 100);
}

/// Law: a currency written as its code reads back as itself.
pub proof fn lemma_currency_round_trip(c: Currencies)
    ensures
        currency_token(currency_code(c)) == Some(c),
{
    reveal_strlit("USD");
    reveal_strlit("MXN");
    reveal_strlit("EUR");
    assert("USD"@[0] == 'U' && "MXN"@[0] == 'M' && "EUR"@[0] == 'E');
}

/// What kind of scalar a field is decoded as.
#[derive(Debug, Clone, Copy, PartialEq, Eq, Structural)]
pub enum ScalarKind {
    Integer,
    Unsigned,
    Decimal,
}

/// A decoded scalar.
#[derive(Debug, Clone, Copy, PartialEq, Eq, Structural)]
pub enum ScalarValue {
    Integer(i32),
    Unsigned(u32),
    Decimal(Decimal),
}

/// Decodes one token as the asked-for scalar kind: the single entry of
/// the field decoder, with the rejection classified after the kind.
pub fn parse(s: &str, kind: ScalarKind) -> (r: Result<ScalarValue, ParserError>)
    ensures
        match kind {
            ScalarKind::Integer => match i32_token_val(s@) {
                Some(v) => r matches Ok(w) && w == ScalarValue::Integer(v),
                None => r matches Err(e) && e.kind == ParserErrorType::ParseInteger && e.message@
                    == expected_found("i32"@, s@),
            },
            ScalarKind::Unsigned => match u32_token_val(s@) {
                Some(v) => r matches Ok(w) && w == ScalarValue::Unsigned(v),
                None => r matches Err(e) && e.kind == ParserErrorType::ParseInteger && e.message@
                    == expected_found("u32"@, s@),
            },
            ScalarKind::Decimal => match decimal_token_micros(s@) {
                Some(m) => r matches Ok(w) && w matches ScalarValue::Decimal(d) && d.micros as int
                    == m,
                None => r matches Err(e) && e.kind == ParserErrorType::ParseFloat && e.message@
                    == expected_found("decimal"@, s@),
            },
        },
{
    match kind {
        ScalarKind::Integer => match parse_i32(s) {
            Ok(v) => Ok(ScalarValue::Integer(v)),
            Err(e) => Err(e),
        },
        ScalarKind::Unsigned => match parse_u32(s) {
            Ok(v) => Ok(ScalarValue::Unsigned(v)),
            Err(e) => Err(e),
        },
        ScalarKind::Decimal => match parse_decimal(s) {
            Ok(v) => Ok(ScalarValue::Decimal(v)),
            Err(e) => Err(e),
        },
    }
}

} // verus!
