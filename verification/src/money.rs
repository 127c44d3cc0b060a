//! Exact-precision money literals: ISO 4217 currency exponents, conversion
//! of decimal amount text into integer minor units, and canonical display.

use crate::error::NmlError;
use crate::span::Span;
use crate::text::chars_to_string;
use crate::text::dec_str;
use crate::text::digit_of;
use crate::text::digit_val;
use crate::text::digits_val;
use crate::text::is_ascii_digit_ch;
use crate::text::is_digit;
use crate::text::is_digit_seq;
use crate::text::lemma_digits_val_bounds;
use crate::text::lemma_digits_val_extend;
use crate::text::lemma_pow10_mono;
use crate::text::pow10;
use crate::text::pow10_u64;
use crate::text::str_eq;
use crate::text::str_to_chars;
use crate::text::push_char;
use crate::text::u64_to_string;
use crate::text::zero_pad;
use vstd::prelude::*;

verus! {

use vstd::string::StringExecFns;

/// A money value stored as integer minor units with an ISO 4217 currency code.
#[derive(Debug, Clone, PartialEq, Eq)]
pub struct Money {
    /// Amount in minor units (for example cents for USD).
    pub amount: i64,
    /// ISO 4217 currency code (for example "USD").
    pub currency: String,
    /// Number of decimal places for this currency (from ISO 4217).
    pub exponent: u8,
}

impl Money {
    /// The exponent matches the authoritative currency table.
    pub open spec fn wf(&self) -> bool {
        currency_exponent_spec(self.currency@) == Some(self.exponent)
    }
}

pub open spec fn is_exponent_zero_code(s: Seq<char>) -> bool {
    ||| s == "BIF"@
    ||| s == "CLP"@
    ||| s == "DJF"@
    ||| s == "GNF"@
    ||| s == "ISK"@
    ||| s == "JPY"@
    ||| s == "KMF"@
    ||| s == "KRW"@
    ||| s == "PYG"@
    ||| s == "RWF"@
    ||| s == "UGX"@
    ||| s == "UYI"@
    ||| s == "VND"@
    ||| s == "VUV"@
    ||| s == "XAF"@
    ||| s == "XOF"@
    ||| s == "XPF"@
}

pub open spec fn is_exponent_three_code(s: Seq<char>) -> bool {
    ||| s == "BHD"@
    ||| s == "IQD"@
    ||| s == "JOD"@
    ||| s == "KWD"@
    ||| s == "LYD"@
    ||| s == "OMR"@
    ||| s == "TND"@
}

pub open spec fn is_exponent_four_code(s: Seq<char>) -> bool {
    ||| s == "CLF"@
    ||| s == "UYW"@
}

pub open spec fn is_exponent_two_code(s: Seq<char>) -> bool {
    ||| s == "AED"@
    ||| s == "AFN"@
    ||| s == "ALL"@
    ||| s == "AMD"@
    ||| s == "ANG"@
    ||| s == "AOA"@
    ||| s == "ARS"@
    ||| s == "AUD"@
    ||| s == "AWG"@
    ||| s == "AZN"@
    ||| s == "BAM"@
    ||| s == "BBD"@
    ||| s == "BDT"@
    ||| s == "BGN"@
    ||| s == "BMD"@
    ||| s == "BND"@
    ||| s == "BOB"@
    ||| s == "BRL"@
    ||| s == "BSD"@
    ||| s == "BTN"@
    ||| s == "BWP"@
    ||| s == "BYN"@
    ||| s == "BZD"@
    ||| s == "CAD"@
    ||| s == "CDF"@
    ||| s == "CHF"@
    ||| s == "CNY"@
    ||| s == "COP"@
    ||| s == "CRC"@
    ||| s == "CUP"@
    ||| s == "CVE"@
    ||| s == "CZK"@
    ||| s == "DKK"@
    ||| s == "DOP"@
    ||| s == "DZD"@
    ||| s == "EGP"@
    ||| s == "ERN"@
    ||| s == "ETB"@
    ||| s == "EUR"@
    ||| s == "FJD"@
    ||| s == "FKP"@
    ||| s == "GBP"@
    ||| s == "GEL"@
    ||| s == "GHS"@
    ||| s == "GIP"@
    ||| s == "GMD"@
    ||| s == "GTQ"@
    ||| s == "GYD"@
    ||| s == "HKD"@
    ||| s == "HNL"@
    ||| s == "HTG"@
    ||| s == "HUF"@
    ||| s == "IDR"@
    ||| s == "ILS"@
    ||| s == "INR"@
    ||| s == "IRR"@
    ||| s == "JMD"@
    ||| s == "KES"@
    ||| s == "KGS"@
    ||| s == "KHR"@
    ||| s == "KYD"@
    ||| s == "KZT"@
    ||| s == "LAK"@
    ||| s == "LBP"@
    ||| s == "LKR"@
    ||| s == "LRD"@
    ||| s == "LSL"@
    ||| s == "MAD"@
    ||| s == "MDL"@
    ||| s == "MGA"@
    ||| s == "MKD"@
    ||| s == "MMK"@
    ||| s == "MNT"@
    ||| s == "MOP"@
    ||| s == "MRU"@
    ||| s == "MUR"@
    ||| s == "MVR"@
    ||| s == "MWK"@
    ||| s == "MXN"@
    ||| s == "MYR"@
    ||| s == "MZN"@
    ||| s == "NAD"@
    ||| s == "NGN"@
    ||| s == "NIO"@
    ||| s == "NOK"@
    ||| s == "NPR"@
    ||| s == "NZD"@
    ||| s == "PAB"@
    ||| s == "PEN"@
    ||| s == "PGK"@
    ||| s == "PHP"@
    ||| s == "PKR"@
    ||| s == "PLN"@
    ||| s == "QAR"@
    ||| s == "RON"@
    ||| s == "RSD"@
    ||| s == "RUB"@
    ||| s == "SAR"@
    ||| s == "SBD"@
    ||| s == "SCR"@
    ||| s == "SDG"@
    ||| s == "SEK"@
    ||| s == "SGD"@
    ||| s == "SHP"@
    ||| s == "SLE"@
    ||| s == "SOS"@
    ||| s == "SRD"@
    ||| s == "SSP"@
    ||| s == "STN"@
    ||| s == "SYP"@
    ||| s == "SZL"@
    ||| s == "THB"@
    ||| s == "TJS"@
    ||| s == "TMT"@
    ||| s == "TOP"@
    ||| s == "TRY"@
    ||| s == "TTD"@
    ||| s == "TWD"@
    ||| s == "TZS"@
    ||| s == "UAH"@
    ||| s == "USD"@
    ||| s == "UYU"@
    ||| s == "UZS"@
    ||| s == "VES"@
    ||| s == "WST"@
    ||| s == "XCD"@
    ||| s == "YER"@
    ||| s == "ZAR"@
    ||| s == "ZMW"@
    ||| s == "ZWL"@
}

/// The ISO 4217 minor-unit exponent of a currency code, or `None` for an
/// unknown code.
pub open spec fn currency_exponent_spec(code: Seq<char>) -> Option<u8> {
    if is_exponent_zero_code(code) {
        Some(0u8)
    } else if is_exponent_three_code(code) {
        Some(3u8)
    } else if is_exponent_four_code(code) {
        Some(4u8)
    } else if is_exponent_two_code(code) {
        Some(2u8)
    } else {
        None
    }
}

/// Returns the ISO 4217 exponent (minor unit count) for a currency code.
#[verifier::rlimit(50)]
pub fn currency_exponent(code: &str) -> (r: Option<u8>)
    ensures
        r == currency_exponent_spec(code@),
{
    if str_eq(code, "BIF") || str_eq(code, "CLP") || str_eq(code, "DJF") || str_eq(code, "GNF")
        || str_eq(code, "ISK") || str_eq(code, "JPY") || str_eq(code, "KMF") || str_eq(code, "KRW")
        || str_eq(code, "PYG") || str_eq(code, "RWF") || str_eq(code, "UGX") || str_eq(code, "UYI")
        || str_eq(code, "VND") || str_eq(code, "VUV") || str_eq(code, "XAF") || str_eq(code, "XOF")
        || str_eq(code, "XPF") {
        Some(0)
    } else if str_eq(code, "BHD") || str_eq(code, "IQD") || str_eq(code, "JOD") || str_eq(code, "KWD")
        || str_eq(code, "LYD") || str_eq(code, "OMR") || str_eq(code, "TND") {
        Some(3)
    } else if str_eq(code, "CLF") || str_eq(code, "UYW") {
        Some(4)
    } else if str_eq(code, "AED") || str_eq(code, "AFN") || str_eq(code, "ALL") || str_eq(code, "AMD")
        || str_eq(code, "ANG") || str_eq(code, "AOA") || str_eq(code, "ARS") || str_eq(code, "AUD")
        || str_eq(code, "AWG") || str_eq(code, "AZN") || str_eq(code, "BAM") || str_eq(code, "BBD")
        || str_eq(code, "BDT") || str_eq(code, "BGN") || str_eq(code, "BMD") || str_eq(code, "BND")
        || str_eq(code, "BOB") || str_eq(code, "BRL") || str_eq(code, "BSD") || str_eq(code, "BTN")
        || str_eq(code, "BWP") || str_eq(code, "BYN") || str_eq(code, "BZD") || str_eq(code, "CAD")
        || str_eq(code, "CDF") || str_eq(code, "CHF") || str_eq(code, "CNY") || str_eq(code, "COP")
        || str_eq(code, "CRC") || str_eq(code, "CUP") || str_eq(code, "CVE") || str_eq(code, "CZK")
        || str_eq(code, "DKK") || str_eq(code, "DOP") || str_eq(code, "DZD") || str_eq(code, "EGP")
        || str_eq(code, "ERN") || str_eq(code, "ETB") || str_eq(code, "EUR") || str_eq(code, "FJD")
        || str_eq(code, "FKP") || str_eq(code, "GBP") || str_eq(code, "GEL") || str_eq(code, "GHS")
        || str_eq(code, "GIP") || str_eq(code, "GMD") || str_eq(code, "GTQ") || str_eq(code, "GYD")
        || str_eq(code, "HKD") || str_eq(code, "HNL") || str_eq(code, "HTG") || str_eq(code, "HUF")
        || str_eq(code, "IDR") || str_eq(code, "ILS") || str_eq(code, "INR") || str_eq(code, "IRR")
        || str_eq(code, "JMD") || str_eq(code, "KES") || str_eq(code, "KGS") || str_eq(code, "KHR")
        || str_eq(code, "KYD") || str_eq(code, "KZT") || str_eq(code, "LAK") || str_eq(code, "LBP")
        || str_eq(code, "LKR") || str_eq(code, "LRD") || str_eq(code, "LSL") || str_eq(code, "MAD")
        || str_eq(code, "MDL") || str_eq(code, "MGA") || str_eq(code, "MKD") || str_eq(code, "MMK")
        || str_eq(code, "MNT") || str_eq(code, "MOP") || str_eq(code, "MRU") || str_eq(code, "MUR")
        || str_eq(code, "MVR") || str_eq(code, "MWK") || str_eq(code, "MXN") || str_eq(code, "MYR")
        || str_eq(code, "MZN") || str_eq(code, "NAD") || str_eq(code, "NGN") || str_eq(code, "NIO")
        || str_eq(code, "NOK") || str_eq(code, "NPR") || str_eq(code, "NZD") || str_eq(code, "PAB")
        || str_eq(code, "PEN") || str_eq(code, "PGK") || str_eq(code, "PHP") || str_eq(code, "PKR")
        || str_eq(code, "PLN") || str_eq(code, "QAR") || str_eq(code, "RON") || str_eq(code, "RSD")
        || str_eq(code, "RUB") || str_eq(code, "SAR") || str_eq(code, "SBD") || str_eq(code, "SCR")
        || str_eq(code, "SDG") || str_eq(code, "SEK") || str_eq(code, "SGD") || str_eq(code, "SHP")
        || str_eq(code, "SLE") || str_eq(code, "SOS") || str_eq(code, "SRD") || str_eq(code, "SSP")
        || str_eq(code, "STN") || str_eq(code, "SYP") || str_eq(code, "SZL") || str_eq(code, "THB")
        || str_eq(code, "TJS") || str_eq(code, "TMT") || str_eq(code, "TOP") || str_eq(code, "TRY")
        || str_eq(code, "TTD") || str_eq(code, "TWD") || str_eq(code, "TZS") || str_eq(code, "UAH")
        || str_eq(code, "USD") || str_eq(code, "UYU") || str_eq(code, "UZS") || str_eq(code, "VES")
        || str_eq(code, "WST") || str_eq(code, "XCD") || str_eq(code, "YER") || str_eq(code, "ZAR")
        || str_eq(code, "ZMW") || str_eq(code, "ZWL") {
        Some(2)
    } else {
        None
    }
}

/// A string accepted by `i64` parsing: an optional sign, then digits.
pub open spec fn is_int_str(s: Seq<char>) -> bool {
    if s.len() == 0 {
        false
    } else if s[0] == '-' || s[0] == '+' {
        s.len() > 1 && is_digit_seq(s.drop_first())
    } else {
        is_digit_seq(s)
    }
}

/// The signed value of an integer string.
pub open spec fn int_str_val(s: Seq<char>) -> int {
    if s.len() == 0 {
        0
    } else if s[0] == '-' {
        -digits_val(s.drop_first())
    } else if s[0] == '+' {
        digits_val(s.drop_first())
    } else {
        digits_val(s)
    }
}

/// What `i64` parsing returns: the value when the string is well formed and
/// the value fits, and nothing otherwise.
pub open spec fn parse_i64_spec(s: Seq<char>) -> Option<i64> {
    if is_int_str(s) && i64::MIN <= int_str_val(s) <= i64::MAX {
        Some(int_str_val(s) as i64)
    } else {
        None
    }
}

/// Parses the characters `v[from..to]` as a signed 64-bit integer, exactly as
/// the standard decimal parse does: an optional sign, one or more digits, and
/// a range check.
pub(crate) fn parse_i64_chars(v: &Vec<char>, from: usize, to: usize) -> (r: Option<i64>)
    requires
        from <= to <= v@.len(),
    ensures
        r == parse_i64_spec(v@.subrange(from as int, to as int)),
{
    let ghost s = v@.subrange(from as int, to as int);
    if from == to {
        return None;
    }
    let first = v[from];
    proof {
        assert(s[0] == v@[from as int]);
    }
    let neg = first == '-';
    let start: usize = if first == '-' || first == '+' {
        from + 1
    } else {
        from
    };
    let ghost digits = v@.subrange(start as int, to as int);
    proof {
        if start > from {
            assert(digits =~= s.drop_first());
        } else {
            assert(digits =~= s);
        }
    }
    if start == to {
        // A sign with no digits is rejected.
        return None;
    }
    let limit: u64 = if neg {
        9223372036854775808
    } else {
        9223372036854775807
    };
    let mut mag: u64 = 0;
    let mut i: usize = start;
    while i < to
        invariant
            from <= start <= i <= to <= v@.len(),
            start < to,
            s == v@.subrange(from as int, to as int),
            digits == v@.subrange(start as int, to as int),
            s.len() > 0,
            neg == (s[0] == '-'),
            start > from <==> (s[0] == '-' || s[0] == '+'),
            digits == if start > from {
                s.drop_first()
            } else {
                s
            },
            is_digit_seq(digits.take(i - start)),
            mag == digits_val(digits.take(i - start)),
            mag <= limit,
            limit == if neg { 9223372036854775808u64 } else { 9223372036854775807u64 },
        decreases to - i,
    {
        let c = v[i];
        let ghost k = i - start;
        proof {
            assert(digits[k] == v@[i as int]);
        }
        if !is_ascii_digit_ch(c) {
            proof {
                // A non-digit character makes the whole string ill formed.
                assert(!is_digit(digits[k]));
                assert(!is_digit_seq(digits));
                assert(!is_int_str(s));
            }
            return None;
        }
        let d = digit_of(c) as u64;
        if mag > (limit - d) / 10 {
            proof {
                // The digits seen so far already exceed the range, and more
                // digits only grow the value.
                assert(mag * 10 + d > limit) by (nonlinear_arith)
                    requires
                        mag > (limit - d) / 10,
                        d <= 9,
                        d <= limit,
                ;
                assert(digits.take(k + 1).drop_last() =~= digits.take(k));
                assert(digits.take(k + 1).last() == digits[k]);
                assert(digits_val(digits.take(k + 1)) == mag * 10 + d);
                if is_digit_seq(digits) {
                    lemma_digits_val_extend(digits, k + 1);
                    lemma_pow10_mono(0, (digits.len() - k - 1) as nat);
                    let dv = digits_val(digits.take(k + 1));
                    let p = pow10((digits.len() - k - 1) as nat);
                    assert(digits_val(digits) >= dv * p);
                    assert(dv * p >= dv * 1) by (nonlinear_arith)
                        requires
                            p >= 1,
                            dv >= 0,
                    ;
                    assert(digits_val(digits) > limit);
                    if neg {
                        assert(int_str_val(s) < i64::MIN);
                    } else {
                        assert(int_str_val(s) > i64::MAX);
                    }
                }
            }
            return None;
        }
        proof {
            assert(mag * 10 + d <= limit) by (nonlinear_arith)
                requires
                    mag <= (limit - d) / 10,
                    d <= 9,
                    d <= limit,
            ;
            assert(digits.take(k + 1).drop_last() =~= digits.take(k));
            assert(digits.take(k + 1).last() == digits[k]);
            assert(is_digit_seq(digits.take(k + 1))) by {
                assert(forall|j: int|
                    0 <= j < k + 1 ==> #[trigger] digits.take(k + 1)[j] == digits.take(k + 1)[j]);
                assert(forall|j: int| 0 <= j < k ==> digits.take(k + 1)[j] == digits.take(k)[j]);
            }
        }
        mag = mag * 10 + d;
        i += 1;
    }
    proof {
        assert(digits.take(to - start) =~= digits);
        assert(is_int_str(s));
        if neg {
            assert(int_str_val(s) == -(mag as int));
        } else {
            assert(int_str_val(s) == mag as int);
        }
    }
    if neg {
        if mag == 9223372036854775808 {
            Some(i64::MIN)
        } else {
            Some(-(mag as i64))
        }
    } else {
        Some(mag as i64)
    }
}

/// Whether the amount text begins with a stripped leading minus.
pub open spec fn money_neg(s: Seq<char>) -> bool {
    s.len() > 0 && s[0] == '-'
}

/// The amount text with a leading minus stripped.
pub open spec fn money_abs(s: Seq<char>) -> Seq<char> {
    if money_neg(s) {
        s.drop_first()
    } else {
        s
    }
}

/// Index of the first '.' in the text, or -1 when there is none.
pub open spec fn dot_index(s: Seq<char>) -> int {
    crate::text::find_char(s, '.')
}

pub(crate) proof fn lemma_dot_index(s: Seq<char>)
    ensures
        dot_index(s) == -1 ==> forall|i: int| 0 <= i < s.len() ==> s[i] != '.',
        dot_index(s) != -1 ==> 0 <= dot_index(s) < s.len() && s[dot_index(s)] == '.' && forall|
            i: int,
        | 0 <= i < dot_index(s) ==> s[i] != '.',
{
    crate::text::lemma_find_char(s, '.');
}

/// The whole part of the amount: everything before the first dot.
pub open spec fn money_whole(s: Seq<char>) -> Seq<char> {
    let a = money_abs(s);
    if dot_index(a) == -1 {
        a
    } else {
        a.take(dot_index(a))
    }
}

/// The fractional digits of the amount: everything after the first dot.
pub open spec fn money_frac(s: Seq<char>) -> Seq<char> {
    let a = money_abs(s);
    if dot_index(a) == -1 {
        Seq::empty()
    } else {
        a.skip(dot_index(a) + 1)
    }
}

/// Fractional digits padded on the right with zeros to the exponent's width.
pub open spec fn padded_frac(f: Seq<char>, e: u8) -> Seq<char> {
    f + Seq::new((e - f.len()) as nat, |i: int| '0')
}

/// What the fractional part contributes, before the sign: zero when absent,
/// else the integer value of the zero-padded digits.
pub open spec fn money_frac_parsed(f: Seq<char>, e: u8) -> Option<i64> {
    if f.len() == 0 {
        Some(0i64)
    } else {
        parse_i64_spec(padded_frac(f, e))
    }
}

/// The amount in minor units: `whole * 10^exponent + fraction`, with the
/// stripped sign re-applied.
pub open spec fn money_minor_units(s: Seq<char>, e: u8) -> int {
    let sign: int = if money_neg(s) {
        -1
    } else {
        1
    };
    let fv: int = if money_frac(s).len() == 0 {
        0
    } else {
        int_str_val(padded_frac(money_frac(s), e))
    };
    sign * (int_str_val(money_whole(s)) * pow10(e as nat) + fv)
}

/// Every check `parse_money` makes, in order: known currency, fraction within
/// the exponent, whole and fraction well formed, and the result within `i64`.
pub open spec fn money_parses(s: Seq<char>, code: Seq<char>) -> bool {
    &&& currency_exponent_spec(code) is Some
    &&& minor_units_parse(s, currency_exponent_spec(code)->0)
}

/// The message reported for an amount rejected under a known currency: the
/// first check that fails, in the order the checks are made.
pub open spec fn minor_units_err_msg(s: Seq<char>, code: Seq<char>, e: u8) -> Seq<char> {
    if money_frac(s).len() > e as int {
        code + " has "@ + dec_str(e as int) + " decimal places, but got "@ + dec_str(
            money_frac(s).len() as int,
        ) + " in \""@ + s + "\""@
    } else if parse_i64_spec(money_whole(s)) is None {
        "invalid number: \""@ + s + "\""@
    } else if money_frac_parsed(money_frac(s), e) is None {
        "invalid fractional part: \""@ + money_frac(s) + "\""@
    } else {
        "money amount out of range: \""@ + s + "\""@
    }
}

/// The message `parse_money` reports for a rejected input.
pub open spec fn money_err_msg(s: Seq<char>, code: Seq<char>) -> Seq<char> {
    if currency_exponent_spec(code) is None {
        "unknown currency code: "@ + code
    } else {
        minor_units_err_msg(s, code, currency_exponent_spec(code)->0)
    }
}

/// Whether the amount text alone passes every check under a known exponent.
pub open spec fn minor_units_parse(s: Seq<char>, e: u8) -> bool {
    &&& money_frac(s).len() <= e as int
    &&& parse_i64_spec(money_whole(s)) is Some
    &&& money_frac_parsed(money_frac(s), e) is Some
    &&& i64::MIN <= money_minor_units(s, e) <= i64::MAX
}

/// Parses the digits of the fractional part, right-padded with zeros to the
/// exponent's width, from `chars[from..]`.
fn parse_frac(chars: &Vec<char>, from: usize, exponent: u8) -> (r: Option<i64>)
    requires
        from <= chars@.len(),
        chars@.len() - from <= exponent as int,
        exponent <= 18,
        chars@.len() > from,
    ensures
        r == parse_i64_spec(padded_frac(chars@.skip(from as int), exponent)),
{
    let ghost frac = chars@.skip(from as int);
    let n = chars.len();
    let mut padded: Vec<char> = Vec::new();
    let mut t: usize = from;
    while t < n
        invariant
            from <= t <= n,
            n == chars@.len(),
            padded@ == chars@.subrange(from as int, t as int),
        decreases n - t,
    {
        padded.push(chars[t]);
        proof {
            assert(padded@ =~= chars@.subrange(from as int, t + 1));
        }
        t += 1;
    }
    proof {
        assert(padded@ =~= frac);
    }
    let ghost frac_len = frac.len();
    while padded.len() < exponent as usize
        invariant
            frac_len <= padded@.len() <= exponent as int,
            padded@ == frac + Seq::new((padded@.len() - frac_len) as nat, |i: int| '0'),
        decreases exponent as int - padded@.len(),
    {
        padded.push('0');
        proof {
            assert(padded@ =~= frac + Seq::new((padded@.len() - frac_len) as nat, |i: int| '0'));
        }
    }
    proof {
        assert(padded@ =~= padded_frac(frac, exponent));
        assert(padded@.subrange(0, padded@.len() as int) =~= padded@);
    }
    let len = padded.len();
    parse_i64_chars(&padded, 0, len)
}

/// Converts decimal amount text to integer minor units under a known
/// exponent: split on the sign and the first dot, bound the fraction by the
/// exponent, combine `whole * 10^exponent + fraction`, and re-apply the sign.
#[verifier::rlimit(60)]
fn parse_minor_units(amount_str: &str, exponent: u8, currency: &str, span: Span) -> (r: Result<
    i64,
    NmlError,
>)
    requires
        exponent <= 18,
    ensures
        r is Ok <==> minor_units_parse(amount_str@, exponent),
        r matches Ok(a) ==> a as int == money_minor_units(amount_str@, exponent),
        r matches Err(e) ==> {
            &&& e is InvalidMoney
            &&& e.spec_span() == span
            &&& e.spec_message() == minor_units_err_msg(amount_str@, currency@, exponent)
        },
{
    let ghost s = amount_str@;
    let chars = str_to_chars(amount_str);
    let n = chars.len();
    let negative = n > 0 && chars[0] == '-';
    let abs_from: usize = if negative {
        1
    } else {
        0
    };
    let ghost abs = money_abs(s);
    proof {
        assert(abs =~= chars@.subrange(abs_from as int, n as int));
    }

    // Find the first dot of the absolute part.
    let mut j: usize = abs_from;
    while j < n && chars[j] != '.'
        invariant
            abs_from <= j <= n,
            n == chars@.len(),
            forall|t: int| abs_from <= t < j ==> chars@[t] != '.',
        decreases n - j,
    {
        j += 1;
    }
    proof {
        lemma_dot_index(abs);
        assert(forall|i: int| 0 <= i < abs.len() ==> abs[i] == chars@[abs_from + i]);
        if j < n {
            assert(abs[j - abs_from] == '.');
            assert(dot_index(abs) == j - abs_from) by {
                if dot_index(abs) < j - abs_from {
                    assert(chars@[abs_from + dot_index(abs)] != '.');
                }
            }
        } else {
            if dot_index(abs) != -1 {
                assert(chars@[abs_from + dot_index(abs)] == '.');
            }
        }
    }

    let whole_end: usize = j;
    let has_dot = j < n;
    let frac_from: usize = if has_dot {
        j + 1
    } else {
        n
    };
    let frac_len: usize = n - frac_from;
    proof {
        if has_dot {
            assert(money_frac(s) =~= chars@.subrange(frac_from as int, n as int));
        } else {
            assert(money_frac(s) =~= Seq::<char>::empty());
        }
        assert(money_frac(s).len() == frac_len);
        assert(money_whole(s) =~= chars@.subrange(abs_from as int, whole_end as int));
    }

    if frac_len > exponent as usize {
        let mut msg = currency.to_owned();
        msg.append(" has ");
        msg.append(u64_to_string(exponent as u64).as_str());
        msg.append(" decimal places, but got ");
        msg.append(u64_to_string(frac_len as u64).as_str());
        msg.append(" in \"");
        msg.append(amount_str);
        msg.append("\"");
        return Err(NmlError::InvalidMoney { message: msg, span });
    }

    let whole: i64 = match parse_i64_chars(&chars, abs_from, whole_end) {
        Some(w) => w,
        None => {
            let mut msg = String::from_str("invalid number: \"");
            msg.append(amount_str);
            msg.append("\"");
            return Err(NmlError::InvalidMoney { message: msg, span });
        },
    };

    let frac: i64 = if frac_len == 0 {
        0
    } else {
        match parse_frac(&chars, frac_from, exponent) {
            Some(f) => f,
            None => {
                let mut frac_vec: Vec<char> = Vec::new();
                let mut t: usize = frac_from;
                while t < n
                    invariant
                        frac_from <= t <= n,
                        n == chars@.len(),
                        frac_vec@ == chars@.subrange(frac_from as int, t as int),
                    decreases n - t,
                {
                    frac_vec.push(chars[t]);
                    proof {
                        assert(frac_vec@ =~= chars@.subrange(frac_from as int, t + 1));
                    }
                    t += 1;
                }
                let mut msg = String::from_str("invalid fractional part: \"");
                msg.append(chars_to_string(&frac_vec).as_str());
                msg.append("\"");
                return Err(NmlError::InvalidMoney { message: msg, span });
            },
        }
    };

    let multiplier = pow10_u64(exponent);
    proof {
        crate::text::lemma_pow10_mono(exponent as nat, 18);
        reveal_with_fuel(pow10, 19);
        assert(pow10(18) == 1000000000000000000);
        assert(whole as i128 * multiplier as i128 <= 9223372036854775807i128
            * 1000000000000000000i128 && whole as i128 * multiplier as i128
            >= (-9223372036854775808i128) * 1000000000000000000i128) by (nonlinear_arith)
            requires
                -9223372036854775808 <= whole as i128 <= 9223372036854775807,
                1 <= multiplier as i128 <= 1000000000000000000,
        ;
    }
    let abs_amount: i128 = whole as i128 * multiplier as i128 + frac as i128;
    let total: i128 = if negative {
        -abs_amount
    } else {
        abs_amount
    };
    if total < -9223372036854775808i128 || total > 9223372036854775807i128 {
        let mut msg = String::from_str("money amount out of range: \"");
        msg.append(amount_str);
        msg.append("\"");
        return Err(NmlError::InvalidMoney { message: msg, span });
    }
    Ok(total as i64)
}

/// Parse a money literal like `19.99` `USD` into a `Money` value: look up the
/// currency's exponent, convert the amount text exactly, and carry the code.
pub fn parse_money(amount_str: &str, currency: &str, span: Span) -> (r: Result<Money, NmlError>)
    ensures
        r is Ok <==> money_parses(amount_str@, currency@),
        r matches Ok(m) ==> {
            &&& m.currency@ == currency@
            &&& Some(m.exponent) == currency_exponent_spec(currency@)
            &&& m.amount as int == money_minor_units(amount_str@, m.exponent)
            &&& m.wf()
        },
        r matches Err(e) ==> {
            &&& e is InvalidMoney
            &&& e.spec_span() == span
            &&& e.spec_message() == money_err_msg(amount_str@, currency@)
        },
{
    let exponent = match currency_exponent(currency) {
        Some(e) => e,
        None => {
            let mut msg = String::from_str("unknown currency code: ");
            msg.append(currency);
            return Err(NmlError::InvalidMoney { message: msg, span });
        },
    };
    match parse_minor_units(amount_str, exponent, currency, span) {
        Ok(amount) => Ok(Money { amount, currency: currency.to_owned(), exponent }),
        Err(e) => Err(e),
    }
}

/// The canonical display text of a money value: a minus sign for negative
/// amounts, the minor units divided by ten to the exponent, the fraction
/// zero-padded to the exponent's width, and the currency code; exponent-zero
/// currencies show no decimal point. Display reverses the minor-unit
/// conversion.
pub open spec fn money_display(m: Money) -> Seq<char> {
    let mag: int = if m.amount < 0 {
        -(m.amount as int)
    } else {
        m.amount as int
    };
    if m.exponent == 0 {
        (if m.amount < 0 {
            seq!['-']
        } else {
            Seq::<char>::empty()
        }) + dec_str(mag) + " "@ + m.currency@
    } else {
        let p = pow10(m.exponent as nat);
        let whole = mag / p;
        let frac = mag % p;
        (if m.amount < 0 {
            seq!['-']
        } else {
            Seq::<char>::empty()
        }) + dec_str(whole) + "."@ + zero_pad(dec_str(frac), m.exponent as nat) + " "@
            + m.currency@
    }
}

impl Money {
    /// Renders the value in canonical display form, reversing the minor-unit
    /// conversion.
    pub fn format_display(&self) -> (r: String)
        requires
            self.exponent <= 18,
        ensures
            r@ == money_display(*self),
    {
        let neg = self.amount < 0;
        let mag: u64 = if neg {
            (-(self.amount as i128)) as u64
        } else {
            self.amount as u64
        };
        proof {
            assert(mag as int == if self.amount < 0 {
                -(self.amount as int)
            } else {
                self.amount as int
            });
        }
        let mut out = String::new();
        if self.exponent == 0 {
            if neg {
                push_char(&mut out, '-');
                proof {
                    assert(out@ =~= seq!['-']);
                }
            }
            out.append(u64_to_string(mag).as_str());
            proof {
                assert(out@ =~= (if self.amount < 0 {
                    seq!['-']
                } else {
                    Seq::<char>::empty()
                }) + dec_str(mag as int));
            }
        } else {
            let p = pow10_u64(self.exponent);
            proof {
                crate::text::lemma_pow10_mono(1, self.exponent as nat);
            }
            let whole = mag / p;
            let frac = mag % p;
            if neg {
                push_char(&mut out, '-');
                proof {
                    assert(out@ =~= seq!['-']);
                }
            }
            out.append(u64_to_string(whole).as_str());
            push_char(&mut out, '.');
            proof {
                reveal_strlit(".");
                assert(seq!['.'] =~= "."@);
            }
            let fs = u64_to_string(frac);
            proof {
                crate::text::lemma_dec_str_len(frac as int, self.exponent as nat);
            }
            let fs_len = fs.as_str().unicode_len();
            let ghost base = out@;
            let mut z: usize = fs_len;
            while z < self.exponent as usize
                invariant
                    fs_len <= z <= self.exponent as usize,
                    out@ == base + Seq::new((z - fs_len) as nat, |i: int| '0'),
                decreases self.exponent as int - z,
            {
                push_char(&mut out, '0');
                proof {
                    assert(out@ =~= base + Seq::new((z + 1 - fs_len) as nat, |i: int| '0'));
                }
                z += 1;
            }
            out.append(fs.as_str());
            proof {
                assert(out@ =~= base + zero_pad(fs@, self.exponent as nat));
                assert(out@ =~= (if self.amount < 0 {
                    seq!['-']
                } else {
                    Seq::<char>::empty()
                }) + dec_str(mag as int / pow10(self.exponent as nat)) + "."@ + zero_pad(
                    dec_str(mag as int % pow10(self.exponent as nat)),
                    self.exponent as nat,
                ));
            }
        }
        push_char(&mut out, ' ');
        out.append(self.currency.as_str());
        proof {
            reveal_strlit(" ");
            assert(seq![' '] =~= " "@);
            assert(out@ =~= money_display(*self));
        }
        out
    }
}

} // verus!
