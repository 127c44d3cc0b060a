//! Exact decimal numbers for constraint bounds and checks on number
//! literals, kept as an integer mantissa and a scale rather than as a float.

use crate::money::dot_index;
use crate::money::is_int_str;
use crate::money::parse_i64_chars;
use crate::money::parse_i64_spec;
use crate::text::dec_str;
use crate::text::digits_val;
use crate::text::is_digit;
use crate::text::is_digit_seq;
use crate::text::pow10;
use crate::text::pow10_u64;
use crate::text::push_char;
use crate::text::str_to_chars;
use crate::text::u64_to_string;
use crate::text::zero_pad;
use vstd::prelude::*;

verus! {

use vstd::string::StringExecFns;

/// An exact decimal: the represented number is
/// `(-1 if neg) * mantissa / 10^scale`.
#[derive(Debug, Clone, Copy, PartialEq, Eq, Structural)]
pub struct Decimal {
    pub neg: bool,
    pub mantissa: u64,
    pub scale: u8,
}

impl Decimal {
    /// The signed mantissa.
    pub open spec fn num(&self) -> int {
        if self.neg {
            -(self.mantissa as int)
        } else {
            self.mantissa as int
        }
    }

    /// Scales small enough that comparisons cannot overflow.
    pub open spec fn wf(&self) -> bool {
        self.scale <= 18 && self.mantissa <= i64::MAX as u64
    }
}

/// `a < b` as exact rationals: compare after clearing both denominators.
pub open spec fn dec_lt_spec(a: Decimal, b: Decimal) -> bool {
    a.num() * pow10(b.scale as nat) < b.num() * pow10(a.scale as nat)
}

/// Whether the decimal string carries a leading sign.
pub open spec fn dec_has_sign(s: Seq<char>) -> bool {
    s.len() > 0 && (s[0] == '-' || s[0] == '+')
}

/// The decimal string with a leading sign stripped.
pub open spec fn dec_body(s: Seq<char>) -> Seq<char> {
    if dec_has_sign(s) {
        s.drop_first()
    } else {
        s
    }
}

/// All digit characters of the decimal string: the whole part then the
/// fractional part, with the dot removed.
pub open spec fn dec_all_digits(s: Seq<char>) -> Seq<char> {
    let b = dec_body(s);
    if dot_index(b) == -1 {
        b
    } else {
        b.take(dot_index(b)) + b.skip(dot_index(b) + 1)
    }
}

/// The number of fractional digits.
pub open spec fn dec_scale_of(s: Seq<char>) -> int {
    let b = dec_body(s);
    if dot_index(b) == -1 {
        0
    } else {
        b.len() - dot_index(b) - 1
    }
}

/// A decimal literal: an optional sign, an optional single dot, and at least
/// one digit, with nothing else.
pub open spec fn is_decimal_str(s: Seq<char>) -> bool {
    dec_all_digits(s).len() >= 1 && is_digit_seq(dec_all_digits(s))
}

/// What decimal parsing returns: the exact value when the text is a decimal
/// literal whose digits fit the mantissa and whose scale is small, and
/// nothing otherwise.
pub open spec fn parse_decimal_spec(s: Seq<char>) -> Option<Decimal> {
    if is_decimal_str(s) && digits_val(dec_all_digits(s)) <= i64::MAX && dec_scale_of(s) <= 18 {
        Some(
            Decimal {
                neg: s.len() > 0 && s[0] == '-',
                mantissa: digits_val(dec_all_digits(s)) as u64,
                scale: dec_scale_of(s) as u8,
            },
        )
    } else {
        None
    }
}

/// Parses decimal text (an optional sign, digits, an optional dot and more
/// digits) into an exact decimal.
#[verifier::rlimit(60)]
pub fn parse_decimal(s: &str) -> (r: Option<Decimal>)
    ensures
        r == parse_decimal_spec(s@),
        r matches Some(d) ==> d.wf(),
{
    let chars = str_to_chars(s);
    let n = chars.len();
    let has_sign = n > 0 && (chars[0] == '-' || chars[0] == '+');
    let neg = n > 0 && chars[0] == '-';
    let start: usize = if has_sign {
        1
    } else {
        0
    };
    let ghost b = dec_body(s@);
    proof {
        assert(b =~= chars@.subrange(start as int, n as int));
    }

    // Find the first dot of the body.
    let mut j: usize = start;
    while j < n && chars[j] != '.'
        invariant
            start <= j <= n,
            n == chars@.len(),
            forall|t: int| start <= t < j ==> chars@[t] != '.',
        decreases n - j,
    {
        j += 1;
    }
    proof {
        crate::money::lemma_dot_index(b);
        assert(forall|i: int| 0 <= i < b.len() ==> b[i] == chars@[start + i]);
        if j < n {
            assert(b[j - start] == '.');
            assert(dot_index(b) == j - start) by {
                if dot_index(b) < j - start {
                    assert(chars@[start + dot_index(b)] != '.');
                }
            }
        } else {
            if dot_index(b) != -1 {
                assert(chars@[start + dot_index(b)] == '.');
            }
        }
    }
    let has_dot = j < n;
    let scale_len: usize = if has_dot {
        n - j - 1
    } else {
        0
    };

    // Collect every digit character, whole part then fraction.
    let mut all: Vec<char> = Vec::new();
    let mut t: usize = start;
    while t < n
        invariant
            start <= t <= n,
            n == chars@.len(),
            start <= j,
            has_dot == (j < n),
            all@ == if has_dot && t > j {
                chars@.subrange(start as int, j as int) + chars@.subrange(j + 1, t as int)
            } else {
                chars@.subrange(start as int, t as int)
            },
        decreases n - t,
    {
        if !(has_dot && t == j) {
            all.push(chars[t]);
        }
        proof {
            if !has_dot || t + 1 <= j {
                assert(all@ =~= chars@.subrange(start as int, t + 1));
            } else if has_dot && t == j {
                assert(all@ =~= chars@.subrange(start as int, j as int) + chars@.subrange(
                    j + 1,
                    t + 1,
                ));
            } else {
                assert(all@ =~= chars@.subrange(start as int, j as int) + chars@.subrange(
                    j + 1,
                    t + 1,
                ));
            }
        }
        t += 1;
    }
    proof {
        if has_dot {
            assert(b.take(dot_index(b)) =~= chars@.subrange(start as int, j as int));
            assert(b.skip(dot_index(b) + 1) =~= chars@.subrange(j + 1, n as int));
        } else {
            assert(all@ =~= b);
        }
        assert(all@ =~= dec_all_digits(s@));
        assert(dec_scale_of(s@) == scale_len);
    }

    if scale_len > 18 {
        return None;
    }
    if all.len() == 0 {
        return None;
    }
    let c0 = all[0];
    if !crate::text::is_ascii_digit_ch(c0) {
        proof {
            assert(!is_digit(dec_all_digits(s@)[0]));
        }
        return None;
    }
    let len = all.len();
    match parse_i64_chars(&all, 0, len) {
        Some(m) => {
            proof {
                assert(all@.subrange(0, len as int) =~= all@);
                assert(is_int_str(all@));
                crate::text::lemma_digits_val_bounds(all@);
                assert(m >= 0);
            }
            Some(Decimal { neg, mantissa: m as u64, scale: scale_len as u8 })
        },
        None => {
            proof {
                assert(all@.subrange(0, len as int) =~= all@);
                if is_digit_seq(all@) {
                    assert(is_int_str(all@));
                    crate::text::lemma_digits_val_bounds(all@);
                }
            }
            None
        },
    }
}

/// Compares two exact decimals by clearing denominators.
pub fn dec_lt(a: &Decimal, b: &Decimal) -> (r: bool)
    requires
        a.wf(),
        b.wf(),
    ensures
        r == dec_lt_spec(*a, *b),
{
    let pa = pow10_u64(a.scale) as i128;
    let pb = pow10_u64(b.scale) as i128;
    let va: i128 = if a.neg {
        -(a.mantissa as i128)
    } else {
        a.mantissa as i128
    };
    let vb: i128 = if b.neg {
        -(b.mantissa as i128)
    } else {
        b.mantissa as i128
    };
    proof {
        crate::text::lemma_pow10_mono(a.scale as nat, 18);
        crate::text::lemma_pow10_mono(b.scale as nat, 18);
        reveal_with_fuel(pow10, 19);
        assert(pow10(18) == 1000000000000000000);
        assert(va * pb <= 9223372036854775807i128 * 1000000000000000000i128 && va * pb >= (
        -9223372036854775807i128) * 1000000000000000000i128) by (nonlinear_arith)
            requires
                -9223372036854775807 <= va <= 9223372036854775807,
                1 <= pb <= 1000000000000000000,
        ;
        assert(vb * pa <= 9223372036854775807i128 * 1000000000000000000i128 && vb * pa >= (
        -9223372036854775807i128) * 1000000000000000000i128) by (nonlinear_arith)
            requires
                -9223372036854775807 <= vb <= 9223372036854775807,
                1 <= pa <= 1000000000000000000,
        ;
    }
    let lhs = va * pb;
    let rhs = vb * pa;
    lhs < rhs
}

/// The canonical text of an exact decimal: sign, whole part, and — when the
/// scale is positive — a dot and the zero-padded fraction.
pub open spec fn dec_display(d: Decimal) -> Seq<char> {
    let p = pow10(d.scale as nat);
    let sign: Seq<char> = if d.neg && d.mantissa > 0 {
        seq!['-']
    } else {
        Seq::empty()
    };
    if d.scale == 0 {
        sign + dec_str(d.mantissa as int)
    } else {
        sign + dec_str(d.mantissa as int / p) + "."@ + zero_pad(
            dec_str(d.mantissa as int % p),
            d.scale as nat,
        )
    }
}

impl Decimal {
    /// Renders the decimal in canonical text form.
    pub fn display(&self) -> (r: String)
        requires
            self.wf(),
        ensures
            r@ == dec_display(*self),
    {
        let mut out = String::new();
        if self.neg && self.mantissa > 0 {
            push_char(&mut out, '-');
            proof {
                assert(out@ =~= seq!['-']);
            }
        }
        if self.scale == 0 {
            out.append(u64_to_string(self.mantissa).as_str());
        } else {
            let p = pow10_u64(self.scale);
            proof {
                crate::text::lemma_pow10_mono(1, self.scale as nat);
            }
            let whole = self.mantissa / p;
            let frac = self.mantissa % p;
            out.append(u64_to_string(whole).as_str());
            push_char(&mut out, '.');
            proof {
                reveal_strlit(".");
                assert(seq!['.'] =~= "."@);
            }
            let fs = u64_to_string(frac);
            proof {
                crate::text::lemma_dec_str_len(frac as int, self.scale as nat);
            }
            let fs_len = fs.as_str().unicode_len();
            let ghost base = out@;
            let mut z: usize = fs_len;
            while z < self.scale as usize
                invariant
                    fs_len <= z <= self.scale as usize,
                    out@ == base + Seq::new((z - fs_len) as nat, |i: int| '0'),
                decreases self.scale as int - z,
            {
                push_char(&mut out, '0');
                proof {
                    assert(out@ =~= base + Seq::new((z + 1 - fs_len) as nat, |i: int| '0'));
                }
                z += 1;
            }
            out.append(fs.as_str());
            proof {
                assert(out@ =~= base + zero_pad(fs@, self.scale as nat));
            }
        }
        proof {
            assert(out@ =~= dec_display(*self));
        }
        out
    }
}

} // verus!
