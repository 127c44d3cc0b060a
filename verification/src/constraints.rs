//! Per-constraint checks on values, independently callable; each produces an
//! error finding with no span attached — the caller anchors it.

use crate::decimal::dec_display;
use crate::decimal::dec_lt;
use crate::decimal::dec_lt_spec;
use crate::decimal::parse_decimal;
use crate::decimal::parse_decimal_spec;
use crate::diagnostics::Diagnostic;
use crate::model::Constraint;
use crate::money::money_abs;
use crate::money::money_frac;
use crate::text::dec_str;
use crate::text::str_to_chars;
use crate::text::u64_to_string;
use crate::types::Value;
use vstd::prelude::*;

verus! {

use vstd::string::StringExecFns;

broadcast use vstd::slice::group_slice_axioms;
use vstd::string::StringSliceAdditionalSpecFns;

/// Whether a number literal has a nonzero fractional digit.
pub open spec fn has_nonzero_frac(s: Seq<char>) -> bool {
    exists|i: int| 0 <= i < money_frac(s).len() && money_frac(s)[i] != '0'
}

/// The byte length of a string, as string length constraints measure it.
pub open spec fn byte_len(s: Seq<char>) -> int {
    vstd::utf8::encode_utf8(s).len() as int
}

/// Numeric bounds must be well-formed exact decimals.
pub open spec fn constraint_valid(c: Constraint) -> bool {
    match c {
        Constraint::Min(d) => d.wf(),
        Constraint::Max(d) => d.wf(),
        _ => true,
    }
}

/// The message `evaluate` reports, if any: integer constraints reject a
/// nonzero fractional part; min/max compare exact decimals; length bounds
/// measure string bytes; currency constraints check the code against the
/// allowed list. A constraint that does not apply to the value's kind
/// reports nothing.
pub open spec fn evaluate_spec(c: Constraint, v: Value) -> Option<Seq<char>> {
    match c {
        Constraint::Integer => match v {
            Value::Number(t) => if has_nonzero_frac(t@) {
                Some("expected an integer, got "@ + t@)
            } else {
                None
            },
            _ => None,
        },
        Constraint::Min(min) => match v {
            Value::Number(t) => match parse_decimal_spec(t@) {
                Some(x) => if dec_lt_spec(x, min) {
                    Some("value "@ + t@ + " is less than minimum "@ + dec_display(min))
                } else {
                    None
                },
                None => None,
            },
            _ => None,
        },
        Constraint::Max(max) => match v {
            Value::Number(t) => match parse_decimal_spec(t@) {
                Some(x) => if dec_lt_spec(max, x) {
                    Some("value "@ + t@ + " exceeds maximum "@ + dec_display(max))
                } else {
                    None
                },
                None => None,
            },
            _ => None,
        },
        Constraint::MinLength(min) => match v {
            Value::String(s) => if byte_len(s@) < min as int {
                Some(
                    "string length "@ + dec_str(byte_len(s@)) + " is less than minimum "@
                        + dec_str(min as int),
                )
            } else {
                None
            },
            _ => None,
        },
        Constraint::MaxLength(max) => match v {
            Value::String(s) => if byte_len(s@) > max as int {
                Some(
                    "string length "@ + dec_str(byte_len(s@)) + " exceeds maximum "@ + dec_str(
                        max as int,
                    ),
                )
            } else {
                None
            },
            _ => None,
        },
        Constraint::Currency(allowed) => match v {
            Value::Money(m) => if !crate::schema::string_seqs(allowed@).contains(m.currency@) {
                Some(
                    "currency '"@ + m.currency@ + "' is not in the allowed list: ["@
                        + crate::schema::quoted_list(crate::schema::string_seqs(allowed@)) + "]"@,
                )
            } else {
                None
            },
            _ => None,
        },
        _ => None,
    }
}

/// Whether a number literal's fractional digits include a nonzero one.
fn frac_has_nonzero(t: &str) -> (r: bool)
    ensures
        r == has_nonzero_frac(t@),
{
    let chars = str_to_chars(t);
    let n = chars.len();
    let negative = n > 0 && chars[0] == '-';
    let abs_from: usize = if negative {
        1
    } else {
        0
    };
    let ghost abs = money_abs(t@);
    proof {
        assert(abs =~= chars@.subrange(abs_from as int, n as int));
    }
    let mut j: usize = abs_from;
    while j < n && chars[j] != '.'
        invariant
            abs_from <= j <= n,
            n == chars@.len(),
            forall|k: int| abs_from <= k < j ==> chars@[k] != '.',
        decreases n - j,
    {
        j += 1;
    }
    proof {
        crate::money::lemma_dot_index(abs);
        assert(forall|i: int| 0 <= i < abs.len() ==> abs[i] == chars@[abs_from + i]);
        if j < n {
            assert(abs[j - abs_from] == '.');
            assert(crate::money::dot_index(abs) == j - abs_from) by {
                if crate::money::dot_index(abs) < j - abs_from {
                    assert(chars@[abs_from + crate::money::dot_index(abs)] != '.');
                }
            }
        } else {
            if crate::money::dot_index(abs) != -1 {
                assert(chars@[abs_from + crate::money::dot_index(abs)] == '.');
            }
        }
    }
    if j >= n {
        proof {
            assert(money_frac(t@) =~= Seq::<char>::empty());
        }
        return false;
    }
    proof {
        assert(money_frac(t@) =~= chars@.subrange(j + 1, n as int));
    }
    let mut k: usize = j + 1;
    while k < n
        invariant
            j + 1 <= k <= n,
            n == chars@.len(),
            money_frac(t@) == chars@.subrange(j + 1, n as int),
            forall|i: int| j + 1 <= i < k ==> chars@[i] == '0',
        decreases n - k,
    {
        if chars[k] != '0' {
            proof {
                assert(money_frac(t@)[k - (j + 1)] != '0');
            }
            return true;
        }
        k += 1;
    }
    proof {
        assert forall|i: int|
            0 <= i < money_frac(t@).len() implies money_frac(t@)[i] == '0' by {
            assert(money_frac(t@)[i] == chars@[j + 1 + i]);
        }
    }
    false
}

/// Evaluate a single constraint against a value: the finding to report, or
/// nothing when the value satisfies the constraint or the constraint does not
/// apply.
pub fn evaluate(constraint: &Constraint, value: &Value) -> (r: Option<Diagnostic>)
    requires
        constraint_valid(*constraint),
    ensures
        match r {
            Some(d) => {
                &&& evaluate_spec(*constraint, *value) == Some(d.message@)
                &&& d.severity is Error
                &&& d.span is None
            },
            None => evaluate_spec(*constraint, *value) is None,
        },
{
    match constraint {
        Constraint::Integer => {
            match value {
                Value::Number(t) => {
                    if frac_has_nonzero(t.as_str()) {
                        let mut msg = <String as StringExecFns>::from_str(
                            "expected an integer, got ",
                        );
                        StringExecFns::append(&mut msg, t.as_str());
                        proof {
                            assert(evaluate_spec(*constraint, *value) == Some(msg@));
                        }
                        Some(Diagnostic::error(msg))
                    } else {
                        None
                    }
                },
                _ => None,
            }
        },
        Constraint::Min(min) => {
            match value {
                Value::Number(t) => {
                    match parse_decimal(t.as_str()) {
                        Some(x) => {
                            if dec_lt(&x, min) {
                                let mut msg = <String as StringExecFns>::from_str("value ");
                                StringExecFns::append(&mut msg, t.as_str());
                                StringExecFns::append(&mut msg, " is less than minimum ");
                                StringExecFns::append(&mut msg, min.display().as_str());
                                proof {
                                    assert(evaluate_spec(*constraint, *value) == Some(msg@));
                                }
                                Some(Diagnostic::error(msg))
                            } else {
                                None
                            }
                        },
                        None => None,
                    }
                },
                _ => None,
            }
        },
        Constraint::Max(max) => {
            match value {
                Value::Number(t) => {
                    match parse_decimal(t.as_str()) {
                        Some(x) => {
                            if dec_lt(max, &x) {
                                let mut msg = <String as StringExecFns>::from_str("value ");
                                StringExecFns::append(&mut msg, t.as_str());
                                StringExecFns::append(&mut msg, " exceeds maximum ");
                                StringExecFns::append(&mut msg, max.display().as_str());
                                proof {
                                    assert(evaluate_spec(*constraint, *value) == Some(msg@));
                                }
                                Some(Diagnostic::error(msg))
                            } else {
                                None
                            }
                        },
                        None => None,
                    }
                },
                _ => None,
            }
        },
        Constraint::MinLength(min) => {
            match value {
                Value::String(s) => {
                    let len = s.as_str().as_bytes().len();
                    if len < *min {
                        let mut msg = <String as StringExecFns>::from_str("string length ");
                        StringExecFns::append(&mut msg, u64_to_string(len as u64).as_str());
                        StringExecFns::append(&mut msg, " is less than minimum ");
                        StringExecFns::append(&mut msg, u64_to_string(*min as u64).as_str());
                        proof {
                            assert(evaluate_spec(*constraint, *value) == Some(msg@));
                        }
                        Some(Diagnostic::error(msg))
                    } else {
                        None
                    }
                },
                _ => None,
            }
        },
        Constraint::MaxLength(max) => {
            match value {
                Value::String(s) => {
                    let len = s.as_str().as_bytes().len();
                    if len > *max {
                        let mut msg = <String as StringExecFns>::from_str("string length ");
                        StringExecFns::append(&mut msg, u64_to_string(len as u64).as_str());
                        StringExecFns::append(&mut msg, " exceeds maximum ");
                        StringExecFns::append(&mut msg, u64_to_string(*max as u64).as_str());
                        proof {
                            assert(evaluate_spec(*constraint, *value) == Some(msg@));
                        }
                        Some(Diagnostic::error(msg))
                    } else {
                        None
                    }
                },
                _ => None,
            }
        },
        Constraint::Currency(allowed) => {
            match value {
                Value::Money(m) => {
                    let n = allowed.len();
                    let mut i: usize = 0;
                    let ghost codes = crate::schema::string_seqs(allowed@);
                    while i < n
                        invariant
                            0 <= i <= n,
                            n == allowed@.len(),
                            codes == crate::schema::string_seqs(allowed@),
                            *constraint == Constraint::Currency(*allowed),
                            *value == Value::Money(*m),
                            forall|k: int| 0 <= k < i ==> #[trigger] codes[k] != m.currency@,
                        decreases n - i,
                    {
                        if crate::text::str_eq(allowed[i].as_str(), m.currency.as_str()) {
                            proof {
                                assert(codes[i as int] == m.currency@);
                                assert(codes.contains(m.currency@));
                            }
                            return None;
                        }
                        proof {
                            assert(codes[i as int] == allowed@[i as int]@);
                        }
                        i += 1;
                    }
                    proof {
                        if codes.contains(m.currency@) {
                            let w = choose|k: int|
                                0 <= k < codes.len() && codes[k] == m.currency@;
                            assert(codes[w] != m.currency@);
                        }
                    }
                    let mut msg = <String as StringExecFns>::from_str("currency '");
                    StringExecFns::append(&mut msg, m.currency.as_str());
                    StringExecFns::append(&mut msg, "' is not in the allowed list: [");
                    let mut t: usize = 0;
                    let ghost pre = msg@;
                    proof {
                        assert(codes.skip(0) =~= codes);
                    }
                    while t < n
                        invariant
                            0 <= t <= n,
                            n == allowed@.len(),
                            codes == crate::schema::string_seqs(allowed@),
                            codes.len() == n,
                            *constraint == Constraint::Currency(*allowed),
                            *value == Value::Money(*m),
                            !codes.contains(m.currency@),
                            pre == "currency '"@ + m.currency@ + "' is not in the allowed list: ["@,
                            pre + crate::schema::quoted_list(codes) == msg@
                                + crate::schema::quoted_list(codes.skip(t as int)),
                        decreases n - t,
                    {
                        let ghost msg0 = msg@;
                        StringExecFns::append(&mut msg, "\"");
                        StringExecFns::append(&mut msg, allowed[t].as_str());
                        StringExecFns::append(&mut msg, "\"");
                        if t + 1 < n {
                            StringExecFns::append(&mut msg, ", ");
                        }
                        proof {
                            let rest = codes.skip(t as int);
                            assert(rest[0] == allowed@[t as int]@);
                            assert(rest.drop_first() =~= codes.skip(t + 1));
                            if t + 1 < n {
                                assert(rest.len() > 1);
                                assert(crate::schema::quoted_list(rest) == "\""@ + rest[0] + "\""@
                                    + ", "@ + crate::schema::quoted_list(rest.drop_first()));
                                assert(msg@ =~= msg0 + ("\""@ + rest[0] + "\""@ + ", "@));
                                assert(msg@ + crate::schema::quoted_list(codes.skip(t + 1)) =~= msg0
                                    + crate::schema::quoted_list(rest));
                            } else {
                                assert(rest.len() == 1);
                                assert(crate::schema::quoted_list(rest) == "\""@ + rest[0] + "\""@);
                                assert(msg@ =~= msg0 + crate::schema::quoted_list(rest));
                                assert(crate::schema::quoted_list(codes.skip(t + 1)) =~= Seq::<
                                    char,
                                >::empty());
                                assert(msg@ + crate::schema::quoted_list(codes.skip(t + 1)) =~= msg0
                                    + crate::schema::quoted_list(rest));
                            }
                        }
                        t += 1;
                    }
                    proof {
                        assert(crate::schema::quoted_list(codes.skip(n as int)) =~= Seq::<
                            char,
                        >::empty());
                        assert(msg@ + crate::schema::quoted_list(codes.skip(n as int)) =~= msg@);
                    }
                    StringExecFns::append(&mut msg, "]");
                    proof {
                        assert(msg@ =~= "currency '"@ + m.currency@
                            + "' is not in the allowed list: ["@ + crate::schema::quoted_list(
                            codes,
                        ) + "]"@);
                    }
                    Some(Diagnostic::error(msg))
                },
                _ => None,
            }
        },
        _ => None,
    }
}

} // verus!
