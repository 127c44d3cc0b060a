//! Small character and string helpers shared by the lexer, the money parser,
//! and the validator.

use vstd::prelude::*;

verus! {

use vstd::string::StrSliceExecFns;
use vstd::string::StringExecFns;

/// ASCII decimal digit.
pub open spec fn is_digit(c: char) -> bool {
    48 <= c as u32 <= 57
}

/// Numeric value of an ASCII digit.
pub open spec fn digit_val(c: char) -> int {
    c as u32 - 48
}

/// The ASCII digit character for a value below ten.
pub open spec fn digit_char(d: int) -> char {
    ((48 + d) as u8) as char
}

pub open spec fn is_digit_seq(s: Seq<char>) -> bool {
    forall|i: int| 0 <= i < s.len() ==> is_digit(#[trigger] s[i])
}

/// Value of a digit run read as a base-10 number.
pub open spec fn digits_val(s: Seq<char>) -> int
    decreases s.len(),
{
    if s.len() == 0 {
        0
    } else {
        digits_val(s.drop_last()) * 10 + digit_val(s.last())
    }
}

/// Ten to the given power.
pub open spec fn pow10(e: nat) -> int
    decreases e,
{
    if e == 0 {
        1
    } else {
        10 * pow10((e - 1) as nat)
    }
}

/// The canonical decimal digit string of a non-negative number.
pub open spec fn dec_str(n: int) -> Seq<char>
    decreases n,
{
    if n < 0 {
        Seq::empty()
    } else if n < 10 {
        seq![digit_char(n)]
    } else {
        dec_str(n / 10) + seq![digit_char(n % 10)]
    }
}

pub fn is_ascii_digit_ch(c: char) -> (r: bool)
    ensures
        r == is_digit(c),
{
    let u = c as u32;
    48 <= u && u <= 57
}

pub fn digit_of(c: char) -> (d: u32)
    requires
        is_digit(c),
    ensures
        d == digit_val(c),
{
    c as u32 - 48
}

pub fn digit_to_char(d: u64) -> (c: char)
    requires
        d < 10,
    ensures
        c == digit_char(d as int),
{
    (48 + d as u8) as char
}

proof fn lemma_pow10_pos(e: nat)
    ensures
        pow10(e) >= 1,
    decreases e,
{
    if e > 0 {
        lemma_pow10_pos((e - 1) as nat);
    }
}

/// `pow10` grows with its argument.
pub proof fn lemma_pow10_mono(a: nat, b: nat)
    requires
        a <= b,
    ensures
        1 <= pow10(a) <= pow10(b),
    decreases b,
{
    lemma_pow10_pos(a);
    if a < b {
        lemma_pow10_mono(a, (b - 1) as nat);
        lemma_pow10_pos((b - 1) as nat);
    }
}

/// Ten to the given power, exactly, for exponents a `u64` can hold.
pub fn pow10_u64(e: u8) -> (r: u64)
    requires
        e <= 19,
    ensures
        r == pow10(e as nat),
{
    let mut r: u64 = 1;
    let mut i: u8 = 0;
    while i < e
        invariant
            i <= e <= 19,
            r == pow10(i as nat),
        decreases e - i,
    {
        proof {
            lemma_pow10_mono((i + 1) as nat, 19);
            reveal_with_fuel(pow10, 20);
            assert(pow10(19) == 10000000000000000000);
        }
        r = r * 10;
        i = i + 1;
    }
    r
}

/// A digit run's value is bounded by ten to its length.
pub proof fn lemma_digits_val_bounds(s: Seq<char>)
    requires
        is_digit_seq(s),
    ensures
        0 <= digits_val(s) < pow10(s.len()),
    decreases s.len(),
{
    if s.len() == 0 {
    } else {
        assert(is_digit_seq(s.drop_last())) by {
            assert(forall|i: int| 0 <= i < s.len() - 1 ==> s.drop_last()[i] == s[i]);
        }
        lemma_digits_val_bounds(s.drop_last());
    }
}

/// Appending digits to a digit run multiplies its value by at least one power
/// of ten per appended digit.
pub proof fn lemma_digits_val_extend(s: Seq<char>, i: int)
    requires
        is_digit_seq(s),
        0 <= i <= s.len(),
    ensures
        digits_val(s) >= digits_val(s.take(i)) * pow10((s.len() - i) as nat),
    decreases s.len() - i,
{
    lemma_digits_val_bounds(s);
    if i < s.len() {
        lemma_digits_val_extend(s, i + 1);
        assert(s.take(i + 1).drop_last() =~= s.take(i));
        assert(is_digit_seq(s.take(i))) by {
            assert(forall|j: int| 0 <= j < i ==> s.take(i)[j] == s[j]);
        }
        assert(is_digit_seq(s.take(i + 1))) by {
            assert(forall|j: int| 0 <= j < i + 1 ==> s.take(i + 1)[j] == s[j]);
        }
        lemma_digits_val_bounds(s.take(i));
        let v = digits_val(s.take(i));
        let w = digits_val(s.take(i + 1));
        let p = pow10((s.len() - i - 1) as nat);
        lemma_pow10_pos((s.len() - i - 1) as nat);
        assert(w >= v * 10);
        assert(w * p >= (v * 10) * p) by (nonlinear_arith)
            requires
                w >= v * 10,
                p >= 1,
                v >= 0,
        ;
        assert((v * 10) * p == v * (10 * p)) by (nonlinear_arith);
    } else {
        assert(s.take(i) =~= s);
    }
}

/// Zeros on the left up to the given width.
pub open spec fn zero_pad(s: Seq<char>, w: nat) -> Seq<char> {
    if s.len() >= w {
        s
    } else {
        Seq::new((w - s.len()) as nat, |i: int| '0') + s
    }
}

/// A number below ten to the `w` has at most `w` digits.
pub proof fn lemma_dec_str_len(n: int, w: nat)
    requires
        0 <= n < pow10(w),
        w >= 1,
    ensures
        1 <= dec_str(n).len() <= w,
    decreases w,
{
    if n >= 10 {
        let p = pow10((w - 1) as nat);
        lemma_pow10_pos((w - 1) as nat);
        assert(n / 10 < p) by (nonlinear_arith)
            requires
                n < 10 * p,
                n >= 0,
                p >= 1,
        ;
        lemma_dec_str_len(n / 10, (w - 1) as nat);
    }
}

/// Equal strings, by character sequence.
pub fn str_eq(a: &str, b: &str) -> (r: bool)
    ensures
        r == (a@ == b@),
{
    let sa: String = a.to_owned();
    let sb: String = b.to_owned();
    sa == sb
}

/// The characters of a string, in order.
pub fn str_to_chars(s: &str) -> (v: Vec<char>)
    ensures
        v@ == s@,
{
    let n = s.unicode_len();
    let mut v: Vec<char> = Vec::new();
    let mut i: usize = 0;
    while i < n
        invariant
            i <= n,
            n == s@.len(),
            v@ == s@.take(i as int),
        decreases n - i,
    {
        v.push(s.get_char(i));
        proof {
            assert(v@ =~= s@.take(i + 1));
        }
        i += 1;
    }
    proof {
        assert(s@.take(n as int) =~= s@);
    }
    v
}

/// Relies on `String::push`: appends exactly the one character.
#[verifier::external_body]
pub fn push_char(s: &mut String, c: char)
    ensures
        final (s)@ == old(s)@ + seq![c],
{
    s.push(c);
}

/// The string holding the given characters, in order.
pub fn chars_to_string(v: &Vec<char>) -> (s: String)
    ensures
        s@ == v@,
{
    let mut s = String::new();
    let mut i: usize = 0;
    while i < v.len()
        invariant
            i <= v@.len(),
            s@ == v@.take(i as int),
        decreases v@.len() - i,
    {
        push_char(&mut s, v[i]);
        proof {
            assert(s@ =~= v@.take(i + 1));
        }
        i += 1;
    }
    proof {
        assert(v@.take(v@.len() as int) =~= v@);
    }
    s
}

/// The canonical decimal string of a number.
pub fn u64_to_string(n: u64) -> (s: String)
    ensures
        s@ == dec_str(n as int),
    decreases n,
{
    if n < 10 {
        let mut s = String::new();
        push_char(&mut s, digit_to_char(n));
        proof {
            assert(s@ =~= seq![digit_char(n as int)]);
        }
        s
    } else {
        let mut s = u64_to_string(n / 10);
        push_char(&mut s, digit_to_char(n % 10));
        s
    }
}

/// The byte offset of character index `i` in the UTF-8 encoding of `s`.
pub open spec fn byte_off(s: Seq<char>, i: int) -> int {
    vstd::utf8::encode_utf8(s.take(i)).len() as int
}

/// Appending one character appends exactly its encoding.
pub proof fn lemma_encode_utf8_push(a: Seq<char>, x: char)
    ensures
        vstd::utf8::encode_utf8(a.push(x)) == vstd::utf8::encode_utf8(a)
            + vstd::utf8::encode_scalar(x as u32),
    decreases a.len(),
{
    let p = a.push(x);
    assert(p.len() == a.len() + 1);
    assert(p[0] == if a.len() == 0 {
        x
    } else {
        a[0]
    });
    assert(vstd::utf8::encode_utf8(p) == vstd::utf8::encode_scalar(p[0] as u32)
        + vstd::utf8::encode_utf8(p.drop_first()));
    if a.len() == 0 {
        assert(p.drop_first() =~= Seq::<char>::empty());
        assert(vstd::utf8::encode_utf8(Seq::<char>::empty()) =~= Seq::<u8>::empty());
        assert(vstd::utf8::encode_utf8(a) =~= Seq::<u8>::empty());
        assert(vstd::utf8::encode_utf8(p) =~= vstd::utf8::encode_utf8(a)
            + vstd::utf8::encode_scalar(x as u32));
    } else {
        assert(p.drop_first() =~= a.drop_first().push(x));
        lemma_encode_utf8_push(a.drop_first(), x);
        assert(vstd::utf8::encode_utf8(a) == vstd::utf8::encode_scalar(a[0] as u32)
            + vstd::utf8::encode_utf8(a.drop_first()));
        assert(vstd::utf8::encode_utf8(p) =~= vstd::utf8::encode_utf8(a)
            + vstd::utf8::encode_scalar(x as u32));
    }
}

/// Every scalar encodes to between one and four bytes.
pub proof fn lemma_scalar_len(c: char)
    ensures
        1 <= vstd::utf8::encode_scalar(c as u32).len() <= 4,
{
}

/// One step of byte-offset bookkeeping: the next character adds exactly its
/// encoded width.
pub proof fn lemma_byte_off_step(s: Seq<char>, i: int)
    requires
        0 <= i < s.len(),
    ensures
        byte_off(s, i + 1) == byte_off(s, i) + vstd::utf8::encode_scalar(s[i] as u32).len(),
{
    assert(s.take(i + 1) =~= s.take(i).push(s[i]));
    lemma_encode_utf8_push(s.take(i), s[i]);
}

/// Byte offsets grow by at least one byte per character.
pub proof fn lemma_byte_off_mono(s: Seq<char>, i: int, j: int)
    requires
        0 <= i <= j <= s.len(),
    ensures
        byte_off(s, i) + (j - i) <= byte_off(s, j),
        byte_off(s, i) <= byte_off(s, j),
    decreases j - i,
{
    if i < j {
        lemma_byte_off_mono(s, i + 1, j);
        lemma_byte_off_step(s, i);
        lemma_scalar_len(s[i]);
    }
}

/// Byte offsets start at zero.
pub proof fn lemma_byte_off_zero(s: Seq<char>)
    ensures
        byte_off(s, 0) == 0,
{
    assert(s.take(0) =~= Seq::<char>::empty());
}

/// The number of bytes in the UTF-8 encoding of one character.
pub fn utf8_len_ch(c: char) -> (r: usize)
    ensures
        r == vstd::utf8::encode_scalar(c as u32).len(),
{
    let u = c as u32;
    if u < 0x80 {
        1
    } else if u < 0x800 {
        2
    } else if u < 0x10000 {
        3
    } else {
        4
    }
}

/// Whether a character has Unicode's Alphabetic property.
pub uninterp spec fn unicode_alphabetic(c: char) -> bool;

/// Whether a character is Unicode alphanumeric.
pub uninterp spec fn unicode_alphanumeric(c: char) -> bool;

/// Whether a character is Unicode whitespace.
pub uninterp spec fn unicode_whitespace(c: char) -> bool;

/// Relies on `char::is_alphabetic`: the result depends on the character
/// alone, and every alphabetic character is alphanumeric.
#[verifier::external_body]
pub fn is_alphabetic_ch(c: char) -> (r: bool)
    ensures
        r == unicode_alphabetic(c),
        r ==> unicode_alphanumeric(c),
{
    c.is_alphabetic()
}

/// Relies on `char::is_alphanumeric`: the result depends on the character
/// alone.
#[verifier::external_body]
pub fn is_alphanumeric_ch(c: char) -> (r: bool)
    ensures
        r == unicode_alphanumeric(c),
{
    c.is_alphanumeric()
}

/// Relies on `char::is_whitespace`: the result depends on the character
/// alone.
#[verifier::external_body]
pub fn is_whitespace_ch(c: char) -> (r: bool)
    ensures
        r == unicode_whitespace(c),
{
    c.is_whitespace()
}

/// ASCII uppercase letter.
pub open spec fn is_upper(c: char) -> bool {
    65 <= c as u32 <= 90
}

pub fn is_ascii_uppercase_ch(c: char) -> (r: bool)
    ensures
        r == is_upper(c),
{
    let u = c as u32;
    65 <= u && u <= 90
}

/// Index of the first occurrence of `c` in the text, or -1 when there is
/// none.
pub open spec fn find_char(s: Seq<char>, c: char) -> int
    decreases s.len(),
{
    if s.len() == 0 {
        -1
    } else if s[0] == c {
        0
    } else if find_char(s.drop_first(), c) == -1 {
        -1
    } else {
        find_char(s.drop_first(), c) + 1
    }
}

/// `find_char` returns the first occurrence, or -1 when the character is
/// absent.
pub proof fn lemma_find_char(s: Seq<char>, c: char)
    ensures
        find_char(s, c) == -1 ==> forall|i: int| 0 <= i < s.len() ==> s[i] != c,
        find_char(s, c) != -1 ==> 0 <= find_char(s, c) < s.len() && s[find_char(s, c)] == c
            && forall|i: int| 0 <= i < find_char(s, c) ==> s[i] != c,
    decreases s.len(),
{
    if s.len() > 0 && s[0] != c {
        lemma_find_char(s.drop_first(), c);
        assert(forall|i: int|
            0 <= i < s.drop_first().len() ==> #[trigger] s.drop_first()[i] == s[i + 1]);
        if find_char(s, c) == -1 {
            assert forall|i: int| 0 <= i < s.len() implies s[i] != c by {
                if i > 0 {
                    assert(s.drop_first()[i - 1] == s[i]);
                }
            }
        } else {
            assert(s[find_char(s, c)] == s.drop_first()[find_char(s, c) - 1]);
            assert forall|i: int| 0 <= i < find_char(s, c) implies s[i] != c by {
                if i > 0 {
                    assert(s.drop_first()[i - 1] == s[i]);
                }
            }
        }
    }
}

} // verus!
