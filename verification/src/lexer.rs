//! The indentation-aware lexer: characters in, tokens out, with every span a
//! byte-offset range into the source text.

use crate::error::NmlError;
use crate::error::NmlResult;
use crate::span::Span;
use crate::text::byte_off;
use crate::text::is_alphabetic_ch;
use crate::text::is_alphanumeric_ch;
use crate::text::is_ascii_digit_ch;
use crate::text::is_ascii_uppercase_ch;
use crate::text::is_digit;
use crate::text::is_upper;
use crate::text::is_whitespace_ch;
use crate::text::lemma_byte_off_mono;
use crate::text::lemma_byte_off_step;
use crate::text::lemma_byte_off_zero;
use crate::text::lemma_scalar_len;
use crate::text::str_to_chars;
use crate::text::unicode_alphabetic;
use crate::text::unicode_alphanumeric;
use crate::text::unicode_whitespace;
use crate::text::utf8_len_ch;
use vstd::prelude::*;

verus! {

use vstd::string::StringSliceAdditionalSpecFns;

/// The closed set of token kinds. Literal kinds carry their text; a number
/// carries its literal source text so that exact decimal parsing stays
/// possible downstream.
#[derive(Debug, Clone, PartialEq)]
pub enum TokenKind {
    // Structure
    Indent,
    Dedent,
    Newline,
    Eof,
    // Literals
    StringLiteral(String),
    NumberLiteral(String),
    BoolLiteral(bool),
    Identifier(String),
    RoleRef(String),
    SecretRef(String),
    CurrencyCode(String),
    // Punctuation
    Colon,
    Equals,
    Dash,
    Pipe,
    Dot,
    BracketOpen,
    BracketClose,
    ArrayPrefix,
    Comma,
    Question,
}

/// A token with its byte span.
#[derive(Debug, Clone)]
pub struct Token {
    pub kind: TokenKind,
    pub span: Span,
}

impl Token {
    pub fn new(kind: TokenKind, span: Span) -> (t: Self)
        ensures
            t == (Token { kind, span }),
    {
        Token { kind, span }
    }
}

/// Indents minus dedents over a token sequence.
pub open spec fn balance(ts: Seq<Token>) -> int
    decreases ts.len(),
{
    if ts.len() == 0 {
        0
    } else {
        balance(ts.drop_last()) + if ts.last().kind is Indent {
            1int
        } else if ts.last().kind is Dedent {
            -1int
        } else {
            0
        }
    }
}

/// A span is a well-formed byte range into a text of `n` bytes.
pub open spec fn span_valid(sp: Span, n: int) -> bool {
    sp.start <= sp.end <= n
}

pub open spec fn tokens_valid(ts: Seq<Token>, n: int) -> bool {
    forall|i: int| 0 <= i < ts.len() ==> span_valid((#[trigger] ts[i]).span, n)
}

/// A character that may continue an identifier.
pub open spec fn is_word_char(c: char) -> bool {
    unicode_alphanumeric(c) || c == '_' || c == '-'
}

/// A character that may continue a role reference after `@`.
pub open spec fn is_role_char(c: char) -> bool {
    unicode_alphanumeric(c) || c == '/' || c == ':' || c == '-' || c == '_' || c == '.' || c == '@'
        || c == '{' || c == '}' || c == '+'
}

/// A character that may continue a secret-reference name.
pub open spec fn is_secret_char(c: char) -> bool {
    unicode_alphanumeric(c) || c == '_'
}

/// Exactly three uppercase ASCII letters: classified as a currency code.
pub open spec fn is_currency_shape(w: Seq<char>) -> bool {
    w.len() == 3 && is_upper(w[0]) && is_upper(w[1]) && is_upper(w[2])
}

/// The end of the identifier-character run starting at `i`.
pub open spec fn word_run_end(s: Seq<char>, i: int) -> int
    decreases s.len() - i,
{
    if i < 0 || i >= s.len() {
        i
    } else if is_word_char(s[i]) {
        word_run_end(s, i + 1)
    } else {
        i
    }
}

pub proof fn lemma_word_run_end(s: Seq<char>, i: int)
    requires
        0 <= i <= s.len(),
    ensures
        i <= word_run_end(s, i) <= s.len(),
        forall|k: int| i <= k < word_run_end(s, i) ==> is_word_char(s[k]),
        word_run_end(s, i) < s.len() ==> !is_word_char(s[word_run_end(s, i)]),
    decreases s.len() - i,
{
    if i < s.len() && is_word_char(s[i]) {
        lemma_word_run_end(s, i + 1);
    }
}

/// The end of the digit run starting at `i`.
pub open spec fn digit_run_end(s: Seq<char>, i: int) -> int
    decreases s.len() - i,
{
    if i < 0 || i >= s.len() {
        i
    } else if is_digit(s[i]) {
        digit_run_end(s, i + 1)
    } else {
        i
    }
}

pub proof fn lemma_digit_run_end(s: Seq<char>, i: int)
    requires
        0 <= i <= s.len(),
    ensures
        i <= digit_run_end(s, i) <= s.len(),
        forall|k: int| i <= k < digit_run_end(s, i) ==> is_digit(s[k]),
        digit_run_end(s, i) < s.len() ==> !is_digit(s[digit_run_end(s, i)]),
    decreases s.len() - i,
{
    if i < s.len() && is_digit(s[i]) {
        lemma_digit_run_end(s, i + 1);
    }
}

/// The end of the role-reference-character run starting at `i`.
pub open spec fn role_run_end(s: Seq<char>, i: int) -> int
    decreases s.len() - i,
{
    if i < 0 || i >= s.len() {
        i
    } else if is_role_char(s[i]) {
        role_run_end(s, i + 1)
    } else {
        i
    }
}

pub proof fn lemma_role_run_end(s: Seq<char>, i: int)
    requires
        0 <= i <= s.len(),
    ensures
        i <= role_run_end(s, i) <= s.len(),
        forall|k: int| i <= k < role_run_end(s, i) ==> is_role_char(s[k]),
        role_run_end(s, i) < s.len() ==> !is_role_char(s[role_run_end(s, i)]),
    decreases s.len() - i,
{
    if i < s.len() && is_role_char(s[i]) {
        lemma_role_run_end(s, i + 1);
    }
}

/// The end of the secret-name-character run starting at `i`.
pub open spec fn secret_run_end(s: Seq<char>, i: int) -> int
    decreases s.len() - i,
{
    if i < 0 || i >= s.len() {
        i
    } else if is_secret_char(s[i]) {
        secret_run_end(s, i + 1)
    } else {
        i
    }
}

pub proof fn lemma_secret_run_end(s: Seq<char>, i: int)
    requires
        0 <= i <= s.len(),
    ensures
        i <= secret_run_end(s, i) <= s.len(),
        forall|k: int| i <= k < secret_run_end(s, i) ==> is_secret_char(s[k]),
        secret_run_end(s, i) < s.len() ==> !is_secret_char(s[secret_run_end(s, i)]),
    decreases s.len() - i,
{
    if i < s.len() && is_secret_char(s[i]) {
        lemma_secret_run_end(s, i + 1);
    }
}

/// The end of a number literal starting at `i`: an optional minus, a digit
/// run, and optionally a dot followed by another digit run.
pub open spec fn number_end(s: Seq<char>, i: int) -> int {
    let start = if 0 <= i < s.len() && s[i] == '-' {
        i + 1
    } else {
        i
    };
    let d1 = digit_run_end(s, start);
    if d1 < s.len() && s[d1] == '.' {
        digit_run_end(s, d1 + 1)
    } else {
        d1
    }
}

/// The lexer: a character vector with parallel byte offsets, a cursor, and
/// the indentation stack.
pub struct Lexer {
    chars: Vec<char>,
    byte_offsets: Vec<usize>,
    pos: usize,
    indent_stack: Vec<usize>,
    at_line_start: bool,
}

impl Lexer {
    /// The source text as characters.
    pub closed spec fn src(&self) -> Seq<char> {
        self.chars@
    }

    /// The total byte length of the source.
    pub open spec fn n_bytes(&self) -> int {
        byte_off(self.src(), self.src().len() as int)
    }

    pub closed spec fn spec_pos(&self) -> int {
        self.pos as int
    }

    /// Whether the indent stack holds only the base level, as it does before
    /// tokenizing.
    pub closed spec fn at_base_indent(&self) -> bool {
        self.indent_stack@.len() == 1
    }

    /// Bookkeeping well-formedness: offsets mirror the UTF-8 encoding, the
    /// cursor stays in bounds, and the indent stack ascends from zero.
    pub closed spec fn wf(&self) -> bool {
        &&& self.byte_offsets@.len() == self.chars@.len() + 1
        &&& (forall|i: int|
            0 <= i <= self.chars@.len() ==> #[trigger] self.byte_offsets@[i] == byte_off(
                self.chars@,
                i,
            ))
        &&& self.pos <= self.chars@.len()
        &&& self.indent_stack@.len() >= 1
        &&& self.indent_stack@[0] == 0
        &&& (forall|i: int, j: int|
            0 <= i < j < self.indent_stack@.len() ==> self.indent_stack@[i]
                < self.indent_stack@[j])
    }

    pub fn new(source: &str) -> (l: Lexer)
        ensures
            l.wf(),
            l.src() == source@,
            l.spec_pos() == 0,
            l.at_base_indent(),
            l.line_start(),
    {
        let chars = str_to_chars(source);
        let n = chars.len();
        let total = source.as_bytes().len();
        proof {
            broadcast use vstd::slice::group_slice_axioms;

            assert(source.spec_bytes() == vstd::utf8::encode_utf8(source@));
            assert(chars@.take(n as int) =~= chars@);
            assert(byte_off(chars@, n as int) == total);
        }
        let mut byte_offsets: Vec<usize> = Vec::new();
        let mut off: usize = 0;
        byte_offsets.push(0);
        proof {
            lemma_byte_off_zero(chars@);
        }
        let mut i: usize = 0;
        while i < n
            invariant
                i <= n,
                n == chars@.len(),
                total == byte_off(chars@, n as int),
                off == byte_off(chars@, i as int),
                byte_offsets@.len() == i + 1,
                forall|k: int|
                    0 <= k <= i ==> #[trigger] byte_offsets@[k] == byte_off(chars@, k),
            decreases n - i,
        {
            proof {
                lemma_byte_off_step(chars@, i as int);
                lemma_byte_off_mono(chars@, i + 1, n as int);
                lemma_scalar_len(chars@[i as int]);
            }
            off = off + utf8_len_ch(chars[i]);
            byte_offsets.push(off);
            i += 1;
        }
        Lexer {
            chars,
            byte_offsets,
            pos: 0,
            indent_stack: {
                let mut st: Vec<usize> = Vec::new();
                st.push(0);
                st
            },
            at_line_start: true,
        }
    }

    /// The byte offset of the cursor.
    fn byte_pos(&self) -> (r: usize)
        requires
            self.wf(),
        ensures
            r == byte_off(self.src(), self.spec_pos()),
    {
        self.byte_offsets[self.pos]
    }

    /// The byte offset of a character index.
    fn byte_pos_at(&self, char_idx: usize) -> (r: usize)
        requires
            self.wf(),
            char_idx <= self.src().len(),
        ensures
            r == byte_off(self.src(), char_idx as int),
    {
        self.byte_offsets[char_idx]
    }
}

/// Whether a character may continue an identifier.
fn is_word_char_exec(c: char) -> (r: bool)
    ensures
        r == is_word_char(c),
{
    is_alphanumeric_ch(c) || c == '_' || c == '-'
}

/// Whether a character may continue a role reference.
fn is_role_char_exec(c: char) -> (r: bool)
    ensures
        r == is_role_char(c),
{
    is_alphanumeric_ch(c) || c == '/' || c == ':' || c == '-' || c == '_' || c == '.' || c == '@'
        || c == '{' || c == '}' || c == '+'
}

/// Whether a character may continue a secret-reference name.
fn is_secret_char_exec(c: char) -> (r: bool)
    ensures
        r == is_secret_char(c),
{
    is_alphanumeric_ch(c) || c == '_'
}

impl Lexer {
    pub closed spec fn istack(&self) -> Seq<usize> {
        self.indent_stack@
    }

    pub closed spec fn line_start(&self) -> bool {
        self.at_line_start
    }

    /// Everything but the cursor is as it was.
    pub open spec fn same_but_pos(&self, other: &Lexer) -> bool {
        &&& self.src() == other.src()
        &&& self.istack() == other.istack()
        &&& self.line_start() == other.line_start()
    }

    /// Reads an identifier-shaped word and classifies it: `true`/`false` are
    /// boolean literals, three uppercase ASCII letters are a currency code,
    /// and everything else is an identifier.
    fn read_identifier_or_keyword(&mut self) -> (t: Token)
        requires
            old(self).wf(),
            old(self).spec_pos() < old(self).src().len(),
            is_word_char(old(self).src()[old(self).spec_pos()]),
        ensures
            final (self).wf(),
            final (self).same_but_pos(old(self)),
            final (self).spec_pos() == word_run_end(old(self).src(), old(self).spec_pos()),
            old(self).spec_pos() < final (self).spec_pos(),
            t.span == (Span {
                start: byte_off(old(self).src(), old(self).spec_pos()) as usize,
                end: byte_off(old(self).src(), final (self).spec_pos()) as usize,
            }),
            ({
                let w = old(self).src().subrange(old(self).spec_pos(), final (self).spec_pos());
                match t.kind {
                    TokenKind::BoolLiteral(b) => (b && w == "true"@) || (!b && w == "false"@),
                    TokenKind::CurrencyCode(v) => v@ == w && w != "true"@ && w != "false"@
                        && is_currency_shape(w),
                    TokenKind::Identifier(v) => v@ == w && w != "true"@ && w != "false"@
                        && !is_currency_shape(w),
                    _ => false,
                }
            }),
    {
        let ghost s = self.chars@;
        let ghost p0 = self.pos as int;
        let start = self.byte_pos();
        let n = self.chars.len();
        let mut text: Vec<char> = Vec::new();
        proof {
            lemma_word_run_end(s, p0);
        }
        while self.pos < n && is_word_char_exec(self.chars[self.pos])
            invariant
                self.wf(),
                self.chars@ == s,
                self.indent_stack@ == old(self).indent_stack@,
                self.at_line_start == old(self).at_line_start,
                n == s.len(),
                0 <= p0 <= self.pos <= n,
                word_run_end(s, p0) == word_run_end(s, self.pos as int),
                forall|k: int| p0 <= k < self.pos as int ==> is_word_char(s[k]),
                text@ == s.subrange(p0, self.pos as int),
            decreases n - self.pos,
        {
            text.push(self.chars[self.pos]);
            proof {
                assert(text@ =~= s.subrange(p0, self.pos + 1));
            }
            self.pos += 1;
        }
        proof {
            assert(word_run_end(s, self.pos as int) == self.pos as int);
            lemma_byte_off_mono(s, p0, self.pos as int);
        }
        let end = self.byte_pos();
        let span = Span::new(start, end);
        let value = crate::text::chars_to_string(&text);
        let kind: TokenKind = if crate::text::str_eq(value.as_str(), "true") {
            TokenKind::BoolLiteral(true)
        } else if crate::text::str_eq(value.as_str(), "false") {
            TokenKind::BoolLiteral(false)
        } else {
            let is_code = text.len() == 3 && is_ascii_uppercase_ch(text[0])
                && is_ascii_uppercase_ch(text[1]) && is_ascii_uppercase_ch(text[2]);
            if is_code {
                TokenKind::CurrencyCode(value)
            } else {
                TokenKind::Identifier(value)
            }
        };
        Token::new(kind, span)
    }

    /// Reads a number literal: an optional minus, digits, and optionally a
    /// dot with more digits. The token carries the literal text verbatim.
    fn read_number(&mut self) -> (r: NmlResult<Token>)
        requires
            old(self).wf(),
            old(self).spec_pos() < old(self).src().len(),
            is_digit(old(self).src()[old(self).spec_pos()]) || old(self).src()[old(
                self,
            ).spec_pos()] == '-',
        ensures
            final (self).wf(),
            final (self).same_but_pos(old(self)),
            r is Ok,
            final (self).spec_pos() == number_end(old(self).src(), old(self).spec_pos()),
            old(self).spec_pos() < final (self).spec_pos(),
            r matches Ok(t) ==> {
                &&& t.span == (Span {
                    start: byte_off(old(self).src(), old(self).spec_pos()) as usize,
                    end: byte_off(old(self).src(), final (self).spec_pos()) as usize,
                })
                &&& t.kind matches TokenKind::NumberLiteral(v) && v@ == old(self).src().subrange(
                    old(self).spec_pos(),
                    final (self).spec_pos(),
                )
            },
    {
        let ghost s = self.chars@;
        let ghost p0 = self.pos as int;
        let start = self.byte_pos();
        let n = self.chars.len();
        let mut text: Vec<char> = Vec::new();
        if self.chars[self.pos] == '-' {
            text.push('-');
            self.pos += 1;
            proof {
                assert(text@ =~= s.subrange(p0, self.pos as int));
            }
        }
        let ghost d_start = self.pos as int;
        proof {
            lemma_digit_run_end(s, d_start);
        }
        while self.pos < n && is_ascii_digit_ch(self.chars[self.pos])
            invariant
                self.wf(),
                self.chars@ == s,
                self.indent_stack@ == old(self).indent_stack@,
                self.at_line_start == old(self).at_line_start,
                n == s.len(),
                0 <= p0 <= d_start <= self.pos <= n,
                digit_run_end(s, d_start) == digit_run_end(s, self.pos as int),
                text@ == s.subrange(p0, self.pos as int),
            decreases n - self.pos,
        {
            text.push(self.chars[self.pos]);
            proof {
                assert(text@ =~= s.subrange(p0, self.pos + 1));
            }
            self.pos += 1;
        }
        proof {
            assert(digit_run_end(s, self.pos as int) == self.pos as int);
        }
        if self.pos < n && self.chars[self.pos] == '.' {
            text.push('.');
            self.pos += 1;
            proof {
                assert(text@ =~= s.subrange(p0, self.pos as int));
            }
            let ghost f_start = self.pos as int;
            proof {
                lemma_digit_run_end(s, f_start);
            }
            while self.pos < n && is_ascii_digit_ch(self.chars[self.pos])
                invariant
                    self.wf(),
                    self.chars@ == s,
                    self.indent_stack@ == old(self).indent_stack@,
                    self.at_line_start == old(self).at_line_start,
                    n == s.len(),
                    0 <= p0 <= f_start <= self.pos <= n,
                    digit_run_end(s, f_start) == digit_run_end(s, self.pos as int),
                    text@ == s.subrange(p0, self.pos as int),
                decreases n - self.pos,
            {
                text.push(self.chars[self.pos]);
                proof {
                    assert(text@ =~= s.subrange(p0, self.pos + 1));
                }
                self.pos += 1;
            }
            proof {
                assert(digit_run_end(s, self.pos as int) == self.pos as int);
            }
        }
        proof {
            lemma_byte_off_mono(s, p0, self.pos as int);
        }
        let end = self.byte_pos();
        Ok(Token::new(TokenKind::NumberLiteral(crate::text::chars_to_string(&text)), Span::new(start, end)))
    }

    /// Reads a role reference beginning at `@`, keeping the text verbatim; a
    /// trailing colon is handed back when it closes the enclosing
    /// declaration, that is when end of input, a newline, a space, or a tab
    /// follows it.
    fn read_role_ref(&mut self) -> (t: Token)
        requires
            old(self).wf(),
            old(self).spec_pos() < old(self).src().len(),
            old(self).src()[old(self).spec_pos()] == '@',
        ensures
            final (self).wf(),
            final (self).same_but_pos(old(self)),
            old(self).spec_pos() < final (self).spec_pos(),
            ({
                let s = old(self).src();
                let p0 = old(self).spec_pos();
                let re = role_run_end(s, p0 + 1);
                let strip = re > p0 + 1 && s[re - 1] == ':' && (re == s.len() || s[re] == '\n'
                    || s[re] == ' ' || s[re] == '\t');
                let p1 = if strip {
                    re - 1
                } else {
                    re
                };
                &&& final (self).spec_pos() == p1
                &&& t.span == (Span {
                    start: byte_off(s, p0) as usize,
                    end: byte_off(s, p1) as usize,
                })
                &&& t.kind matches TokenKind::RoleRef(v) && v@ == s.subrange(p0, p1)
            }),
    {
        let ghost s = self.chars@;
        let ghost p0 = self.pos as int;
        let start = self.byte_pos();
        let n = self.chars.len();
        let mut text: Vec<char> = Vec::new();
        text.push(self.chars[self.pos]);
        self.pos += 1;
        proof {
            assert(text@ =~= s.subrange(p0, self.pos as int));
            lemma_role_run_end(s, p0 + 1);
        }
        while self.pos < n && is_role_char_exec(self.chars[self.pos])
            invariant
                self.wf(),
                self.chars@ == s,
                self.indent_stack@ == old(self).indent_stack@,
                self.at_line_start == old(self).at_line_start,
                n == s.len(),
                0 <= p0,
                p0 + 1 <= self.pos <= n,
                role_run_end(s, p0 + 1) == role_run_end(s, self.pos as int),
                text@ == s.subrange(p0, self.pos as int),
            decreases n - self.pos,
        {
            text.push(self.chars[self.pos]);
            proof {
                assert(text@ =~= s.subrange(p0, self.pos + 1));
            }
            self.pos += 1;
        }
        proof {
            assert(role_run_end(s, self.pos as int) == self.pos as int);
        }
        // Strip a trailing colon that belongs to the enclosing declaration.
        if self.pos > self.pos - text.len() + 1 && self.chars[self.pos - 1] == ':' {
            let next_ok = if self.pos >= n {
                true
            } else {
                let nx = self.chars[self.pos];
                nx == '\n' || nx == ' ' || nx == '\t'
            };
            if next_ok {
                text.pop();
                self.pos -= 1;
                proof {
                    assert(text@ =~= s.subrange(p0, self.pos as int));
                }
            }
        }
        proof {
            lemma_byte_off_mono(s, p0, self.pos as int);
        }
        let end = self.byte_pos();
        Token::new(TokenKind::RoleRef(crate::text::chars_to_string(&text)), Span::new(start, end))
    }

    /// Reads a secret reference: `$ENV.` is mandatory after `$`, then at
    /// least one name character; the token carries the text verbatim.
    fn read_secret_ref(&mut self) -> (r: NmlResult<Token>)
        requires
            old(self).wf(),
            old(self).spec_pos() < old(self).src().len(),
            old(self).src()[old(self).spec_pos()] == '$',
        ensures
            final (self).wf(),
            final (self).same_but_pos(old(self)),
            ({
                let s = old(self).src();
                let p0 = old(self).spec_pos();
                let prefix_ok = p0 + 5 <= s.len() && s[p0 + 1] == 'E' && s[p0 + 2] == 'N' && s[p0
                    + 3] == 'V' && s[p0 + 4] == '.';
                let p1 = secret_run_end(s, p0 + 5);
                &&& (r is Ok <==> prefix_ok && p1 > p0 + 5)
                &&& (r matches Ok(t) ==> {
                    &&& final (self).spec_pos() == p1
                    &&& t.span == (Span {
                        start: byte_off(s, p0) as usize,
                        end: byte_off(s, p1) as usize,
                    })
                    &&& t.kind matches TokenKind::SecretRef(v) && v@ == s.subrange(p0, p1)
                })
                &&& (r matches Err(e) ==> {
                    &&& e is Lex
                    &&& span_valid(e.spec_span(), old(self).n_bytes())
                    &&& (!prefix_ok ==> e.spec_message() == "expected $ENV. for secret reference"@
                        && e.spec_span() == bspan(
                        s,
                        p0,
                        if p0 + 5 <= s.len() {
                            p0 + 5
                        } else {
                            s.len() as int
                        },
                    ))
                    &&& (prefix_ok ==> e.spec_message() == "expected variable name after $ENV."@
                        && e.spec_span() == bspan(s, p0, p0 + 5))
                })
            }),
    {
        let ghost s = self.chars@;
        let ghost p0 = self.pos as int;
        let start = self.byte_pos();
        let n = self.chars.len();
        self.pos += 1;

        let prefix_ok = n - self.pos >= 4 && self.chars[self.pos] == 'E' && self.chars[self.pos
            + 1] == 'N' && self.chars[self.pos + 2] == 'V' && self.chars[self.pos + 3] == '.';
        if !prefix_ok {
            let end_idx = if n - self.pos >= 4 {
                self.pos + 4
            } else {
                n
            };
            proof {
                lemma_byte_off_mono(s, p0, end_idx as int);
                lemma_byte_off_mono(s, end_idx as int, n as int);
            }
            let end_bp = self.byte_pos_at(end_idx);
            return Err(
                NmlError::lex(
                    <String as vstd::string::StringExecFns>::from_str("expected $ENV. for secret reference"),
                    Span::new(start, end_bp),
                ),
            );
        }
        self.pos += 4;

        let name_start = self.pos;
        proof {
            lemma_secret_run_end(s, p0 + 5);
        }
        while self.pos < n && is_secret_char_exec(self.chars[self.pos])
            invariant
                self.wf(),
                self.chars@ == s,
                self.indent_stack@ == old(self).indent_stack@,
                self.at_line_start == old(self).at_line_start,
                n == s.len(),
                0 <= p0,
                p0 + 5 <= self.pos <= n,
                name_start == p0 + 5,
                secret_run_end(s, p0 + 5) == secret_run_end(s, self.pos as int),
            decreases n - self.pos,
        {
            self.pos += 1;
        }
        proof {
            assert(secret_run_end(s, self.pos as int) == self.pos as int);
        }
        if self.pos == name_start {
            proof {
                lemma_byte_off_mono(s, p0, self.pos as int);
                lemma_byte_off_mono(s, self.pos as int, n as int);
            }
            let end_bp = self.byte_pos();
            return Err(
                NmlError::lex(
                    <String as vstd::string::StringExecFns>::from_str("expected variable name after $ENV."),
                    Span::new(start, end_bp),
                ),
            );
        }

        // Copy the verbatim text of the reference.
        let mut text: Vec<char> = Vec::new();
        let mut t: usize = self.pos - (self.pos - name_start) - 5;
        proof {
            assert(t == p0);
            lemma_byte_off_mono(s, p0, self.pos as int);
        }
        while t < self.pos
            invariant
                self.wf(),
                self.chars@ == s,
                0 <= p0 <= t <= self.pos as int <= n,
                n == s.len(),
                text@ == s.subrange(p0, t as int),
            decreases self.pos - t,
        {
            text.push(self.chars[t]);
            proof {
                assert(text@ =~= s.subrange(p0, t + 1));
            }
            t += 1;
        }
        let end = self.byte_pos();
        Ok(Token::new(TokenKind::SecretRef(crate::text::chars_to_string(&text)), Span::new(start, end)))
    }
}

/// The outcome of scanning a quoted string body.
pub enum StringScan {
    /// Closed by its terminator; `content` is the unescaped text and `end`
    /// the index just past the terminator.
    Closed { content: Seq<char>, end: int },
    /// An unknown escape; `at` is the index of the offending character.
    BadEscape { at: int },
    /// Input ended directly after a backslash.
    EndAfterBackslash { at: int },
    /// Never closed; `at` is where scanning stopped.
    Unterminated { at: int },
}

/// What an escape character stands for.
pub open spec fn unescape(c: char) -> char {
    if c == 'n' {
        '\n'
    } else if c == 't' {
        '\t'
    } else {
        c
    }
}

pub open spec fn is_escape_char(c: char) -> bool {
    c == '"' || c == '\\' || c == 'n' || c == 't'
}

/// Prepends accumulated content to a scan outcome.
pub open spec fn scan_compose(acc: Seq<char>, r: StringScan) -> StringScan {
    match r {
        StringScan::Closed { content, end } => StringScan::Closed { content: acc + content, end },
        o => o,
    }
}

/// Scans a single-quoted string body from `i` to its closing quote,
/// processing escapes; an unescaped newline leaves it unterminated.
pub open spec fn scan_string(s: Seq<char>, i: int) -> StringScan
    decreases s.len() - i,
{
    if i < 0 || i >= s.len() {
        StringScan::Unterminated { at: s.len() as int }
    } else if s[i] == '"' {
        StringScan::Closed { content: Seq::empty(), end: i + 1 }
    } else if s[i] == '\n' {
        StringScan::Unterminated { at: i }
    } else if s[i] == '\\' {
        if i + 1 >= s.len() {
            StringScan::EndAfterBackslash { at: s.len() as int }
        } else if is_escape_char(s[i + 1]) {
            scan_compose(seq![unescape(s[i + 1])], scan_string(s, i + 2))
        } else {
            StringScan::BadEscape { at: i + 1 }
        }
    } else {
        scan_compose(seq![s[i]], scan_string(s, i + 1))
    }
}

/// Scans a triple-quoted string body from `i` to its closing `"""`,
/// processing escapes; newlines are content.
pub open spec fn scan_multiline(s: Seq<char>, i: int) -> StringScan
    decreases s.len() - i,
{
    if i < 0 || i >= s.len() {
        StringScan::Unterminated { at: s.len() as int }
    } else if s[i] == '"' && i + 2 < s.len() && s[i + 1] == '"' && s[i + 2] == '"' {
        StringScan::Closed { content: Seq::empty(), end: i + 3 }
    } else if s[i] == '\\' {
        if i + 1 >= s.len() {
            StringScan::EndAfterBackslash { at: s.len() as int }
        } else if is_escape_char(s[i + 1]) {
            scan_compose(seq![unescape(s[i + 1])], scan_multiline(s, i + 2))
        } else {
            StringScan::BadEscape { at: i + 1 }
        }
    } else {
        scan_compose(seq![s[i]], scan_multiline(s, i + 1))
    }
}

impl Lexer {
    /// Reads a single-quoted string literal, processing the four standard
    /// escapes; an unescaped newline or end of input is an error.
    fn read_string(&mut self) -> (r: NmlResult<Token>)
        requires
            old(self).wf(),
            old(self).spec_pos() < old(self).src().len(),
            old(self).src()[old(self).spec_pos()] == '"',
        ensures
            final (self).wf(),
            final (self).same_but_pos(old(self)),
            old(self).spec_pos() < final (self).spec_pos(),
            r is Ok <==> scan_string(old(self).src(), old(self).spec_pos() + 1) is Closed,
            r matches Err(e) ==> span_valid(e.spec_span(), old(self).n_bytes()) && ({
                let s = old(self).src();
                let p0 = old(self).spec_pos();
                match scan_string(s, p0 + 1) {
                    StringScan::Closed { content, end } => false,
                    StringScan::BadEscape { at } => e.spec_message() == "unknown escape sequence: '\\"@
                        + seq![s[at]] + "'"@ && e.spec_span() == bspan(s, at - 1, at + 1),
                    StringScan::EndAfterBackslash { at } => e.spec_message()
                        == "unexpected end of string"@ && e.spec_span() == bspan(s, p0, at),
                    StringScan::Unterminated { at } => e.spec_message()
                        == "unterminated string literal"@ && e.spec_span() == bspan(s, p0, at),
                }
            }),
            r matches Ok(t) ==> {
                let sc = scan_string(old(self).src(), old(self).spec_pos() + 1);
                &&& sc matches StringScan::Closed { content, end } ==> {
                    &&& final (self).spec_pos() == end
                    &&& t.span == (Span {
                        start: byte_off(old(self).src(), old(self).spec_pos()) as usize,
                        end: byte_off(old(self).src(), end) as usize,
                    })
                    &&& t.kind matches TokenKind::StringLiteral(v) && v@ == content
                }
            },
            r matches Err(e) ==> e is Lex,
    {
        let ghost s = self.chars@;
        let ghost p0 = self.pos as int;
        let start = self.byte_pos();
        let n = self.chars.len();
        self.pos += 1;
        proof {
            lemma_byte_off_mono(s, p0, self.pos as int);
            lemma_byte_off_mono(s, self.pos as int, n as int);
        }
        let mut value: Vec<char> = Vec::new();

        loop
            invariant
                self.wf(),
                self.chars@ == s,
                self.indent_stack@ == old(self).indent_stack@,
                self.at_line_start == old(self).at_line_start,
                n == s.len(),
                s == old(self).src(),
                p0 == old(self).spec_pos(),
                0 <= p0 < self.pos as int,
                self.pos as int <= n,
                start == byte_off(s, p0),
                start <= byte_off(s, self.pos as int) <= byte_off(s, n as int),
                byte_off(s, n as int) == old(self).n_bytes(),
                scan_string(s, p0 + 1) == scan_compose(value@, scan_string(s, self.pos as int)),
            decreases n - self.pos,
        {
            proof {
                if self.pos < n {
                    lemma_byte_off_step(s, self.pos as int);
                    lemma_scalar_len(s[self.pos as int]);
                    lemma_byte_off_mono(s, self.pos + 1, n as int);
                }
                if n - self.pos >= 2 && self.pos < n {
                    lemma_byte_off_mono(s, self.pos as int, self.pos + 2);
                    lemma_byte_off_mono(s, self.pos + 2, n as int);
                }
            }
            if self.pos >= n {
                return Err(
                    NmlError::lex(
                        <String as vstd::string::StringExecFns>::from_str(
                            "unterminated string literal",
                        ),
                        Span::new(start, self.byte_pos()),
                    ),
                );
            }
            let ch = self.chars[self.pos];
            if ch == '"' {
                self.pos += 1;
                proof {
                    assert(value@ + Seq::<char>::empty() =~= value@);
                }
                let end = self.byte_pos();
                return Ok(
                    Token::new(
                        TokenKind::StringLiteral(crate::text::chars_to_string(&value)),
                        Span::new(start, end),
                    ),
                );
            } else if ch == '\\' {
                self.pos += 1;
                if self.pos >= n {
                    return Err(
                        NmlError::lex(
                            <String as vstd::string::StringExecFns>::from_str(
                                "unexpected end of string",
                            ),
                            Span::new(start, self.byte_pos()),
                        ),
                    );
                }
                let esc = self.chars[self.pos];
                if esc == '"' || esc == '\\' || esc == 'n' || esc == 't' {
                    let unescaped: char = if esc == 'n' {
                        '\n'
                    } else if esc == 't' {
                        '\t'
                    } else {
                        esc
                    };
                    let ghost acc0 = value@;
                    value.push(unescaped);
                    self.pos += 1;
                    proof {
                        assert(value@ =~= acc0 + seq![unescape(esc)]);
                        if let StringScan::Closed { content, end } = scan_string(
                            s,
                            self.pos as int,
                        ) {
                            assert(acc0 + (seq![unescape(esc)] + content) =~= value@ + content);
                        }
                    }
                } else {
                    let e_start = self.byte_pos_at(self.pos - 1);
                    let e_end = self.byte_pos_at(self.pos + 1);
                    let mut msg = <String as vstd::string::StringExecFns>::from_str(
                        "unknown escape sequence: '\\",
                    );
                    crate::text::push_char(&mut msg, esc);
                    vstd::string::StringExecFns::append(&mut msg, "'");
                    return Err(NmlError::lex(msg, Span::new(e_start, e_end)));
                }
            } else if ch == '\n' {
                return Err(
                    NmlError::lex(
                        <String as vstd::string::StringExecFns>::from_str(
                            "unterminated string literal",
                        ),
                        Span::new(start, self.byte_pos()),
                    ),
                );
            } else {
                let ghost acc0 = value@;
                value.push(ch);
                self.pos += 1;
                proof {
                    assert(value@ =~= acc0 + seq![ch]);
                    if let StringScan::Closed { content, end } = scan_string(s, self.pos as int) {
                        assert(acc0 + (seq![ch] + content) =~= value@ + content);
                    }
                }
            }
        }
    }
}

/// A line consisting only of whitespace (or nothing).
pub open spec fn line_blank(l: Seq<char>) -> bool {
    forall|i: int| 0 <= i < l.len() ==> unicode_whitespace(#[trigger] l[i])
}

/// The number of leading space characters.
pub open spec fn leading_spaces(l: Seq<char>) -> int
    decreases l.len(),
{
    if l.len() == 0 || l[0] != ' ' {
        0
    } else {
        1 + leading_spaces(l.drop_first())
    }
}

pub proof fn lemma_leading_spaces(l: Seq<char>)
    ensures
        0 <= leading_spaces(l) <= l.len(),
        forall|i: int| 0 <= i < leading_spaces(l) ==> l[i] == ' ',
        leading_spaces(l) < l.len() ==> l[leading_spaces(l)] != ' ',
    decreases l.len(),
{
    if l.len() > 0 && l[0] == ' ' {
        lemma_leading_spaces(l.drop_first());
        assert(forall|i: int|
            0 <= i < l.drop_first().len() ==> #[trigger] l.drop_first()[i] == l[i + 1]);
        assert forall|i: int| 0 <= i < leading_spaces(l) implies l[i] == ' ' by {
            if i > 0 {
                assert(l.drop_first()[i - 1] == l[i]);
            }
        }
    }
}

/// The content split at newlines, always at least one (possibly empty) line.
pub open spec fn split_lines(s: Seq<char>) -> Seq<Seq<char>>
    decreases s.len(),
    via split_lines_decreases
{
    let d = crate::text::find_char(s, '\n');
    if d == -1 {
        seq![s]
    } else {
        seq![s.take(d)] + split_lines(s.skip(d + 1))
    }
}

#[via_fn]
proof fn split_lines_decreases(s: Seq<char>) {
    crate::text::lemma_find_char(s, '\n');
}

/// The least leading-space count over non-blank lines, or -1 when every line
/// is blank.
pub open spec fn min_indent(lines: Seq<Seq<char>>) -> int
    decreases lines.len(),
{
    if lines.len() == 0 {
        -1
    } else {
        let rest = min_indent(lines.drop_last());
        let cur: int = if line_blank(lines.last()) {
            -1
        } else {
            leading_spaces(lines.last())
        };
        if cur == -1 {
            rest
        } else if rest == -1 || cur <= rest {
            cur
        } else {
            rest
        }
    }
}

/// A line with `m` leading spaces removed, when it has them.
pub open spec fn strip_line(l: Seq<char>, m: int) -> Seq<char> {
    if l.len() >= m && (forall|i: int| 0 <= i < m ==> l[i] == ' ') {
        l.skip(m)
    } else {
        l
    }
}

/// The lines from index `t` on, joined with newlines.
pub open spec fn join_from(lines: Seq<Seq<char>>, t: int) -> Seq<char>
    decreases lines.len() - t,
{
    if t < 0 || t >= lines.len() {
        Seq::empty()
    } else if t == lines.len() - 1 {
        lines[t]
    } else {
        lines[t] + seq!['\n'] + join_from(lines, t + 1)
    }
}

/// Dedented multiline-string content: a blank first and last line are
/// dropped, then the least leading-space count across the non-blank lines is
/// stripped from every line.
pub open spec fn dedent_spec(raw: Seq<char>) -> Seq<char> {
    let ls0 = split_lines(raw);
    let ls1 = if ls0.len() > 0 && line_blank(ls0[0]) {
        ls0.drop_first()
    } else {
        ls0
    };
    let ls2 = if ls1.len() > 0 && line_blank(ls1.last()) {
        ls1.drop_last()
    } else {
        ls1
    };
    if ls2.len() == 0 {
        Seq::empty()
    } else {
        let mi = min_indent(ls2);
        let m: int = if mi == -1 {
            0
        } else {
            mi
        };
        join_from(ls2.map_values(|l: Seq<char>| strip_line(l, m)), 0)
    }
}

/// Whether every character of the line is whitespace.
fn line_blank_exec(l: &Vec<char>) -> (r: bool)
    ensures
        r == line_blank(l@),
{
    let mut i: usize = 0;
    while i < l.len()
        invariant
            i <= l@.len(),
            forall|k: int| 0 <= k < i ==> unicode_whitespace(#[trigger] l@[k]),
        decreases l@.len() - i,
    {
        if !is_whitespace_ch(l[i]) {
            return false;
        }
        i += 1;
    }
    true
}

/// The number of leading spaces of the line.
fn leading_spaces_exec(l: &Vec<char>) -> (r: usize)
    ensures
        r == leading_spaces(l@),
{
    proof {
        lemma_leading_spaces(l@);
    }
    let mut i: usize = 0;
    while i < l.len() && l[i] == ' '
        invariant
            i <= l@.len(),
            forall|k: int| 0 <= k < i ==> l@[k] == ' ',
            i <= leading_spaces(l@),
        decreases l@.len() - i,
    {
        proof {
            lemma_leading_spaces(l@);
        }
        i += 1;
    }
    proof {
        lemma_leading_spaces(l@);
    }
    i
}

/// The character sequences of a sequence of character vectors.
pub open spec fn views_of(ls: Seq<Vec<char>>) -> Seq<Seq<char>> {
    Seq::new(ls.len(), |i: int| ls[i]@)
}

/// Splits raw content into lines at newline characters.
fn split_lines_exec(raw: &Vec<char>) -> (lines: Vec<Vec<char>>)
    ensures
        views_of(lines@) == split_lines(raw@),
        lines@.len() >= 1,
{
    let ghost s = raw@;
    let n = raw.len();
    let mut lines: Vec<Vec<char>> = Vec::new();
    let mut cur: Vec<char> = Vec::new();
    let mut i: usize = 0;
    proof {
        assert(cur@ =~= s.subrange(0, 0));
        assert(s.skip(0) =~= s);
        assert(views_of(lines@) =~= Seq::<Seq<char>>::empty());
        assert(views_of(lines@) + split_lines(s) =~= split_lines(s));
    }
    while i < n
        invariant
            0 <= i <= n,
            n == s.len(),
            raw@ == s,
            cur@.len() <= i,
            cur@ == s.subrange(i - cur@.len(), i as int),
            split_lines(s) == views_of(lines@) + split_lines(s.skip(i - cur@.len())),
            forall|k: int| i - cur@.len() <= k < i ==> s[k] != '\n',
        decreases n - i,
    {
        let c = raw[i];
        if c == '\n' {
            let ghost seg_start = i - cur@.len();
            let ghost dv0 = views_of(lines@);
            let ghost lv0 = lines@;
            let finished = cur;
            let ghost fin = finished@;
            cur = Vec::new();
            lines.push(finished);
            proof {
                assert forall|k: int| 0 <= k < lines@.len() implies views_of(lines@)[k]
                    == dv0.push(fin)[k] by {
                    if k < lv0.len() {
                        assert(lines@[k] == lv0[k]);
                    }
                }
                let rest = s.skip(seg_start);
                crate::text::lemma_find_char(rest, '\n');
                assert(forall|k: int| 0 <= k < rest.len() ==> rest[k] == s[seg_start + k]);
                assert(rest[i - seg_start] == '\n');
                assert(crate::text::find_char(rest, '\n') == i - seg_start) by {
                    if crate::text::find_char(rest, '\n') < i - seg_start {
                        assert(s[seg_start + crate::text::find_char(rest, '\n')] != '\n');
                    }
                }
                assert(rest.take(i - seg_start) =~= fin);
                assert(rest.skip(i - seg_start + 1) =~= s.skip(i + 1));
                assert(split_lines(rest) == seq![fin] + split_lines(s.skip(i + 1)));
                assert(views_of(lines@) =~= dv0.push(fin));
                assert(dv0 + (seq![fin] + split_lines(s.skip(i + 1))) =~= dv0.push(fin)
                    + split_lines(s.skip(i + 1)));
                assert(cur@ =~= s.subrange(i + 1, i + 1));
            }
        } else {
            cur.push(c);
            proof {
                assert(cur@ =~= s.subrange(i + 1 - cur@.len(), i + 1));
            }
        }
        i += 1;
    }
    let ghost seg_start = n - cur@.len();
    let ghost dv0 = views_of(lines@);
    let ghost lv0 = lines@;
    let ghost last_line = cur@;
    lines.push(cur);
    proof {
        assert forall|k: int| 0 <= k < lines@.len() implies views_of(lines@)[k] == dv0.push(
            last_line,
        )[k] by {
            if k < lv0.len() {
                assert(lines@[k] == lv0[k]);
            }
        }
        let rest = s.skip(seg_start);
        crate::text::lemma_find_char(rest, '\n');
        assert(forall|k: int| 0 <= k < rest.len() ==> rest[k] == s[seg_start + k]);
        if crate::text::find_char(rest, '\n') != -1 {
            assert(s[seg_start + crate::text::find_char(rest, '\n')] != '\n');
        }
        assert(rest =~= last_line);
        assert(split_lines(rest) == seq![last_line]);
        assert(views_of(lines@) =~= dv0.push(last_line));
        assert(dv0 + seq![last_line] =~= dv0.push(last_line));
    }
    lines
}

/// Dedents multiline string content: drop a blank first and last line, strip
/// the least leading-space count of the non-blank lines from every line.
fn dedent_multiline(raw: &Vec<char>) -> (r: Vec<char>)
    ensures
        r@ == dedent_spec(raw@),
{
    let mut lines = split_lines_exec(raw);
    let ghost ls0 = views_of(lines@);

    proof {
        assert(lines@[0]@ == ls0[0]);
    }
    if lines.len() > 0 && line_blank_exec(&lines[0]) {
        let ghost lv0 = lines@;
        lines.remove(0);
        proof {
            assert forall|k: int| 0 <= k < lines@.len() implies views_of(lines@)[k]
                == ls0.drop_first()[k] by {
                assert(lines@[k] == lv0[k + 1]);
            }
            assert(views_of(lines@) =~= ls0.drop_first());
        }
    }
    let ghost ls1 = views_of(lines@);
    if lines.len() > 0 {
        let last_idx = lines.len() - 1;
        proof {
            assert(lines@[last_idx as int]@ == ls1.last());
        }
        if line_blank_exec(&lines[last_idx]) {
            let ghost lv0 = lines@;
            lines.pop();
            proof {
                assert forall|k: int| 0 <= k < lines@.len() implies views_of(lines@)[k]
                    == ls1.drop_last()[k] by {
                    assert(lines@[k] == lv0[k]);
                }
                assert(views_of(lines@) =~= ls1.drop_last());
            }
        }
    }
    let ghost ls2 = views_of(lines@);

    if lines.len() == 0 {
        let r: Vec<char> = Vec::new();
        proof {
            assert(r@ =~= dedent_spec(raw@));
        }
        return r;
    }

    // The least leading-space count across non-blank lines.
    let mut found = false;
    let mut mi: usize = 0;
    let mut t: usize = 0;
    proof {
        assert(ls2.take(0) =~= Seq::<Seq<char>>::empty());
    }
    while t < lines.len()
        invariant
            0 <= t <= lines@.len(),
            ls2 == views_of(lines@),
            ls2.len() == lines@.len(),
            found <==> min_indent(ls2.take(t as int)) != -1,
            found ==> mi == min_indent(ls2.take(t as int)),
        decreases lines@.len() - t,
    {
        proof {
            assert(ls2.take(t + 1).drop_last() =~= ls2.take(t as int));
            assert(ls2.take(t + 1).last() == ls2[t as int]);
            assert(lines@[t as int]@ == ls2[t as int]);
            lemma_leading_spaces(ls2[t as int]);
        }
        if !line_blank_exec(&lines[t]) {
            let cur = leading_spaces_exec(&lines[t]);
            if !found || cur < mi {
                mi = cur;
                found = true;
            }
        }
        t += 1;
    }
    proof {
        assert(ls2.take(ls2.len() as int) =~= ls2);
    }
    let m: usize = if found {
        mi
    } else {
        0
    };
    let ghost m_spec: int = if min_indent(ls2) == -1 {
        0int
    } else {
        min_indent(ls2)
    };
    proof {
        assert(m as int == m_spec);
    }

    // Strip and join.
    let ghost stripped = ls2.map_values(|l: Seq<char>| strip_line(l, m as int));
    let n_lines = lines.len();
    let mut out: Vec<char> = Vec::new();
    let mut t: usize = 0;
    proof {
        assert(out@ + join_from(stripped, 0) =~= join_from(stripped, 0));
    }
    while t < n_lines
        invariant
            0 <= t <= lines@.len(),
            n_lines == lines@.len(),
            ls2 == views_of(lines@),
            ls2.len() == lines@.len(),
            lines@.len() >= 1,
            stripped == ls2.map_values(|l: Seq<char>| strip_line(l, m as int)),
            stripped.len() == ls2.len(),
            join_from(stripped, 0) == out@ + join_from(stripped, t as int),
        decreases lines@.len() - t,
    {
        proof {
            assert(lines@[t as int]@ == ls2[t as int]);
            assert(stripped[t as int] == strip_line(ls2[t as int], m as int));
        }
        let line = &lines[t];
        // Decide whether the line carries the common indentation.
        let mut strippable = line.len() >= m;
        let mut k: usize = 0;
        while strippable && k < m
            invariant
                0 <= k <= m,
                line@ == views_of(lines@)[t as int],
                t < lines@.len(),
                strippable ==> line@.len() >= m && forall|j: int| 0 <= j < k ==> line@[j] == ' ',
                !strippable ==> !(line@.len() >= m && (forall|j: int|
                    0 <= j < m ==> line@[j] == ' ')),
            decreases (if strippable {
                1int
            } else {
                0int
            }), m - k,
        {
            if line[k] != ' ' {
                proof {
                    assert(line@[k as int] != ' ');
                }
                strippable = false;
            } else {
                k += 1;
            }
        }
        let from: usize = if strippable {
            m
        } else {
            0
        };
        proof {
            if strippable {
                assert(strip_line(ls2[t as int], m as int) == ls2[t as int].skip(m as int));
            } else {
                assert(strip_line(ls2[t as int], m as int) == ls2[t as int]);
            }
        }
        let ghost out0 = out@;
        let mut k: usize = from;
        proof {
            assert(out@ =~= out0 + line@.subrange(from as int, from as int));
        }
        while k < line.len()
            invariant
                from <= k <= line@.len(),
                line@ == views_of(lines@)[t as int],
                t < lines@.len(),
                out@ == out0 + line@.subrange(from as int, k as int),
            decreases line@.len() - k,
        {
            out.push(line[k]);
            proof {
                assert(out@ =~= out0 + line@.subrange(from as int, k + 1));
            }
            k += 1;
        }
        proof {
            assert(line@.subrange(from as int, line@.len() as int) =~= strip_line(
                ls2[t as int],
                m as int,
            ));
            assert(out@ =~= out0 + stripped[t as int]);
        }
        if t + 1 < n_lines {
            out.push('\n');
        }
        proof {
            let st = stripped;
            if t + 1 < lines@.len() {
                assert(join_from(st, t as int) == st[t as int] + seq!['\n'] + join_from(
                    st,
                    t + 1,
                ));
                assert(out@ =~= out0 + st[t as int] + seq!['\n']);
                assert(out@ + join_from(st, t + 1) =~= out0 + (st[t as int] + seq!['\n']
                    + join_from(st, t + 1)));
            } else {
                assert(join_from(st, t as int) == st[t as int]);
                assert(out@ =~= out0 + st[t as int]);
                assert(join_from(st, t + 1) =~= Seq::<char>::empty());
                assert(out@ + join_from(st, t + 1) =~= out0 + join_from(st, t as int));
            }
        }
        t += 1;
    }
    proof {
        assert(join_from(stripped, lines@.len() as int) =~= Seq::<char>::empty());
        assert(out@ + Seq::<char>::empty() =~= out@);
        assert(out@ == join_from(stripped, 0));
        let spec_stripped = ls2.map_values(|l: Seq<char>| strip_line(l, m_spec));
        assert(stripped =~= spec_stripped);
        assert(out@ =~= dedent_spec(raw@));
    }
    out
}

impl Lexer {
    /// Reads a triple-quoted multiline string, processing escapes and
    /// dedenting the content on close.
    fn read_multiline_string(&mut self) -> (r: NmlResult<Token>)
        requires
            old(self).wf(),
            old(self).spec_pos() + 2 < old(self).src().len(),
            old(self).src()[old(self).spec_pos()] == '"',
            old(self).src()[old(self).spec_pos() + 1] == '"',
            old(self).src()[old(self).spec_pos() + 2] == '"',
        ensures
            final (self).wf(),
            final (self).same_but_pos(old(self)),
            old(self).spec_pos() < final (self).spec_pos(),
            r is Ok <==> scan_multiline(old(self).src(), old(self).spec_pos() + 3) is Closed,
            r matches Err(e) ==> span_valid(e.spec_span(), old(self).n_bytes()) && ({
                let s = old(self).src();
                let p0 = old(self).spec_pos();
                match scan_multiline(s, p0 + 3) {
                    StringScan::Closed { content, end } => false,
                    StringScan::BadEscape { at } => e.spec_message() == "unknown escape sequence: '\\"@
                        + seq![s[at]] + "'"@ && e.spec_span() == bspan(s, at - 1, at + 1),
                    StringScan::EndAfterBackslash { at } => e.spec_message()
                        == "unexpected end of string"@ && e.spec_span() == bspan(s, p0, at),
                    StringScan::Unterminated { at } => e.spec_message()
                        == "unterminated multiline string literal"@ && e.spec_span() == bspan(
                        s,
                        p0,
                        at,
                    ),
                }
            }),
            r matches Ok(t) ==> {
                let sc = scan_multiline(old(self).src(), old(self).spec_pos() + 3);
                &&& sc matches StringScan::Closed { content, end } ==> {
                    &&& final (self).spec_pos() == end
                    &&& t.span == (Span {
                        start: byte_off(old(self).src(), old(self).spec_pos()) as usize,
                        end: byte_off(old(self).src(), end) as usize,
                    })
                    &&& t.kind matches TokenKind::StringLiteral(v) && v@ == dedent_spec(content)
                }
            },
            r matches Err(e) ==> e is Lex,
    {
        let ghost s = self.chars@;
        let ghost p0 = self.pos as int;
        let start = self.byte_pos();
        let n = self.chars.len();
        self.pos += 3;
        proof {
            lemma_byte_off_mono(s, p0, self.pos as int);
            lemma_byte_off_mono(s, self.pos as int, n as int);
        }
        let mut raw: Vec<char> = Vec::new();

        loop
            invariant
                self.wf(),
                self.chars@ == s,
                self.indent_stack@ == old(self).indent_stack@,
                self.at_line_start == old(self).at_line_start,
                n == s.len(),
                s == old(self).src(),
                p0 == old(self).spec_pos(),
                0 <= p0 < self.pos as int,
                self.pos as int <= n,
                start == byte_off(s, p0),
                start <= byte_off(s, self.pos as int) <= byte_off(s, n as int),
                byte_off(s, n as int) == old(self).n_bytes(),
                scan_multiline(s, p0 + 3) == scan_compose(raw@, scan_multiline(s, self.pos as int)),
            decreases n - self.pos,
        {
            proof {
                if self.pos < n {
                    lemma_byte_off_step(s, self.pos as int);
                    lemma_scalar_len(s[self.pos as int]);
                    lemma_byte_off_mono(s, self.pos + 1, n as int);
                }
                if n - self.pos >= 2 && self.pos < n {
                    lemma_byte_off_mono(s, self.pos as int, self.pos + 2);
                    lemma_byte_off_mono(s, self.pos + 2, n as int);
                }
                if n - self.pos >= 3 && self.pos < n {
                    lemma_byte_off_mono(s, self.pos as int, self.pos + 3);
                    lemma_byte_off_mono(s, self.pos + 3, n as int);
                }
            }
            if self.pos >= n {
                return Err(
                    NmlError::lex(
                        <String as vstd::string::StringExecFns>::from_str(
                            "unterminated multiline string literal",
                        ),
                        Span::new(start, self.byte_pos()),
                    ),
                );
            }
            let ch = self.chars[self.pos];
            let terminator = ch == '"' && n - self.pos > 2 && self.chars[self.pos + 1] == '"'
                && self.chars[self.pos + 2] == '"';
            if terminator {
                self.pos += 3;
                proof {
                    assert(raw@ + Seq::<char>::empty() =~= raw@);
                }
                let end = self.byte_pos();
                let value = dedent_multiline(&raw);
                return Ok(
                    Token::new(
                        TokenKind::StringLiteral(crate::text::chars_to_string(&value)),
                        Span::new(start, end),
                    ),
                );
            } else if ch == '\\' {
                self.pos += 1;
                if self.pos >= n {
                    return Err(
                        NmlError::lex(
                            <String as vstd::string::StringExecFns>::from_str(
                                "unexpected end of string",
                            ),
                            Span::new(start, self.byte_pos()),
                        ),
                    );
                }
                let esc = self.chars[self.pos];
                if esc == '"' || esc == '\\' || esc == 'n' || esc == 't' {
                    let unescaped: char = if esc == 'n' {
                        '\n'
                    } else if esc == 't' {
                        '\t'
                    } else {
                        esc
                    };
                    let ghost acc0 = raw@;
                    raw.push(unescaped);
                    self.pos += 1;
                    proof {
                        assert(raw@ =~= acc0 + seq![unescape(esc)]);
                        if let StringScan::Closed { content, end } = scan_multiline(
                            s,
                            self.pos as int,
                        ) {
                            assert(acc0 + (seq![unescape(esc)] + content) =~= raw@ + content);
                        }
                    }
                } else {
                    let e_start = self.byte_pos_at(self.pos - 1);
                    let e_end = self.byte_pos_at(self.pos + 1);
                    let mut msg = <String as vstd::string::StringExecFns>::from_str(
                        "unknown escape sequence: '\\",
                    );
                    crate::text::push_char(&mut msg, esc);
                    vstd::string::StringExecFns::append(&mut msg, "'");
                    return Err(NmlError::lex(msg, Span::new(e_start, e_end)));
                }
            } else {
                let ghost acc0 = raw@;
                raw.push(ch);
                self.pos += 1;
                proof {
                    assert(raw@ =~= acc0 + seq![ch]);
                    if let StringScan::Closed { content, end } = scan_multiline(
                        s,
                        self.pos as int,
                    ) {
                        assert(acc0 + (seq![ch] + content) =~= raw@ + content);
                    }
                }
            }
        }
    }
}

/// Whether the nearest preceding token that is not a newline or an indent
/// opens a value position, so that a dash starts a negative number.
pub open spec fn prev_allows_negative_spec(ts: Seq<Token>) -> bool
    decreases ts.len(),
{
    if ts.len() == 0 {
        false
    } else if ts.last().kind is Newline || ts.last().kind is Indent {
        prev_allows_negative_spec(ts.drop_last())
    } else {
        ts.last().kind is Equals || ts.last().kind is BracketOpen || ts.last().kind is Comma
    }
}

fn prev_allows_negative(tokens: &Vec<Token>) -> (r: bool)
    ensures
        r == prev_allows_negative_spec(tokens@),
{
    let mut i: usize = tokens.len();
    proof {
        assert(tokens@.take(tokens@.len() as int) =~= tokens@);
    }
    while i > 0
        invariant
            0 <= i <= tokens@.len(),
            prev_allows_negative_spec(tokens@) == prev_allows_negative_spec(
                tokens@.take(i as int),
            ),
        decreases i,
    {
        proof {
            assert(tokens@.take(i as int).drop_last() =~= tokens@.take(i - 1));
            assert(tokens@.take(i as int).last() == tokens@[i - 1]);
        }
        let k = &tokens[i - 1].kind;
        if matches!(k, TokenKind::Newline | TokenKind::Indent) {
            i -= 1;
        } else {
            return matches!(k, TokenKind::Equals | TokenKind::BracketOpen | TokenKind::Comma);
        }
    }
    false
}

/// Appending one token moves the indent/dedent balance by exactly its own
/// contribution.
pub proof fn lemma_balance_push(ts: Seq<Token>, t: Token)
    ensures
        balance(ts.push(t)) == balance(ts) + (if t.kind is Indent {
            1int
        } else if t.kind is Dedent {
            -1int
        } else {
            0int
        }),
{
    assert(ts.push(t).drop_last() =~= ts);
    assert(ts.push(t).last() == t);
}

/// Pushing a token with a valid span preserves validity of the whole list.
pub proof fn lemma_tokens_valid_push_cond(ts: Seq<Token>, t: Token, n: int)
    requires
        span_valid(t.span, n),
    ensures
        tokens_valid(ts, n) ==> tokens_valid(ts.push(t), n),
{
    if tokens_valid(ts, n) {
        lemma_tokens_valid_push(ts, t, n);
    }
}

pub proof fn lemma_tokens_valid_push(ts: Seq<Token>, t: Token, n: int)
    requires
        tokens_valid(ts, n),
        span_valid(t.span, n),
    ensures
        tokens_valid(ts.push(t), n),
{
    assert forall|i: int| 0 <= i < ts.push(t).len() implies span_valid(
        (#[trigger] ts.push(t)[i]).span,
        n,
    ) by {
        if i < ts.len() {
            assert(ts.push(t)[i] == ts[i]);
        }
    }
}

impl Lexer {
    /// The span of a one-byte punctuation character at the cursor.
    fn punct_span(&self) -> (sp: Span)
        requires
            self.wf(),
            self.spec_pos() < self.src().len(),
        ensures
            sp.start == byte_off(self.src(), self.spec_pos()),
            sp.end == sp.start + 1,
            span_valid(sp, self.n_bytes()),
    {
        proof {
            lemma_byte_off_step(self.src(), self.spec_pos());
            lemma_scalar_len(self.src()[self.spec_pos()]);
            lemma_byte_off_mono(self.src(), self.spec_pos() + 1, self.src().len() as int);
            assert(self.byte_offsets@[self.src().len() as int] == byte_off(
                self.src(),
                self.src().len() as int,
            ));
        }
        let bp = self.byte_pos();
        Span::new(bp, bp + 1)
    }

    /// Consumes characters up to, but not including, the next newline.
    fn skip_comment(&mut self)
        requires
            old(self).wf(),
        ensures
            final (self).wf(),
            final (self).same_but_pos(old(self)),
            old(self).spec_pos() <= final (self).spec_pos() <= final (self).src().len(),
            forall|k: int|
                old(self).spec_pos() <= k < final (self).spec_pos() ==> final (self).src()[k]
                    != '\n',
            ({
                let p1 = final (self).spec_pos();
                p1 == final (self).src().len() || final (self).src()[p1] == '\n'
            }),
            final (self).spec_pos() == line_end(old(self).src(), old(self).spec_pos()),
    {
        let n = self.chars.len();
        while self.pos < n && self.chars[self.pos] != '\n'
            invariant
                self.wf(),
                self.chars@ == old(self).src(),
                self.indent_stack@ == old(self).indent_stack@,
                self.at_line_start == old(self).at_line_start,
                n == self.chars@.len(),
                old(self).spec_pos() <= self.pos <= n,
                forall|k: int|
                    old(self).spec_pos() <= k < self.pos as int ==> self.chars@[k] != '\n',
            decreases n - self.pos,
        {
            self.pos += 1;
        }
        proof {
            lemma_line_end(self.chars@, old(self).spec_pos());
            let le = line_end(self.chars@, old(self).spec_pos());
            if le < self.pos as int {
                assert(self.chars@[le] != '\n');
            }
            if le > self.pos as int {
                assert(self.pos < self.chars@.len());
            }
        }
    }

    /// Handles indentation at the start of a logical line: count leading
    /// spaces; skip blank and comment-only lines; push the level and emit
    /// `Indent` when it grows; pop levels emitting one `Dedent` each when it
    /// shrinks, failing when no popped level matches exactly.
    fn handle_indentation(&mut self, tokens: &mut Vec<Token>) -> (r: Result<(), NmlError>)
        requires
            old(self).wf(),
        ensures
            final (self).wf(),
            final (self).src() == old(self).src(),
            final (self).line_start() == old(self).line_start(),
            old(self).spec_pos() <= final (self).spec_pos() <= final (self).src().len(),
            old(tokens)@.is_prefix_of(final (tokens)@),
            forall|i: int|
                old(tokens)@.len() <= i < final (tokens)@.len() ==> span_valid(
                    (#[trigger] final (tokens)@[i]).span,
                    old(self).n_bytes(),
                ) && (final (tokens)@[i].kind is Indent || final (tokens)@[i].kind is Dedent),
            r is Ok ==> balance(final (tokens)@) - (final (self).istack().len() - 1) == balance(
                old(tokens)@,
            ) - (old(self).istack().len() - 1),
            r matches Err(e) ==> e is Lex && e.spec_message() == "inconsistent indentation"@
                && span_valid(e.spec_span(), old(self).n_bytes()),
            ({
                match indentation_step(
                    old(self).src(),
                    old(self).spec_pos(),
                    stack_ints(old(self).istack()),
                ) {
                    IndentOut::Step { pos, stack, emitted } => {
                        &&& r is Ok
                        &&& final (self).spec_pos() == pos
                        &&& stack_ints(final (self).istack()) == stack
                        &&& token_recs(final (tokens)@) == token_recs(old(tokens)@) + emitted
                    },
                    IndentOut::Bad { span } => {
                        &&& r matches Err(e) && e.spec_span() == span
                    },
                }
            }),
    {
        let ghost s = self.chars@;
        let n = self.chars.len();
        let ghost p0 = self.pos as int;
        let mut indent: usize = 0;
        while self.pos < n && self.chars[self.pos] == ' '
            invariant
                self.wf(),
                self.chars@ == s,
                self.indent_stack@ == old(self).indent_stack@,
                self.at_line_start == old(self).at_line_start,
                n == s.len(),
                0 <= p0 <= self.pos as int <= n,
                indent == self.pos as int - p0,
                forall|k: int| p0 <= k < self.pos as int ==> s[k] == ' ',
                tokens@ == old(tokens)@,
            decreases n - self.pos,
        {
            indent += 1;
            self.pos += 1;
        }
        proof {
            lemma_space_run_end(s, p0);
            let se = space_run_end(s, p0);
            if se < self.pos as int {
                assert(s[se] != ' ');
            }
            if se > self.pos as int {
                assert(self.pos < n);
                assert(s[self.pos as int] == ' ');
            }
            assert(se == self.pos as int);
        }
        let ghost se = self.pos as int;
        let ghost stack0 = stack_ints(old(self).istack());

        let at_blank_or_comment = self.pos >= n || self.chars[self.pos] == '\n' || (
        self.chars[self.pos] == '/' && self.pos + 1 < n && self.chars[self.pos + 1] == '/');
        if at_blank_or_comment {
            if self.pos < n && self.chars[self.pos] != '\n' {
                self.skip_comment();
            }
            proof {
                assert(old(tokens)@.is_prefix_of(tokens@));
                assert(token_recs(tokens@) =~= token_recs(old(tokens)@) + Seq::<
                    TokenRec,
                >::empty());
            }
            return Ok(());
        }

        let current_indent = self.indent_stack[self.indent_stack.len() - 1];

        if indent > current_indent {
            let ghost st0 = self.indent_stack@;
            self.indent_stack.push(indent);
            proof {
                assert(forall|i: int|
                    0 <= i < st0.len() ==> #[trigger] self.indent_stack@[i] == st0[i]);
                assert(self.indent_stack@.last() == indent);
                assert forall|i: int, j: int|
                    0 <= i < j < self.indent_stack@.len() implies self.indent_stack@[i]
                    < self.indent_stack@[j] by {
                    if j == self.indent_stack@.len() - 1 && i < j {
                        assert(self.indent_stack@[i] == st0[i]);
                        if i < st0.len() - 1 {
                            assert(st0[i] < st0[st0.len() - 1]);
                        }
                    }
                }
                lemma_byte_off_mono(s, self.pos as int, n as int);
            }
            let sp_start = self.byte_pos_at(self.pos - indent);
            let sp_end = self.byte_pos();
            let ghost ts0 = tokens@;
            let tok = Token::new(TokenKind::Indent, Span::new(sp_start, sp_end));
            proof {
                lemma_byte_off_mono(s, self.pos as int - indent, self.pos as int);
                lemma_balance_push(ts0, tok);
            }
            tokens.push(tok);
            proof {
                assert(ts0.is_prefix_of(tokens@)) by {
                    assert(tokens@.take(ts0.len() as int) =~= ts0);
                }
                assert forall|i: int|
                    ts0.len() <= i < tokens@.len() implies span_valid(
                    (#[trigger] tokens@[i]).span,
                    byte_off(s, n as int),
                ) && (tokens@[i].kind is Indent || tokens@[i].kind is Dedent) by {
                    assert(tokens@[i] == tok);
                }
                lemma_token_recs_push(ts0, tok);
                assert(stack0.last() == current_indent as int);
                assert(token_rec(tok) == TokenRec { kind: TokRec::Indent, span: bspan(s, p0, se) });
                assert(stack_ints(self.indent_stack@) =~= stack0.push(indent as int));
                assert(token_recs(tokens@) =~= token_recs(old(tokens)@) + seq![
                    TokenRec { kind: TokRec::Indent, span: bspan(s, p0, se) },
                ]);
            }
        } else if indent < current_indent {
            let ghost nb = byte_off(s, n as int);
            let sp_start = self.byte_pos_at(self.pos - indent);
            let sp_end = self.byte_pos();
            proof {
                lemma_byte_off_mono(s, self.pos as int - indent, self.pos as int);
                lemma_byte_off_mono(s, self.pos as int, n as int);
            }
            proof {
                lemma_pop_levels(stack0, indent as int);
            }
            while self.indent_stack.len() > 1 && self.indent_stack[self.indent_stack.len() - 1]
                > indent
                invariant
                    self.wf(),
                    self.chars@ == s,
                    self.at_line_start == old(self).at_line_start,
                    self.pos == old(self).spec_pos() + indent,
                    self.pos as int <= n,
                    n == s.len(),
                    p0 == old(self).spec_pos(),
                    se == self.pos as int,
                    stack0 == stack_ints(old(self).istack()),
                    sp_start == byte_off(s, self.pos as int - indent),
                    sp_end == byte_off(s, self.pos as int),
                    span_valid(Span { start: sp_start, end: sp_end }, nb),
                    nb == byte_off(s, n as int),
                    balance(tokens@) - (self.indent_stack@.len() - 1) == balance(old(tokens)@) - (
                    old(self).istack().len() - 1),
                    old(tokens)@.is_prefix_of(tokens@),
                    forall|i: int|
                        old(tokens)@.len() <= i < tokens@.len() ==> span_valid(
                            (#[trigger] tokens@[i]).span,
                            nb,
                        ) && (tokens@[i].kind is Indent || tokens@[i].kind is Dedent),
                    pop_levels(stack0, indent as int).0 == pop_levels(
                        stack_ints(self.indent_stack@),
                        indent as int,
                    ).0,
                    pop_levels(stack0, indent as int).1 == pop_levels(
                        stack_ints(self.indent_stack@),
                        indent as int,
                    ).1 + tokens@.len() - old(tokens)@.len(),
                    token_recs(tokens@) == token_recs(old(tokens)@) + Seq::new(
                        (tokens@.len() - old(tokens)@.len()) as nat,
                        |i: int| TokenRec { kind: TokRec::Dedent, span: bspan(s, p0, se) },
                    ),
                decreases self.indent_stack@.len(),
            {
                let ghost st0 = self.indent_stack@;
                self.indent_stack.pop();
                proof {
                    assert(self.indent_stack@ =~= st0.drop_last());
                    assert(forall|i: int|
                        0 <= i < self.indent_stack@.len() ==> #[trigger] self.indent_stack@[i]
                            == st0[i]);
                }
                let ghost ts0 = tokens@;
                let tok = Token::new(TokenKind::Dedent, Span::new(sp_start, sp_end));
                proof {
                    lemma_balance_push(ts0, tok);
                    // Popping the top level moves one dedent from the pending
                    // count into the emitted tokens.
                    assert(stack_ints(st0).last() == st0.last() as int);
                    assert(stack_ints(self.indent_stack@) =~= stack_ints(st0).drop_last());
                    assert(pop_levels(stack_ints(st0), indent as int).0 == pop_levels(
                        stack_ints(self.indent_stack@),
                        indent as int,
                    ).0 && pop_levels(stack_ints(st0), indent as int).1 == pop_levels(
                        stack_ints(self.indent_stack@),
                        indent as int,
                    ).1 + 1);
                }
                tokens.push(tok);
                proof {
                    assert(old(tokens)@.is_prefix_of(tokens@)) by {
                        assert(tokens@.take(old(tokens)@.len() as int) =~= ts0.take(
                            old(tokens)@.len() as int,
                        ));
                    }
                    assert forall|i: int|
                        old(tokens)@.len() <= i < tokens@.len() implies span_valid(
                        (#[trigger] tokens@[i]).span,
                        nb,
                    ) && (tokens@[i].kind is Indent || tokens@[i].kind is Dedent) by {
                        if i < ts0.len() {
                            assert(tokens@[i] == ts0[i]);
                        } else {
                            assert(tokens@[i] == tok);
                        }
                    }
                    lemma_token_recs_push(ts0, tok);
                    assert(token_rec(tok) == TokenRec {
                        kind: TokRec::Dedent,
                        span: bspan(s, p0, se),
                    });
                    assert(token_recs(tokens@) =~= token_recs(old(tokens)@) + Seq::new(
                        (tokens@.len() - old(tokens)@.len()) as nat,
                        |i: int| TokenRec { kind: TokRec::Dedent, span: bspan(s, p0, se) },
                    ));
                }
            }
            proof {
                // The loop stopped with every level above the indent popped.
                assert(pop_levels(stack_ints(self.indent_stack@), indent as int) == (
                    stack_ints(self.indent_stack@),
                    0int,
                ));
                assert(stack_ints(self.indent_stack@).last() == self.indent_stack@.last() as int);
            }
            if self.indent_stack[self.indent_stack.len() - 1] != indent {
                return Err(
                    NmlError::lex(
                        <String as vstd::string::StringExecFns>::from_str(
                            "inconsistent indentation",
                        ),
                        Span::new(sp_start, sp_end),
                    ),
                );
            }
        } else {
            proof {
                assert(old(tokens)@.is_prefix_of(tokens@));
                assert(stack0.last() == current_indent as int);
                assert(indent as int == stack0.last());
                assert(token_recs(tokens@) =~= token_recs(old(tokens)@) + Seq::<
                    TokenRec,
                >::empty());
            }
        }
        Ok(())
    }


    /// Lexes one construct at the cursor in the middle of a line: whitespace,
    /// a comment, a literal, a reference, or punctuation, dispatching on the
    /// current character.
    #[verifier::rlimit(100)]
    fn lex_step(&mut self, tokens: &mut Vec<Token>) -> (r: Result<(), NmlError>)
        requires
            old(self).wf(),
            !old(self).line_start(),
            old(self).spec_pos() < old(self).src().len(),
        ensures
            final (self).wf(),
            final (self).src() == old(self).src(),
            final (self).istack() == old(self).istack(),
            final (self).spec_pos() <= final (self).src().len(),
            r is Ok ==> old(self).spec_pos() < final (self).spec_pos(),
            r is Ok ==> balance(final (tokens)@) == balance(old(tokens)@),
            r is Ok ==> (tokens_valid(old(tokens)@, old(self).n_bytes()) ==> tokens_valid(
                final (tokens)@,
                old(self).n_bytes(),
            )),
            r is Ok ==> lex_from(
                old(self).src(),
                LexState {
                    pos: old(self).spec_pos(),
                    stack: stack_ints(old(self).istack()),
                    line_start: false,
                    toks: token_recs(old(tokens)@),
                },
            ) == lex_from(
                old(self).src(),
                LexState {
                    pos: final (self).spec_pos(),
                    stack: stack_ints(final (self).istack()),
                    line_start: final (self).line_start(),
                    toks: token_recs(final (tokens)@),
                },
            ),
            r matches Err(e) ==> {
                &&& e is Lex
                &&& span_valid(e.spec_span(), old(self).n_bytes())
                &&& final (tokens)@ == old(tokens)@
                &&& lex_from(
                    old(self).src(),
                    LexState {
                        pos: old(self).spec_pos(),
                        stack: stack_ints(old(self).istack()),
                        line_start: false,
                        toks: token_recs(old(tokens)@),
                    },
                ) matches LexOut::Fail { message, span } && e.spec_message() == message
                    && e.spec_span() == span
            },
    {
        let ghost s = self.chars@;
        let n = self.chars.len();
        let ghost nb = byte_off(s, n as int);
        let ghost cur = LexState {
            pos: self.pos as int,
            stack: stack_ints(self.istack()),
            line_start: false,
            toks: token_recs(tokens@),
        };
        proof {
            assert(self.byte_offsets@[n as int] == byte_off(s, n as int));
        }
        let ch = self.chars[self.pos];

        if ch == ' ' || ch == '\t' {
            self.pos += 1;
            proof {
                reveal(lex_from);
                assert(lex_from(s, cur) == lex_from(s, LexState {
                    pos: self.pos as int,
                    stack: stack_ints(self.istack()),
                    line_start: self.at_line_start,
                    toks: token_recs(tokens@),
                }));
            }
        } else if ch == '\n' {
            let sp = self.punct_span();
            let ghost ts0 = tokens@;
            let tok = Token::new(TokenKind::Newline, sp);
            proof {
                lemma_balance_push(ts0, tok);
                lemma_tokens_valid_push_cond(ts0, tok, nb);
            }
            tokens.push(tok);
            self.pos += 1;
            self.at_line_start = true;
            proof {
                reveal(lex_from);
                lemma_token_recs_push(ts0, tok);
                assert(token_rec(tok) == rec(TokRec::Newline, bspan1(s, cur.pos)));
                assert(lex_from(s, cur) == lex_from(s, LexState {
                    pos: self.pos as int,
                    stack: stack_ints(self.istack()),
                    line_start: self.at_line_start,
                    toks: token_recs(tokens@),
                }));
            }
        } else if ch == '/' && n - self.pos > 1 && self.chars[self.pos + 1] == '/' {
            self.skip_comment();
            proof {
                reveal(lex_from);
                assert(lex_from(s, cur) == lex_from(s, LexState {
                    pos: self.pos as int,
                    stack: stack_ints(self.istack()),
                    line_start: self.at_line_start,
                    toks: token_recs(tokens@),
                }));
            }
        } else {
            return self.lex_step_rest(tokens);
        }
        Ok(())
    }

    /// Lexes one literal, reference, or word at the cursor; the caller has
    /// ruled out whitespace, comments, punctuation, dashes, and brackets.
    #[verifier::rlimit(100)]
    fn lex_step_rest(&mut self, tokens: &mut Vec<Token>) -> (r: Result<(), NmlError>)
        requires
            old(self).wf(),
            !old(self).line_start(),
            old(self).spec_pos() < old(self).src().len(),
            ({
                let c = old(self).src()[old(self).spec_pos()];
                &&& c != ' ' && c != '\t' && c != '\n'
                &&& !(c == '/' && old(self).spec_pos() + 1 < old(self).src().len() && old(
                    self,
                ).src()[old(self).spec_pos() + 1] == '/')
            }),
        ensures
            final (self).wf(),
            final (self).src() == old(self).src(),
            final (self).istack() == old(self).istack(),
            final (self).spec_pos() <= final (self).src().len(),
            r is Ok ==> old(self).spec_pos() < final (self).spec_pos(),
            r is Ok ==> balance(final (tokens)@) == balance(old(tokens)@),
            r is Ok ==> (tokens_valid(old(tokens)@, old(self).n_bytes()) ==> tokens_valid(
                final (tokens)@,
                old(self).n_bytes(),
            )),
            r is Ok ==> lex_from(
                old(self).src(),
                LexState {
                    pos: old(self).spec_pos(),
                    stack: stack_ints(old(self).istack()),
                    line_start: false,
                    toks: token_recs(old(tokens)@),
                },
            ) == lex_from(
                old(self).src(),
                LexState {
                    pos: final (self).spec_pos(),
                    stack: stack_ints(final (self).istack()),
                    line_start: final (self).line_start(),
                    toks: token_recs(final (tokens)@),
                },
            ),
            r matches Err(e) ==> {
                &&& e is Lex
                &&& span_valid(e.spec_span(), old(self).n_bytes())
                &&& final (tokens)@ == old(tokens)@
                &&& lex_from(
                    old(self).src(),
                    LexState {
                        pos: old(self).spec_pos(),
                        stack: stack_ints(old(self).istack()),
                        line_start: false,
                        toks: token_recs(old(tokens)@),
                    },
                ) matches LexOut::Fail { message, span } && e.spec_message() == message
                    && e.spec_span() == span
            },
    {
        let ghost s = self.chars@;
        let n = self.chars.len();
        let ghost nb = byte_off(s, n as int);
        let ghost cur = LexState {
            pos: self.pos as int,
            stack: stack_ints(self.istack()),
            line_start: false,
            toks: token_recs(tokens@),
        };
        proof {
            assert(self.byte_offsets@[n as int] == byte_off(s, n as int));
        }
        let ch = self.chars[self.pos];
        if ch == '"' {
            let multiline = n - self.pos > 2 && self.chars[self.pos + 1] == '"'
                && self.chars[self.pos + 2] == '"';
            let ghost p_before = self.spec_pos();
            let tok_res = if multiline {
                self.read_multiline_string()
            } else {
                self.read_string()
            };
            match tok_res {
                Ok(tok) => {
                    let ghost ts0 = tokens@;
                    proof {
                        lemma_byte_off_mono(s, p_before, self.spec_pos());
                        lemma_byte_off_mono(s, self.spec_pos(), n as int);
                        assert(self.byte_offsets@[n as int] == byte_off(s, n as int));
                        lemma_balance_push(ts0, tok);
                        lemma_tokens_valid_push_cond(ts0, tok, nb);
                    }
                    tokens.push(tok);
                    proof {
                        reveal(lex_from);
                        lemma_token_recs_push(ts0, tok);
                        if multiline {
                            if let StringScan::Closed { content, end } = scan_multiline(
                                s,
                                cur.pos + 3,
                            ) {
                                assert(token_rec(tok) == rec(
                                    TokRec::StrLit(dedent_spec(content)),
                                    bspan(s, cur.pos, end),
                                ));
                            }
                        } else {
                            if let StringScan::Closed { content, end } = scan_string(
                                s,
                                cur.pos + 1,
                            ) {
                                assert(token_rec(tok) == rec(
                                    TokRec::StrLit(content),
                                    bspan(s, cur.pos, end),
                                ));
                            }
                        }
                        assert(lex_from(s, cur) == lex_from(s, LexState {
                    pos: self.pos as int,
                    stack: stack_ints(self.istack()),
                    line_start: self.at_line_start,
                    toks: token_recs(tokens@),
                }));
                    }
                },
                Err(e) => {
                    proof {
                        reveal(lex_from);
                    }
                    return Err(e);
                },
            }
        } else if ch == ':' || ch == '=' || ch == '|' || ch == '.' || ch == ']' || ch == ','
            || ch == '?' {
            let sp = self.punct_span();
            let kind = if ch == ':' {
                TokenKind::Colon
            } else if ch == '=' {
                TokenKind::Equals
            } else if ch == '|' {
                TokenKind::Pipe
            } else if ch == '.' {
                TokenKind::Dot
            } else if ch == ']' {
                TokenKind::BracketClose
            } else if ch == ',' {
                TokenKind::Comma
            } else {
                TokenKind::Question
            };
            let ghost ts0 = tokens@;
            let tok = Token::new(kind, sp);
            proof {
                lemma_balance_push(ts0, tok);
                lemma_tokens_valid_push_cond(ts0, tok, nb);
            }
            tokens.push(tok);
            self.pos += 1;
            proof {
                reveal(lex_from);
                lemma_token_recs_push(ts0, tok);
                assert(token_rec(tok) == rec(
                    if ch == ':' {
                        TokRec::Colon
                    } else if ch == '=' {
                        TokRec::Equals
                    } else if ch == '|' {
                        TokRec::Pipe
                    } else if ch == '.' {
                        TokRec::Dot
                    } else if ch == ']' {
                        TokRec::BracketClose
                    } else if ch == ',' {
                        TokRec::Comma
                    } else {
                        TokRec::Question
                    },
                    bspan1(s, cur.pos),
                ));
                assert(lex_from(s, cur) == lex_from(s, LexState {
                    pos: self.pos as int,
                    stack: stack_ints(self.istack()),
                    line_start: self.at_line_start,
                    toks: token_recs(tokens@),
                }));
            }
        } else if ch == '-' {
            let neg_number = n - self.pos > 1 && is_ascii_digit_ch(self.chars[self.pos + 1])
                && prev_allows_negative(&tokens);
            proof {
                lemma_prev_allows_negative_recs(tokens@);
            }
            if neg_number {
                let ghost p_before = self.spec_pos();
                match self.read_number() {
                    Ok(tok) => {
                        let ghost ts0 = tokens@;
                        proof {
                            lemma_byte_off_mono(s, p_before, self.spec_pos());
                            lemma_byte_off_mono(s, self.spec_pos(), n as int);
                            assert(self.byte_offsets@[n as int] == byte_off(s, n as int));
                            lemma_balance_push(ts0, tok);
                            lemma_tokens_valid_push_cond(ts0, tok, nb);
                        }
                        tokens.push(tok);
                        proof {
                            reveal(lex_from);
                            lemma_token_recs_push(ts0, tok);
                            assert(token_rec(tok) == rec(
                                TokRec::NumLit(
                                    s.subrange(cur.pos, number_end(s, cur.pos)),
                                ),
                                bspan(s, cur.pos, number_end(s, cur.pos)),
                            ));
                            assert(lex_from(s, cur) == lex_from(s, LexState {
                    pos: self.pos as int,
                    stack: stack_ints(self.istack()),
                    line_start: self.at_line_start,
                    toks: token_recs(tokens@),
                }));
                        }
                    },
                    Err(e) => {
                        return Err(e);
                    },
                }
            } else {
                let sp = self.punct_span();
                let ghost ts0 = tokens@;
                let tok = Token::new(TokenKind::Dash, sp);
                proof {
                    lemma_balance_push(ts0, tok);
                    lemma_tokens_valid_push_cond(ts0, tok, nb);
                }
                tokens.push(tok);
                self.pos += 1;
                proof {
                    reveal(lex_from);
                    lemma_token_recs_push(ts0, tok);
                    assert(token_rec(tok) == rec(TokRec::Dash, bspan1(s, cur.pos)));
                    assert(lex_from(s, cur) == lex_from(s, LexState {
                    pos: self.pos as int,
                    stack: stack_ints(self.istack()),
                    line_start: self.at_line_start,
                    toks: token_recs(tokens@),
                }));
                }
            }
        } else if ch == '[' {
            if n - self.pos > 1 && self.chars[self.pos + 1] == ']' {
                let sigil = n - self.pos > 2 && {
                    let after = self.chars[self.pos + 2];
                    is_alphabetic_ch(after) || after == '_'
                };
                if sigil {
                    proof {
                        lemma_byte_off_mono(s, self.pos as int, self.pos + 2);
                        lemma_byte_off_mono(s, self.pos + 2, n as int);
                    }
                    let sp_start = self.byte_pos();
                    let sp_end = self.byte_pos_at(self.pos + 2);
                    let ghost ts0 = tokens@;
                    let tok = Token::new(TokenKind::ArrayPrefix, Span::new(sp_start, sp_end));
                    proof {
                        lemma_balance_push(ts0, tok);
                        lemma_tokens_valid_push_cond(ts0, tok, nb);
                    }
                    tokens.push(tok);
                    self.pos += 2;
                    proof {
                        reveal(lex_from);
                        lemma_token_recs_push(ts0, tok);
                        assert(token_rec(tok) == rec(
                            TokRec::ArrayPrefix,
                            bspan(s, cur.pos, cur.pos + 2),
                        ));
                        assert(lex_from(s, cur) == lex_from(s, LexState {
                    pos: self.pos as int,
                    stack: stack_ints(self.istack()),
                    line_start: self.at_line_start,
                    toks: token_recs(tokens@),
                }));
                    }
                } else {
                    let sp = self.punct_span();
                    let ghost ts0 = tokens@;
                    let tok = Token::new(TokenKind::BracketOpen, sp);
                    proof {
                        lemma_balance_push(ts0, tok);
                        lemma_tokens_valid_push_cond(ts0, tok, nb);
                    }
                    tokens.push(tok);
                    self.pos += 1;
                    let sp2 = self.punct_span();
                    let ghost ts1 = tokens@;
                    let tok2 = Token::new(TokenKind::BracketClose, sp2);
                    proof {
                        lemma_balance_push(ts1, tok2);
                        lemma_tokens_valid_push_cond(ts1, tok2, nb);
                    }
                    tokens.push(tok2);
                    self.pos += 1;
                    proof {
                        reveal(lex_from);
                        lemma_token_recs_push(ts0, tok);
                        lemma_token_recs_push(ts1, tok2);
                        assert(token_rec(tok) == rec(TokRec::BracketOpen, bspan1(s, cur.pos)));
                        assert(token_rec(tok2) == rec(
                            TokRec::BracketClose,
                            bspan1(s, cur.pos + 1),
                        ));
                        assert(token_recs(tokens@) == cur.toks.push(
                            rec(TokRec::BracketOpen, bspan1(s, cur.pos)),
                        ).push(rec(TokRec::BracketClose, bspan1(s, cur.pos + 1))));
                        assert(lex_from(s, cur) == lex_from(s, LexState {
                    pos: self.pos as int,
                    stack: stack_ints(self.istack()),
                    line_start: self.at_line_start,
                    toks: token_recs(tokens@),
                }));
                    }
                }
            } else {
                let sp = self.punct_span();
                let ghost ts0 = tokens@;
                let tok = Token::new(TokenKind::BracketOpen, sp);
                proof {
                    lemma_balance_push(ts0, tok);
                    lemma_tokens_valid_push_cond(ts0, tok, nb);
                }
                tokens.push(tok);
                self.pos += 1;
                proof {
                    reveal(lex_from);
                    lemma_token_recs_push(ts0, tok);
                    assert(token_rec(tok) == rec(TokRec::BracketOpen, bspan1(s, cur.pos)));
                    assert(lex_from(s, cur) == lex_from(s, LexState {
                    pos: self.pos as int,
                    stack: stack_ints(self.istack()),
                    line_start: self.at_line_start,
                    toks: token_recs(tokens@),
                }));
                }
            }
        } else {
            return self.lex_step_word(tokens);
        }
        Ok(())
    }

    /// Lexes a role reference, a secret reference, a number, or a word at the
    /// cursor; the caller has ruled out everything else.
    #[verifier::rlimit(100)]
    fn lex_step_word(&mut self, tokens: &mut Vec<Token>) -> (r: Result<(), NmlError>)
        requires
            old(self).wf(),
            !old(self).line_start(),
            old(self).spec_pos() < old(self).src().len(),
            ({
                let c = old(self).src()[old(self).spec_pos()];
                &&& c != ' ' && c != '\t' && c != '\n' && c != '"'
                &&& !(c == '/' && old(self).spec_pos() + 1 < old(self).src().len() && old(
                    self,
                ).src()[old(self).spec_pos() + 1] == '/')
                &&& c != ':' && c != '=' && c != '|' && c != '.' && c != ']' && c != ',' && c
                    != '?' && c != '-' && c != '['
            }),
        ensures
            final (self).wf(),
            final (self).src() == old(self).src(),
            final (self).istack() == old(self).istack(),
            final (self).spec_pos() <= final (self).src().len(),
            r is Ok ==> old(self).spec_pos() < final (self).spec_pos(),
            r is Ok ==> balance(final (tokens)@) == balance(old(tokens)@),
            r is Ok ==> (tokens_valid(old(tokens)@, old(self).n_bytes()) ==> tokens_valid(
                final (tokens)@,
                old(self).n_bytes(),
            )),
            r is Ok ==> lex_from(
                old(self).src(),
                LexState {
                    pos: old(self).spec_pos(),
                    stack: stack_ints(old(self).istack()),
                    line_start: false,
                    toks: token_recs(old(tokens)@),
                },
            ) == lex_from(
                old(self).src(),
                LexState {
                    pos: final (self).spec_pos(),
                    stack: stack_ints(final (self).istack()),
                    line_start: final (self).line_start(),
                    toks: token_recs(final (tokens)@),
                },
            ),
            r matches Err(e) ==> {
                &&& e is Lex
                &&& span_valid(e.spec_span(), old(self).n_bytes())
                &&& final (tokens)@ == old(tokens)@
                &&& lex_from(
                    old(self).src(),
                    LexState {
                        pos: old(self).spec_pos(),
                        stack: stack_ints(old(self).istack()),
                        line_start: false,
                        toks: token_recs(old(tokens)@),
                    },
                ) matches LexOut::Fail { message, span } && e.spec_message() == message
                    && e.spec_span() == span
            },
    {
        let ghost s = self.chars@;
        let n = self.chars.len();
        let ghost nb = byte_off(s, n as int);
        let ghost cur = LexState {
            pos: self.pos as int,
            stack: stack_ints(self.istack()),
            line_start: false,
            toks: token_recs(tokens@),
        };
        proof {
            assert(self.byte_offsets@[n as int] == byte_off(s, n as int));
        }
        let ch = self.chars[self.pos];
        if ch == '@' {
            let ghost p_before = self.spec_pos();
            let tok = self.read_role_ref();
            let ghost ts0 = tokens@;
            proof {
                lemma_byte_off_mono(s, p_before, self.spec_pos());
                lemma_byte_off_mono(s, self.spec_pos(), n as int);
                assert(self.byte_offsets@[n as int] == byte_off(s, n as int));
                lemma_balance_push(ts0, tok);
                lemma_tokens_valid_push_cond(ts0, tok, nb);
            }
            tokens.push(tok);
            proof {
                reveal(lex_from);
                lemma_token_recs_push(ts0, tok);
                let re = role_run_end(s, cur.pos + 1);
                let strip = re > cur.pos + 1 && s[re - 1] == ':' && (re == n || s[re] == '\n'
                    || s[re] == ' ' || s[re] == '\t');
                let p1 = if strip {
                    re - 1
                } else {
                    re
                };
                assert(token_rec(tok) == rec(
                    TokRec::Role(s.subrange(cur.pos, p1)),
                    bspan(s, cur.pos, p1),
                ));
                assert(lex_from(s, cur) == lex_from(s, LexState {
                    pos: self.pos as int,
                    stack: stack_ints(self.istack()),
                    line_start: self.at_line_start,
                    toks: token_recs(tokens@),
                }));
            }
        } else if ch == '$' {
            let ghost p_before = self.spec_pos();
            match self.read_secret_ref() {
                Ok(tok) => {
                    let ghost ts0 = tokens@;
                    proof {
                        lemma_byte_off_mono(s, p_before, self.spec_pos());
                        lemma_byte_off_mono(s, self.spec_pos(), n as int);
                        assert(self.byte_offsets@[n as int] == byte_off(s, n as int));
                        lemma_balance_push(ts0, tok);
                        lemma_tokens_valid_push_cond(ts0, tok, nb);
                    }
                    tokens.push(tok);
                    proof {
                        reveal(lex_from);
                        lemma_token_recs_push(ts0, tok);
                        let p1 = secret_run_end(s, cur.pos + 5);
                        assert(token_rec(tok) == rec(
                            TokRec::Secret(s.subrange(cur.pos, p1)),
                            bspan(s, cur.pos, p1),
                        ));
                        assert(lex_from(s, cur) == lex_from(s, LexState {
                    pos: self.pos as int,
                    stack: stack_ints(self.istack()),
                    line_start: self.at_line_start,
                    toks: token_recs(tokens@),
                }));
                    }
                },
                Err(e) => {
                    proof {
                        reveal(lex_from);
                        if cur.pos + 5 <= n {
                            lemma_secret_run_end(s, cur.pos + 5);
                        }
                    }
                    return Err(e);
                },
            }
        } else if is_ascii_digit_ch(ch) {
            let ghost p_before = self.spec_pos();
            match self.read_number() {
                Ok(tok) => {
                    let ghost ts0 = tokens@;
                    proof {
                        lemma_byte_off_mono(s, p_before, self.spec_pos());
                        lemma_byte_off_mono(s, self.spec_pos(), n as int);
                        assert(self.byte_offsets@[n as int] == byte_off(s, n as int));
                        lemma_balance_push(ts0, tok);
                        lemma_tokens_valid_push_cond(ts0, tok, nb);
                    }
                    tokens.push(tok);
                    proof {
                        reveal(lex_from);
                        lemma_token_recs_push(ts0, tok);
                        assert(token_rec(tok) == rec(
                            TokRec::NumLit(s.subrange(cur.pos, number_end(s, cur.pos))),
                            bspan(s, cur.pos, number_end(s, cur.pos)),
                        ));
                        assert(lex_from(s, cur) == lex_from(s, LexState {
                    pos: self.pos as int,
                    stack: stack_ints(self.istack()),
                    line_start: self.at_line_start,
                    toks: token_recs(tokens@),
                }));
                    }
                },
                Err(e) => {
                    return Err(e);
                },
            }
        } else if is_alphabetic_ch(ch) || ch == '_' {
            let ghost p_before = self.spec_pos();
            let tok = self.read_identifier_or_keyword();
            let ghost ts0 = tokens@;
            proof {
                lemma_byte_off_mono(s, p_before, self.spec_pos());
                lemma_byte_off_mono(s, self.spec_pos(), n as int);
                assert(self.byte_offsets@[n as int] == byte_off(s, n as int));
                lemma_balance_push(ts0, tok);
                lemma_tokens_valid_push_cond(ts0, tok, nb);
            }
            tokens.push(tok);
            proof {
                lemma_token_recs_push(ts0, tok);
                let we = word_run_end(s, cur.pos);
                let w = s.subrange(cur.pos, we);
                assert(cur.pos == p_before);
                assert(we == self.spec_pos());
                assert(we > cur.pos);
                reveal_strlit("true");
                reveal_strlit("false");
                assert("true"@ != "false"@) by {
                    assert("true"@.len() == 4 && "false"@.len() == 5);
                }
                reveal(lex_from);
                assert(token_rec(tok) == rec(
                    if w == "true"@ {
                        TokRec::BoolLit(true)
                    } else if w == "false"@ {
                        TokRec::BoolLit(false)
                    } else if is_currency_shape(w) {
                        TokRec::Currency(w)
                    } else {
                        TokRec::Ident(w)
                    },
                    bspan(s, cur.pos, we),
                ));
                assert(lex_from(s, cur) == lex_from(s, LexState {
                    pos: self.pos as int,
                    stack: stack_ints(self.istack()),
                    line_start: self.at_line_start,
                    toks: token_recs(tokens@),
                }));
            }
        } else {
            let sp = self.punct_span();
            let mut msg = <String as vstd::string::StringExecFns>::from_str(
                "unexpected character: '",
            );
            crate::text::push_char(&mut msg, ch);
            vstd::string::StringExecFns::append(&mut msg, "'");
            proof {
                reveal(lex_from);
                assert(msg@ =~= "unexpected character: '"@ + seq![ch] + "'"@);
            }
            return Err(NmlError::lex(msg, sp));
        }
        Ok(())
    }

    /// Tokenizes the whole source. Over a full tokenization the number of
    /// `Indent` tokens emitted equals the number of `Dedent` tokens: the
    /// indent stack is balanced back down to its base before `Eof`.
    #[verifier::rlimit(100)]
    #[verifier::spinoff_prover]
    pub fn tokenize(&mut self) -> (r: NmlResult<Vec<Token>>)
        requires
            old(self).wf(),
            old(self).at_base_indent(),
            old(self).spec_pos() == 0,
            old(self).line_start(),
        ensures
            final (self).wf(),
            r matches Ok(tokens) ==> {
                &&& tokens@.len() > 0
                &&& tokens@.last().kind is Eof
                &&& balance(tokens@) == 0
                &&& tokens_valid(tokens@, old(self).n_bytes())
            },
            r matches Err(e) ==> e is Lex && span_valid(e.spec_span(), old(self).n_bytes()),
            ({
                let out = lex_spec(old(self).src());
                match r {
                    Ok(tokens) => out matches LexOut::Done(recs) && token_recs(tokens@) == recs,
                    Err(e) => out matches LexOut::Fail { message, span } && e.spec_message()
                        == message && e.spec_span() == span,
                }
            }),
    {
        let mut tokens: Vec<Token> = Vec::new();
        let ghost s = self.chars@;
        let n = self.chars.len();
        let ghost nb = byte_off(s, n as int);
        proof {
            assert(stack_ints(self.istack()) =~= seq![0int]);
            assert(token_recs(tokens@) =~= Seq::<TokenRec>::empty());
            assert(LexState {
                pos: self.pos as int,
                stack: stack_ints(self.istack()),
                line_start: self.at_line_start,
                toks: token_recs(tokens@),
            } == LexState { pos: 0, stack: seq![0int], line_start: true, toks: Seq::empty() });
        }

        loop
            invariant
                self.wf(),
                self.chars@ == s,
                s == old(self).src(),
                n == s.len(),
                nb == byte_off(s, n as int),
                nb == old(self).n_bytes(),
                self.pos as int <= n,
                balance(tokens@) == self.istack().len() - 1,
                tokens_valid(tokens@, nb),
                lex_spec(s) == lex_from(
                    s,
                    LexState {
                        pos: self.pos as int,
                        stack: stack_ints(self.istack()),
                        line_start: self.at_line_start,
                        toks: token_recs(tokens@),
                    },
                ),
            decreases n - self.pos, (if self.at_line_start {
                1int
            } else {
                0int
            }),
        {
            let ghost cur = LexState {
                pos: self.pos as int,
                stack: stack_ints(self.istack()),
                line_start: self.at_line_start,
                toks: token_recs(tokens@),
            };
            if self.pos >= n {
                // Close every open indentation level, then emit Eof.
                let ghost stack_len0 = self.indent_stack@.len();
                while self.indent_stack.len() > 1
                    invariant
                        self.wf(),
                        self.chars@ == s,
                        n == s.len(),
                        nb == byte_off(s, n as int),
                        self.pos as int <= n,
                        self.pos >= n,
                        balance(tokens@) == self.istack().len() - 1,
                        tokens_valid(tokens@, nb),
                        1 <= self.indent_stack@.len() <= stack_len0,
                        cur.toks.len() <= token_recs(tokens@).len(),
                        token_recs(tokens@) == cur.toks + Seq::new(
                            (stack_len0 - self.indent_stack@.len()) as nat,
                            |i: int| rec(TokRec::Dedent, bpoint(s, n as int)),
                        ),
                    decreases self.indent_stack@.len(),
                {
                    let ghost st0 = self.indent_stack@;
                    self.indent_stack.pop();
                    proof {
                        assert(self.indent_stack@ =~= st0.drop_last());
                        assert(forall|i: int|
                            0 <= i < self.indent_stack@.len() ==> #[trigger] self.indent_stack@[i]
                                == st0[i]);
                        lemma_byte_off_mono(s, self.pos as int, n as int);
                    }
                    let bp = self.byte_pos();
                    let ghost ts0 = tokens@;
                    let tok = Token::new(TokenKind::Dedent, Span::empty(bp));
                    proof {
                        lemma_balance_push(ts0, tok);
                        lemma_tokens_valid_push(ts0, tok, nb);
                        lemma_token_recs_push(ts0, tok);
                        assert(self.pos as int == n as int);
                        assert(token_rec(tok) == rec(TokRec::Dedent, bpoint(s, n as int)));
                    }
                    tokens.push(tok);
                    proof {
                        assert(token_recs(tokens@) =~= cur.toks + Seq::new(
                            (stack_len0 - self.indent_stack@.len()) as nat,
                            |i: int| rec(TokRec::Dedent, bpoint(s, n as int)),
                        ));
                    }
                }
                proof {
                    lemma_byte_off_mono(s, self.pos as int, n as int);
                }
                let bp = self.byte_pos();
                let ghost ts0 = tokens@;
                let tok = Token::new(TokenKind::Eof, Span::empty(bp));
                proof {
                    lemma_balance_push(ts0, tok);
                    lemma_tokens_valid_push(ts0, tok, nb);
                    lemma_token_recs_push(ts0, tok);
                    assert(self.pos as int == n as int);
                    assert(token_rec(tok) == rec(TokRec::Eof, bpoint(s, n as int)));
                }
                tokens.push(tok);
                proof {
                    reveal(lex_from);
                    assert(cur.stack.len() == stack_len0);
                    assert(token_recs(tokens@) =~= cur.toks + Seq::new(
                        (stack_len0 - 1) as nat,
                        |i: int| rec(TokRec::Dedent, bpoint(s, n as int)),
                    ) + seq![rec(TokRec::Eof, bpoint(s, n as int))]);
                    assert(lex_from(s, cur) == LexOut::Done(token_recs(tokens@)));
                }
                return Ok(tokens);
            }

            if self.at_line_start {
                let ghost ts_before = tokens@;
                match self.handle_indentation(&mut tokens) {
                    Ok(()) => {},
                    Err(e) => {
                        proof {
                            reveal(lex_from);
                            match indentation_step(s, cur.pos, cur.stack) {
                                IndentOut::Step { pos, stack, emitted } => {
                                    assert(false);
                                },
                                IndentOut::Bad { span } => {
                                    assert(lex_from(s, cur) == LexOut::Fail {
                                        message: "inconsistent indentation"@,
                                        span,
                                    });
                                },
                            }
                        }
                        return Err(e);
                    },
                }
                proof {
                    assert forall|i: int| 0 <= i < tokens@.len() implies span_valid(
                        (#[trigger] tokens@[i]).span,
                        nb,
                    ) by {
                        if i < ts_before.len() {
                            assert(tokens@.take(ts_before.len() as int)[i] == tokens@[i]);
                            assert(tokens@[i] == ts_before[i]);
                        }
                    }
                }
                self.at_line_start = false;
                proof {
                    reveal(lex_from);
                    match indentation_step(s, cur.pos, cur.stack) {
                        IndentOut::Step { pos, stack, emitted } => {
                            assert(lex_from(s, cur) == lex_from(
                                s,
                                LexState {
                                    pos,
                                    stack,
                                    line_start: false,
                                    toks: cur.toks + emitted,
                                },
                            ));
                        },
                        IndentOut::Bad { span } => {
                            assert(false);
                        },
                    }
                }
                continue ;
            }

            match self.lex_step(&mut tokens) {
                Ok(()) => {
                    proof {
                        assert(balance(tokens@) == self.istack().len() - 1);
                    }
                },
                Err(e) => {
                    return Err(e);
                },
            }
        }
    }
}

/// A token as plain values: the kind with its text, and the byte span.
pub enum TokRec {
    Indent,
    Dedent,
    Newline,
    Eof,
    StrLit(Seq<char>),
    NumLit(Seq<char>),
    BoolLit(bool),
    Ident(Seq<char>),
    Role(Seq<char>),
    Secret(Seq<char>),
    Currency(Seq<char>),
    Colon,
    Equals,
    Dash,
    Pipe,
    Dot,
    BracketOpen,
    BracketClose,
    ArrayPrefix,
    Comma,
    Question,
}

pub struct TokenRec {
    pub kind: TokRec,
    pub span: Span,
}

/// The record of an emitted token.
pub open spec fn token_rec(t: Token) -> TokenRec {
    TokenRec {
        kind: match t.kind {
            TokenKind::Indent => TokRec::Indent,
            TokenKind::Dedent => TokRec::Dedent,
            TokenKind::Newline => TokRec::Newline,
            TokenKind::Eof => TokRec::Eof,
            TokenKind::StringLiteral(v) => TokRec::StrLit(v@),
            TokenKind::NumberLiteral(v) => TokRec::NumLit(v@),
            TokenKind::BoolLiteral(b) => TokRec::BoolLit(b),
            TokenKind::Identifier(v) => TokRec::Ident(v@),
            TokenKind::RoleRef(v) => TokRec::Role(v@),
            TokenKind::SecretRef(v) => TokRec::Secret(v@),
            TokenKind::CurrencyCode(v) => TokRec::Currency(v@),
            TokenKind::Colon => TokRec::Colon,
            TokenKind::Equals => TokRec::Equals,
            TokenKind::Dash => TokRec::Dash,
            TokenKind::Pipe => TokRec::Pipe,
            TokenKind::Dot => TokRec::Dot,
            TokenKind::BracketOpen => TokRec::BracketOpen,
            TokenKind::BracketClose => TokRec::BracketClose,
            TokenKind::ArrayPrefix => TokRec::ArrayPrefix,
            TokenKind::Comma => TokRec::Comma,
            TokenKind::Question => TokRec::Question,
        },
        span: t.span,
    }
}

pub open spec fn token_recs(ts: Seq<Token>) -> Seq<TokenRec> {
    ts.map_values(|t: Token| token_rec(t))
}

proof fn lemma_token_recs_push(ts: Seq<Token>, t: Token)
    ensures
        token_recs(ts.push(t)) =~= token_recs(ts).push(token_rec(t)),
{
}

/// The dash rule over token records: the nearest preceding token that is not
/// a newline or an indent opens a value position.
pub open spec fn prev_allows_negative_recs(ts: Seq<TokenRec>) -> bool
    decreases ts.len(),
{
    if ts.len() == 0 {
        false
    } else if ts.last().kind is Newline || ts.last().kind is Indent {
        prev_allows_negative_recs(ts.drop_last())
    } else {
        ts.last().kind is Equals || ts.last().kind is BracketOpen || ts.last().kind is Comma
    }
}

proof fn lemma_prev_allows_negative_recs(ts: Seq<Token>)
    ensures
        prev_allows_negative_spec(ts) == prev_allows_negative_recs(token_recs(ts)),
    decreases ts.len(),
{
    if ts.len() > 0 {
        assert(token_recs(ts).drop_last() =~= token_recs(ts.drop_last()));
        assert(token_recs(ts).last() == token_rec(ts.last()));
        lemma_prev_allows_negative_recs(ts.drop_last());
    }
}

/// The end of the run of space characters starting at `i`.
pub open spec fn space_run_end(s: Seq<char>, i: int) -> int
    decreases s.len() - i,
{
    if i < 0 || i >= s.len() {
        i
    } else if s[i] == ' ' {
        space_run_end(s, i + 1)
    } else {
        i
    }
}

pub proof fn lemma_space_run_end(s: Seq<char>, i: int)
    requires
        0 <= i <= s.len(),
    ensures
        i <= space_run_end(s, i) <= s.len(),
        forall|k: int| i <= k < space_run_end(s, i) ==> s[k] == ' ',
        space_run_end(s, i) < s.len() ==> s[space_run_end(s, i)] != ' ',
    decreases s.len() - i,
{
    if i < s.len() && s[i] == ' ' {
        lemma_space_run_end(s, i + 1);
    }
}

/// The position of the next newline at or after `i`, or the end of input.
pub open spec fn line_end(s: Seq<char>, i: int) -> int
    decreases s.len() - i,
{
    if i < 0 || i >= s.len() {
        i
    } else if s[i] != '\n' {
        line_end(s, i + 1)
    } else {
        i
    }
}

pub proof fn lemma_line_end(s: Seq<char>, i: int)
    requires
        0 <= i <= s.len(),
    ensures
        i <= line_end(s, i) <= s.len(),
        forall|k: int| i <= k < line_end(s, i) ==> s[k] != '\n',
        line_end(s, i) < s.len() ==> s[line_end(s, i)] == '\n',
    decreases s.len() - i,
{
    if i < s.len() && s[i] != '\n' {
        lemma_line_end(s, i + 1);
    }
}

/// A closed string scan ends past where it began and within the input.
pub proof fn lemma_scan_string_bounds(s: Seq<char>, i: int)
    requires
        0 <= i,
    ensures
        scan_string(s, i) matches StringScan::Closed { content, end } ==> i < end <= s.len(),
    decreases s.len() - i,
{
    if i < s.len() && s[i] != '"' && s[i] != '\n' {
        if s[i] == '\\' {
            if i + 1 < s.len() && is_escape_char(s[i + 1]) {
                lemma_scan_string_bounds(s, i + 2);
            }
        } else {
            lemma_scan_string_bounds(s, i + 1);
        }
    }
}

/// A closed multiline scan ends past where it began and within the input.
pub proof fn lemma_scan_multiline_bounds(s: Seq<char>, i: int)
    requires
        0 <= i,
    ensures
        scan_multiline(s, i) matches StringScan::Closed { content, end } ==> i < end <= s.len(),
    decreases s.len() - i,
{
    if i < s.len() {
        let terminator = s[i] == '"' && i + 2 < s.len() && s[i + 1] == '"' && s[i + 2] == '"';
        if !terminator {
            if s[i] == '\\' {
                if i + 1 < s.len() && is_escape_char(s[i + 1]) {
                    lemma_scan_multiline_bounds(s, i + 2);
                }
            } else {
                lemma_scan_multiline_bounds(s, i + 1);
            }
        }
    }
}

/// Pops every indentation level above `indent`: the remaining stack and the
/// number of levels popped.
pub open spec fn pop_levels(stack: Seq<int>, indent: int) -> (Seq<int>, int)
    decreases stack.len(),
{
    if stack.len() <= 1 || stack.last() <= indent {
        (stack, 0)
    } else {
        let r = pop_levels(stack.drop_last(), indent);
        (r.0, r.1 + 1)
    }
}

pub proof fn lemma_pop_levels(stack: Seq<int>, indent: int)
    requires
        stack.len() >= 1,
    ensures
        pop_levels(stack, indent).0.len() >= 1,
        pop_levels(stack, indent).1 >= 0,
        pop_levels(stack, indent).0.len() + pop_levels(stack, indent).1 == stack.len(),
    decreases stack.len(),
{
    if !(stack.len() <= 1 || stack.last() <= indent) {
        lemma_pop_levels(stack.drop_last(), indent);
    }
}

/// The indentation stack as mathematical integers.
pub open spec fn stack_ints(st: Seq<usize>) -> Seq<int> {
    st.map_values(|x: usize| x as int)
}

/// The byte span of the character range `[a, b)`.
pub open spec fn bspan(s: Seq<char>, a: int, b: int) -> Span {
    Span { start: byte_off(s, a) as usize, end: byte_off(s, b) as usize }
}

/// The byte span of the single one-byte character at `a`.
pub open spec fn bspan1(s: Seq<char>, a: int) -> Span {
    Span { start: byte_off(s, a) as usize, end: (byte_off(s, a) + 1) as usize }
}

/// The zero-width span at character position `a`.
pub open spec fn bpoint(s: Seq<char>, a: int) -> Span {
    Span { start: byte_off(s, a) as usize, end: byte_off(s, a) as usize }
}

/// The effect of handling indentation at the start of a logical line: blank
/// and comment-only lines are skipped; a larger indent pushes a level and
/// emits one `Indent`; a smaller indent pops levels emitting one `Dedent`
/// each, and fails when no popped level matches exactly.
pub enum IndentOut {
    Step { pos: int, stack: Seq<int>, emitted: Seq<TokenRec> },
    Bad { span: Span },
}

pub open spec fn indentation_step(s: Seq<char>, p0: int, stack: Seq<int>) -> IndentOut {
    let n = s.len() as int;
    let se = space_run_end(s, p0);
    let indent = se - p0;
    if se >= n || s[se] == '\n' || (s[se] == '/' && se + 1 < n && s[se + 1] == '/') {
        IndentOut::Step {
            pos: if se < n && s[se] != '\n' {
                line_end(s, se)
            } else {
                se
            },
            stack,
            emitted: Seq::empty(),
        }
    } else {
        let cur = stack.last();
        if indent > cur {
            IndentOut::Step {
                pos: se,
                stack: stack.push(indent),
                emitted: seq![TokenRec { kind: TokRec::Indent, span: bspan(s, p0, se) }],
            }
        } else if indent < cur {
            let popped = pop_levels(stack, indent);
            if popped.0.last() == indent {
                IndentOut::Step {
                    pos: se,
                    stack: popped.0,
                    emitted: Seq::new(
                        popped.1 as nat,
                        |i: int| TokenRec { kind: TokRec::Dedent, span: bspan(s, p0, se) },
                    ),
                }
            } else {
                IndentOut::Bad { span: bspan(s, p0, se) }
            }
        } else {
            IndentOut::Step { pos: se, stack, emitted: Seq::empty() }
        }
    }
}

/// An indentation step never moves the cursor backwards or past the end.
pub proof fn lemma_indentation_step_bounds(s: Seq<char>, p0: int, stack: Seq<int>)
    requires
        0 <= p0 <= s.len(),
    ensures
        indentation_step(s, p0, stack) matches IndentOut::Step { pos, stack, emitted } ==> p0
            <= pos <= s.len(),
{
    lemma_space_run_end(s, p0);
    let se = space_run_end(s, p0);
    if se < s.len() {
        lemma_line_end(s, se);
    }
}

/// A number literal that begins with a digit, or a minus sign before a
/// digit, ends strictly past where it began and within the input.
pub proof fn lemma_number_end(s: Seq<char>, i: int)
    requires
        0 <= i < s.len(),
        is_digit(s[i]) || (s[i] == '-' && i + 1 < s.len() && is_digit(s[i + 1])),
    ensures
        i < number_end(s, i) <= s.len(),
{
    let start = if s[i] == '-' {
        i + 1
    } else {
        i
    };
    lemma_digit_run_end(s, start);
    let d1 = digit_run_end(s, start);
    assert(d1 > start || !(start < s.len() && is_digit(s[start])));
    if d1 < s.len() && s[d1] == '.' {
        lemma_digit_run_end(s, d1 + 1);
    }
}

/// The lexer's abstract state: the cursor, the indentation stack, whether a
/// logical line is starting, and the tokens emitted so far.
pub struct LexState {
    pub pos: int,
    pub stack: Seq<int>,
    pub line_start: bool,
    pub toks: Seq<TokenRec>,
}

/// The outcome of tokenizing: the full token list, or the first lexical
/// error's message and span.
pub enum LexOut {
    Done(Seq<TokenRec>),
    Fail { message: Seq<char>, span: Span },
}

/// One token record.
pub open spec fn rec(kind: TokRec, span: Span) -> TokenRec {
    TokenRec { kind, span }
}

/// The lexer, as a function: from a state, consume the rest of the source and
/// return every remaining token appended to the state's list, or the first
/// error. Mirrors spec-level scans for strings, numbers, words, role and
/// secret references, the dash/negative-number rule over the emitted tokens,
/// the array-sigil rule, and the indentation algorithm.
#[verifier::opaque]
pub open spec fn lex_from(s: Seq<char>, st: LexState) -> LexOut
    decreases s.len() - st.pos, (if st.line_start {
        1int
    } else {
        0int
    }),
    via lex_from_decreases
{
    let n = s.len() as int;
    if st.pos < 0 || st.pos > n {
        LexOut::Fail { message: Seq::empty(), span: Span { start: 0, end: 0 } }
    } else if st.pos == n {
        LexOut::Done(
            st.toks + Seq::new(
                (if st.stack.len() >= 1 {
                    st.stack.len() - 1
                } else {
                    0
                }) as nat,
                |i: int| rec(TokRec::Dedent, bpoint(s, n)),
            ) + seq![rec(TokRec::Eof, bpoint(s, n))],
        )
    } else if st.line_start {
        match indentation_step(s, st.pos, st.stack) {
            IndentOut::Step { pos, stack, emitted } => lex_from(
                s,
                LexState { pos, stack, line_start: false, toks: st.toks + emitted },
            ),
            IndentOut::Bad { span } => LexOut::Fail {
                message: "inconsistent indentation"@,
                span,
            },
        }
    } else {
        let p = st.pos;
        let c = s[p];
        if c == ' ' || c == '\t' {
            lex_from(s, LexState { pos: p + 1, ..st })
        } else if c == '\n' {
            lex_from(
                s,
                LexState {
                    pos: p + 1,
                    line_start: true,
                    toks: st.toks.push(rec(TokRec::Newline, bspan1(s, p))),
                    ..st
                },
            )
        } else if c == '/' && p + 1 < n && s[p + 1] == '/' {
            lex_from(s, LexState { pos: line_end(s, p), ..st })
        } else if c == '"' {
            if p + 2 < n && s[p + 1] == '"' && s[p + 2] == '"' {
                match scan_multiline(s, p + 3) {
                    StringScan::Closed { content, end } => lex_from(
                        s,
                        LexState {
                            pos: end,
                            toks: st.toks.push(
                                rec(TokRec::StrLit(dedent_spec(content)), bspan(s, p, end)),
                            ),
                            ..st
                        },
                    ),
                    StringScan::BadEscape { at } => LexOut::Fail {
                        message: "unknown escape sequence: '\\"@ + seq![s[at]] + "'"@,
                        span: bspan(s, at - 1, at + 1),
                    },
                    StringScan::EndAfterBackslash { at } => LexOut::Fail {
                        message: "unexpected end of string"@,
                        span: bspan(s, p, at),
                    },
                    StringScan::Unterminated { at } => LexOut::Fail {
                        message: "unterminated multiline string literal"@,
                        span: bspan(s, p, at),
                    },
                }
            } else {
                match scan_string(s, p + 1) {
                    StringScan::Closed { content, end } => lex_from(
                        s,
                        LexState {
                            pos: end,
                            toks: st.toks.push(rec(TokRec::StrLit(content), bspan(s, p, end))),
                            ..st
                        },
                    ),
                    StringScan::BadEscape { at } => LexOut::Fail {
                        message: "unknown escape sequence: '\\"@ + seq![s[at]] + "'"@,
                        span: bspan(s, at - 1, at + 1),
                    },
                    StringScan::EndAfterBackslash { at } => LexOut::Fail {
                        message: "unexpected end of string"@,
                        span: bspan(s, p, at),
                    },
                    StringScan::Unterminated { at } => LexOut::Fail {
                        message: "unterminated string literal"@,
                        span: bspan(s, p, at),
                    },
                }
            }
        } else if c == ':' {
            lex_from(
                s,
                LexState {
                    pos: p + 1,
                    toks: st.toks.push(rec(TokRec::Colon, bspan1(s, p))),
                    ..st
                },
            )
        } else if c == '=' {
            lex_from(
                s,
                LexState {
                    pos: p + 1,
                    toks: st.toks.push(rec(TokRec::Equals, bspan1(s, p))),
                    ..st
                },
            )
        } else if c == '|' {
            lex_from(
                s,
                LexState { pos: p + 1, toks: st.toks.push(rec(TokRec::Pipe, bspan1(s, p))), ..st },
            )
        } else if c == '.' {
            lex_from(
                s,
                LexState { pos: p + 1, toks: st.toks.push(rec(TokRec::Dot, bspan1(s, p))), ..st },
            )
        } else if c == ']' {
            lex_from(
                s,
                LexState {
                    pos: p + 1,
                    toks: st.toks.push(rec(TokRec::BracketClose, bspan1(s, p))),
                    ..st
                },
            )
        } else if c == ',' {
            lex_from(
                s,
                LexState {
                    pos: p + 1,
                    toks: st.toks.push(rec(TokRec::Comma, bspan1(s, p))),
                    ..st
                },
            )
        } else if c == '?' {
            lex_from(
                s,
                LexState {
                    pos: p + 1,
                    toks: st.toks.push(rec(TokRec::Question, bspan1(s, p))),
                    ..st
                },
            )
        } else if c == '-' {
            if p + 1 < n && is_digit(s[p + 1]) && prev_allows_negative_recs(st.toks) {
                let ne = number_end(s, p);
                lex_from(
                    s,
                    LexState {
                        pos: ne,
                        toks: st.toks.push(rec(TokRec::NumLit(s.subrange(p, ne)), bspan(s, p, ne))),
                        ..st
                    },
                )
            } else {
                lex_from(
                    s,
                    LexState {
                        pos: p + 1,
                        toks: st.toks.push(rec(TokRec::Dash, bspan1(s, p))),
                        ..st
                    },
                )
            }
        } else if c == '[' {
            if p + 1 < n && s[p + 1] == ']' {
                if p + 2 < n && (unicode_alphabetic(s[p + 2]) || s[p + 2] == '_') {
                    lex_from(
                        s,
                        LexState {
                            pos: p + 2,
                            toks: st.toks.push(rec(TokRec::ArrayPrefix, bspan(s, p, p + 2))),
                            ..st
                        },
                    )
                } else {
                    lex_from(
                        s,
                        LexState {
                            pos: p + 2,
                            toks: st.toks.push(rec(TokRec::BracketOpen, bspan1(s, p))).push(
                                rec(TokRec::BracketClose, bspan1(s, p + 1)),
                            ),
                            ..st
                        },
                    )
                }
            } else {
                lex_from(
                    s,
                    LexState {
                        pos: p + 1,
                        toks: st.toks.push(rec(TokRec::BracketOpen, bspan1(s, p))),
                        ..st
                    },
                )
            }
        } else if c == '@' {
            let re = role_run_end(s, p + 1);
            let strip = re > p + 1 && s[re - 1] == ':' && (re == n || s[re] == '\n' || s[re] == ' '
                || s[re] == '\t');
            let p1 = if strip {
                re - 1
            } else {
                re
            };
            lex_from(
                s,
                LexState {
                    pos: p1,
                    toks: st.toks.push(rec(TokRec::Role(s.subrange(p, p1)), bspan(s, p, p1))),
                    ..st
                },
            )
        } else if c == '$' {
            let prefix_ok = p + 5 <= n && s[p + 1] == 'E' && s[p + 2] == 'N' && s[p + 3] == 'V'
                && s[p + 4] == '.';
            if !prefix_ok {
                LexOut::Fail {
                    message: "expected $ENV. for secret reference"@,
                    span: bspan(
                        s,
                        p,
                        if p + 5 <= n {
                            p + 5
                        } else {
                            n
                        },
                    ),
                }
            } else {
                let p1 = secret_run_end(s, p + 5);
                if p1 == p + 5 {
                    LexOut::Fail {
                        message: "expected variable name after $ENV."@,
                        span: bspan(s, p, p + 5),
                    }
                } else {
                    lex_from(
                        s,
                        LexState {
                            pos: p1,
                            toks: st.toks.push(
                                rec(TokRec::Secret(s.subrange(p, p1)), bspan(s, p, p1)),
                            ),
                            ..st
                        },
                    )
                }
            }
        } else if is_digit(c) {
            let ne = number_end(s, p);
            lex_from(
                s,
                LexState {
                    pos: ne,
                    toks: st.toks.push(rec(TokRec::NumLit(s.subrange(p, ne)), bspan(s, p, ne))),
                    ..st
                },
            )
        } else if unicode_alphabetic(c) || c == '_' {
            let we0 = word_run_end(s, p);
            let we = if we0 > p {
                we0
            } else {
                p + 1
            };
            let w = s.subrange(p, we);
            let kind = if w == "true"@ {
                TokRec::BoolLit(true)
            } else if w == "false"@ {
                TokRec::BoolLit(false)
            } else if is_currency_shape(w) {
                TokRec::Currency(w)
            } else {
                TokRec::Ident(w)
            };
            lex_from(s, LexState { pos: we, toks: st.toks.push(rec(kind, bspan(s, p, we))), ..st })
        } else {
            LexOut::Fail {
                message: "unexpected character: '"@ + seq![c] + "'"@,
                span: bspan1(s, p),
            }
        }
    }
}

#[via_fn]
proof fn lex_from_decreases(s: Seq<char>, st: LexState) {
    let n = s.len() as int;
    if 0 <= st.pos && st.pos < n {
        lemma_indentation_step_bounds(s, st.pos, st.stack);
        lemma_line_end(s, st.pos);
        lemma_scan_string_bounds(s, st.pos + 1);
        if st.pos + 3 <= n {
            lemma_scan_multiline_bounds(s, st.pos + 3);
        }
        lemma_digit_run_end(s, st.pos);
        if is_digit(s[st.pos]) || (s[st.pos] == '-' && st.pos + 1 < n && is_digit(
            s[st.pos + 1],
        )) {
            lemma_number_end(s, st.pos);
        }
        if st.pos + 1 <= n {
            lemma_digit_run_end(s, st.pos + 1);
            lemma_role_run_end(s, st.pos + 1);
        }
        if st.pos + 5 <= n {
            lemma_secret_run_end(s, st.pos + 5);
        }
        lemma_word_run_end(s, st.pos);
    }
}

/// The whole tokenization of a source text from a fresh lexer state.
pub open spec fn lex_spec(s: Seq<char>) -> LexOut {
    lex_from(s, LexState { pos: 0, stack: seq![0int], line_start: true, toks: Seq::empty() })
}

} // verus!
