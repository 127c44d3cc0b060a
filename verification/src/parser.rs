//! The recursive-descent parser: token stream in, span-annotated AST out,
//! with one token of lookahead and no backtracking.

use crate::ast::ArrayBody;
use crate::ast::ArrayDecl;
use crate::ast::BlockDecl;
use crate::ast::Body;
use crate::ast::BodyEntry;
use crate::ast::BodyEntryKind;
use crate::ast::Declaration;
use crate::ast::DeclarationKind;
use crate::ast::FieldDefinition;
use crate::ast::FieldTypeExpr;
use crate::ast::File;
use crate::ast::Identifier;
use crate::ast::ListItem;
use crate::ast::ListItemKind;
use crate::ast::Modifier;
use crate::ast::ModifierValue;
use crate::ast::NestedBlock;
use crate::ast::Property;
use crate::ast::SharedProperty;
use crate::error::NmlError;
use crate::error::NmlResult;
use crate::lexer::Token;
use crate::lexer::TokenKind;
use crate::money;
use crate::span::Span;
use crate::types::SpannedValue;
use crate::types::Value;
use vstd::prelude::*;

verus! {

use vstd::string::StringExecFns;

/// Errors the parser can hand back: its own syntax errors, or a money error
/// raised while converting a money literal.
pub open spec fn parser_error(e: NmlError) -> bool {
    e is Parse || e is InvalidMoney
}

/// The display name of each token kind.
pub open spec fn kind_name_spec(kind: TokenKind) -> Seq<char> {
    match kind {
        TokenKind::Indent => "Indent"@,
        TokenKind::Dedent => "Dedent"@,
        TokenKind::Newline => "Newline"@,
        TokenKind::Eof => "Eof"@,
        TokenKind::StringLiteral(_) => "StringLiteral"@,
        TokenKind::NumberLiteral(_) => "NumberLiteral"@,
        TokenKind::BoolLiteral(_) => "BoolLiteral"@,
        TokenKind::Identifier(_) => "Identifier"@,
        TokenKind::RoleRef(_) => "RoleRef"@,
        TokenKind::SecretRef(_) => "SecretRef"@,
        TokenKind::CurrencyCode(_) => "CurrencyCode"@,
        TokenKind::Colon => "Colon"@,
        TokenKind::Equals => "Equals"@,
        TokenKind::Dash => "Dash"@,
        TokenKind::Pipe => "Pipe"@,
        TokenKind::Dot => "Dot"@,
        TokenKind::BracketOpen => "BracketOpen"@,
        TokenKind::BracketClose => "BracketClose"@,
        TokenKind::ArrayPrefix => "ArrayPrefix"@,
        TokenKind::Comma => "Comma"@,
        TokenKind::Question => "Question"@,
    }
}

/// The display name of a token kind, used in expectation messages.
fn kind_name(kind: &TokenKind) -> (r: &'static str)
    ensures
        r@ == kind_name_spec(*kind),
{
    match kind {
        TokenKind::Indent => "Indent",
        TokenKind::Dedent => "Dedent",
        TokenKind::Newline => "Newline",
        TokenKind::Eof => "Eof",
        TokenKind::StringLiteral(_) => "StringLiteral",
        TokenKind::NumberLiteral(_) => "NumberLiteral",
        TokenKind::BoolLiteral(_) => "BoolLiteral",
        TokenKind::Identifier(_) => "Identifier",
        TokenKind::RoleRef(_) => "RoleRef",
        TokenKind::SecretRef(_) => "SecretRef",
        TokenKind::CurrencyCode(_) => "CurrencyCode",
        TokenKind::Colon => "Colon",
        TokenKind::Equals => "Equals",
        TokenKind::Dash => "Dash",
        TokenKind::Pipe => "Pipe",
        TokenKind::Dot => "Dot",
        TokenKind::BracketOpen => "BracketOpen",
        TokenKind::BracketClose => "BracketClose",
        TokenKind::ArrayPrefix => "ArrayPrefix",
        TokenKind::Comma => "Comma",
        TokenKind::Question => "Question",
    }
}

/// Whether two token kinds are the same variant, payloads aside.
pub open spec fn same_kind(a: TokenKind, b: TokenKind) -> bool {
    match a {
        TokenKind::Indent => b is Indent,
        TokenKind::Dedent => b is Dedent,
        TokenKind::Newline => b is Newline,
        TokenKind::Eof => b is Eof,
        TokenKind::StringLiteral(_) => b is StringLiteral,
        TokenKind::NumberLiteral(_) => b is NumberLiteral,
        TokenKind::BoolLiteral(_) => b is BoolLiteral,
        TokenKind::Identifier(_) => b is Identifier,
        TokenKind::RoleRef(_) => b is RoleRef,
        TokenKind::SecretRef(_) => b is SecretRef,
        TokenKind::CurrencyCode(_) => b is CurrencyCode,
        TokenKind::Colon => b is Colon,
        TokenKind::Equals => b is Equals,
        TokenKind::Dash => b is Dash,
        TokenKind::Pipe => b is Pipe,
        TokenKind::Dot => b is Dot,
        TokenKind::BracketOpen => b is BracketOpen,
        TokenKind::BracketClose => b is BracketClose,
        TokenKind::ArrayPrefix => b is ArrayPrefix,
        TokenKind::Comma => b is Comma,
        TokenKind::Question => b is Question,
    }
}

fn kind_eq(a: &TokenKind, b: &TokenKind) -> (r: bool)
    ensures
        r == same_kind(*a, *b),
{
    match (a, b) {
        (TokenKind::Indent, TokenKind::Indent) => true,
        (TokenKind::Dedent, TokenKind::Dedent) => true,
        (TokenKind::Newline, TokenKind::Newline) => true,
        (TokenKind::Eof, TokenKind::Eof) => true,
        (TokenKind::StringLiteral(_), TokenKind::StringLiteral(_)) => true,
        (TokenKind::NumberLiteral(_), TokenKind::NumberLiteral(_)) => true,
        (TokenKind::BoolLiteral(_), TokenKind::BoolLiteral(_)) => true,
        (TokenKind::Identifier(_), TokenKind::Identifier(_)) => true,
        (TokenKind::RoleRef(_), TokenKind::RoleRef(_)) => true,
        (TokenKind::SecretRef(_), TokenKind::SecretRef(_)) => true,
        (TokenKind::CurrencyCode(_), TokenKind::CurrencyCode(_)) => true,
        (TokenKind::Colon, TokenKind::Colon) => true,
        (TokenKind::Equals, TokenKind::Equals) => true,
        (TokenKind::Dash, TokenKind::Dash) => true,
        (TokenKind::Pipe, TokenKind::Pipe) => true,
        (TokenKind::Dot, TokenKind::Dot) => true,
        (TokenKind::BracketOpen, TokenKind::BracketOpen) => true,
        (TokenKind::BracketClose, TokenKind::BracketClose) => true,
        (TokenKind::ArrayPrefix, TokenKind::ArrayPrefix) => true,
        (TokenKind::Comma, TokenKind::Comma) => true,
        (TokenKind::Question, TokenKind::Question) => true,
        _ => false,
    }
}

pub struct Parser {
    tokens: Vec<Token>,
    pos: usize,
}

impl Parser {
    pub closed spec fn toks(&self) -> Seq<Token> {
        self.tokens@
    }

    pub closed spec fn spec_pos(&self) -> int {
        self.pos as int
    }

    /// The cursor stays within the token vector.
    pub closed spec fn wf(&self) -> bool {
        self.pos <= self.tokens@.len()
    }

    pub fn new(tokens: Vec<Token>) -> (p: Self)
        ensures
            p.wf(),
            p.toks() == tokens@,
            p.spec_pos() == 0,
    {
        Parser { tokens, pos: 0 }
    }

    /// Whether the cursor is at (or past) the end-of-file token.
    fn at_eof(&self) -> (r: bool)
        requires
            self.wf(),
        ensures
            r == (self.spec_pos() >= self.toks().len() || self.toks()[self.spec_pos()].kind
                is Eof),
    {
        self.pos >= self.tokens.len() || matches!(self.tokens[self.pos].kind, TokenKind::Eof)
    }

    /// Whether the current token is of the given kind.
    fn check(&self, kind: &TokenKind) -> (r: bool)
        requires
            self.wf(),
        ensures
            r == (self.spec_pos() < self.toks().len() && same_kind(
                self.toks()[self.spec_pos()].kind,
                *kind,
            )),
    {
        if self.pos < self.tokens.len() {
            kind_eq(&self.tokens[self.pos].kind, kind)
        } else {
            false
        }
    }

    fn advance(&mut self)
        requires
            old(self).wf(),
            old(self).spec_pos() < old(self).toks().len(),
        ensures
            final (self).wf(),
            final (self).toks() == old(self).toks(),
            final (self).spec_pos() == old(self).spec_pos() + 1,
    {
        if self.pos < self.tokens.len() {
            self.pos += 1;
        }
    }

    fn current_span(&self) -> (sp: Span)
        requires
            self.wf(),
        ensures
            self.spec_pos() < self.toks().len() ==> sp == self.toks()[self.spec_pos()].span,
            sp == p_cur_span(token_recs(self.toks()), self.spec_pos()),
    {
        proof {
            if self.spec_pos() < self.toks().len() {
                assert(token_recs(self.toks())[self.spec_pos()] == crate::lexer::token_rec(
                    self.toks()[self.spec_pos()],
                ));
            }
        }
        if self.pos < self.tokens.len() {
            self.tokens[self.pos].span
        } else {
            Span::empty(0)
        }
    }

    fn prev_span(&self) -> (sp: Span)
        requires
            self.wf(),
        ensures
            sp == p_prev_span(token_recs(self.toks()), self.spec_pos()),
    {
        proof {
            if 0 < self.spec_pos() <= self.toks().len() {
                assert(token_recs(self.toks())[self.spec_pos() - 1] == crate::lexer::token_rec(
                    self.toks()[self.spec_pos() - 1],
                ));
            }
        }
        if self.pos > 0 && self.pos <= self.tokens.len() {
            self.tokens[self.pos - 1].span
        } else {
            Span::empty(0)
        }
    }

    fn skip_newlines(&mut self)
        requires
            old(self).wf(),
        ensures
            final (self).wf(),
            final (self).toks() == old(self).toks(),
            old(self).spec_pos() <= final (self).spec_pos(),
            final (self).spec_pos() == p_skip_nl(
                token_recs(old(self).toks()),
                old(self).spec_pos(),
            ),
    {
        let ghost ts = token_recs(self.toks());
        while self.pos < self.tokens.len() && matches!(
            self.tokens[self.pos].kind,
            TokenKind::Newline,
        )
            invariant
                self.wf(),
                self.tokens@ == old(self).toks(),
                ts == token_recs(old(self).toks()),
                old(self).spec_pos() <= self.pos as int,
                p_skip_nl(ts, old(self).spec_pos()) == p_skip_nl(ts, self.pos as int),
            decreases self.tokens@.len() - self.pos,
        {
            proof {
                assert(ts[self.pos as int] == crate::lexer::token_rec(
                    self.toks()[self.spec_pos()],
                ));
                assert(ts[self.pos as int].kind is Newline);
            }
            self.pos += 1;
        }
        proof {
            if self.spec_pos() < self.toks().len() {
                assert(ts[self.spec_pos()] == crate::lexer::token_rec(
                    self.toks()[self.spec_pos()],
                ));
            }
            assert(p_skip_nl(ts, self.spec_pos()) == self.spec_pos());
        }
    }

    /// Consumes a token of the expected kind, or fails naming it.
    fn expect_kind(&mut self, expected: &TokenKind) -> (r: NmlResult<Span>)
        requires
            old(self).wf(),
        ensures
            final (self).wf(),
            final (self).toks() == old(self).toks(),
            r is Ok <==> (old(self).spec_pos() < old(self).toks().len() && same_kind(
                old(self).toks()[old(self).spec_pos()].kind,
                *expected,
            )),
            r is Ok ==> final (self).spec_pos() == old(self).spec_pos() + 1,
            r matches Ok(sp) ==> sp == old(self).toks()[old(self).spec_pos()].span,
            r is Err ==> final (self).spec_pos() == old(self).spec_pos(),
            r matches Err(e) ==> {
                &&& e is Parse
                &&& e.spec_message() == "expected "@ + kind_name_spec(*expected)
                &&& e.spec_span() == p_cur_span(token_recs(old(self).toks()), old(self).spec_pos())
            },
    {
        if self.check(expected) {
            let sp = self.current_span();
            self.advance();
            Ok(sp)
        } else {
            let mut msg = <String as StringExecFns>::from_str("expected ");
            StringExecFns::append(&mut msg, kind_name(expected));
            Err(NmlError::parse(msg, self.current_span()))
        }
    }

    /// Consumes an identifier token, or fails.
    fn expect_identifier(&mut self) -> (r: NmlResult<Identifier>)
        requires
            old(self).wf(),
        ensures
            final (self).wf(),
            final (self).toks() == old(self).toks(),
            r is Ok <==> (old(self).spec_pos() < old(self).toks().len() && old(self).toks()[old(
                self,
            ).spec_pos()].kind is Identifier),
            r is Ok ==> final (self).spec_pos() == old(self).spec_pos() + 1,
            r matches Ok(id) ==> {
                let t = old(self).toks()[old(self).spec_pos()];
                t.kind matches TokenKind::Identifier(nm) && id.name@ == nm@ && id.span == t.span
            },
            r is Err ==> final (self).spec_pos() == old(self).spec_pos(),
            r matches Err(e) ==> {
                &&& e is Parse
                &&& e.spec_message() == "expected an identifier"@
                &&& e.spec_span() == p_cur_span(token_recs(old(self).toks()), old(self).spec_pos())
            },
    {
        if self.pos < self.tokens.len() {
            let is_ident = matches!(self.tokens[self.pos].kind, TokenKind::Identifier(_));
            if is_ident {
                let span = self.tokens[self.pos].span;
                let name = match &self.tokens[self.pos].kind {
                    TokenKind::Identifier(n) => n.clone(),
                    _ => <String as StringExecFns>::from_str(""),
                };
                self.advance();
                return Ok(Identifier::new(name, span));
            }
        }
        Err(
            NmlError::parse(
                <String as StringExecFns>::from_str("expected an identifier"),
                self.current_span(),
            ),
        )
    }
}

impl Parser {
    /// Parses a value: string, number (promoted to money when a currency code
    /// follows, using the literal source text of the number), bool, secret
    /// reference, role reference, bracketed array, or bare reference.
    fn parse_value(&mut self) -> (r: NmlResult<SpannedValue>)
        requires
            old(self).wf(),
        ensures
            final (self).wf(),
            final (self).toks() == old(self).toks(),
            old(self).spec_pos() <= final (self).spec_pos(),
            r is Ok ==> old(self).spec_pos() < final (self).spec_pos(),
            r matches Err(e) ==> parser_error(e),
            ({
                // Success is owed on every value head except a bracketed
                // array (whose elements parse recursively) and a money
                // literal whose amount is rejected.
                let p = old(self).spec_pos();
                let ts = old(self).toks();
                p < ts.len() ==> match ts[p].kind {
                    TokenKind::StringLiteral(_) => r is Ok,
                    TokenKind::BoolLiteral(_) => r is Ok,
                    TokenKind::SecretRef(_) => r is Ok,
                    TokenKind::RoleRef(_) => r is Ok,
                    TokenKind::Identifier(_) => r is Ok,
                    TokenKind::NumberLiteral(t) => if p + 1 < ts.len() && ts[p + 1].kind
                        is CurrencyCode {
                        r is Ok <==> crate::money::money_parses(
                            t@,
                            ts[p + 1].kind->CurrencyCode_0@,
                        )
                    } else {
                        r is Ok
                    },
                    _ => true,
                }
            }),
            ({
                let ts = token_recs(old(self).toks());
                match p_value(ts, old(self).spec_pos()) {
                    PRes::POk { v, pos } => r matches Ok(sv) && spanned_value_rec(sv) == v
                        && final (self).spec_pos() == pos,
                    PRes::PFail { kind, message, span } => r matches Err(e) && (e is Parse <==> kind
                        is ParseK) && (e is InvalidMoney <==> kind is MoneyK) && e.spec_message()
                        == message && e.spec_span() == span,
                }
            }),
            r matches Ok(sv) ==> old(self).spec_pos() < old(self).toks().len() && {
                let head = old(self).toks()[old(self).spec_pos()];
                match head.kind {
                    TokenKind::StringLiteral(t) => sv.value matches Value::String(v) && v@ == t@
                        && sv.span == head.span,
                    TokenKind::NumberLiteral(t) => {
                        if old(self).spec_pos() + 1 < old(self).toks().len() && old(self).toks()[
                            old(self).spec_pos() + 1
                        ].kind is CurrencyCode {
                            old(self).toks()[old(self).spec_pos() + 1].kind
                                matches TokenKind::CurrencyCode(c) && sv.value
                                matches Value::Money(m) && {
                                &&& crate::money::money_parses(t@, c@)
                                &&& m.currency@ == c@
                                &&& Some(m.exponent) == crate::money::currency_exponent_spec(c@)
                                &&& m.amount as int == crate::money::money_minor_units(
                                    t@,
                                    m.exponent,
                                )
                                &&& m.wf()
                            }
                        } else {
                            sv.value matches Value::Number(v) && v@ == t@ && sv.span == head.span
                        }
                    },
                    TokenKind::BoolLiteral(b) => sv.value matches Value::Bool(b2) && b2 == b
                        && sv.span == head.span,
                    TokenKind::SecretRef(t) => sv.value matches Value::Secret(v) && v@ == t@
                        && sv.span == head.span,
                    TokenKind::RoleRef(t) => sv.value matches Value::RoleRef(v) && v@ == t@
                        && sv.span == head.span,
                    TokenKind::BracketOpen => sv.value is Array,
                    TokenKind::Identifier(t) => sv.value matches Value::Reference(v) && v@ == t@
                        && sv.span == head.span,
                    _ => false,
                }
            },
        decreases self.tokens@.len() - self.pos, 1int,
    {
        proof {
            reveal(p_value);
            if self.spec_pos() < self.toks().len() {
                lemma_trec_at(self.toks(), self.spec_pos());
            }
            if self.spec_pos() + 1 < self.toks().len() {
                lemma_trec_at(self.toks(), self.spec_pos() + 1);
            }
        }
        let ghost pv0 = self.spec_pos();
        let span = self.current_span();
        if self.pos >= self.tokens.len() {
            return Err(
                NmlError::parse(<String as StringExecFns>::from_str("expected a value"), span),
            );
        }
        let is_string = matches!(self.tokens[self.pos].kind, TokenKind::StringLiteral(_));
        if is_string {
            let v = match &self.tokens[self.pos].kind {
                TokenKind::StringLiteral(t) => t.clone(),
                _ => <String as StringExecFns>::from_str(""),
            };
            self.advance();
            return Ok(SpannedValue::new(Value::String(v), span));
        }
        let is_number = matches!(self.tokens[self.pos].kind, TokenKind::NumberLiteral(_));
        if is_number {
            let text = match &self.tokens[self.pos].kind {
                TokenKind::NumberLiteral(t) => t.clone(),
                _ => <String as StringExecFns>::from_str(""),
            };
            let num_span = span;
            self.advance();
            let has_code = self.pos < self.tokens.len() && matches!(
                self.tokens[self.pos].kind,
                TokenKind::CurrencyCode(_),
            );
            if has_code {
                let code = match &self.tokens[self.pos].kind {
                    TokenKind::CurrencyCode(c) => c.clone(),
                    _ => <String as StringExecFns>::from_str(""),
                };
                let end_span = self.current_span();
                self.advance();
                let full_span = num_span.merge(end_span);
                match money::parse_money(text.as_str(), code.as_str(), full_span) {
                    Ok(m) => {
                        return Ok(SpannedValue::new(Value::Money(m), full_span));
                    },
                    Err(e) => {
                        return Err(e);
                    },
                }
            } else {
                return Ok(SpannedValue::new(Value::Number(text), num_span));
            }
        }
        let is_bool = matches!(self.tokens[self.pos].kind, TokenKind::BoolLiteral(_));
        if is_bool {
            let b = match &self.tokens[self.pos].kind {
                TokenKind::BoolLiteral(b) => *b,
                _ => false,
            };
            self.advance();
            return Ok(SpannedValue::new(Value::Bool(b), span));
        }
        let is_secret = matches!(self.tokens[self.pos].kind, TokenKind::SecretRef(_));
        if is_secret {
            let v = match &self.tokens[self.pos].kind {
                TokenKind::SecretRef(t) => t.clone(),
                _ => <String as StringExecFns>::from_str(""),
            };
            self.advance();
            return Ok(SpannedValue::new(Value::Secret(v), span));
        }
        let is_role = matches!(self.tokens[self.pos].kind, TokenKind::RoleRef(_));
        if is_role {
            let v = match &self.tokens[self.pos].kind {
                TokenKind::RoleRef(t) => t.clone(),
                _ => <String as StringExecFns>::from_str(""),
            };
            self.advance();
            return Ok(SpannedValue::new(Value::RoleRef(v), span));
        }
        if matches!(self.tokens[self.pos].kind, TokenKind::BracketOpen) {
            proof {
                reveal(p_value);
                reveal(p_array_literal);
                reveal(p_array_elems);
                lemma_trec_at(self.toks(), pv0);
                assert(token_recs(self.toks()).len() == self.toks().len());
                assert(p_value(token_recs(self.toks()), pv0) == p_array_literal(
                    token_recs(self.toks()),
                    pv0,
                ));
            }
            return self.parse_array_literal();
        }
        let is_ident = matches!(self.tokens[self.pos].kind, TokenKind::Identifier(_));
        if is_ident {
            let v = match &self.tokens[self.pos].kind {
                TokenKind::Identifier(t) => t.clone(),
                _ => <String as StringExecFns>::from_str(""),
            };
            self.advance();
            return Ok(SpannedValue::new(Value::Reference(v), span));
        }
        Err(NmlError::parse(<String as StringExecFns>::from_str("expected a value"), span))
    }

    /// Parses a bracketed, comma-separated array of values.
    fn parse_array_literal(&mut self) -> (r: NmlResult<SpannedValue>)
        requires
            old(self).wf(),
            old(self).spec_pos() < old(self).toks().len(),
            old(self).toks()[old(self).spec_pos()].kind is BracketOpen,
        ensures
            final (self).wf(),
            final (self).toks() == old(self).toks(),
            old(self).spec_pos() <= final (self).spec_pos(),
            r is Ok ==> old(self).spec_pos() < final (self).spec_pos(),
            r matches Err(e) ==> parser_error(e),
            r matches Ok(sv) ==> sv.value is Array,
            ({
                let ts = token_recs(old(self).toks());
                match p_array_literal(ts, old(self).spec_pos()) {
                    PRes::POk { v, pos } => r matches Ok(sv) && spanned_value_rec(sv) == v
                        && final (self).spec_pos() == pos,
                    PRes::PFail { kind, message, span } => r matches Err(e) && (e is Parse <==> kind
                        is ParseK) && (e is InvalidMoney <==> kind is MoneyK) && e.spec_message()
                        == message && e.spec_span() == span,
                }
            }),
        decreases self.tokens@.len() - self.pos, 0int,
    {
        let ghost ts = token_recs(self.toks());
        let ghost p0 = self.spec_pos();
        proof {
            assert(token_recs(old(self).toks()).len() == old(self).toks().len());
            lemma_trec_at(self.toks(), p0);
        }
        let start = self.current_span();
        match self.expect_kind(&TokenKind::BracketOpen) {
            Ok(_) => {},
            Err(e) => {
                return Err(e);
            },
        }

        let mut values: Vec<SpannedValue> = Vec::new();
        proof {
            assert(svalues_rec(values, values@.len() as int) =~= Seq::<SpannedValueRec>::empty());
        }

        while !self.check(&TokenKind::BracketClose) && !self.at_eof()
            invariant
                self.wf(),
                self.tokens@ == old(self).toks(),
                ts == token_recs(old(self).toks()),
                ts.len() == old(self).toks().len(),
                p0 == old(self).spec_pos(),
                ts[p0].kind is BracketOpen,
                0 <= p0 < self.pos as int,
                self.pos as int <= self.tokens@.len(),
                p_array_elems(ts, p0 + 1, Seq::empty()) == p_array_elems(
                    ts,
                    self.spec_pos(),
                    svalues_rec(values, values@.len() as int),
                ),
            decreases self.tokens@.len() - self.pos,
        {
            let ghost cur = self.spec_pos();
            let ghost accv = svalues_rec(values, values@.len() as int);
            proof {
                lemma_trec_at(old(self).toks(), cur);
            }
            let ghost vold = values;
            match self.parse_value() {
                Ok(val) => {
                    values.push(val);
                    proof {
                        lemma_svalues_rec_push(vold, values, vold@.len() as int);
                    }
                },
                Err(e) => {
                    proof {
                        reveal(p_value);
                        reveal(p_array_elems);
                        reveal(p_array_literal);
                        assert(0 <= cur <= ts.len());
                        assert(!(cur < ts.len() && ts[cur].kind is BracketClose));
                        assert(!p_at_eof(ts, cur));
                        assert(p_value(ts, cur) is PFail);
                        if let PRes::PFail { kind, message, span } = p_value(ts, cur) {
                            assert(p_array_elems(ts, cur, accv) == PRes::<
                                Seq<SpannedValueRec>,
                            >::PFail { kind, message, span });
                            assert(p_array_literal(ts, p0) == PRes::<SpannedValueRec>::PFail {
                                kind,
                                message,
                                span,
                            });
                        }
                    }
                    return Err(e);
                },
            }
            if self.check(&TokenKind::Comma) {
                proof {
                    lemma_trec_at(old(self).toks(), self.spec_pos());
                }
                self.advance();
            } else {
                proof {
                    if self.spec_pos() < self.toks().len() {
                        lemma_trec_at(old(self).toks(), self.spec_pos());
                    }
                }
            }
            proof {
                reveal(p_value);
                reveal(p_array_elems);
                assert(svalues_rec(values, values@.len() as int) =~= accv.push(
                    spanned_value_rec(values@.last()),
                ));
                assert(p_array_elems(ts, cur, accv) == p_array_elems(
                    ts,
                    self.spec_pos(),
                    svalues_rec(values, values@.len() as int),
                ));
            }
        }

        let ghost exitp = self.spec_pos();
        let ghost vals = svalues_rec(values, values@.len() as int);
        proof {
            reveal(p_array_elems);
            if exitp < self.toks().len() {
                lemma_trec_at(old(self).toks(), exitp);
            }
            assert(p_array_elems(ts, exitp, vals) == PRes::<Seq<SpannedValueRec>>::POk {
                v: vals,
                pos: exitp,
            });
        }
        let end = self.current_span();
        match self.expect_kind(&TokenKind::BracketClose) {
            Ok(_) => {},
            Err(e) => {
                proof {
                    reveal(p_array_literal);
                }
                return Err(e);
            },
        }
        let sv = SpannedValue::new(Value::Array(values), start.merge(end));
        proof {
            reveal(p_array_literal);
            assert(p_array_literal(ts, p0) == PRes::<SpannedValueRec>::POk {
                v: SpannedValueRec { value: ValueRec::ArrayV(vals), span: spec_merge(start, end) },
                pos: exitp + 1,
            });
            assert(spanned_value_rec(sv) == SpannedValueRec {
                value: ValueRec::ArrayV(vals),
                span: spec_merge(start, end),
            });
        }
        Ok(sv)
    }
}

impl Parser {
    /// Parses a field type expression: a named type or `[]`-prefixed type.
    fn parse_field_type(&mut self) -> (r: NmlResult<FieldTypeExpr>)
        requires
            old(self).wf(),
        ensures
            final (self).wf(),
            final (self).toks() == old(self).toks(),
            old(self).spec_pos() <= final (self).spec_pos(),
            r is Ok ==> old(self).spec_pos() < final (self).spec_pos(),
            r matches Err(e) ==> parser_error(e),
            ({
                let ts = token_recs(old(self).toks());
                match p_field_type(ts, old(self).spec_pos()) {
                    PRes::POk { v, pos } => r matches Ok(t) && type_expr_rec(t) == v && final (
                    self).spec_pos() == pos,
                    PRes::PFail { kind, message, span } => r matches Err(e) && (e is Parse <==> kind
                        is ParseK) && (e is InvalidMoney <==> kind is MoneyK) && e.spec_message()
                        == message && e.spec_span() == span,
                }
            }),
    {
        proof {
            assert(token_recs(self.toks()).len() == self.toks().len());
            if self.spec_pos() < self.toks().len() {
                lemma_trec_at(self.toks(), self.spec_pos());
            }
            if self.spec_pos() + 1 < self.toks().len() {
                lemma_trec_at(self.toks(), self.spec_pos() + 1);
            }
        }
        if self.check(&TokenKind::ArrayPrefix) {
            self.advance();
            match self.expect_identifier() {
                Ok(id) => Ok(FieldTypeExpr::Array(id)),
                Err(e) => Err(e),
            }
        } else {
            match self.expect_identifier() {
                Ok(id) => Ok(FieldTypeExpr::Named(id)),
                Err(e) => Err(e),
            }
        }
    }

    fn parse_list_items(&mut self) -> (r: NmlResult<Vec<ListItem>>)
        requires
            old(self).wf(),
        ensures
            final (self).wf(),
            final (self).toks() == old(self).toks(),
            old(self).spec_pos() <= final (self).spec_pos(),
            r matches Err(e) ==> parser_error(e),
            ({
                let ts = token_recs(old(self).toks());
                match p_list_items(ts, old(self).spec_pos()) {
                    PRes::POk { v, pos } => r matches Ok(items) && items_rec(
                        items,
                        items@.len() as int,
                    ) == v && final (self).spec_pos() == pos,
                    PRes::PFail { kind, message, span } => r matches Err(e) && (e is Parse <==> kind
                        is ParseK) && (e is InvalidMoney <==> kind is MoneyK) && e.spec_message()
                        == message && e.spec_span() == span,
                }
            }),
        decreases self.tokens@.len() - self.pos, 0int,
    {
        let ghost ts = token_recs(self.toks());
        let ghost p0 = self.spec_pos();
        let mut items: Vec<ListItem> = Vec::new();
        proof {
            reveal(p_list_items);
            assert(token_recs(self.toks()).len() == self.toks().len());
            if p0 < self.toks().len() {
                lemma_trec_at(self.toks(), p0);
            }
            assert(items_rec(items, items@.len() as int) =~= Seq::<ItemRec>::empty());
        }

        if !self.check(&TokenKind::Indent) {
            proof {
                reveal(p_list_items);
                reveal(p_items_loop);
                assert(p_list_items(ts, p0) == (PRes::<Seq<ItemRec>>::POk {
                    v: items_rec(items, items@.len() as int),
                    pos: p0,
                }));
            }
            return Ok(items);
        }
        self.advance();

        loop
            invariant_except_break
                self.wf(),
                self.tokens@ == old(self).toks(),
                ts == token_recs(old(self).toks()),
                ts.len() == old(self).toks().len(),
                p0 == old(self).spec_pos(),
                0 <= p0 < self.pos as int,
                self.pos as int <= self.tokens@.len(),
                ts[p0].kind is Indent,
                p_items_loop(ts, p0 + 1, Seq::empty()) == p_items_loop(
                    ts,
                    self.spec_pos(),
                    items_rec(items, items@.len() as int),
                ),
            ensures
                self.wf(),
                self.tokens@ == old(self).toks(),
                ts == token_recs(old(self).toks()),
                ts.len() == old(self).toks().len(),
                ts[p0].kind is Indent,
                p0 == old(self).spec_pos(),
                0 <= p0 < self.pos as int,
                self.pos as int <= self.tokens@.len(),
                p_items_loop(ts, p0 + 1, Seq::empty()) == (PRes::<Seq<ItemRec>>::POk {
                    v: items_rec(items, items@.len() as int),
                    pos: self.spec_pos(),
                }),
            decreases self.tokens@.len() - self.pos,
        {
            let ghost cur = self.spec_pos();
            let ghost acci = items_rec(items, items@.len() as int);
            proof {
                if cur < self.toks().len() {
                    lemma_trec_at(old(self).toks(), cur);
                }
            }
            if self.check(&TokenKind::Dedent) || self.at_eof() {
                proof {
                    reveal(p_items_loop);
                    assert(p_items_loop(ts, cur, acci) == PRes::<Seq<ItemRec>>::POk {
                        v: acci,
                        pos: cur,
                    });
                }
                break ;
            }
            self.skip_newlines();
            if self.check(&TokenKind::Dedent) || self.at_eof() {
                proof {
                    reveal(p_items_loop);
                    if self.spec_pos() < self.toks().len() {
                        lemma_trec_at(old(self).toks(), self.spec_pos());
                    }
                    assert(p_items_loop(ts, cur, acci) == PRes::<Seq<ItemRec>>::POk {
                        v: acci,
                        pos: self.spec_pos(),
                    });
                }
                break ;
            }
            let ghost p1 = self.spec_pos();
            proof {
                lemma_trec_at(old(self).toks(), p1);
            }
            let ghost vold = items;
            match self.parse_list_item() {
                Ok(item) => {
                    items.push(item);
                    proof {
                        lemma_items_rec_push(vold, items, vold@.len() as int);
                    }
                },
                Err(e) => {
                    proof {
                        reveal(p_list_item);
                        reveal(p_items_loop);
                        reveal(p_list_items);
                    }
                    return Err(e);
                },
            }
            proof {
                reveal(p_list_item);
                reveal(p_items_loop);
                assert(items_rec(items, items@.len() as int) =~= acci.push(
                    item_rec(items@.last()),
                ));
                assert(p_items_loop(ts, cur, acci) == p_items_loop(
                    ts,
                    self.spec_pos(),
                    items_rec(items, items@.len() as int),
                ));
            }
        }

        let ghost exitp = self.spec_pos();
        proof {
            reveal(p_list_items);
            reveal(p_items_loop);
            reveal(p_list_item);
            if exitp < self.toks().len() {
                lemma_trec_at(old(self).toks(), exitp);
            }
            assert(p_list_items(ts, p0) == (PRes::<Seq<ItemRec>>::POk {
                v: items_rec(items, items@.len() as int),
                pos: if exitp < ts.len() && ts[exitp].kind is Dedent {
                    exitp + 1
                } else {
                    exitp
                },
            }));
        }
        if self.check(&TokenKind::Dedent) {
            self.advance();
        }
        Ok(items)
    }

    #[verifier::rlimit(100)]
    #[verifier::spinoff_prover]
    fn parse_list_item(&mut self) -> (r: NmlResult<ListItem>)
        requires
            old(self).wf(),
        ensures
            final (self).wf(),
            final (self).toks() == old(self).toks(),
            old(self).spec_pos() <= final (self).spec_pos(),
            r is Ok ==> old(self).spec_pos() < final (self).spec_pos(),
            r matches Err(e) ==> parser_error(e),
            ({
                let ts = token_recs(old(self).toks());
                match p_list_item(ts, old(self).spec_pos()) {
                    PRes::POk { v, pos } => r matches Ok(item) && item_rec(item) == v && final (
                    self).spec_pos() == pos,
                    PRes::PFail { kind, message, span } => r matches Err(e) && (e is Parse <==> kind
                        is ParseK) && (e is InvalidMoney <==> kind is MoneyK) && e.spec_message()
                        == message && e.spec_span() == span,
                }
            }),
        decreases self.tokens@.len() - self.pos, 1int,
    {
        let ghost ts = token_recs(self.toks());
        let ghost p0 = self.spec_pos();
        proof {
            reveal(p_list_item);
            assert(token_recs(self.toks()).len() == self.toks().len());
            if p0 < self.toks().len() {
                lemma_trec_at(self.toks(), p0);
            }
            if p0 + 1 < self.toks().len() {
                lemma_trec_at(self.toks(), p0 + 1);
            }
            if p0 + 2 < self.toks().len() {
                lemma_trec_at(self.toks(), p0 + 2);
            }
        }
        let dash_span = self.current_span();
        match self.expect_kind(&TokenKind::Dash) {
            Ok(_) => {},
            Err(e) => {
                return Err(e);
            },
        }

        if self.check(&TokenKind::StringLiteral(<String as StringExecFns>::from_str(""))) {
            let val = match self.parse_value() {
                Ok(v) => v,
                Err(e) => {
                    proof {
                        reveal(p_value);
                    }
                    return Err(e);
                },
            };
            self.skip_newlines();
            let span = dash_span.merge(val.span);
            proof {
                reveal(p_value);
            }
            return Ok(ListItem { kind: ListItemKind::Shorthand(val), span });
        }

        let is_role = self.pos < self.tokens.len() && matches!(
            self.tokens[self.pos].kind,
            TokenKind::RoleRef(_),
        );
        if is_role {
            let role = match &self.tokens[self.pos].kind {
                TokenKind::RoleRef(t) => t.clone(),
                _ => <String as StringExecFns>::from_str(""),
            };
            let ref_span = self.current_span();
            self.advance();
            self.skip_newlines();
            let span = dash_span.merge(ref_span);
            return Ok(ListItem { kind: ListItemKind::RoleRef(role), span });
        }

        let ident = match self.expect_identifier() {
            Ok(id) => id,
            Err(e) => {
                return Err(e);
            },
        };

        if self.check(&TokenKind::Colon) {
            self.advance();
            self.skip_newlines();
            let body = match self.parse_body() {
                Ok(b) => b,
                Err(e) => {
                    proof {
                        reveal(p_body_prod);
                    }
                    return Err(e);
                },
            };
            let span = dash_span.merge(self.prev_span());
            proof {
                reveal(p_body_prod);
            }
            Ok(ListItem { kind: ListItemKind::Named { name: ident, body }, span })
        } else {
            self.skip_newlines();
            let span = dash_span.merge(ident.span);
            Ok(ListItem { kind: ListItemKind::Reference(ident), span })
        }
    }

    #[verifier::rlimit(100)]
    #[verifier::spinoff_prover]
    fn parse_modifier(&mut self) -> (r: NmlResult<Modifier>)
        requires
            old(self).wf(),
        ensures
            final (self).wf(),
            final (self).toks() == old(self).toks(),
            old(self).spec_pos() <= final (self).spec_pos(),
            r is Ok ==> old(self).spec_pos() < final (self).spec_pos(),
            r matches Err(e) ==> parser_error(e),
            ({
                let ts = token_recs(old(self).toks());
                match p_modifier(ts, old(self).spec_pos()) {
                    PRes::POk { v, pos } => r matches Ok(m) && modifier_rec(m) == v && final (
                    self).spec_pos() == pos,
                    PRes::PFail { kind, message, span } => r matches Err(e) && (e is Parse <==> kind
                        is ParseK) && (e is InvalidMoney <==> kind is MoneyK) && e.spec_message()
                        == message && e.spec_span() == span,
                }
            }),
        decreases self.tokens@.len() - self.pos, 1int,
    {
        let ghost ts = token_recs(self.toks());
        let ghost p0 = self.spec_pos();
        proof {
            reveal(p_modifier);
            assert(token_recs(self.toks()).len() == self.toks().len());
            if p0 < self.toks().len() {
                lemma_trec_at(self.toks(), p0);
            }
            if p0 + 1 < self.toks().len() {
                lemma_trec_at(self.toks(), p0 + 1);
            }
            if p0 + 2 < self.toks().len() {
                lemma_trec_at(self.toks(), p0 + 2);
            }
        }
        match self.expect_kind(&TokenKind::Pipe) {
            Ok(_) => {},
            Err(e) => {
                return Err(e);
            },
        }
        let name = match self.expect_identifier() {
            Ok(id) => id,
            Err(e) => {
                return Err(e);
            },
        };

        if self.check(&TokenKind::Equals) {
            self.advance();
            let value = match self.parse_value() {
                Ok(v) => v,
                Err(e) => {
                    proof {
                        reveal(p_value);
                    }
                    return Err(e);
                },
            };
            self.skip_newlines();
            proof {
                reveal(p_value);
            }
            Ok(Modifier { name, value: ModifierValue::Inline(value) })
        } else if self.check(&TokenKind::Colon) {
            self.advance();
            self.skip_newlines();
            let items = match self.parse_list_items() {
                Ok(i) => i,
                Err(e) => {
                    proof {
                        reveal(p_list_items);
                    }
                    return Err(e);
                },
            };
            proof {
                reveal(p_list_items);
            }
            Ok(Modifier { name, value: ModifierValue::Block(items) })
        } else if self.check(&TokenKind::ArrayPrefix) || self.check(
            &TokenKind::Identifier(<String as StringExecFns>::from_str("")),
        ) {
            let field_type = match self.parse_field_type() {
                Ok(t) => t,
                Err(e) => {
                    return Err(e);
                },
            };
            let optional = self.check(&TokenKind::Question);
            if optional {
                proof {
                    if self.spec_pos() < self.toks().len() {
                        lemma_trec_at(self.toks(), self.spec_pos());
                    }
                }
                self.advance();
            } else {
                proof {
                    if self.spec_pos() < self.toks().len() {
                        lemma_trec_at(self.toks(), self.spec_pos());
                    }
                }
            }
            self.skip_newlines();
            Ok(Modifier { name, value: ModifierValue::TypeAnnotation { field_type, optional } })
        } else {
            let mut msg = <String as StringExecFns>::from_str(
                "expected '=' or ':' after modifier '|",
            );
            StringExecFns::append(&mut msg, name.name.as_str());
            StringExecFns::append(&mut msg, "'");
            Err(NmlError::parse(msg, name.span))
        }
    }

    fn parse_shared_property(&mut self) -> (r: NmlResult<SharedProperty>)
        requires
            old(self).wf(),
        ensures
            final (self).wf(),
            final (self).toks() == old(self).toks(),
            old(self).spec_pos() <= final (self).spec_pos(),
            r is Ok ==> old(self).spec_pos() < final (self).spec_pos(),
            r matches Err(e) ==> parser_error(e),
            ({
                let ts = token_recs(old(self).toks());
                match p_shared(ts, old(self).spec_pos()) {
                    PRes::POk { v, pos } => r matches Ok(sp) && ident_rec(sp.name) == v.name
                        && body_rec(sp.body) == v.body && final (self).spec_pos() == pos,
                    PRes::PFail { kind, message, span } => r matches Err(e) && (e is Parse <==> kind
                        is ParseK) && (e is InvalidMoney <==> kind is MoneyK) && e.spec_message()
                        == message && e.spec_span() == span,
                }
            }),
        decreases self.tokens@.len() - self.pos, 1int,
    {
        let ghost ts = token_recs(self.toks());
        let ghost p0 = self.spec_pos();
        proof {
            reveal(p_shared);
            assert(token_recs(self.toks()).len() == self.toks().len());
            if p0 < self.toks().len() {
                lemma_trec_at(self.toks(), p0);
            }
            if p0 + 1 < self.toks().len() {
                lemma_trec_at(self.toks(), p0 + 1);
            }
            if p0 + 2 < self.toks().len() {
                lemma_trec_at(self.toks(), p0 + 2);
            }
        }
        match self.expect_kind(&TokenKind::Dot) {
            Ok(_) => {},
            Err(e) => {
                return Err(e);
            },
        }
        let name = match self.expect_identifier() {
            Ok(id) => id,
            Err(e) => {
                return Err(e);
            },
        };
        match self.expect_kind(&TokenKind::Colon) {
            Ok(_) => {},
            Err(e) => {
                return Err(e);
            },
        }
        self.skip_newlines();
        let body = match self.parse_body() {
            Ok(b) => b,
            Err(e) => {
                proof {
                    reveal(p_body_prod);
                }
                return Err(e);
            },
        };
        proof {
            reveal(p_body_prod);
        }
        Ok(SharedProperty { name, body })
    }

    fn parse_property_rest(&mut self, name: Identifier) -> (r: NmlResult<Property>)
        requires
            old(self).wf(),
        ensures
            final (self).wf(),
            final (self).toks() == old(self).toks(),
            old(self).spec_pos() <= final (self).spec_pos(),
            r is Ok ==> old(self).spec_pos() < final (self).spec_pos(),
            r matches Err(e) ==> parser_error(e),
            ({
                let ts = token_recs(old(self).toks());
                match p_property_rest(ts, old(self).spec_pos(), ident_rec(name)) {
                    PRes::POk { v, pos } => r matches Ok(p) && ident_rec(p.name) == v.name
                        && spanned_value_rec(p.value) == v.value && final (self).spec_pos() == pos,
                    PRes::PFail { kind, message, span } => r matches Err(e) && (e is Parse <==> kind
                        is ParseK) && (e is InvalidMoney <==> kind is MoneyK) && e.spec_message()
                        == message && e.spec_span() == span,
                }
            }),
        decreases self.tokens@.len() - self.pos, 0int,
    {
        let ghost ts = token_recs(self.toks());
        let ghost p0 = self.spec_pos();
        proof {
            reveal(p_property_rest);
            assert(token_recs(self.toks()).len() == self.toks().len());
            if p0 < self.toks().len() {
                lemma_trec_at(self.toks(), p0);
            }
        }
        match self.expect_kind(&TokenKind::Equals) {
            Ok(_) => {},
            Err(e) => {
                return Err(e);
            },
        }
        let value = match self.parse_value() {
            Ok(v) => v,
            Err(e) => {
                proof {
                    reveal(p_value);
                }
                return Err(e);
            },
        };
        self.skip_newlines();
        proof {
            reveal(p_value);
        }
        Ok(Property { name, value })
    }

    fn parse_nested_block_rest(&mut self, name: Identifier) -> (r: NmlResult<NestedBlock>)
        requires
            old(self).wf(),
        ensures
            final (self).wf(),
            final (self).toks() == old(self).toks(),
            old(self).spec_pos() <= final (self).spec_pos(),
            r is Ok ==> old(self).spec_pos() < final (self).spec_pos(),
            r matches Err(e) ==> parser_error(e),
            ({
                let ts = token_recs(old(self).toks());
                match p_nested_rest(ts, old(self).spec_pos()) {
                    PRes::POk { v, pos } => r matches Ok(nb) && ident_rec(nb.name) == ident_rec(
                        name,
                    ) && body_rec(nb.body) == v && final (self).spec_pos() == pos,
                    PRes::PFail { kind, message, span } => r matches Err(e) && (e is Parse <==> kind
                        is ParseK) && (e is InvalidMoney <==> kind is MoneyK) && e.spec_message()
                        == message && e.spec_span() == span,
                }
            }),
        decreases self.tokens@.len() - self.pos, 0int,
    {
        let ghost ts = token_recs(self.toks());
        let ghost p0 = self.spec_pos();
        proof {
            reveal(p_nested_rest);
            assert(token_recs(self.toks()).len() == self.toks().len());
            if p0 < self.toks().len() {
                lemma_trec_at(self.toks(), p0);
            }
        }
        match self.expect_kind(&TokenKind::Colon) {
            Ok(_) => {},
            Err(e) => {
                return Err(e);
            },
        }
        self.skip_newlines();
        let body = match self.parse_body() {
            Ok(b) => b,
            Err(e) => {
                proof {
                    reveal(p_body_prod);
                }
                return Err(e);
            },
        };
        proof {
            reveal(p_body_prod);
        }
        Ok(NestedBlock { name, body })
    }

    /// Parses one body entry, dispatching on its leading token: `|` opens a
    /// modifier, `.` a shared property, `-` a list item; an identifier opens
    /// a property (`=`), a nested block (`:`), or — inside model and trait
    /// bodies — a field definition (`name type[?] [= default]`).
    #[verifier::rlimit(100)]
    #[verifier::spinoff_prover]
    fn parse_body_entry(&mut self) -> (r: NmlResult<BodyEntry>)
        requires
            old(self).wf(),
        ensures
            final (self).wf(),
            final (self).toks() == old(self).toks(),
            old(self).spec_pos() <= final (self).spec_pos(),
            r is Ok ==> old(self).spec_pos() < final (self).spec_pos(),
            r matches Err(e) ==> parser_error(e),
            ({
                let ts = token_recs(old(self).toks());
                match p_body_entry(ts, old(self).spec_pos()) {
                    PRes::POk { v, pos } => r matches Ok(entry) && entry_rec(entry) == v && final (
                    self).spec_pos() == pos,
                    PRes::PFail { kind, message, span } => r matches Err(e) && (e is Parse <==> kind
                        is ParseK) && (e is InvalidMoney <==> kind is MoneyK) && e.spec_message()
                        == message && e.spec_span() == span,
                }
            }),
            r matches Ok(entry) ==> old(self).spec_pos() < old(self).toks().len() && {
                let head = old(self).toks()[old(self).spec_pos()].kind;
                match entry.kind {
                    BodyEntryKind::Modifier(_) => head is Pipe,
                    BodyEntryKind::SharedProperty(_) => head is Dot,
                    BodyEntryKind::ListItem(_) => head is Dash,
                    BodyEntryKind::Property(_) => head is Identifier,
                    BodyEntryKind::NestedBlock(_) => head is Identifier,
                    BodyEntryKind::FieldDefinition(_) => head is Identifier,
                }
            },
        decreases self.tokens@.len() - self.pos, 2int,
    {
        let ghost ts = token_recs(self.toks());
        let ghost p0 = self.spec_pos();
        proof {
            reveal(p_body_entry);
            assert(token_recs(self.toks()).len() == self.toks().len());
            if p0 < self.toks().len() {
                lemma_trec_at(self.toks(), p0);
            }
            if p0 + 1 < self.toks().len() {
                lemma_trec_at(self.toks(), p0 + 1);
            }
        }
        let span = self.current_span();

        if self.check(&TokenKind::Pipe) {
            let modifier = match self.parse_modifier() {
                Ok(m) => m,
                Err(e) => {
                    proof {
                        reveal(p_modifier);
                    }
                    return Err(e);
                },
            };
            let end = self.prev_span();
            proof {
                reveal(p_modifier);
            }
            return Ok(BodyEntry { kind: BodyEntryKind::Modifier(modifier), span: span.merge(end) });
        }

        if self.check(&TokenKind::Dot) {
            let shared = match self.parse_shared_property() {
                Ok(sp) => sp,
                Err(e) => {
                    proof {
                        reveal(p_shared);
                    }
                    return Err(e);
                },
            };
            let end = self.prev_span();
            proof {
                reveal(p_shared);
            }
            return Ok(
                BodyEntry { kind: BodyEntryKind::SharedProperty(shared), span: span.merge(end) },
            );
        }

        if self.check(&TokenKind::Dash) {
            let item = match self.parse_list_item() {
                Ok(i) => i,
                Err(e) => {
                    proof {
                        reveal(p_list_item);
                    }
                    return Err(e);
                },
            };
            let end = self.prev_span();
            proof {
                reveal(p_list_item);
            }
            return Ok(BodyEntry { kind: BodyEntryKind::ListItem(item), span: span.merge(end) });
        }

        let ident = match self.expect_identifier() {
            Ok(id) => id,
            Err(e) => {
                return Err(e);
            },
        };

        if self.check(&TokenKind::Equals) {
            let prop = match self.parse_property_rest(ident) {
                Ok(p) => p,
                Err(e) => {
                    proof {
                        reveal(p_property_rest);
                    }
                    return Err(e);
                },
            };
            let end = self.prev_span();
            proof {
                reveal(p_property_rest);
            }
            Ok(BodyEntry { kind: BodyEntryKind::Property(prop), span: span.merge(end) })
        } else if self.check(&TokenKind::Colon) {
            let nested = match self.parse_nested_block_rest(ident) {
                Ok(nb) => nb,
                Err(e) => {
                    proof {
                        reveal(p_nested_rest);
                    }
                    return Err(e);
                },
            };
            let end = self.prev_span();
            proof {
                reveal(p_nested_rest);
            }
            Ok(BodyEntry { kind: BodyEntryKind::NestedBlock(nested), span: span.merge(end) })
        } else if self.check(&TokenKind::ArrayPrefix) || self.check(
            &TokenKind::Identifier(<String as StringExecFns>::from_str("")),
        ) {
            // A field definition inside a model or trait body.
            let field_type = match self.parse_field_type() {
                Ok(t) => t,
                Err(e) => {
                    return Err(e);
                },
            };
            let optional = self.check(&TokenKind::Question);
            if optional {
                proof {
                    if self.spec_pos() < self.toks().len() {
                        lemma_trec_at(self.toks(), self.spec_pos());
                    }
                }
                self.advance();
            } else {
                proof {
                    if self.spec_pos() < self.toks().len() {
                        lemma_trec_at(self.toks(), self.spec_pos());
                    }
                }
            }
            let has_default = self.check(&TokenKind::Equals);
            proof {
                if self.spec_pos() < self.toks().len() {
                    lemma_trec_at(self.toks(), self.spec_pos());
                }
            }
            let default_value: Option<SpannedValue> = if has_default {
                self.advance();
                match self.parse_value() {
                    Ok(v) => Some(v),
                    Err(e) => {
                        proof {
                            reveal(p_value);
                        }
                        return Err(e);
                    },
                }
            } else {
                None
            };
            self.skip_newlines();
            let end = self.prev_span();
            proof {
                reveal(p_value);
            }
            Ok(
                BodyEntry {
                    kind: BodyEntryKind::FieldDefinition(
                        FieldDefinition { name: ident, field_type, optional, default_value },
                    ),
                    span: span.merge(end),
                },
            )
        } else {
            let mut msg = <String as StringExecFns>::from_str("expected '=' or ':' after '");
            StringExecFns::append(&mut msg, ident.name.as_str());
            StringExecFns::append(&mut msg, "'");
            Err(NmlError::parse(msg, span))
        }
    }

    /// Parses a block body: empty unless an `Indent` follows, else entries up
    /// to the matching `Dedent`.
    fn parse_body(&mut self) -> (r: NmlResult<Body>)
        requires
            old(self).wf(),
        ensures
            final (self).wf(),
            final (self).toks() == old(self).toks(),
            old(self).spec_pos() <= final (self).spec_pos(),
            r matches Err(e) ==> parser_error(e),
            ({
                let ts = token_recs(old(self).toks());
                match p_body_prod(ts, old(self).spec_pos()) {
                    PRes::POk { v, pos } => r matches Ok(b) && body_rec(b) == v && final (
                    self).spec_pos() == pos,
                    PRes::PFail { kind, message, span } => r matches Err(e) && (e is Parse <==> kind
                        is ParseK) && (e is InvalidMoney <==> kind is MoneyK) && e.spec_message()
                        == message && e.spec_span() == span,
                }
            }),
        decreases self.tokens@.len() - self.pos, 0int,
    {
        let ghost ts = token_recs(self.toks());
        let ghost p0 = self.spec_pos();
        let mut entries: Vec<BodyEntry> = Vec::new();
        proof {
            reveal(p_body_prod);
            assert(token_recs(self.toks()).len() == self.toks().len());
            if p0 < self.toks().len() {
                lemma_trec_at(self.toks(), p0);
            }
            assert(entries_rec(entries, entries@.len() as int) =~= Seq::<EntryRec>::empty());
        }

        if !self.check(&TokenKind::Indent) {
            proof {
                reveal(p_body_prod);
                reveal(p_entries);
                assert(body_rec(Body { entries }) == (BodyRec { entries: entries_rec(
                    entries,
                    entries@.len() as int,
                ) }));
                assert(p_body_prod(ts, p0) == (PRes::<BodyRec>::POk {
                    v: BodyRec { entries: Seq::empty() },
                    pos: p0,
                }));
                assert(entries_rec(entries, entries@.len() as int) =~= Seq::<EntryRec>::empty());
            }
            return Ok(Body { entries });
        }
        self.advance();

        loop
            invariant_except_break
                self.wf(),
                self.tokens@ == old(self).toks(),
                ts == token_recs(old(self).toks()),
                ts.len() == old(self).toks().len(),
                p0 == old(self).spec_pos(),
                0 <= p0 < self.pos as int,
                self.pos as int <= self.tokens@.len(),
                ts[p0].kind is Indent,
                p_entries(ts, p0 + 1, Seq::empty()) == p_entries(
                    ts,
                    self.spec_pos(),
                    entries_rec(entries, entries@.len() as int),
                ),
            ensures
                self.wf(),
                self.tokens@ == old(self).toks(),
                ts == token_recs(old(self).toks()),
                ts.len() == old(self).toks().len(),
                ts[p0].kind is Indent,
                p0 == old(self).spec_pos(),
                0 <= p0 < self.pos as int,
                self.pos as int <= self.tokens@.len(),
                p_entries(ts, p0 + 1, Seq::empty()) == (PRes::<Seq<EntryRec>>::POk {
                    v: entries_rec(entries, entries@.len() as int),
                    pos: self.spec_pos(),
                }),
            decreases self.tokens@.len() - self.pos,
        {
            let ghost cur = self.spec_pos();
            let ghost acce = entries_rec(entries, entries@.len() as int);
            proof {
                if cur < self.toks().len() {
                    lemma_trec_at(old(self).toks(), cur);
                }
            }
            if self.check(&TokenKind::Dedent) || self.at_eof() {
                proof {
                    reveal(p_entries);
                    assert(p_entries(ts, cur, acce) == PRes::<Seq<EntryRec>>::POk {
                        v: acce,
                        pos: cur,
                    });
                }
                break ;
            }
            self.skip_newlines();
            if self.check(&TokenKind::Dedent) || self.at_eof() {
                proof {
                    reveal(p_entries);
                    if self.spec_pos() < self.toks().len() {
                        lemma_trec_at(old(self).toks(), self.spec_pos());
                    }
                    assert(p_entries(ts, cur, acce) == PRes::<Seq<EntryRec>>::POk {
                        v: acce,
                        pos: self.spec_pos(),
                    });
                }
                break ;
            }
            let ghost p1 = self.spec_pos();
            proof {
                lemma_trec_at(old(self).toks(), p1);
            }
            let ghost vold = entries;
            match self.parse_body_entry() {
                Ok(entry) => {
                    entries.push(entry);
                    proof {
                        lemma_entries_rec_push(vold, entries, vold@.len() as int);
                    }
                },
                Err(e) => {
                    proof {
                        reveal(p_body_entry);
                        reveal(p_entries);
                        reveal(p_body_prod);
                    }
                    return Err(e);
                },
            }
            proof {
                reveal(p_body_entry);
                reveal(p_entries);
                assert(entries_rec(entries, entries@.len() as int) =~= acce.push(
                    entry_rec(entries@.last()),
                ));
                assert(p_entries(ts, cur, acce) == p_entries(
                    ts,
                    self.spec_pos(),
                    entries_rec(entries, entries@.len() as int),
                ));
            }
        }

        let ghost exitp = self.spec_pos();
        proof {
            reveal(p_body_prod);
            reveal(p_entries);
            reveal(p_body_entry);
            if exitp < self.toks().len() {
                lemma_trec_at(old(self).toks(), exitp);
            }
            assert(p_body_prod(ts, p0) == (PRes::<BodyRec>::POk {
                v: BodyRec { entries: entries_rec(entries, entries@.len() as int) },
                pos: if exitp < ts.len() && ts[exitp].kind is Dedent {
                    exitp + 1
                } else {
                    exitp
                },
            }));
        }
        if self.check(&TokenKind::Dedent) {
            self.advance();
        }
        Ok(Body { entries })
    }

    /// Parses an array declaration's body, bucketing modifiers, shared
    /// properties, flat properties, and list items separately.
    #[verifier::rlimit(100)]
    #[verifier::spinoff_prover]
    fn parse_array_body(&mut self) -> (r: NmlResult<ArrayBody>)
        requires
            old(self).wf(),
        ensures
            final (self).wf(),
            final (self).toks() == old(self).toks(),
            old(self).spec_pos() <= final (self).spec_pos(),
            r matches Err(e) ==> parser_error(e),
            ({
                let ts = token_recs(old(self).toks());
                match p_array_body(ts, old(self).spec_pos()) {
                    PRes::POk { v, pos } => r matches Ok(b) && array_body_rec(b) == v && final (
                    self).spec_pos() == pos,
                    PRes::PFail { kind, message, span } => r matches Err(e) && (e is Parse <==> kind
                        is ParseK) && (e is InvalidMoney <==> kind is MoneyK) && e.spec_message()
                        == message && e.spec_span() == span,
                }
            }),
    {
        let ghost ts = token_recs(self.toks());
        let ghost p0 = self.spec_pos();
        let mut modifiers: Vec<Modifier> = Vec::new();
        let mut shared_properties: Vec<SharedProperty> = Vec::new();
        let mut properties: Vec<Property> = Vec::new();
        let mut items: Vec<ListItem> = Vec::new();
        let ghost empty_acc = ArrayBodyRec {
            mods: Seq::empty(),
            shared: Seq::empty(),
            props: Seq::empty(),
            items: Seq::empty(),
        };
        proof {
            reveal(p_array_body);
            assert(token_recs(self.toks()).len() == self.toks().len());
            if p0 < self.toks().len() {
                lemma_trec_at(self.toks(), p0);
            }
            assert(modifiers_rec(modifiers, 0) =~= Seq::<ModifierRec>::empty());
            assert(shareds_rec(shared_properties, 0) =~= Seq::<SharedRec>::empty());
            assert(props_rec(properties, 0) =~= Seq::<PropRec>::empty());
            assert(items_rec(items, 0) =~= Seq::<ItemRec>::empty());
        }

        if !self.check(&TokenKind::Indent) {
            let b = ArrayBody { modifiers, shared_properties, properties, items };
            proof {
                reveal(p_array_body);
                assert(array_body_rec(b) == empty_acc);
            }
            return Ok(b);
        }
        self.advance();

        loop
            invariant_except_break
                self.wf(),
                self.tokens@ == old(self).toks(),
                ts == token_recs(old(self).toks()),
                ts.len() == old(self).toks().len(),
                p0 == old(self).spec_pos(),
                ts[p0].kind is Indent,
                0 <= p0 < self.pos as int,
                self.pos as int <= self.tokens@.len(),
                empty_acc == (ArrayBodyRec {
                    mods: Seq::<ModifierRec>::empty(),
                    shared: Seq::<SharedRec>::empty(),
                    props: Seq::<PropRec>::empty(),
                    items: Seq::<ItemRec>::empty(),
                }),
                p_array_body_loop(ts, p0 + 1, empty_acc) == p_array_body_loop(
                    ts,
                    self.spec_pos(),
                    ArrayBodyRec {
                        mods: modifiers_rec(modifiers, modifiers@.len() as int),
                        shared: shareds_rec(shared_properties, shared_properties@.len() as int),
                        props: props_rec(properties, properties@.len() as int),
                        items: items_rec(items, items@.len() as int),
                    },
                ),
            ensures
                self.wf(),
                self.tokens@ == old(self).toks(),
                ts == token_recs(old(self).toks()),
                ts.len() == old(self).toks().len(),
                ts[p0].kind is Indent,
                p0 == old(self).spec_pos(),
                0 <= p0 < self.pos as int,
                self.pos as int <= self.tokens@.len(),
                empty_acc == (ArrayBodyRec {
                    mods: Seq::<ModifierRec>::empty(),
                    shared: Seq::<SharedRec>::empty(),
                    props: Seq::<PropRec>::empty(),
                    items: Seq::<ItemRec>::empty(),
                }),
                p_array_body_loop(ts, p0 + 1, empty_acc) == (PRes::<ArrayBodyRec>::POk {
                    v: ArrayBodyRec {
                        mods: modifiers_rec(modifiers, modifiers@.len() as int),
                        shared: shareds_rec(shared_properties, shared_properties@.len() as int),
                        props: props_rec(properties, properties@.len() as int),
                        items: items_rec(items, items@.len() as int),
                    },
                    pos: self.spec_pos(),
                }),
            decreases self.tokens@.len() - self.pos,
        {
            let ghost cur = self.spec_pos();
            let ghost acc = ArrayBodyRec {
                mods: modifiers_rec(modifiers, modifiers@.len() as int),
                shared: shareds_rec(shared_properties, shared_properties@.len() as int),
                props: props_rec(properties, properties@.len() as int),
                items: items_rec(items, items@.len() as int),
            };
            proof {
                if cur < self.toks().len() {
                    lemma_trec_at(old(self).toks(), cur);
                }
            }
            if self.check(&TokenKind::Dedent) || self.at_eof() {
                proof {
                    reveal(p_array_body_loop);
                    assert(p_array_body_loop(ts, cur, acc) == (PRes::<ArrayBodyRec>::POk {
                        v: acc,
                        pos: cur,
                    }));
                }
                break ;
            }
            self.skip_newlines();
            if self.check(&TokenKind::Dedent) || self.at_eof() {
                proof {
                    reveal(p_array_body_loop);
                    if self.spec_pos() < self.toks().len() {
                        lemma_trec_at(old(self).toks(), self.spec_pos());
                    }
                    assert(p_array_body_loop(ts, cur, acc) == (PRes::<ArrayBodyRec>::POk {
                        v: acc,
                        pos: self.spec_pos(),
                    }));
                }
                break ;
            }
            let ghost p1 = self.spec_pos();
            proof {
                lemma_trec_at(old(self).toks(), p1);
            }

            if self.check(&TokenKind::Pipe) {
                let ghost vold = modifiers;
                match self.parse_modifier() {
                    Ok(m) => {
                        modifiers.push(m);
                        proof {
                            lemma_modifiers_rec_push(vold, modifiers, vold@.len() as int);
                        }
                    },
                    Err(e) => {
                        proof {
                            reveal(p_modifier);
                            reveal(p_array_body_loop);
                            reveal(p_array_body);
                        }
                        return Err(e);
                    },
                }
                proof {
                    reveal(p_modifier);
                    reveal(p_array_body_loop);
                    assert(modifiers_rec(modifiers, modifiers@.len() as int) =~= acc.mods.push(
                        modifier_rec(modifiers@.last()),
                    ));
                    assert(p_array_body_loop(ts, cur, acc) == p_array_body_loop(
                        ts,
                        self.spec_pos(),
                        ArrayBodyRec {
                            mods: modifiers_rec(modifiers, modifiers@.len() as int),
                            shared: shareds_rec(
                                shared_properties,
                                shared_properties@.len() as int,
                            ),
                            props: props_rec(properties, properties@.len() as int),
                            items: items_rec(items, items@.len() as int),
                        },
                    ));
                }
            } else if self.check(&TokenKind::Dot) {
                let ghost vold = shared_properties;
                match self.parse_shared_property() {
                    Ok(sp) => {
                        shared_properties.push(sp);
                        proof {
                            lemma_shareds_rec_push(vold, shared_properties, vold@.len() as int);
                        }
                    },
                    Err(e) => {
                        proof {
                            reveal(p_shared);
                            reveal(p_array_body_loop);
                            reveal(p_array_body);
                        }
                        return Err(e);
                    },
                }
                proof {
                    reveal(p_shared);
                    reveal(p_array_body_loop);
                    assert(shareds_rec(shared_properties, shared_properties@.len() as int)
                        =~= acc.shared.push(
                        SharedRec {
                            name: ident_rec(shared_properties@.last().name),
                            body: body_rec(shared_properties@.last().body),
                        },
                    ));
                    assert(p_array_body_loop(ts, cur, acc) == p_array_body_loop(
                        ts,
                        self.spec_pos(),
                        ArrayBodyRec {
                            mods: modifiers_rec(modifiers, modifiers@.len() as int),
                            shared: shareds_rec(
                                shared_properties,
                                shared_properties@.len() as int,
                            ),
                            props: props_rec(properties, properties@.len() as int),
                            items: items_rec(items, items@.len() as int),
                        },
                    ));
                }
            } else if self.check(&TokenKind::Dash) {
                let ghost vold = items;
                match self.parse_list_item() {
                    Ok(i) => {
                        items.push(i);
                        proof {
                            lemma_items_rec_push(vold, items, vold@.len() as int);
                        }
                    },
                    Err(e) => {
                        proof {
                            reveal(p_list_item);
                            reveal(p_array_body_loop);
                            reveal(p_array_body);
                        }
                        return Err(e);
                    },
                }
                proof {
                    reveal(p_list_item);
                    reveal(p_array_body_loop);
                    assert(items_rec(items, items@.len() as int) =~= acc.items.push(
                        item_rec(items@.last()),
                    ));
                    assert(p_array_body_loop(ts, cur, acc) == p_array_body_loop(
                        ts,
                        self.spec_pos(),
                        ArrayBodyRec {
                            mods: modifiers_rec(modifiers, modifiers@.len() as int),
                            shared: shareds_rec(
                                shared_properties,
                                shared_properties@.len() as int,
                            ),
                            props: props_rec(properties, properties@.len() as int),
                            items: items_rec(items, items@.len() as int),
                        },
                    ));
                }
            } else if self.check(&TokenKind::Identifier(<String as StringExecFns>::from_str(""))) {
                let ident = match self.expect_identifier() {
                    Ok(id) => id,
                    Err(e) => {
                        return Err(e);
                    },
                };
                proof {
                    if p1 + 1 < self.toks().len() {
                        lemma_trec_at(old(self).toks(), p1 + 1);
                    }
                }
                if self.check(&TokenKind::Equals) {
                    let ghost vold = properties;
                    match self.parse_property_rest(ident) {
                        Ok(p) => {
                            properties.push(p);
                            proof {
                                lemma_props_rec_push(vold, properties, vold@.len() as int);
                            }
                        },
                        Err(e) => {
                            proof {
                                reveal(p_property_rest);
                                reveal(p_array_body_loop);
                                reveal(p_array_body);
                            }
                            return Err(e);
                        },
                    }
                    proof {
                        reveal(p_property_rest);
                        reveal(p_array_body_loop);
                        assert(props_rec(properties, properties@.len() as int) =~= acc.props.push(
                            PropRec {
                                name: ident_rec(properties@.last().name),
                                value: spanned_value_rec(properties@.last().value),
                            },
                        ));
                        assert(p_array_body_loop(ts, cur, acc) == p_array_body_loop(
                            ts,
                            self.spec_pos(),
                            ArrayBodyRec {
                                mods: modifiers_rec(modifiers, modifiers@.len() as int),
                                shared: shareds_rec(
                                    shared_properties,
                                    shared_properties@.len() as int,
                                ),
                                props: props_rec(properties, properties@.len() as int),
                                items: items_rec(items, items@.len() as int),
                            },
                        ));
                    }
                } else {
                    let mut msg = <String as StringExecFns>::from_str("unexpected '");
                    StringExecFns::append(&mut msg, ident.name.as_str());
                    StringExecFns::append(&mut msg, "' in array body");
                    proof {
                        reveal(p_array_body_loop);
                        reveal(p_array_body);
                        if self.spec_pos() < self.toks().len() {
                            lemma_trec_at(old(self).toks(), self.spec_pos());
                        }
                    }
                    return Err(NmlError::parse(msg, ident.span));
                }
            } else {
                proof {
                    reveal(p_array_body_loop);
                    reveal(p_array_body);
                }
                return Err(
                    NmlError::parse(
                        <String as StringExecFns>::from_str("unexpected token in array body"),
                        self.current_span(),
                    ),
                );
            }
        }

        let ghost exitp = self.spec_pos();
        proof {
            reveal(p_array_body);
            reveal(p_array_body_loop);
            if exitp < self.toks().len() {
                lemma_trec_at(old(self).toks(), exitp);
            }
        }
        if self.check(&TokenKind::Dedent) {
            self.advance();
        }
        let b = ArrayBody { modifiers, shared_properties, properties, items };
        proof {
            assert(array_body_rec(b) == (ArrayBodyRec {
                mods: modifiers_rec(b.modifiers, b.modifiers@.len() as int),
                shared: shareds_rec(b.shared_properties, b.shared_properties@.len() as int),
                props: props_rec(b.properties, b.properties@.len() as int),
                items: items_rec(b.items, b.items@.len() as int),
            }));
        }
        Ok(b)
    }

    /// Parses a declaration's name: an identifier, or a role-reference
    /// literal for declarations whose name is itself a role.
    fn parse_declaration_name(&mut self) -> (r: NmlResult<Identifier>)
        requires
            old(self).wf(),
        ensures
            final (self).wf(),
            final (self).toks() == old(self).toks(),
            old(self).spec_pos() <= final (self).spec_pos(),
            r is Ok ==> old(self).spec_pos() < final (self).spec_pos(),
            r matches Err(e) ==> parser_error(e),
            ({
                let ts = token_recs(old(self).toks());
                match p_decl_name(ts, old(self).spec_pos()) {
                    PRes::POk { v, pos } => r matches Ok(id) && ident_rec(id) == v && final (
                    self).spec_pos() == pos,
                    PRes::PFail { kind, message, span } => r matches Err(e) && (e is Parse <==> kind
                    is ParseK) && (e is InvalidMoney <==> kind is MoneyK) && e.spec_message()
                    == message && e.spec_span() == span,
                }
            }),
    {
        proof {
            assert(token_recs(self.toks()).len() == self.toks().len());
            if self.spec_pos() < self.toks().len() {
                lemma_trec_at(self.toks(), self.spec_pos());
            }
        }
        let is_role = self.pos < self.tokens.len() && matches!(
            self.tokens[self.pos].kind,
            TokenKind::RoleRef(_),
        );
        if is_role {
            let span = self.current_span();
            let name = match &self.tokens[self.pos].kind {
                TokenKind::RoleRef(t) => t.clone(),
                _ => <String as StringExecFns>::from_str(""),
            };
            self.advance();
            Ok(Identifier::new(name, span))
        } else {
            self.expect_identifier()
        }
    }

    /// Parses an array declaration after its `[]` sigil.
    fn parse_array_declaration(&mut self, start_span: Span) -> (r: NmlResult<Declaration>)
        requires
            old(self).wf(),
        ensures
            final (self).wf(),
            final (self).toks() == old(self).toks(),
            old(self).spec_pos() <= final (self).spec_pos(),
            r is Ok ==> old(self).spec_pos() < final (self).spec_pos(),
            r matches Err(e) ==> parser_error(e),
            r matches Ok(d) ==> d.kind is Array,
            ({
                let ts = token_recs(old(self).toks());
                match p_array_decl(ts, old(self).spec_pos(), start_span) {
                    PRes::POk { v, pos } => r matches Ok(d) && decl_rec(d) == v && final (
                    self).spec_pos() == pos,
                    PRes::PFail { kind, message, span } => r matches Err(e) && (e is Parse <==> kind
                    is ParseK) && (e is InvalidMoney <==> kind is MoneyK) && e.spec_message()
                    == message && e.spec_span() == span,
                }
            }),
    {
        let ghost ts = token_recs(self.toks());
        let ghost p0 = self.spec_pos();
        proof {
            reveal(p_array_decl);
            assert(token_recs(self.toks()).len() == self.toks().len());
            if p0 < self.toks().len() {
                lemma_trec_at(self.toks(), p0);
            }
            if p0 + 1 < self.toks().len() {
                lemma_trec_at(self.toks(), p0 + 1);
            }
            if p0 + 2 < self.toks().len() {
                lemma_trec_at(self.toks(), p0 + 2);
            }
            if p0 + 3 < self.toks().len() {
                lemma_trec_at(self.toks(), p0 + 3);
            }
        }
        match self.expect_kind(&TokenKind::ArrayPrefix) {
            Ok(_) => {},
            Err(e) => {
                return Err(e);
            },
        }
        let item_keyword = match self.expect_identifier() {
            Ok(id) => id,
            Err(e) => {
                return Err(e);
            },
        };
        let name = match self.expect_identifier() {
            Ok(id) => id,
            Err(e) => {
                return Err(e);
            },
        };
        match self.expect_kind(&TokenKind::Colon) {
            Ok(_) => {},
            Err(e) => {
                return Err(e);
            },
        }
        self.skip_newlines();
        let body = match self.parse_array_body() {
            Ok(b) => b,
            Err(e) => {
                return Err(e);
            },
        };
        let end_span = self.prev_span();
        let d = Declaration {
            kind: DeclarationKind::Array(ArrayDecl { item_keyword, name, body }),
            span: start_span.merge(end_span),
        };
        proof {
            reveal(p_array_decl);
            assert(p_array_decl(ts, p0, start_span) == (PRes::<DeclRec>::POk {
                v: decl_rec(d),
                pos: self.spec_pos(),
            }));
        }
        Ok(d)
    }

    /// Parses a block declaration: `keyword Name: <body>`.
    fn parse_block_declaration(&mut self, start_span: Span) -> (r: NmlResult<Declaration>)
        requires
            old(self).wf(),
        ensures
            final (self).wf(),
            final (self).toks() == old(self).toks(),
            old(self).spec_pos() <= final (self).spec_pos(),
            r is Ok ==> old(self).spec_pos() < final (self).spec_pos(),
            r matches Err(e) ==> parser_error(e),
            r matches Ok(d) ==> d.kind is Block,
            ({
                let ts = token_recs(old(self).toks());
                match p_block_decl(ts, old(self).spec_pos(), start_span) {
                    PRes::POk { v, pos } => r matches Ok(d) && decl_rec(d) == v && final (
                    self).spec_pos() == pos,
                    PRes::PFail { kind, message, span } => r matches Err(e) && (e is Parse <==> kind
                    is ParseK) && (e is InvalidMoney <==> kind is MoneyK) && e.spec_message()
                    == message && e.spec_span() == span,
                }
            }),
    {
        let ghost ts = token_recs(self.toks());
        let ghost p0 = self.spec_pos();
        proof {
            reveal(p_block_decl);
            assert(token_recs(self.toks()).len() == self.toks().len());
            if p0 < self.toks().len() {
                lemma_trec_at(self.toks(), p0);
            }
        }
        let keyword = match self.expect_identifier() {
            Ok(id) => id,
            Err(e) => {
                return Err(e);
            },
        };
        let name = match self.parse_declaration_name() {
            Ok(id) => id,
            Err(e) => {
                return Err(e);
            },
        };
        let ghost p1 = self.spec_pos();
        proof {
            if p1 < self.toks().len() {
                lemma_trec_at(self.toks(), p1);
            }
        }
        match self.expect_kind(&TokenKind::Colon) {
            Ok(_) => {},
            Err(e) => {
                return Err(e);
            },
        }
        self.skip_newlines();
        let body = match self.parse_body() {
            Ok(b) => b,
            Err(e) => {
                return Err(e);
            },
        };
        let end_span = self.prev_span();
        let d = Declaration {
            kind: DeclarationKind::Block(BlockDecl { keyword, name, body }),
            span: start_span.merge(end_span),
        };
        proof {
            reveal(p_block_decl);
            assert(p_block_decl(ts, p0, start_span) == (PRes::<DeclRec>::POk {
                v: decl_rec(d),
                pos: self.spec_pos(),
            }));
        }
        Ok(d)
    }

    /// Parses one top-level declaration: an array declaration when the `[]`
    /// sigil leads, else a block declaration.
    fn parse_declaration(&mut self) -> (r: NmlResult<Declaration>)
        requires
            old(self).wf(),
        ensures
            final (self).wf(),
            final (self).toks() == old(self).toks(),
            old(self).spec_pos() <= final (self).spec_pos(),
            r is Ok ==> old(self).spec_pos() < final (self).spec_pos(),
            r matches Err(e) ==> parser_error(e),
            ({
                let ts = token_recs(old(self).toks());
                match p_decl(ts, old(self).spec_pos()) {
                    PRes::POk { v, pos } => r matches Ok(d) && decl_rec(d) == v && final (
                    self).spec_pos() == pos,
                    PRes::PFail { kind, message, span } => r matches Err(e) && (e is Parse <==> kind
                    is ParseK) && (e is InvalidMoney <==> kind is MoneyK) && e.spec_message()
                    == message && e.spec_span() == span,
                }
            }),
    {
        let ghost p0 = self.spec_pos();
        proof {
            reveal(p_decl);
            assert(token_recs(self.toks()).len() == self.toks().len());
            if p0 < self.toks().len() {
                lemma_trec_at(self.toks(), p0);
            }
        }
        let start_span = self.current_span();
        if self.check(&TokenKind::ArrayPrefix) {
            self.parse_array_declaration(start_span)
        } else {
            self.parse_block_declaration(start_span)
        }
    }

    /// Parses a whole file: declarations separated by newlines, to `Eof`.
    pub fn parse(&mut self) -> (r: NmlResult<File>)
        requires
            old(self).wf(),
        ensures
            final (self).wf(),
            r matches Err(e) ==> parser_error(e),
            ({
                let ts = token_recs(old(self).toks());
                match p_file(ts, old(self).spec_pos()) {
                    PRes::POk { v, pos } => r matches Ok(f) && file_rec(f) == v && final (
                    self).spec_pos() == pos,
                    PRes::PFail { kind, message, span } => r matches Err(e) && (e is Parse <==> kind
                        is ParseK) && (e is InvalidMoney <==> kind is MoneyK) && e.spec_message()
                        == message && e.spec_span() == span,
                }
            }),
    {
        let ghost ts = token_recs(self.toks());
        let ghost p0 = self.spec_pos();
        let mut declarations: Vec<Declaration> = Vec::new();
        proof {
            assert(token_recs(self.toks()).len() == self.toks().len());
            assert(decls_rec(declarations, declarations@.len() as int) =~= Seq::<
                DeclRec,
            >::empty());
        }

        loop
            invariant_except_break
                self.wf(),
                self.tokens@ == old(self).toks(),
                ts == token_recs(old(self).toks()),
                ts.len() == old(self).toks().len(),
                p0 == old(self).spec_pos(),
                0 <= p0 <= self.pos as int,
                self.pos as int <= self.tokens@.len(),
                p_decls(ts, p0, Seq::empty()) == p_decls(
                    ts,
                    self.spec_pos(),
                    decls_rec(declarations, declarations@.len() as int),
                ),
            ensures
                self.wf(),
                self.tokens@ == old(self).toks(),
                ts == token_recs(old(self).toks()),
                ts.len() == old(self).toks().len(),
                p0 == old(self).spec_pos(),
                p_decls(ts, p0, Seq::empty()) == (PRes::<Seq<DeclRec>>::POk {
                    v: decls_rec(declarations, declarations@.len() as int),
                    pos: self.spec_pos(),
                }),
            decreases self.tokens@.len() - self.pos,
        {
            let ghost cur = self.spec_pos();
            let ghost accd = decls_rec(declarations, declarations@.len() as int);
            proof {
                if cur < self.toks().len() {
                    lemma_trec_at(old(self).toks(), cur);
                }
            }
            if self.at_eof() {
                proof {
                    reveal(p_decls);
                    assert(p_decls(ts, cur, accd) == (PRes::<Seq<DeclRec>>::POk {
                        v: accd,
                        pos: cur,
                    }));
                }
                break ;
            }
            self.skip_newlines();
            if self.at_eof() {
                proof {
                    reveal(p_decls);
                    if self.spec_pos() < self.toks().len() {
                        lemma_trec_at(old(self).toks(), self.spec_pos());
                    }
                    assert(p_decls(ts, cur, accd) == (PRes::<Seq<DeclRec>>::POk {
                        v: accd,
                        pos: self.spec_pos(),
                    }));
                }
                break ;
            }
            let ghost p1 = self.spec_pos();
            proof {
                lemma_trec_at(old(self).toks(), p1);
            }
            let ghost vold = declarations;
            match self.parse_declaration() {
                Ok(d) => {
                    declarations.push(d);
                    proof {
                        lemma_decls_rec_push(vold, declarations, vold@.len() as int);
                    }
                },
                Err(e) => {
                    proof {
                        reveal(p_decl);
                        reveal(p_decls);
                    }
                    return Err(e);
                },
            }
            proof {
                reveal(p_decl);
                reveal(p_decls);
                assert(decls_rec(declarations, declarations@.len() as int) =~= accd.push(
                    decl_rec(declarations@.last()),
                ));
                assert(p_decls(ts, cur, accd) == p_decls(
                    ts,
                    self.spec_pos(),
                    decls_rec(declarations, declarations@.len() as int),
                ));
            }
        }

        let f = File { declarations };
        proof {
            assert(file_rec(f) == (FileRec {
                decls: decls_rec(f.declarations, f.declarations@.len() as int),
            }));
        }
        Ok(f)
    }
}

/// Parse NML source text into an AST: tokenize, then run the
/// recursive-descent parser. A failure is the first lexical, syntactic, or
/// money error met.
pub fn parse(source: &str) -> (r: NmlResult<File>)
    ensures
        r matches Err(e) ==> (e is Lex || e is Parse || e is InvalidMoney),
        ({
            match parse_spec(source@) {
                ParseOut::POutOk(v) => r matches Ok(f) && file_rec(f) == v,
                ParseOut::POutErr { lex, money, message, span } => r matches Err(e) && (e is Lex
                    <==> lex) && (e is InvalidMoney <==> money) && (e is Parse <==> !lex && !money)
                    && e.spec_message() == message && e.spec_span() == span,
            }
        }),
{
    let mut lexer = crate::lexer::Lexer::new(source);
    let tokens = match lexer.tokenize() {
        Ok(t) => t,
        Err(e) => {
            return Err(e);
        },
    };
    let mut parser = Parser::new(tokens);
    parser.parse()
}

broadcast use vstd::std_specs::vec::axiom_vec_index_decreases;

/// An identifier as plain values.
pub struct IdentRec {
    pub name: Seq<char>,
    pub span: Span,
}

pub open spec fn ident_rec(i: Identifier) -> IdentRec {
    IdentRec { name: i.name@, span: i.span }
}

/// A value as plain values; a money literal carries its exact minor units.
pub enum ValueRec {
    StrV(Seq<char>),
    NumV(Seq<char>),
    MoneyV { amount: int, currency: Seq<char>, exponent: u8 },
    BoolV(bool),
    DurV(Seq<char>),
    PathV(Seq<char>),
    SecretV(Seq<char>),
    RoleV(Seq<char>),
    RefV(Seq<char>),
    ArrayV(Seq<SpannedValueRec>),
}

pub struct SpannedValueRec {
    pub value: ValueRec,
    pub span: Span,
}

pub open spec fn value_rec(v: Value) -> ValueRec
    decreases v, 1int, 0int,
{
    match v {
        Value::String(t) => ValueRec::StrV(t@),
        Value::Number(t) => ValueRec::NumV(t@),
        Value::Money(m) => ValueRec::MoneyV {
            amount: m.amount as int,
            currency: m.currency@,
            exponent: m.exponent,
        },
        Value::Bool(b) => ValueRec::BoolV(b),
        Value::Duration(t) => ValueRec::DurV(t@),
        Value::Path(t) => ValueRec::PathV(t@),
        Value::Secret(t) => ValueRec::SecretV(t@),
        Value::RoleRef(t) => ValueRec::RoleV(t@),
        Value::Reference(t) => ValueRec::RefV(t@),
        Value::Array(items) => ValueRec::ArrayV(svalues_rec(items, items@.len() as int)),
    }
}

/// The records of the first `i` elements of an array value.
pub open spec fn svalues_rec(items: Vec<SpannedValue>, i: int) -> Seq<SpannedValueRec>
    decreases items, 0int, i,
{
    if i <= 0 || i > items@.len() {
        Seq::empty()
    } else {
        svalues_rec(items, i - 1) + seq![spanned_value_rec(items@[i - 1])]
    }
}

pub open spec fn spanned_value_rec(sv: SpannedValue) -> SpannedValueRec
    decreases sv, 1int, 0int,
{
    SpannedValueRec { value: value_rec(sv.value), span: sv.span }
}

pub enum TypeExprRec {
    NamedT(IdentRec),
    ArrayT(IdentRec),
}

pub open spec fn type_expr_rec(t: FieldTypeExpr) -> TypeExprRec {
    match t {
        FieldTypeExpr::Named(i) => TypeExprRec::NamedT(ident_rec(i)),
        FieldTypeExpr::Array(i) => TypeExprRec::ArrayT(ident_rec(i)),
    }
}

pub struct FieldDefRec {
    pub name: IdentRec,
    pub ty: TypeExprRec,
    pub optional: bool,
    pub default: Option<SpannedValueRec>,
}

pub open spec fn field_def_rec(f: FieldDefinition) -> FieldDefRec
    decreases f,
{
    FieldDefRec {
        name: ident_rec(f.name),
        ty: type_expr_rec(f.field_type),
        optional: f.optional,
        default: match f.default_value {
            Some(sv) => Some(spanned_value_rec(sv)),
            None => None,
        },
    }
}

pub enum ModValRec {
    InlineM(SpannedValueRec),
    BlockM(Seq<ItemRec>),
    TypeM { ty: TypeExprRec, optional: bool },
}

pub struct ModifierRec {
    pub name: IdentRec,
    pub value: ModValRec,
}

pub open spec fn modifier_rec(m: Modifier) -> ModifierRec
    decreases m, 2int, 0int,
{
    ModifierRec {
        name: ident_rec(m.name),
        value: match m.value {
            ModifierValue::Inline(sv) => ModValRec::InlineM(spanned_value_rec(sv)),
            ModifierValue::Block(items) => ModValRec::BlockM(
                items_rec(items, items@.len() as int),
            ),
            ModifierValue::TypeAnnotation { field_type, optional } => ModValRec::TypeM {
                ty: type_expr_rec(field_type),
                optional,
            },
        },
    }
}

/// The records of the first `i` list items.
pub open spec fn items_rec(items: Vec<ListItem>, i: int) -> Seq<ItemRec>
    decreases items, 1int, i,
{
    if i <= 0 || i > items@.len() {
        Seq::empty()
    } else {
        items_rec(items, i - 1) + seq![item_rec(items@[i - 1])]
    }
}

pub enum ItemKindRec {
    NamedI { name: IdentRec, body: BodyRec },
    ShorthandI(SpannedValueRec),
    RefI(IdentRec),
    RoleI(Seq<char>),
}

pub struct ItemRec {
    pub kind: ItemKindRec,
    pub span: Span,
}

pub open spec fn item_rec(item: ListItem) -> ItemRec
    decreases item, 2int, 0int,
{
    ItemRec {
        kind: match item.kind {
            ListItemKind::Named { name, body } => ItemKindRec::NamedI {
                name: ident_rec(name),
                body: body_rec(body),
            },
            ListItemKind::Shorthand(sv) => ItemKindRec::ShorthandI(spanned_value_rec(sv)),
            ListItemKind::Reference(i) => ItemKindRec::RefI(ident_rec(i)),
            ListItemKind::RoleRef(t) => ItemKindRec::RoleI(t@),
        },
        span: item.span,
    }
}

pub enum EntryKindRec {
    PropE { name: IdentRec, value: SpannedValueRec },
    NestedE { name: IdentRec, body: BodyRec },
    ModE(ModifierRec),
    SharedE { name: IdentRec, body: BodyRec },
    ItemE(ItemRec),
    FieldE(FieldDefRec),
}

pub struct EntryRec {
    pub kind: EntryKindRec,
    pub span: Span,
}

pub open spec fn entry_rec(e: BodyEntry) -> EntryRec
    decreases e, 3int, 0int,
{
    EntryRec {
        kind: match e.kind {
            BodyEntryKind::Property(p) => EntryKindRec::PropE {
                name: ident_rec(p.name),
                value: spanned_value_rec(p.value),
            },
            BodyEntryKind::NestedBlock(nb) => EntryKindRec::NestedE {
                name: ident_rec(nb.name),
                body: body_rec(nb.body),
            },
            BodyEntryKind::Modifier(m) => EntryKindRec::ModE(modifier_rec(m)),
            BodyEntryKind::SharedProperty(sp) => EntryKindRec::SharedE {
                name: ident_rec(sp.name),
                body: body_rec(sp.body),
            },
            BodyEntryKind::ListItem(item) => EntryKindRec::ItemE(item_rec(item)),
            BodyEntryKind::FieldDefinition(f) => EntryKindRec::FieldE(field_def_rec(f)),
        },
        span: e.span,
    }
}

/// The records of the first `i` entries of a body.
pub open spec fn entries_rec(es: Vec<BodyEntry>, i: int) -> Seq<EntryRec>
    decreases es, 2int, i,
{
    if i <= 0 || i > es@.len() {
        Seq::empty()
    } else {
        entries_rec(es, i - 1) + seq![entry_rec(es@[i - 1])]
    }
}

pub struct BodyRec {
    pub entries: Seq<EntryRec>,
}

pub open spec fn body_rec(b: Body) -> BodyRec
    decreases b, 4int, 0int,
{
    BodyRec { entries: entries_rec(b.entries, b.entries@.len() as int) }
}

/// The records of the first `i` modifiers.
pub open spec fn modifiers_rec(ms: Vec<Modifier>, i: int) -> Seq<ModifierRec>
    decreases ms, 3int, i,
{
    if i <= 0 || i > ms@.len() {
        Seq::empty()
    } else {
        modifiers_rec(ms, i - 1) + seq![modifier_rec(ms@[i - 1])]
    }
}

pub struct SharedRec {
    pub name: IdentRec,
    pub body: BodyRec,
}

/// The records of the first `i` shared properties.
pub open spec fn shareds_rec(sps: Vec<SharedProperty>, i: int) -> Seq<SharedRec>
    decreases sps, 3int, i,
{
    if i <= 0 || i > sps@.len() {
        Seq::empty()
    } else {
        shareds_rec(sps, i - 1) + seq![
            SharedRec {
                name: ident_rec(sps@[i - 1].name),
                body: body_rec(sps@[i - 1].body),
            },
        ]
    }
}

pub struct PropRec {
    pub name: IdentRec,
    pub value: SpannedValueRec,
}

/// The records of the first `i` flat properties.
pub open spec fn props_rec(ps: Vec<Property>, i: int) -> Seq<PropRec>
    decreases ps, 3int, i,
{
    if i <= 0 || i > ps@.len() {
        Seq::empty()
    } else {
        props_rec(ps, i - 1) + seq![
            PropRec {
                name: ident_rec(ps@[i - 1].name),
                value: spanned_value_rec(ps@[i - 1].value),
            },
        ]
    }
}

pub struct ArrayBodyRec {
    pub mods: Seq<ModifierRec>,
    pub shared: Seq<SharedRec>,
    pub props: Seq<PropRec>,
    pub items: Seq<ItemRec>,
}

pub open spec fn array_body_rec(b: ArrayBody) -> ArrayBodyRec
    decreases b,
{
    ArrayBodyRec {
        mods: modifiers_rec(b.modifiers, b.modifiers@.len() as int),
        shared: shareds_rec(b.shared_properties, b.shared_properties@.len() as int),
        props: props_rec(b.properties, b.properties@.len() as int),
        items: items_rec(b.items, b.items@.len() as int),
    }
}

pub enum DeclKindRec {
    BlockD { keyword: IdentRec, name: IdentRec, body: BodyRec },
    ArrayD { item_keyword: IdentRec, name: IdentRec, body: ArrayBodyRec },
}

pub struct DeclRec {
    pub kind: DeclKindRec,
    pub span: Span,
}

pub open spec fn decl_rec(d: Declaration) -> DeclRec
    decreases d,
{
    DeclRec {
        kind: match d.kind {
            DeclarationKind::Block(b) => DeclKindRec::BlockD {
                keyword: ident_rec(b.keyword),
                name: ident_rec(b.name),
                body: body_rec(b.body),
            },
            DeclarationKind::Array(a) => DeclKindRec::ArrayD {
                item_keyword: ident_rec(a.item_keyword),
                name: ident_rec(a.name),
                body: array_body_rec(a.body),
            },
        },
        span: d.span,
    }
}

/// The records of the first `i` declarations.
pub open spec fn decls_rec(ds: Vec<Declaration>, i: int) -> Seq<DeclRec>
    decreases ds, 0int, i,
{
    if i <= 0 || i > ds@.len() {
        Seq::empty()
    } else {
        decls_rec(ds, i - 1) + seq![decl_rec(ds@[i - 1])]
    }
}

pub struct FileRec {
    pub decls: Seq<DeclRec>,
}

pub open spec fn file_rec(f: File) -> FileRec {
    FileRec { decls: decls_rec(f.declarations, f.declarations@.len() as int) }
}

use crate::lexer::TokRec;
use crate::lexer::TokenRec;
use crate::lexer::token_recs;
use crate::span::spec_merge;

/// Which error a failed production raises.
pub enum PErrKind {
    ParseK,
    MoneyK,
}

/// The outcome of a spec-level production: the parsed record with the cursor
/// after it, or the error's kind, message, and span.
pub enum PRes<T> {
    POk { v: T, pos: int },
    PFail { kind: PErrKind, message: Seq<char>, span: Span },
}

/// Element records ignore entries past the index, so pushing leaves the
/// prefix's records unchanged.
proof fn lemma_svalues_rec_push(v1: Vec<SpannedValue>, v2: Vec<SpannedValue>, i: int)
    requires
        v2@ == v1@.push(v2@[v2@.len() - 1]),
        v2@.len() == v1@.len() + 1,
        0 <= i <= v1@.len(),
    ensures
        svalues_rec(v2, i) == svalues_rec(v1, i),
    decreases i,
{
    if i > 0 {
        lemma_svalues_rec_push(v1, v2, i - 1);
        assert(v2@[i - 1] == v1@[i - 1]);
    }
}

proof fn lemma_entries_rec_push(v1: Vec<BodyEntry>, v2: Vec<BodyEntry>, i: int)
    requires
        v2@ == v1@.push(v2@[v2@.len() - 1]),
        v2@.len() == v1@.len() + 1,
        0 <= i <= v1@.len(),
    ensures
        entries_rec(v2, i) == entries_rec(v1, i),
    decreases i,
{
    if i > 0 {
        lemma_entries_rec_push(v1, v2, i - 1);
        assert(v2@[i - 1] == v1@[i - 1]);
    }
}

proof fn lemma_items_rec_push(v1: Vec<ListItem>, v2: Vec<ListItem>, i: int)
    requires
        v2@ == v1@.push(v2@[v2@.len() - 1]),
        v2@.len() == v1@.len() + 1,
        0 <= i <= v1@.len(),
    ensures
        items_rec(v2, i) == items_rec(v1, i),
    decreases i,
{
    if i > 0 {
        lemma_items_rec_push(v1, v2, i - 1);
        assert(v2@[i - 1] == v1@[i - 1]);
    }
}

proof fn lemma_modifiers_rec_push(v1: Vec<Modifier>, v2: Vec<Modifier>, i: int)
    requires
        v2@ == v1@.push(v2@[v2@.len() - 1]),
        v2@.len() == v1@.len() + 1,
        0 <= i <= v1@.len(),
    ensures
        modifiers_rec(v2, i) == modifiers_rec(v1, i),
    decreases i,
{
    if i > 0 {
        lemma_modifiers_rec_push(v1, v2, i - 1);
        assert(v2@[i - 1] == v1@[i - 1]);
    }
}

proof fn lemma_shareds_rec_push(v1: Vec<SharedProperty>, v2: Vec<SharedProperty>, i: int)
    requires
        v2@ == v1@.push(v2@[v2@.len() - 1]),
        v2@.len() == v1@.len() + 1,
        0 <= i <= v1@.len(),
    ensures
        shareds_rec(v2, i) == shareds_rec(v1, i),
    decreases i,
{
    if i > 0 {
        lemma_shareds_rec_push(v1, v2, i - 1);
        assert(v2@[i - 1] == v1@[i - 1]);
    }
}

proof fn lemma_props_rec_push(v1: Vec<Property>, v2: Vec<Property>, i: int)
    requires
        v2@ == v1@.push(v2@[v2@.len() - 1]),
        v2@.len() == v1@.len() + 1,
        0 <= i <= v1@.len(),
    ensures
        props_rec(v2, i) == props_rec(v1, i),
    decreases i,
{
    if i > 0 {
        lemma_props_rec_push(v1, v2, i - 1);
        assert(v2@[i - 1] == v1@[i - 1]);
    }
}

proof fn lemma_decls_rec_push(v1: Vec<Declaration>, v2: Vec<Declaration>, i: int)
    requires
        v2@ == v1@.push(v2@[v2@.len() - 1]),
        v2@.len() == v1@.len() + 1,
        0 <= i <= v1@.len(),
    ensures
        decls_rec(v2, i) == decls_rec(v1, i),
    decreases i,
{
    if i > 0 {
        lemma_decls_rec_push(v1, v2, i - 1);
        assert(v2@[i - 1] == v1@[i - 1]);
    }
}

/// The token record at an index.
pub proof fn lemma_trec_at(toks: Seq<Token>, i: int)
    requires
        0 <= i < toks.len(),
    ensures
        token_recs(toks)[i] == crate::lexer::token_rec(toks[i]),
        token_recs(toks).len() == toks.len(),
{
}

pub open spec fn p_cur_span(ts: Seq<TokenRec>, pos: int) -> Span {
    if 0 <= pos < ts.len() {
        ts[pos].span
    } else {
        Span { start: 0, end: 0 }
    }
}

pub open spec fn p_prev_span(ts: Seq<TokenRec>, pos: int) -> Span {
    if 0 < pos <= ts.len() {
        ts[pos - 1].span
    } else {
        Span { start: 0, end: 0 }
    }
}

pub open spec fn p_at_eof(ts: Seq<TokenRec>, pos: int) -> bool {
    pos >= ts.len() || ts[pos].kind is Eof
}

/// The cursor after any run of newline tokens.
pub open spec fn p_skip_nl(ts: Seq<TokenRec>, pos: int) -> int
    decreases ts.len() - pos,
{
    if 0 <= pos < ts.len() && ts[pos].kind is Newline {
        p_skip_nl(ts, pos + 1)
    } else {
        pos
    }
}

pub proof fn lemma_p_skip_nl(ts: Seq<TokenRec>, pos: int)
    requires
        0 <= pos <= ts.len(),
    ensures
        pos <= p_skip_nl(ts, pos) <= ts.len(),
    decreases ts.len() - pos,
{
    if pos < ts.len() && ts[pos].kind is Newline {
        lemma_p_skip_nl(ts, pos + 1);
    }
}

/// The cursor for the next loop step: a sub-production's result, clamped
/// into range past the base; the executable parser always advances within
/// range, so the clamp is never taken there.
pub open spec fn p_step(p: int, base: int, n: int) -> int {
    let q = if p > base {
        p
    } else {
        base + 1
    };
    if q > n {
        n
    } else {
        q
    }
}

/// A field type expression: a named type or an `[]`-prefixed type.
pub open spec fn p_field_type(ts: Seq<TokenRec>, pos: int) -> PRes<TypeExprRec> {
    if 0 <= pos < ts.len() && ts[pos].kind is ArrayPrefix {
        if pos + 1 < ts.len() && ts[pos + 1].kind is Ident {
            PRes::POk {
                v: TypeExprRec::ArrayT(
                    IdentRec { name: ts[pos + 1].kind->Ident_0, span: ts[pos + 1].span },
                ),
                pos: pos + 2,
            }
        } else {
            PRes::PFail {
                kind: PErrKind::ParseK,
                message: "expected an identifier"@,
                span: p_cur_span(ts, pos + 1),
            }
        }
    } else {
        if 0 <= pos < ts.len() && ts[pos].kind is Ident {
            PRes::POk {
                v: TypeExprRec::NamedT(IdentRec { name: ts[pos].kind->Ident_0, span: ts[pos].span }),
                pos: pos + 1,
            }
        } else {
            PRes::PFail {
                kind: PErrKind::ParseK,
                message: "expected an identifier"@,
                span: p_cur_span(ts, pos),
            }
        }
    }
}

/// A value: string, number (promoted to money before a currency code), bool,
/// secret, role reference, bracketed array, or bare reference.
#[verifier::opaque]
pub open spec fn p_value(ts: Seq<TokenRec>, pos: int) -> PRes<SpannedValueRec>
    decreases ts.len() - pos, 1int, 0int,
{
    if pos < 0 || pos >= ts.len() {
        PRes::PFail {
            kind: PErrKind::ParseK,
            message: "expected a value"@,
            span: p_cur_span(ts, pos),
        }
    } else {
        let sp = ts[pos].span;
        match ts[pos].kind {
            TokRec::StrLit(t) => PRes::POk {
                v: SpannedValueRec { value: ValueRec::StrV(t), span: sp },
                pos: pos + 1,
            },
            TokRec::NumLit(t) => {
                if pos + 1 < ts.len() && ts[pos + 1].kind is Currency {
                    let code = ts[pos + 1].kind->Currency_0;
                    let full = spec_merge(sp, ts[pos + 1].span);
                    if crate::money::money_parses(t, code) {
                        let e = crate::money::currency_exponent_spec(code)->0;
                        PRes::POk {
                            v: SpannedValueRec {
                                value: ValueRec::MoneyV {
                                    amount: crate::money::money_minor_units(t, e),
                                    currency: code,
                                    exponent: e,
                                },
                                span: full,
                            },
                            pos: pos + 2,
                        }
                    } else {
                        PRes::PFail {
                            kind: PErrKind::MoneyK,
                            message: crate::money::money_err_msg(t, code),
                            span: full,
                        }
                    }
                } else {
                    PRes::POk {
                        v: SpannedValueRec { value: ValueRec::NumV(t), span: sp },
                        pos: pos + 1,
                    }
                }
            },
            TokRec::BoolLit(b) => PRes::POk {
                v: SpannedValueRec { value: ValueRec::BoolV(b), span: sp },
                pos: pos + 1,
            },
            TokRec::Secret(t) => PRes::POk {
                v: SpannedValueRec { value: ValueRec::SecretV(t), span: sp },
                pos: pos + 1,
            },
            TokRec::Role(t) => PRes::POk {
                v: SpannedValueRec { value: ValueRec::RoleV(t), span: sp },
                pos: pos + 1,
            },
            TokRec::BracketOpen => p_array_literal(ts, pos),
            TokRec::Ident(t) => PRes::POk {
                v: SpannedValueRec { value: ValueRec::RefV(t), span: sp },
                pos: pos + 1,
            },
            _ => PRes::PFail {
                kind: PErrKind::ParseK,
                message: "expected a value"@,
                span: sp,
            },
        }
    }
}

/// The elements of a bracketed array, up to the closing bracket.
#[verifier::opaque]
pub open spec fn p_array_elems(ts: Seq<TokenRec>, pos: int, acc: Seq<SpannedValueRec>) -> PRes<
    Seq<SpannedValueRec>,
>
    decreases ts.len() - pos, 2int, 0int,
{
    if pos < 0 || pos > ts.len() {
        PRes::PFail { kind: PErrKind::ParseK, message: Seq::empty(), span: Span { start: 0, end: 0 } }
    } else if (pos < ts.len() && ts[pos].kind is BracketClose) || p_at_eof(ts, pos) {
        PRes::POk { v: acc, pos }
    } else {
        match p_value(ts, pos) {
            PRes::POk { v, pos: p1 } => {
                let p2 = if p1 < ts.len() && ts[p1].kind is Comma {
                    p1 + 1
                } else {
                    p1
                };
                p_array_elems(ts, p_step(p2, pos, ts.len() as int), acc.push(v))
            },
            PRes::PFail { kind, message, span } => PRes::PFail { kind, message, span },
        }
    }
}

/// A bracketed, comma-separated array of values.
#[verifier::opaque]
pub open spec fn p_array_literal(ts: Seq<TokenRec>, pos: int) -> PRes<SpannedValueRec>
    decreases ts.len() - pos, 0int, 0int,
{
    let start = p_cur_span(ts, pos);
    if !(0 <= pos < ts.len() && ts[pos].kind is BracketOpen) {
        PRes::PFail {
            kind: PErrKind::ParseK,
            message: "expected "@ + "BracketOpen"@,
            span: p_cur_span(ts, pos),
        }
    } else {
        match p_array_elems(ts, pos + 1, Seq::empty()) {
            PRes::POk { v: vals, pos: p1 } => {
                let end = p_cur_span(ts, p1);
                if p1 < ts.len() && ts[p1].kind is BracketClose {
                    PRes::POk {
                        v: SpannedValueRec {
                            value: ValueRec::ArrayV(vals),
                            span: spec_merge(start, end),
                        },
                        pos: p1 + 1,
                    }
                } else {
                    PRes::PFail {
                        kind: PErrKind::ParseK,
                        message: "expected "@ + "BracketClose"@,
                        span: p_cur_span(ts, p1),
                    }
                }
            },
            PRes::PFail { kind, message, span } => PRes::PFail { kind, message, span },
        }
    }
}

/// A list item after its dash: shorthand string, role reference, named item
/// with a body, or bare reference.
#[verifier::opaque]
pub open spec fn p_list_item(ts: Seq<TokenRec>, pos: int) -> PRes<ItemRec>
    decreases ts.len() - pos, 1int, 0int,
    via p_list_item_decreases
{
    let dash_span = p_cur_span(ts, pos);
    if !(0 <= pos < ts.len() && ts[pos].kind is Dash) {
        PRes::PFail {
            kind: PErrKind::ParseK,
            message: "expected "@ + "Dash"@,
            span: p_cur_span(ts, pos),
        }
    } else {
        let p1 = pos + 1;
        if p1 < ts.len() && ts[p1].kind is StrLit {
            match p_value(ts, p1) {
                PRes::POk { v, pos: p2 } => PRes::POk {
                    v: ItemRec {
                        kind: ItemKindRec::ShorthandI(v),
                        span: spec_merge(dash_span, v.span),
                    },
                    pos: p_skip_nl(ts, p2),
                },
                PRes::PFail { kind, message, span } => PRes::PFail { kind, message, span },
            }
        } else if p1 < ts.len() && ts[p1].kind is Role {
            PRes::POk {
                v: ItemRec {
                    kind: ItemKindRec::RoleI(ts[p1].kind->Role_0),
                    span: spec_merge(dash_span, ts[p1].span),
                },
                pos: p_skip_nl(ts, p1 + 1),
            }
        } else if p1 < ts.len() && ts[p1].kind is Ident {
            let id = IdentRec { name: ts[p1].kind->Ident_0, span: ts[p1].span };
            if p1 + 1 < ts.len() && ts[p1 + 1].kind is Colon {
                match p_body_prod(ts, p_skip_nl(ts, p1 + 2)) {
                    PRes::POk { v: body, pos: p2 } => PRes::POk {
                        v: ItemRec {
                            kind: ItemKindRec::NamedI { name: id, body },
                            span: spec_merge(dash_span, p_prev_span(ts, p2)),
                        },
                        pos: p2,
                    },
                    PRes::PFail { kind, message, span } => PRes::PFail { kind, message, span },
                }
            } else {
                PRes::POk {
                    v: ItemRec {
                        kind: ItemKindRec::RefI(id),
                        span: spec_merge(dash_span, id.span),
                    },
                    pos: p_skip_nl(ts, p1 + 1),
                }
            }
        } else {
            PRes::PFail {
                kind: PErrKind::ParseK,
                message: "expected an identifier"@,
                span: p_cur_span(ts, p1),
            }
        }
    }
}

/// The items of a block-form modifier or a named list: dash items up to the
/// matching dedent.
#[verifier::opaque]
pub open spec fn p_items_loop(ts: Seq<TokenRec>, pos: int, acc: Seq<ItemRec>) -> PRes<
    Seq<ItemRec>,
>
    decreases ts.len() - pos, 2int, 0int,
    via p_items_loop_decreases
{
    if pos < 0 || pos > ts.len() {
        PRes::PFail { kind: PErrKind::ParseK, message: Seq::empty(), span: Span { start: 0, end: 0 } }
    } else if (pos < ts.len() && ts[pos].kind is Dedent) || p_at_eof(ts, pos) {
        PRes::POk { v: acc, pos }
    } else {
        let p1 = p_skip_nl(ts, pos);
        if (p1 < ts.len() && ts[p1].kind is Dedent) || p_at_eof(ts, p1) {
            PRes::POk { v: acc, pos: p1 }
        } else {
            match p_list_item(ts, p1) {
                PRes::POk { v, pos: p2 } => p_items_loop(
                    ts,
                    p_step(p2, pos, ts.len() as int),
                    acc.push(v),
                ),
                PRes::PFail { kind, message, span } => PRes::PFail { kind, message, span },
            }
        }
    }
}

/// An indented dash list, with its surrounding indent and dedent consumed.
#[verifier::opaque]
pub open spec fn p_list_items(ts: Seq<TokenRec>, pos: int) -> PRes<Seq<ItemRec>>
    decreases ts.len() - pos, 0int, 0int,
{
    if !(0 <= pos < ts.len() && ts[pos].kind is Indent) {
        PRes::POk { v: Seq::empty(), pos }
    } else {
        match p_items_loop(ts, pos + 1, Seq::empty()) {
            PRes::POk { v, pos: p1 } => PRes::POk {
                v,
                pos: if p1 < ts.len() && ts[p1].kind is Dedent {
                    p1 + 1
                } else {
                    p1
                },
            },
            PRes::PFail { kind, message, span } => PRes::PFail { kind, message, span },
        }
    }
}

/// A modifier after its pipe: inline value, block list, or type annotation.
#[verifier::opaque]
pub open spec fn p_modifier(ts: Seq<TokenRec>, pos: int) -> PRes<ModifierRec>
    decreases ts.len() - pos, 1int, 0int,
    via p_modifier_decreases
{
    if !(0 <= pos < ts.len() && ts[pos].kind is Pipe) {
        PRes::PFail {
            kind: PErrKind::ParseK,
            message: "expected "@ + "Pipe"@,
            span: p_cur_span(ts, pos),
        }
    } else if !(pos + 1 < ts.len() && ts[pos + 1].kind is Ident) {
        PRes::PFail {
            kind: PErrKind::ParseK,
            message: "expected an identifier"@,
            span: p_cur_span(ts, pos + 1),
        }
    } else {
        let name = IdentRec { name: ts[pos + 1].kind->Ident_0, span: ts[pos + 1].span };
        let p1 = pos + 2;
        if p1 < ts.len() && ts[p1].kind is Equals {
            match p_value(ts, p1 + 1) {
                PRes::POk { v, pos: p2 } => PRes::POk {
                    v: ModifierRec { name, value: ModValRec::InlineM(v) },
                    pos: p_skip_nl(ts, p2),
                },
                PRes::PFail { kind, message, span } => PRes::PFail { kind, message, span },
            }
        } else if p1 < ts.len() && ts[p1].kind is Colon {
            match p_list_items(ts, p_skip_nl(ts, p1 + 1)) {
                PRes::POk { v, pos: p2 } => PRes::POk {
                    v: ModifierRec { name, value: ModValRec::BlockM(v) },
                    pos: p2,
                },
                PRes::PFail { kind, message, span } => PRes::PFail { kind, message, span },
            }
        } else if p1 < ts.len() && (ts[p1].kind is ArrayPrefix || ts[p1].kind is Ident) {
            match p_field_type(ts, p1) {
                PRes::POk { v: ty, pos: p2 } => {
                    let optional = p2 < ts.len() && ts[p2].kind is Question;
                    let p3 = if optional {
                        p2 + 1
                    } else {
                        p2
                    };
                    PRes::POk {
                        v: ModifierRec { name, value: ModValRec::TypeM { ty, optional } },
                        pos: p_skip_nl(ts, p3),
                    }
                },
                PRes::PFail { kind, message, span } => PRes::PFail { kind, message, span },
            }
        } else {
            PRes::PFail {
                kind: PErrKind::ParseK,
                message: "expected '=' or ':' after modifier '|"@ + name.name + "'"@,
                span: name.span,
            }
        }
    }
}

/// A shared property after its dot: `.key: <body>`.
#[verifier::opaque]
pub open spec fn p_shared(ts: Seq<TokenRec>, pos: int) -> PRes<SharedRec>
    decreases ts.len() - pos, 1int, 0int,
    via p_shared_decreases
{
    if !(0 <= pos < ts.len() && ts[pos].kind is Dot) {
        PRes::PFail {
            kind: PErrKind::ParseK,
            message: "expected "@ + "Dot"@,
            span: p_cur_span(ts, pos),
        }
    } else if !(pos + 1 < ts.len() && ts[pos + 1].kind is Ident) {
        PRes::PFail {
            kind: PErrKind::ParseK,
            message: "expected an identifier"@,
            span: p_cur_span(ts, pos + 1),
        }
    } else if !(pos + 2 < ts.len() && ts[pos + 2].kind is Colon) {
        PRes::PFail {
            kind: PErrKind::ParseK,
            message: "expected "@ + "Colon"@,
            span: p_cur_span(ts, pos + 2),
        }
    } else {
        let name = IdentRec { name: ts[pos + 1].kind->Ident_0, span: ts[pos + 1].span };
        match p_body_prod(ts, p_skip_nl(ts, pos + 3)) {
            PRes::POk { v: body, pos: p1 } => PRes::POk { v: SharedRec { name, body }, pos: p1 },
            PRes::PFail { kind, message, span } => PRes::PFail { kind, message, span },
        }
    }
}

/// The value of a property whose name and `=` position are known.
#[verifier::opaque]
pub open spec fn p_property_rest(ts: Seq<TokenRec>, pos: int, name: IdentRec) -> PRes<PropRec>
    decreases ts.len() - pos, 0int, 0int,
{
    if !(0 <= pos < ts.len() && ts[pos].kind is Equals) {
        PRes::PFail {
            kind: PErrKind::ParseK,
            message: "expected "@ + "Equals"@,
            span: p_cur_span(ts, pos),
        }
    } else {
        match p_value(ts, pos + 1) {
            PRes::POk { v, pos: p1 } => PRes::POk {
                v: PropRec { name, value: v },
                pos: p_skip_nl(ts, p1),
            },
            PRes::PFail { kind, message, span } => PRes::PFail { kind, message, span },
        }
    }
}

/// The body of a nested block whose name is known.
#[verifier::opaque]
pub open spec fn p_nested_rest(ts: Seq<TokenRec>, pos: int) -> PRes<BodyRec>
    decreases ts.len() - pos, 0int, 0int,
    via p_nested_rest_decreases
{
    if !(0 <= pos < ts.len() && ts[pos].kind is Colon) {
        PRes::PFail {
            kind: PErrKind::ParseK,
            message: "expected "@ + "Colon"@,
            span: p_cur_span(ts, pos),
        }
    } else {
        p_body_prod(ts, p_skip_nl(ts, pos + 1))
    }
}

/// One body entry, dispatching on its leading token.
#[verifier::opaque]
pub open spec fn p_body_entry(ts: Seq<TokenRec>, pos: int) -> PRes<EntryRec>
    decreases ts.len() - pos, 2int, 0int,
{
    let span = p_cur_span(ts, pos);
    if pos < 0 || pos > ts.len() {
        PRes::PFail { kind: PErrKind::ParseK, message: Seq::empty(), span: Span { start: 0, end: 0 } }
    } else if pos < ts.len() && ts[pos].kind is Pipe {
        match p_modifier(ts, pos) {
            PRes::POk { v, pos: p1 } => PRes::POk {
                v: EntryRec {
                    kind: EntryKindRec::ModE(v),
                    span: spec_merge(span, p_prev_span(ts, p1)),
                },
                pos: p1,
            },
            PRes::PFail { kind, message, span } => PRes::PFail { kind, message, span },
        }
    } else if pos < ts.len() && ts[pos].kind is Dot {
        match p_shared(ts, pos) {
            PRes::POk { v, pos: p1 } => PRes::POk {
                v: EntryRec {
                    kind: EntryKindRec::SharedE { name: v.name, body: v.body },
                    span: spec_merge(span, p_prev_span(ts, p1)),
                },
                pos: p1,
            },
            PRes::PFail { kind, message, span } => PRes::PFail { kind, message, span },
        }
    } else if pos < ts.len() && ts[pos].kind is Dash {
        match p_list_item(ts, pos) {
            PRes::POk { v, pos: p1 } => PRes::POk {
                v: EntryRec {
                    kind: EntryKindRec::ItemE(v),
                    span: spec_merge(span, p_prev_span(ts, p1)),
                },
                pos: p1,
            },
            PRes::PFail { kind, message, span } => PRes::PFail { kind, message, span },
        }
    } else if pos < ts.len() && ts[pos].kind is Ident {
        let id = IdentRec { name: ts[pos].kind->Ident_0, span: ts[pos].span };
        let p1 = pos + 1;
        if p1 < ts.len() && ts[p1].kind is Equals {
            match p_property_rest(ts, p1, id) {
                PRes::POk { v, pos: p2 } => PRes::POk {
                    v: EntryRec {
                        kind: EntryKindRec::PropE { name: v.name, value: v.value },
                        span: spec_merge(span, p_prev_span(ts, p2)),
                    },
                    pos: p2,
                },
                PRes::PFail { kind, message, span } => PRes::PFail { kind, message, span },
            }
        } else if p1 < ts.len() && ts[p1].kind is Colon {
            match p_nested_rest(ts, p1) {
                PRes::POk { v: body, pos: p2 } => PRes::POk {
                    v: EntryRec {
                        kind: EntryKindRec::NestedE { name: id, body },
                        span: spec_merge(span, p_prev_span(ts, p2)),
                    },
                    pos: p2,
                },
                PRes::PFail { kind, message, span } => PRes::PFail { kind, message, span },
            }
        } else if p1 < ts.len() && (ts[p1].kind is ArrayPrefix || ts[p1].kind is Ident) {
            match p_field_type(ts, p1) {
                PRes::POk { v: ty, pos: p2 } => {
                    let optional = p2 < ts.len() && ts[p2].kind is Question;
                    let p3 = if optional {
                        p2 + 1
                    } else {
                        p2
                    };
                    if p3 < ts.len() && ts[p3].kind is Equals {
                        match p_value(ts, p3 + 1) {
                            PRes::POk { v: dv, pos: p4 } => {
                                let p5 = p_skip_nl(ts, p4);
                                PRes::POk {
                                    v: EntryRec {
                                        kind: EntryKindRec::FieldE(
                                            FieldDefRec {
                                                name: id,
                                                ty,
                                                optional,
                                                default: Some(dv),
                                            },
                                        ),
                                        span: spec_merge(span, p_prev_span(ts, p5)),
                                    },
                                    pos: p5,
                                }
                            },
                            PRes::PFail { kind, message, span } => PRes::PFail {
                                kind,
                                message,
                                span,
                            },
                        }
                    } else {
                        let p5 = p_skip_nl(ts, p3);
                        PRes::POk {
                            v: EntryRec {
                                kind: EntryKindRec::FieldE(
                                    FieldDefRec { name: id, ty, optional, default: None },
                                ),
                                span: spec_merge(span, p_prev_span(ts, p5)),
                            },
                            pos: p5,
                        }
                    }
                },
                PRes::PFail { kind, message, span } => PRes::PFail { kind, message, span },
            }
        } else {
            PRes::PFail {
                kind: PErrKind::ParseK,
                message: "expected '=' or ':' after '"@ + id.name + "'"@,
                span,
            }
        }
    } else {
        PRes::PFail { kind: PErrKind::ParseK, message: "expected an identifier"@, span: p_cur_span(ts, pos) }
    }
}

/// The entries of a block body, up to the matching dedent.
#[verifier::opaque]
pub open spec fn p_entries(ts: Seq<TokenRec>, pos: int, acc: Seq<EntryRec>) -> PRes<Seq<EntryRec>>
    decreases ts.len() - pos, 3int, 0int,
    via p_entries_decreases
{
    if pos < 0 || pos > ts.len() {
        PRes::PFail { kind: PErrKind::ParseK, message: Seq::empty(), span: Span { start: 0, end: 0 } }
    } else if (pos < ts.len() && ts[pos].kind is Dedent) || p_at_eof(ts, pos) {
        PRes::POk { v: acc, pos }
    } else {
        let p1 = p_skip_nl(ts, pos);
        if (p1 < ts.len() && ts[p1].kind is Dedent) || p_at_eof(ts, p1) {
            PRes::POk { v: acc, pos: p1 }
        } else {
            match p_body_entry(ts, p1) {
                PRes::POk { v, pos: p2 } => p_entries(
                    ts,
                    p_step(p2, pos, ts.len() as int),
                    acc.push(v),
                ),
                PRes::PFail { kind, message, span } => PRes::PFail { kind, message, span },
            }
        }
    }
}

/// A block body: empty unless an indent follows; entries to the matching
/// dedent, which is consumed.
#[verifier::opaque]
pub open spec fn p_body_prod(ts: Seq<TokenRec>, pos: int) -> PRes<BodyRec>
    decreases ts.len() - pos, 0int, 0int,
{
    if !(0 <= pos < ts.len() && ts[pos].kind is Indent) {
        PRes::POk { v: BodyRec { entries: Seq::empty() }, pos }
    } else {
        match p_entries(ts, pos + 1, Seq::empty()) {
            PRes::POk { v, pos: p1 } => PRes::POk {
                v: BodyRec { entries: v },
                pos: if p1 < ts.len() && ts[p1].kind is Dedent {
                    p1 + 1
                } else {
                    p1
                },
            },
            PRes::PFail { kind, message, span } => PRes::PFail { kind, message, span },
        }
    }
}

#[via_fn]
proof fn p_list_item_decreases(ts: Seq<TokenRec>, pos: int) {
    if 0 <= pos && pos + 3 <= ts.len() {
        lemma_p_skip_nl(ts, pos + 3);
    }
}

#[via_fn]
proof fn p_modifier_decreases(ts: Seq<TokenRec>, pos: int) {
    if 0 <= pos && pos + 3 <= ts.len() {
        lemma_p_skip_nl(ts, pos + 3);
    }
}

#[via_fn]
proof fn p_shared_decreases(ts: Seq<TokenRec>, pos: int) {
    if 0 <= pos && pos + 3 <= ts.len() {
        lemma_p_skip_nl(ts, pos + 3);
    }
}

#[via_fn]
proof fn p_nested_rest_decreases(ts: Seq<TokenRec>, pos: int) {
    if 0 <= pos && pos + 1 <= ts.len() {
        lemma_p_skip_nl(ts, pos + 1);
    }
}

#[via_fn]
proof fn p_entries_decreases(ts: Seq<TokenRec>, pos: int, acc: Seq<EntryRec>) {
    if 0 <= pos && pos <= ts.len() {
        lemma_p_skip_nl(ts, pos);
    }
}

#[via_fn]
proof fn p_items_loop_decreases(ts: Seq<TokenRec>, pos: int, acc: Seq<ItemRec>) {
    if 0 <= pos && pos <= ts.len() {
        lemma_p_skip_nl(ts, pos);
    }
}

/// The body of an array declaration: modifiers, shared properties, flat
/// properties, and list items in their separate buckets.
#[verifier::opaque]
pub open spec fn p_array_body_loop(ts: Seq<TokenRec>, pos: int, acc: ArrayBodyRec) -> PRes<
    ArrayBodyRec,
>
    decreases ts.len() - pos, 3int, 0int,
    via p_array_body_loop_decreases
{
    if pos < 0 || pos > ts.len() {
        PRes::PFail { kind: PErrKind::ParseK, message: Seq::empty(), span: Span { start: 0, end: 0 } }
    } else if (pos < ts.len() && ts[pos].kind is Dedent) || p_at_eof(ts, pos) {
        PRes::POk { v: acc, pos }
    } else {
        let p1 = p_skip_nl(ts, pos);
        if (p1 < ts.len() && ts[p1].kind is Dedent) || p_at_eof(ts, p1) {
            PRes::POk { v: acc, pos: p1 }
        } else if p1 < ts.len() && ts[p1].kind is Pipe {
            match p_modifier(ts, p1) {
                PRes::POk { v, pos: p2 } => p_array_body_loop(
                    ts,
                    p_step(p2, pos, ts.len() as int),
                    ArrayBodyRec { mods: acc.mods.push(v), ..acc },
                ),
                PRes::PFail { kind, message, span } => PRes::PFail { kind, message, span },
            }
        } else if p1 < ts.len() && ts[p1].kind is Dot {
            match p_shared(ts, p1) {
                PRes::POk { v, pos: p2 } => p_array_body_loop(
                    ts,
                    p_step(p2, pos, ts.len() as int),
                    ArrayBodyRec { shared: acc.shared.push(v), ..acc },
                ),
                PRes::PFail { kind, message, span } => PRes::PFail { kind, message, span },
            }
        } else if p1 < ts.len() && ts[p1].kind is Dash {
            match p_list_item(ts, p1) {
                PRes::POk { v, pos: p2 } => p_array_body_loop(
                    ts,
                    p_step(p2, pos, ts.len() as int),
                    ArrayBodyRec { items: acc.items.push(v), ..acc },
                ),
                PRes::PFail { kind, message, span } => PRes::PFail { kind, message, span },
            }
        } else if p1 < ts.len() && ts[p1].kind is Ident {
            let id = IdentRec { name: ts[p1].kind->Ident_0, span: ts[p1].span };
            if p1 + 1 < ts.len() && ts[p1 + 1].kind is Equals {
                match p_property_rest(ts, p1 + 1, id) {
                    PRes::POk { v, pos: p2 } => p_array_body_loop(
                        ts,
                        p_step(p2, pos, ts.len() as int),
                        ArrayBodyRec { props: acc.props.push(v), ..acc },
                    ),
                    PRes::PFail { kind, message, span } => PRes::PFail { kind, message, span },
                }
            } else {
                PRes::PFail {
                    kind: PErrKind::ParseK,
                    message: "unexpected '"@ + id.name + "' in array body"@,
                    span: id.span,
                }
            }
        } else {
            PRes::PFail {
                kind: PErrKind::ParseK,
                message: "unexpected token in array body"@,
                span: p_cur_span(ts, p1),
            }
        }
    }
}

#[via_fn]
proof fn p_array_body_loop_decreases(ts: Seq<TokenRec>, pos: int, acc: ArrayBodyRec) {
    if 0 <= pos && pos <= ts.len() {
        lemma_p_skip_nl(ts, pos);
    }
}

/// An array declaration's body, with its indent and dedent consumed.
#[verifier::opaque]
pub open spec fn p_array_body(ts: Seq<TokenRec>, pos: int) -> PRes<ArrayBodyRec>
    decreases ts.len() - pos, 0int, 0int,
{
    let empty = ArrayBodyRec {
        mods: Seq::empty(),
        shared: Seq::empty(),
        props: Seq::empty(),
        items: Seq::empty(),
    };
    if !(0 <= pos < ts.len() && ts[pos].kind is Indent) {
        PRes::POk { v: empty, pos }
    } else {
        match p_array_body_loop(ts, pos + 1, empty) {
            PRes::POk { v, pos: p1 } => PRes::POk {
                v,
                pos: if p1 < ts.len() && ts[p1].kind is Dedent {
                    p1 + 1
                } else {
                    p1
                },
            },
            PRes::PFail { kind, message, span } => PRes::PFail { kind, message, span },
        }
    }
}

/// A declaration's name: an identifier, or a role-reference literal.
pub open spec fn p_decl_name(ts: Seq<TokenRec>, pos: int) -> PRes<IdentRec> {
    if 0 <= pos < ts.len() && ts[pos].kind is Role {
        PRes::POk {
            v: IdentRec { name: ts[pos].kind->Role_0, span: ts[pos].span },
            pos: pos + 1,
        }
    } else if 0 <= pos < ts.len() && ts[pos].kind is Ident {
        PRes::POk {
            v: IdentRec { name: ts[pos].kind->Ident_0, span: ts[pos].span },
            pos: pos + 1,
        }
    } else {
        PRes::PFail {
            kind: PErrKind::ParseK,
            message: "expected an identifier"@,
            span: p_cur_span(ts, pos),
        }
    }
}

/// A block declaration: `keyword Name: <body>`.
#[verifier::opaque]
pub open spec fn p_block_decl(ts: Seq<TokenRec>, pos: int, start_span: Span) -> PRes<DeclRec>
    decreases ts.len() - pos, 0int, 0int,
    via p_block_decl_decreases
{
    if !(0 <= pos < ts.len() && ts[pos].kind is Ident) {
        PRes::PFail {
            kind: PErrKind::ParseK,
            message: "expected an identifier"@,
            span: p_cur_span(ts, pos),
        }
    } else {
        let keyword = IdentRec { name: ts[pos].kind->Ident_0, span: ts[pos].span };
        match p_decl_name(ts, pos + 1) {
            PRes::POk { v: name, pos: p1 } => {
                if !(p1 < ts.len() && ts[p1].kind is Colon) {
                    PRes::PFail {
                        kind: PErrKind::ParseK,
                        message: "expected "@ + "Colon"@,
                        span: p_cur_span(ts, p1),
                    }
                } else {
                    match p_body_prod(ts, p_skip_nl(ts, p1 + 1)) {
                        PRes::POk { v: body, pos: p2 } => PRes::POk {
                            v: DeclRec {
                                kind: DeclKindRec::BlockD { keyword, name, body },
                                span: spec_merge(start_span, p_prev_span(ts, p2)),
                            },
                            pos: p2,
                        },
                        PRes::PFail { kind, message, span } => PRes::PFail {
                            kind,
                            message,
                            span,
                        },
                    }
                }
            },
            PRes::PFail { kind, message, span } => PRes::PFail { kind, message, span },
        }
    }
}

#[via_fn]
proof fn p_block_decl_decreases(ts: Seq<TokenRec>, pos: int, start_span: Span) {
    if 0 <= pos && pos + 2 <= ts.len() {
        lemma_p_skip_nl(ts, pos + 2);
    }
    if 0 <= pos && pos + 3 <= ts.len() {
        lemma_p_skip_nl(ts, pos + 3);
    }
}

/// An array declaration: `[]keyword name: <array-body>`.
#[verifier::opaque]
pub open spec fn p_array_decl(ts: Seq<TokenRec>, pos: int, start_span: Span) -> PRes<DeclRec>
    decreases ts.len() - pos, 0int, 0int,
    via p_array_decl_decreases
{
    if !(0 <= pos < ts.len() && ts[pos].kind is ArrayPrefix) {
        PRes::PFail {
            kind: PErrKind::ParseK,
            message: "expected "@ + "ArrayPrefix"@,
            span: p_cur_span(ts, pos),
        }
    } else if !(pos + 1 < ts.len() && ts[pos + 1].kind is Ident) {
        PRes::PFail {
            kind: PErrKind::ParseK,
            message: "expected an identifier"@,
            span: p_cur_span(ts, pos + 1),
        }
    } else if !(pos + 2 < ts.len() && ts[pos + 2].kind is Ident) {
        PRes::PFail {
            kind: PErrKind::ParseK,
            message: "expected an identifier"@,
            span: p_cur_span(ts, pos + 2),
        }
    } else if !(pos + 3 < ts.len() && ts[pos + 3].kind is Colon) {
        PRes::PFail {
            kind: PErrKind::ParseK,
            message: "expected "@ + "Colon"@,
            span: p_cur_span(ts, pos + 3),
        }
    } else {
        let item_keyword = IdentRec { name: ts[pos + 1].kind->Ident_0, span: ts[pos + 1].span };
        let name = IdentRec { name: ts[pos + 2].kind->Ident_0, span: ts[pos + 2].span };
        match p_array_body(ts, p_skip_nl(ts, pos + 4)) {
            PRes::POk { v: body, pos: p1 } => PRes::POk {
                v: DeclRec {
                    kind: DeclKindRec::ArrayD { item_keyword, name, body },
                    span: spec_merge(start_span, p_prev_span(ts, p1)),
                },
                pos: p1,
            },
            PRes::PFail { kind, message, span } => PRes::PFail { kind, message, span },
        }
    }
}

#[via_fn]
proof fn p_array_decl_decreases(ts: Seq<TokenRec>, pos: int, start_span: Span) {
    if 0 <= pos && pos + 4 <= ts.len() {
        lemma_p_skip_nl(ts, pos + 4);
    }
}

/// One top-level declaration: an array declaration when the sigil leads, else
/// a block declaration.
#[verifier::opaque]
pub open spec fn p_decl(ts: Seq<TokenRec>, pos: int) -> PRes<DeclRec>
    decreases ts.len() - pos, 1int, 0int,
{
    let start_span = p_cur_span(ts, pos);
    if 0 <= pos < ts.len() && ts[pos].kind is ArrayPrefix {
        p_array_decl(ts, pos, start_span)
    } else {
        p_block_decl(ts, pos, start_span)
    }
}

/// The file's declarations, separated by newlines, up to the Eof token.
#[verifier::opaque]
pub open spec fn p_decls(ts: Seq<TokenRec>, pos: int, acc: Seq<DeclRec>) -> PRes<Seq<DeclRec>>
    decreases ts.len() - pos, 2int, 0int,
    via p_decls_decreases
{
    if pos < 0 || pos > ts.len() {
        PRes::PFail { kind: PErrKind::ParseK, message: Seq::empty(), span: Span { start: 0, end: 0 } }
    } else if p_at_eof(ts, pos) {
        PRes::POk { v: acc, pos }
    } else {
        let p1 = p_skip_nl(ts, pos);
        if p_at_eof(ts, p1) {
            PRes::POk { v: acc, pos: p1 }
        } else {
            match p_decl(ts, p1) {
                PRes::POk { v, pos: p2 } => p_decls(ts, p_step(p2, pos, ts.len() as int), acc.push(v)),
                PRes::PFail { kind, message, span } => PRes::PFail { kind, message, span },
            }
        }
    }
}

#[via_fn]
proof fn p_decls_decreases(ts: Seq<TokenRec>, pos: int, acc: Seq<DeclRec>) {
    if 0 <= pos && pos <= ts.len() {
        lemma_p_skip_nl(ts, pos);
    }
}

/// A whole file, parsed from the given cursor.
pub open spec fn p_file(ts: Seq<TokenRec>, pos: int) -> PRes<FileRec> {
    match p_decls(ts, pos, Seq::empty()) {
        PRes::POk { v, pos: p1 } => PRes::POk { v: FileRec { decls: v }, pos: p1 },
        PRes::PFail { kind, message, span } => PRes::PFail { kind, message, span },
    }
}

/// The whole pipeline on source text: tokenize, then parse. The result is
/// the file's records, or the first lexical, syntactic, or money error.
pub enum ParseOut {
    POutOk(FileRec),
    POutErr { lex: bool, money: bool, message: Seq<char>, span: Span },
}

pub open spec fn parse_spec(source: Seq<char>) -> ParseOut {
    match crate::lexer::lex_spec(source) {
        crate::lexer::LexOut::Done(recs) => match p_file(recs, 0) {
            PRes::POk { v, pos } => ParseOut::POutOk(v),
            PRes::PFail { kind, message, span } => ParseOut::POutErr {
                lex: false,
                money: kind is MoneyK,
                message,
                span,
            },
        },
        crate::lexer::LexOut::Fail { message, span } => ParseOut::POutErr {
            lex: true,
            money: false,
            message,
            span,
        },
    }
}

} // verus!
