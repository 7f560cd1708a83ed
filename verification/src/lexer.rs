//! Lexical analysis: turns source text into a sequence of [`Token`]s.
//!
//! The lexer never fails: whitespace and unrecognized characters are silently
//! skipped, and scanning resumes at the next character.  What it means for a
//! token to be read at a position is captured by [`lex_token_at`]; a whole
//! token sequence is related to the text by [`lexes_to`].

use vstd::prelude::*;
use vstd::string::StrSliceExecFns;

use crate::numeral::{digit_test, is_digit_char};
use crate::text::{
    alphabetic_char, alphanumeric_char, is_alphabetic, is_alphanumeric, is_whitespace, push_char,
    str_eq, whitespace_char,
};

verus! {

/// One lexical unit of the source language.
#[derive(Debug, Clone, PartialEq)]
pub enum Token {
    LParen,
    RParen,
    LBracket,
    RBracket,
    Colon,
    Plus,
    Equal,
    LessThan,
    GreaterThan,
    Let,
    Assign,
    Semicolon,
    If,
    Else,
    EndIf,
    While,
    EndWhile,
    Print,
    EndPrint,
    TypeNumber,
    TypeString,
    Identifier(String),
    Number(String),
    StringLiteral(String),
}

/// A small ordinal for each token variant, used to compare variants.
pub open spec fn token_tag(t: Token) -> int {
    match t {
        Token::LParen => 0,
        Token::RParen => 1,
        Token::LBracket => 2,
        Token::RBracket => 3,
        Token::Colon => 4,
        Token::Plus => 5,
        Token::Equal => 6,
        Token::LessThan => 7,
        Token::GreaterThan => 8,
        Token::Let => 9,
        Token::Assign => 10,
        Token::Semicolon => 11,
        Token::If => 12,
        Token::Else => 13,
        Token::EndIf => 14,
        Token::While => 15,
        Token::EndWhile => 16,
        Token::Print => 17,
        Token::EndPrint => 18,
        Token::TypeNumber => 19,
        Token::TypeString => 20,
        Token::Identifier(_) => 21,
        Token::Number(_) => 22,
        Token::StringLiteral(_) => 23,
    }
}

/// Two tokens are the same lexical unit: same variant, and for the
/// text-carrying variants the same text.
pub open spec fn token_same(a: Token, b: Token) -> bool {
    match (a, b) {
        (Token::Identifier(x), Token::Identifier(y)) => x@ == y@,
        (Token::Number(x), Token::Number(y)) => x@ == y@,
        (Token::StringLiteral(x), Token::StringLiteral(y)) => x@ == y@,
        _ => token_tag(a) == token_tag(b),
    }
}

/// Whether the character is one of the six single-character tokens.
pub open spec fn is_punct_char(c: char) -> bool {
    c == '(' || c == ')' || c == '{' || c == '}' || c == ':' || c == '+'
}

/// The token a single-character punctuation or operator character maps to.
pub open spec fn punct_token(c: char) -> Token {
    if c == '(' {
        Token::LParen
    } else if c == ')' {
        Token::RParen
    } else if c == '{' {
        Token::LBracket
    } else if c == '}' {
        Token::RBracket
    } else if c == ':' {
        Token::Colon
    } else {
        Token::Plus
    }
}

/// The fixed, case-sensitive keyword table; any other word is an identifier.
pub open spec fn keyword_token(w: Seq<char>) -> Option<Token> {
    if w == "notalmostthesamethesame"@ {
        Some(Token::Equal)
    } else if w == "oppositeoftinyerthan"@ {
        Some(Token::GreaterThan)
    } else if w == "letsdothisinstead"@ {
        Some(Token::Else)
    } else if w == "keeponswimming"@ {
        Some(Token::While)
    } else if w == "STOPSWIMMING"@ {
        Some(Token::EndWhile)
    } else if w == "tinyerthan"@ {
        Some(Token::LessThan)
    } else if w == "ENDMAYBE"@ {
        Some(Token::EndIf)
    } else if w == "number"@ {
        Some(Token::TypeNumber)
    } else if w == "string"@ {
        Some(Token::TypeString)
    } else if w == "SCREAM"@ {
        Some(Token::Print)
    } else if w == "maybe"@ {
        Some(Token::If)
    } else if w == "QUIET"@ {
        Some(Token::EndPrint)
    } else if w == "make"@ {
        Some(Token::Let)
    } else if w == "STOP"@ {
        Some(Token::Semicolon)
    } else if w == "be"@ {
        Some(Token::Assign)
    } else {
        None
    }
}

/// Whether a token can start at this character.
pub open spec fn starts_token(c: char) -> bool {
    is_punct_char(c) || c == '"' || is_digit_char(c) || alphabetic_char(c)
}

/// Whether the lexer passes over this character without producing a token:
/// whitespace, or a character no token can start with.
pub open spec fn skippable_char(c: char) -> bool {
    whitespace_char(c) || !starts_token(c)
}

/// The end of the run of decimal digits starting at `pos`.
pub open spec fn scan_digits(s: Seq<char>, pos: int) -> int
    decreases s.len() - pos,
{
    if 0 <= pos < s.len() && is_digit_char(s[pos]) {
        scan_digits(s, pos + 1)
    } else {
        pos
    }
}

/// The end of the run of alphanumeric characters starting at `pos`.
pub open spec fn scan_alnum(s: Seq<char>, pos: int) -> int
    decreases s.len() - pos,
{
    if 0 <= pos < s.len() && alphanumeric_char(s[pos]) {
        scan_alnum(s, pos + 1)
    } else {
        pos
    }
}

/// The position of the first double quote at or after `pos`, or the length of
/// the text when there is none.
pub open spec fn scan_quote(s: Seq<char>, pos: int) -> int
    decreases s.len() - pos,
{
    if 0 <= pos < s.len() {
        if s[pos] == '"' {
            pos
        } else {
            scan_quote(s, pos + 1)
        }
    } else {
        s.len() as int
    }
}

/// The lexer, started at position `pos` of text `s`, produces `t` as its next
/// token and stops at position `p2`.
pub open spec fn lex_token_at(s: Seq<char>, pos: int, t: Token, p2: int) -> bool
    decreases s.len() - pos,
{
    if !(0 <= pos < s.len()) {
        false
    } else {
        let c = s[pos];
        if whitespace_char(c) {
            lex_token_at(s, pos + 1, t, p2)
        } else if is_punct_char(c) {
            t == punct_token(c) && p2 == pos + 1
        } else if c == '"' {
            let q = scan_quote(s, pos + 1);
            &&& t matches Token::StringLiteral(x) && x@ == s.subrange(pos + 1, q)
            &&& p2 == if q < s.len() {
                q + 1
            } else {
                q
            }
        } else if is_digit_char(c) {
            let e = scan_digits(s, pos);
            &&& t matches Token::Number(x) && x@ == s.subrange(pos, e)
            &&& p2 == e
        } else if alphabetic_char(c) {
            let e = scan_alnum(s, pos);
            let w = s.subrange(pos, e);
            &&& p2 == e
            &&& match keyword_token(w) {
                Some(k) => t == k,
                None => t matches Token::Identifier(x) && x@ == w,
            }
        } else {
            lex_token_at(s, pos + 1, t, p2)
        }
    }
}

/// The lexer, started at position `pos`, produces no further token: every
/// remaining character is skipped.
pub open spec fn lex_done(s: Seq<char>, pos: int) -> bool
    decreases s.len() - pos,
{
    if pos < 0 {
        false
    } else if pos >= s.len() {
        true
    } else {
        skippable_char(s[pos]) && lex_done(s, pos + 1)
    }
}

/// The position at which the lexer, started at position `pos`, stops after
/// producing its next token (or after skipping the whole remaining text).
pub open spec fn lex_advance(s: Seq<char>, pos: int) -> int
    decreases s.len() - pos,
{
    if !(0 <= pos < s.len()) {
        pos
    } else {
        let c = s[pos];
        if whitespace_char(c) {
            lex_advance(s, pos + 1)
        } else if is_punct_char(c) {
            pos + 1
        } else if c == '"' {
            let q = scan_quote(s, pos + 1);
            if q < s.len() {
                q + 1
            } else {
                q
            }
        } else if is_digit_char(c) {
            scan_digits(s, pos)
        } else if alphabetic_char(c) {
            scan_alnum(s, pos)
        } else {
            lex_advance(s, pos + 1)
        }
    }
}

/// The lexer, started at position `pos`, produces exactly the token sequence
/// `toks` and then reaches the end of the text.
pub open spec fn lexes_to(s: Seq<char>, pos: int, toks: Seq<Token>) -> bool
    decreases toks.len(),
{
    if toks.len() == 0 {
        lex_done(s, pos)
    } else {
        lex_token_at(s, pos, toks[0], lex_advance(s, pos)) && lexes_to(
            s,
            lex_advance(s, pos),
            toks.drop_first(),
        )
    }
}

/// A digit run ends no earlier than it starts and within the text.
pub proof fn lemma_scan_digits_bounds(s: Seq<char>, pos: int)
    requires
        0 <= pos <= s.len(),
    ensures
        pos <= scan_digits(s, pos) <= s.len(),
    decreases s.len() - pos,
{
    if pos < s.len() && is_digit_char(s[pos]) {
        lemma_scan_digits_bounds(s, pos + 1);
    }
}

/// An alphanumeric run ends no earlier than it starts and within the text.
pub proof fn lemma_scan_alnum_bounds(s: Seq<char>, pos: int)
    requires
        0 <= pos <= s.len(),
    ensures
        pos <= scan_alnum(s, pos) <= s.len(),
    decreases s.len() - pos,
{
    if pos < s.len() && alphanumeric_char(s[pos]) {
        lemma_scan_alnum_bounds(s, pos + 1);
    }
}

/// The first quote at or after `pos` is at or after `pos` and within the text.
pub proof fn lemma_scan_quote_bounds(s: Seq<char>, pos: int)
    requires
        0 <= pos <= s.len(),
    ensures
        pos <= scan_quote(s, pos) <= s.len(),
    decreases s.len() - pos,
{
    if pos < s.len() && s[pos] != '"' {
        lemma_scan_quote_bounds(s, pos + 1);
    }
}

/// Skipped characters change neither the next token nor exhaustion: the lexer
/// behaves the same from either end of a run of skippable characters.
pub proof fn lemma_skip_range(s: Seq<char>, p0: int, p1: int)
    requires
        0 <= p0 <= p1 <= s.len(),
        forall|i: int| p0 <= i < p1 ==> skippable_char(#[trigger] s[i]),
    ensures
        forall|t: Token, p2: int|
            lex_token_at(s, p0, t, p2) == #[trigger] lex_token_at(s, p1, t, p2),
        lex_done(s, p0) == lex_done(s, p1),
        lex_advance(s, p0) == lex_advance(s, p1),
    decreases p1 - p0,
{
    if p0 < p1 {
        assert(skippable_char(s[p0]));
        lemma_skip_range(s, p0 + 1, p1);
        assert forall|t: Token, p2: int|
            lex_token_at(s, p0, t, p2) == #[trigger] lex_token_at(s, p1, t, p2) by {
            assert(lex_token_at(s, p0, t, p2) == lex_token_at(s, p0 + 1, t, p2));
            assert(lex_token_at(s, p0 + 1, t, p2) == lex_token_at(s, p1, t, p2));
        }
        assert(lex_done(s, p0) == lex_done(s, p0 + 1));
        assert(lex_advance(s, p0) == lex_advance(s, p0 + 1));
    }
}

/// An exhausted lexer produces no further token.
proof fn lemma_done_no_token(s: Seq<char>, pos: int, t: Token, p2: int)
    requires
        lex_done(s, pos),
    ensures
        !lex_token_at(s, pos, t, p2),
    decreases s.len() - pos,
{
    if pos < s.len() {
        lemma_done_no_token(s, pos + 1, t, p2);
    }
}

/// Any two tokens read at the same position are the same lexical unit.
proof fn lemma_token_at_same(s: Seq<char>, pos: int, t1: Token, p2a: int, t2: Token, p2b: int)
    requires
        lex_token_at(s, pos, t1, p2a),
        lex_token_at(s, pos, t2, p2b),
    ensures
        token_same(t1, t2),
    decreases s.len() - pos,
{
    let c = s[pos];
    if whitespace_char(c) || !starts_token(c) {
        lemma_token_at_same(s, pos + 1, t1, p2a, t2, p2b);
    }
}

/// Lexing is deterministic: the same text denotes only one token sequence,
/// token for token the same lexical units.
pub proof fn lemma_lexing_deterministic(s: Seq<char>, pos: int, a: Seq<Token>, b: Seq<Token>)
    requires
        lexes_to(s, pos, a),
        lexes_to(s, pos, b),
    ensures
        a.len() == b.len(),
        forall|i: int| 0 <= i < a.len() ==> token_same(a[i], b[i]),
    decreases a.len(),
{
    if a.len() == 0 && b.len() > 0 {
        lemma_done_no_token(s, pos, b[0], lex_advance(s, pos));
    } else if a.len() > 0 && b.len() == 0 {
        lemma_done_no_token(s, pos, a[0], lex_advance(s, pos));
    } else if a.len() > 0 && b.len() > 0 {
        lemma_token_at_same(s, pos, a[0], lex_advance(s, pos), b[0], lex_advance(s, pos));
        lemma_lexing_deterministic(s, lex_advance(s, pos), a.drop_first(), b.drop_first());
        assert forall|i: int| 0 <= i < a.len() implies token_same(a[i], b[i]) by {
            if i > 0 {
                assert(a[i] == a.drop_first()[i - 1]);
                assert(b[i] == b.drop_first()[i - 1]);
                assert(token_same(a.drop_first()[i - 1], b.drop_first()[i - 1]));
            }
        }
    }
}

/// The lexer: a forward-only cursor over the characters of the source text.
pub struct Lexer {
    input: Vec<char>,
    position: usize,
}

impl Lexer {
    /// The character sequence being scanned.
    pub closed spec fn inp(&self) -> Seq<char> {
        self.input@
    }

    /// The current cursor position.
    pub closed spec fn pos(&self) -> int {
        self.position as int
    }

    /// The cursor never passes the end of the text.
    pub open spec fn wf(&self) -> bool {
        0 <= self.pos() <= self.inp().len()
    }

    /// A fresh lexer over the given source text, with the cursor at the start.
    pub fn new(input: String) -> (r: Lexer)
        ensures
            r.inp() == input@,
            r.pos() == 0,
            r.wf(),
    {
        let n = input.as_str().unicode_len();
        let mut v: Vec<char> = Vec::new();
        let mut i: usize = 0;
        while i < n
            invariant
                n == input@.len(),
                0 <= i <= n,
                v@ == input@.subrange(0, i as int),
            decreases n - i,
        {
            let c = input.as_str().get_char(i);
            v.push(c);
            proof {
                assert(v@ =~= input@.subrange(0, i as int + 1));
            }
            i += 1;
        }
        proof {
            assert(v@ =~= input@);
        }
        Lexer { input: v, position: 0 }
    }

    /// Advances the cursor past every whitespace character under it.
    fn skip_whitespace(&mut self)
        requires
            old(self).wf(),
        ensures
            final(self).inp() == old(self).inp(),
            old(self).pos() <= final(self).pos() <= final(self).inp().len(),
            forall|i: int|
                old(self).pos() <= i < final(self).pos() ==> whitespace_char(
                    #[trigger] final(self).inp()[i],
                ),
            final(self).pos() == final(self).inp().len() || !whitespace_char(
                final(self).inp()[final(self).pos()],
            ),
    {
        loop
            invariant
                self.inp() == old(self).inp(),
                old(self).pos() <= self.pos() <= self.inp().len(),
                forall|i: int|
                    old(self).pos() <= i < self.pos() ==> whitespace_char(
                        #[trigger] self.inp()[i],
                    ),
            ensures
                self.inp() == old(self).inp(),
                old(self).pos() <= self.pos() <= self.inp().len(),
                forall|i: int|
                    old(self).pos() <= i < self.pos() ==> whitespace_char(
                        #[trigger] self.inp()[i],
                    ),
                self.pos() == self.inp().len() || !whitespace_char(self.inp()[self.pos()]),
            decreases self.inp().len() - self.pos(),
        {
            if self.position >= self.input.len() {
                break;
            }
            let c = self.input[self.position];
            if !is_whitespace(c) {
                break;
            }
            self.position = self.position + 1;
        }
    }

    /// Reads the run of decimal digits under the cursor.
    fn read_number(&mut self) -> (r: String)
        requires
            old(self).wf(),
        ensures
            final(self).inp() == old(self).inp(),
            final(self).wf(),
            old(self).pos() <= final(self).pos(),
            final(self).pos() == scan_digits(old(self).inp(), old(self).pos()),
            r@ == old(self).inp().subrange(old(self).pos(), final(self).pos()),
    {
        let mut result = String::new();
        loop
            invariant
                self.inp() == old(self).inp(),
                old(self).pos() <= self.pos() <= self.inp().len(),
                scan_digits(self.inp(), old(self).pos()) == scan_digits(self.inp(), self.pos()),
                result@ == self.inp().subrange(old(self).pos(), self.pos()),
            ensures
                self.inp() == old(self).inp(),
                old(self).pos() <= self.pos() <= self.inp().len(),
                scan_digits(self.inp(), old(self).pos()) == scan_digits(self.inp(), self.pos()),
                result@ == self.inp().subrange(old(self).pos(), self.pos()),
                self.pos() >= self.inp().len() || !is_digit_char(self.inp()[self.pos()]),
            decreases self.inp().len() - self.pos(),
        {
            if self.position >= self.input.len() {
                break;
            }
            let c = self.input[self.position];
            if !digit_test(c) {
                break;
            }
            push_char(&mut result, c);
            self.position = self.position + 1;
            proof {
                assert(result@ =~= self.inp().subrange(old(self).pos(), self.pos()));
            }
        }
        result
    }

    /// Reads the run of alphanumeric characters under the cursor.
    fn read_identifier(&mut self) -> (r: String)
        requires
            old(self).wf(),
        ensures
            final(self).inp() == old(self).inp(),
            final(self).wf(),
            old(self).pos() <= final(self).pos(),
            final(self).pos() == scan_alnum(old(self).inp(), old(self).pos()),
            r@ == old(self).inp().subrange(old(self).pos(), final(self).pos()),
    {
        let mut result = String::new();
        loop
            invariant
                self.inp() == old(self).inp(),
                old(self).pos() <= self.pos() <= self.inp().len(),
                scan_alnum(self.inp(), old(self).pos()) == scan_alnum(self.inp(), self.pos()),
                result@ == self.inp().subrange(old(self).pos(), self.pos()),
            ensures
                self.inp() == old(self).inp(),
                old(self).pos() <= self.pos() <= self.inp().len(),
                scan_alnum(self.inp(), old(self).pos()) == scan_alnum(self.inp(), self.pos()),
                result@ == self.inp().subrange(old(self).pos(), self.pos()),
                self.pos() >= self.inp().len() || !alphanumeric_char(self.inp()[self.pos()]),
            decreases self.inp().len() - self.pos(),
        {
            if self.position >= self.input.len() {
                break;
            }
            let c = self.input[self.position];
            if !is_alphanumeric(c) {
                break;
            }
            push_char(&mut result, c);
            self.position = self.position + 1;
            proof {
                assert(result@ =~= self.inp().subrange(old(self).pos(), self.pos()));
            }
        }
        result
    }

    /// Reads a string literal: discards the opening quote under the cursor,
    /// takes characters verbatim up to the closing quote (discarded) or the
    /// end of the text.  There is no escape handling.
    fn read_string(&mut self) -> (r: String)
        requires
            old(self).wf(),
            old(self).pos() < old(self).inp().len(),
        ensures
            final(self).inp() == old(self).inp(),
            final(self).wf(),
            r@ == old(self).inp().subrange(
                old(self).pos() + 1,
                scan_quote(old(self).inp(), old(self).pos() + 1),
            ),
            final(self).pos() == if scan_quote(old(self).inp(), old(self).pos() + 1)
                < old(self).inp().len() {
                scan_quote(old(self).inp(), old(self).pos() + 1) + 1
            } else {
                scan_quote(old(self).inp(), old(self).pos() + 1)
            },
    {
        let mut result = String::new();
        let n = self.input.len();
        proof {
            assert(self.position < n);
        }
        self.position = self.position + 1;
        loop
            invariant_except_break
                scan_quote(self.inp(), old(self).pos() + 1) == scan_quote(
                    self.inp(),
                    self.pos(),
                ),
                result@ == self.inp().subrange(old(self).pos() + 1, self.pos()),
            invariant
                self.inp() == old(self).inp(),
                old(self).pos() + 1 <= self.pos() <= self.inp().len(),
            ensures
                self.inp() == old(self).inp(),
                old(self).pos() + 1 <= self.pos() <= self.inp().len(),
                result@ == self.inp().subrange(
                    old(self).pos() + 1,
                    scan_quote(self.inp(), old(self).pos() + 1),
                ),
                self.pos() == if scan_quote(self.inp(), old(self).pos() + 1) < self.inp().len() {
                    scan_quote(self.inp(), old(self).pos() + 1) + 1
                } else {
                    scan_quote(self.inp(), old(self).pos() + 1)
                },
            decreases self.inp().len() - self.pos(),
        {
            if self.position >= self.input.len() {
                proof {
                    assert(scan_quote(self.inp(), self.pos()) == self.inp().len());
                }
                break;
            }
            let c = self.input[self.position];
            if c == '"' {
                proof {
                    assert(scan_quote(self.inp(), self.pos()) == self.pos());
                }
                self.position = self.position + 1;
                break;
            }
            push_char(&mut result, c);
            self.position = self.position + 1;
            proof {
                assert(result@ =~= self.inp().subrange(old(self).pos() + 1, self.pos()));
            }
        }
        result
    }

    /// Looks a word up in the keyword table.
    fn keyword_of(word: &str) -> (r: Option<Token>)
        ensures
            r == keyword_token(word@),
    {
        if str_eq(word, "notalmostthesamethesame") {
            Some(Token::Equal)
        } else if str_eq(word, "oppositeoftinyerthan") {
            Some(Token::GreaterThan)
        } else if str_eq(word, "letsdothisinstead") {
            Some(Token::Else)
        } else if str_eq(word, "keeponswimming") {
            Some(Token::While)
        } else if str_eq(word, "STOPSWIMMING") {
            Some(Token::EndWhile)
        } else if str_eq(word, "tinyerthan") {
            Some(Token::LessThan)
        } else if str_eq(word, "ENDMAYBE") {
            Some(Token::EndIf)
        } else if str_eq(word, "number") {
            Some(Token::TypeNumber)
        } else if str_eq(word, "string") {
            Some(Token::TypeString)
        } else if str_eq(word, "SCREAM") {
            Some(Token::Print)
        } else if str_eq(word, "maybe") {
            Some(Token::If)
        } else if str_eq(word, "QUIET") {
            Some(Token::EndPrint)
        } else if str_eq(word, "make") {
            Some(Token::Let)
        } else if str_eq(word, "STOP") {
            Some(Token::Semicolon)
        } else if str_eq(word, "be") {
            Some(Token::Assign)
        } else {
            None
        }
    }

    /// The token for a single punctuation or operator character.
    fn punct_token_of(c: char) -> (t: Token)
        requires
            is_punct_char(c),
        ensures
            t == punct_token(c),
    {
        if c == '(' {
            Token::LParen
        } else if c == ')' {
            Token::RParen
        } else if c == '{' {
            Token::LBracket
        } else if c == '}' {
            Token::RBracket
        } else if c == ':' {
            Token::Colon
        } else {
            Token::Plus
        }
    }

    /// Produces the next token, or `None` when only skippable characters
    /// remain.  The cursor only ever advances.
    pub fn next_token(&mut self) -> (r: Option<Token>)
        requires
            old(self).wf(),
        ensures
            final(self).inp() == old(self).inp(),
            final(self).wf(),
            old(self).pos() <= final(self).pos(),
            r matches Some(t) ==> lex_token_at(
                old(self).inp(),
                old(self).pos(),
                t,
                final(self).pos(),
            ) && old(self).pos() < final(self).pos() && final(self).pos() == lex_advance(
                old(self).inp(),
                old(self).pos(),
            ),
            r is None ==> lex_done(old(self).inp(), old(self).pos()) && final(self).pos()
                == final(self).inp().len(),
    {
        loop
            invariant
                self.wf(),
                self.inp() == old(self).inp(),
                old(self).pos() <= self.pos() <= self.inp().len(),
                forall|i: int|
                    old(self).pos() <= i < self.pos() ==> skippable_char(
                        #[trigger] self.inp()[i],
                    ),
            decreases self.inp().len() - self.pos(),
        {
            self.skip_whitespace();
            if self.position >= self.input.len() {
                proof {
                    lemma_skip_range(self.inp(), old(self).pos(), self.pos());
                    assert(lex_done(self.inp(), self.pos()));
                }
                return None;
            }
            let ghost p_tok = self.pos();
            let c = self.input[self.position];
            if c == '(' || c == ')' || c == '{' || c == '}' || c == ':' || c == '+' {
                let t = Self::punct_token_of(c);
                self.position = self.position + 1;
                proof {
                    assert(lex_token_at(self.inp(), p_tok, t, self.pos()));
                    assert(lex_advance(self.inp(), p_tok) == self.pos());
                    lemma_skip_range(self.inp(), old(self).pos(), p_tok);
                }
                return Some(t);
            } else if c == '"' {
                let text = self.read_string();
                let t = Token::StringLiteral(text);
                proof {
                    lemma_scan_quote_bounds(self.inp(), p_tok + 1);
                    assert(lex_token_at(self.inp(), p_tok, t, self.pos()));
                    assert(lex_advance(self.inp(), p_tok) == self.pos());
                    lemma_skip_range(self.inp(), old(self).pos(), p_tok);
                }
                return Some(t);
            } else if digit_test(c) {
                let text = self.read_number();
                let t = Token::Number(text);
                proof {
                    lemma_scan_digits_bounds(self.inp(), p_tok + 1);
                    assert(scan_digits(self.inp(), p_tok) == scan_digits(self.inp(), p_tok + 1));
                    assert(lex_token_at(self.inp(), p_tok, t, self.pos()));
                    assert(lex_advance(self.inp(), p_tok) == self.pos());
                    lemma_skip_range(self.inp(), old(self).pos(), p_tok);
                }
                return Some(t);
            } else if is_alphabetic(c) {
                let word = self.read_identifier();
                let t = match Self::keyword_of(word.as_str()) {
                    Some(k) => k,
                    None => Token::Identifier(word),
                };
                proof {
                    lemma_scan_alnum_bounds(self.inp(), p_tok + 1);
                    assert(scan_alnum(self.inp(), p_tok) == scan_alnum(self.inp(), p_tok + 1));
                    assert(lex_token_at(self.inp(), p_tok, t, self.pos()));
                    assert(lex_advance(self.inp(), p_tok) == self.pos());
                    lemma_skip_range(self.inp(), old(self).pos(), p_tok);
                }
                return Some(t);
            } else {
                self.position = self.position + 1;
            }
        }
    }

    /// Scans the remaining text into the complete token sequence it denotes.
    pub fn tokenize(&mut self) -> (r: Vec<Token>)
        requires
            old(self).wf(),
        ensures
            final(self).inp() == old(self).inp(),
            lexes_to(old(self).inp(), old(self).pos(), r@),
    {
        let mut toks: Vec<Token> = Vec::new();
        let ghost p0 = self.pos();
        loop
            invariant
                self.wf(),
                self.inp() == old(self).inp(),
                forall|rest: Seq<Token>|
                    #[trigger] lexes_to(self.inp(), self.pos(), rest) ==> lexes_to(
                        self.inp(),
                        p0,
                        toks@ + rest,
                    ),
            ensures
                lexes_to(self.inp(), p0, toks@),
                self.inp() == old(self).inp(),
            decreases self.inp().len() - self.pos(),
        {
            let ghost pre = self.pos();
            let t_opt = self.next_token();
            match t_opt {
                None => {
                    proof {
                        assert(lexes_to(self.inp(), pre, Seq::<Token>::empty()));
                        assert(toks@ + Seq::<Token>::empty() =~= toks@);
                    }
                    break;
                },
                Some(t) => {
                    proof {
                        assert forall|rest: Seq<Token>|
                            #[trigger] lexes_to(self.inp(), self.pos(), rest) implies lexes_to(
                            self.inp(),
                            p0,
                            toks@.push(t) + rest,
                        ) by {
                            let r2 = seq![t] + rest;
                            assert(r2[0] == t);
                            assert(r2.drop_first() =~= rest);
                            assert(lex_advance(self.inp(), pre) == self.pos());
                            assert(lex_token_at(self.inp(), pre, r2[0], lex_advance(self.inp(), pre)));
                            assert(lexes_to(self.inp(), lex_advance(self.inp(), pre), r2.drop_first()));
                            assert(lexes_to(self.inp(), pre, r2));
                            assert(lexes_to(self.inp(), p0, toks@ + r2));
                            assert(toks@ + r2 =~= toks@.push(t) + rest);
                        }
                    }
                    toks.push(t);
                },
            }
        }
        toks
    }
}

} // verus!
