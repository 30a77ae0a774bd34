//! One token per call, and the branch that decides which kind it is.
use vstd::prelude::*;

use crate::text::same_bytes;
use crate::token::{Token, TokenKind, keyword_of};

use super::Lexer;
use super::bytes::{
    COLON, DOT, DQUOTE, EQUALS, GREATER, LBRACKET, LESS, MINUS, QUOTE, SLASH, TILDE,
    is_ascii_digit, is_name_part, is_name_start, name_part, name_start,
};
use super::error::LexError;
use super::grammar::{Lexed, bracket, dot, lex, name_end, symbol, token_at, word};

verus! {

/// The reserved word a name is, if it is one.
pub fn keyword(word: &[u8]) -> (r: Option<TokenKind<'static>>)
    ensures
        r == keyword_of(word@),
{
    // `and`
    if same_bytes(word, &[0x61, 0x6e, 0x64]) {
        return Some(TokenKind::And);
    }
    // `break`
    if same_bytes(word, &[0x62, 0x72, 0x65, 0x61, 0x6b]) {
        return Some(TokenKind::Break);
    }
    // `do`
    if same_bytes(word, &[0x64, 0x6f]) {
        return Some(TokenKind::Do);
    }
    // `else`
    if same_bytes(word, &[0x65, 0x6c, 0x73, 0x65]) {
        return Some(TokenKind::Else);
    }
    // `elseif`
    if same_bytes(word, &[0x65, 0x6c, 0x73, 0x65, 0x69, 0x66]) {
        return Some(TokenKind::Elseif);
    }
    // `end`
    if same_bytes(word, &[0x65, 0x6e, 0x64]) {
        return Some(TokenKind::End);
    }
    // `false`
    if same_bytes(word, &[0x66, 0x61, 0x6c, 0x73, 0x65]) {
        return Some(TokenKind::False);
    }
    // `for`
    if same_bytes(word, &[0x66, 0x6f, 0x72]) {
        return Some(TokenKind::For);
    }
    // `function`
    if same_bytes(word, &[0x66, 0x75, 0x6e, 0x63, 0x74, 0x69, 0x6f, 0x6e]) {
        return Some(TokenKind::Function);
    }
    // `goto`
    if same_bytes(word, &[0x67, 0x6f, 0x74, 0x6f]) {
        return Some(TokenKind::Goto);
    }
    // `if`
    if same_bytes(word, &[0x69, 0x66]) {
        return Some(TokenKind::If);
    }
    // `in`
    if same_bytes(word, &[0x69, 0x6e]) {
        return Some(TokenKind::In);
    }
    // `local`
    if same_bytes(word, &[0x6c, 0x6f, 0x63, 0x61, 0x6c]) {
        return Some(TokenKind::Local);
    }
    // `nil`
    if same_bytes(word, &[0x6e, 0x69, 0x6c]) {
        return Some(TokenKind::Nil);
    }
    // `not`
    if same_bytes(word, &[0x6e, 0x6f, 0x74]) {
        return Some(TokenKind::Not);
    }
    // `or`
    if same_bytes(word, &[0x6f, 0x72]) {
        return Some(TokenKind::Or);
    }
    // `repeat`
    if same_bytes(word, &[0x72, 0x65, 0x70, 0x65, 0x61, 0x74]) {
        return Some(TokenKind::Repeat);
    }
    // `return`
    if same_bytes(word, &[0x72, 0x65, 0x74, 0x75, 0x72, 0x6e]) {
        return Some(TokenKind::Return);
    }
    // `then`
    if same_bytes(word, &[0x74, 0x68, 0x65, 0x6e]) {
        return Some(TokenKind::Then);
    }
    // `true`
    if same_bytes(word, &[0x74, 0x72, 0x75, 0x65]) {
        return Some(TokenKind::True);
    }
    // `until`
    if same_bytes(word, &[0x75, 0x6e, 0x74, 0x69, 0x6c]) {
        return Some(TokenKind::Until);
    }
    // `while`
    if same_bytes(word, &[0x77, 0x68, 0x69, 0x6c, 0x65]) {
        return Some(TokenKind::While);
    }
    None
}

} // verus!

verus! {

proof fn lemma_name_end_bound(s: Seq<u8>, p: int)
    requires
        0 <= p <= s.len(),
    ensures
        p <= name_end(s, p) <= s.len(),
    decreases s.len() - p,
{
    if p < s.len() && name_part(s[p]) {
        lemma_name_end_bound(s, p + 1);
    }
}

/// A token matches what the grammar says, and the cursor stands after it.
pub open spec fn delivers<'a>(r: Result<Token<'a>, LexError>, lexed: Lexed, at: int) -> bool {
    match lexed {
        Lexed::Token { lexeme, start, end } => r matches Ok(token) && token.kind.is(lexeme)
            && token.span.start == start as u32 && token.span.end == end as u32 && at == end,
        Lexed::Fault(fault) => r matches Err(e) && e.is(fault),
    }
}

impl<'a> Lexer<'a> {
    /// The next token. At the end of the source this keeps returning `TokenKind::Eof`.
    pub fn next_token(&mut self) -> (r: Result<Token<'a>, LexError>)
        requires
            old(self).wf(),
        ensures
            final(self).wf(),
            final(self).text() == old(self).text(),
            delivers(r, lex(old(self).text(), old(self).at()), final(self).at()),
    {
        let ghost s = self.text();
        let ghost target = lex(s, self.at());
        loop
            invariant
                self.wf(),
                self.text() == s,
                s == old(self).text(),
                target == lex(s, old(self).at()),
                lex(s, self.at()) == target,
            decreases s.len() - self.at(),
        {
            let start = self.pos;
            let byte = match self.peek() {
                Some(byte) => byte,
                None => return Ok(self.token(TokenKind::Eof, start)),
            };

            if byte == 0x0a || byte == 0x0d {
                self.newline();
            } else if byte == 0x20 || byte == 0x09 || byte == 0x0b || byte == 0x0c {
                self.advance();
            } else if byte == MINUS && self.byte_at(start + 1) == Some(MINUS) {
                self.advance();
                self.advance();
                match self.skip_comment() {
                    Ok(()) => {},
                    Err(e) => return Err(e),
                }
            } else {
                return self.read_token(start);
            }
        }
    }

    /// The token under the cursor, which is not a blank, a line break or a comment.
    fn read_token(&mut self, start: usize) -> (r: Result<Token<'a>, LexError>)
        requires
            old(self).wf(),
            old(self).at() == start < old(self).text().len(),
        ensures
            final(self).wf(),
            final(self).text() == old(self).text(),
            delivers(r, token_at(old(self).text(), start as int), final(self).at()),
    {
        reveal(token_at);
        let byte = self.source[start];
        if byte == LBRACKET {
            self.read_bracket(start)
        } else if byte == DQUOTE || byte == QUOTE {
            self.read_string(byte, start)
        } else if byte == DOT {
            self.read_dot(start)
        } else if is_ascii_digit(byte) {
            self.read_numeral(start)
        } else if is_name_start(byte) {
            self.read_word(start)
        } else {
            self.read_symbol(start)
        }
    }

    fn read_bracket(&mut self, start: usize) -> (r: Result<Token<'a>, LexError>)
        requires
            old(self).wf(),
            old(self).at() == start < old(self).text().len(),
            old(self).text()[start as int] == LBRACKET,
        ensures
            final(self).wf(),
            final(self).text() == old(self).text(),
            delivers(r, bracket(old(self).text(), start as int), final(self).at()),
    {
        let level = self.long_bracket_level();
        if level == 1 {
            return Ok(self.token(TokenKind::Byte(LBRACKET), start));
        } else if level == 0 {
            return Err(self.delimiter_error(start));
        }
        match self.read_long_bracket(level, start, super::long::LongForm::String) {
            Ok(()) => {
                let value = self.buf.clone();
                Ok(self.token(TokenKind::Str(value), start))
            },
            Err(e) => Err(e),
        }
    }

    fn read_dot(&mut self, start: usize) -> (r: Result<Token<'a>, LexError>)
        requires
            old(self).wf(),
            old(self).at() == start < old(self).text().len(),
            old(self).text()[start as int] == DOT,
        ensures
            final(self).wf(),
            final(self).text() == old(self).text(),
            delivers(r, dot(old(self).text(), start as int), final(self).at()),
    {
        self.advance();
        if self.eat(DOT) {
            return Ok(
                if self.eat(DOT) {
                    self.token(TokenKind::Dots, start)
                } else {
                    self.token(TokenKind::Concat, start)
                },
            );
        }
        match self.peek() {
            Some(next) => if is_ascii_digit(next) {
                return self.read_numeral(start);
            },
            None => {},
        }
        Ok(self.token(TokenKind::Byte(DOT), start))
    }

    fn read_word(&mut self, start: usize) -> (r: Result<Token<'a>, LexError>)
        requires
            old(self).wf(),
            old(self).at() == start < old(self).text().len(),
            name_start(old(self).text()[start as int]),
        ensures
            final(self).wf(),
            final(self).text() == old(self).text(),
            delivers(r, word(old(self).text(), start as int), final(self).at()),
    {
        let ghost s = self.text();
        self.advance();
        proof {
            lemma_name_end_bound(s, start + 1);
        }
        loop
            invariant
                self.wf(),
                self.text() == s,
                start < self.at() <= name_end(s, start as int),
                name_end(s, self.at()) == name_end(s, start as int),
            ensures
                self.wf(),
                self.text() == s,
                self.at() == name_end(s, start as int),
            decreases s.len() - self.at(),
        {
            match self.peek() {
                Some(next) => if is_name_part(next) {
                    self.advance();
                    proof {
                        lemma_name_end_bound(s, self.at());
                    }
                } else {
                    break ;
                },
                None => break ,
            }
        }
        let source: &'a [u8] = self.source;
        let word = &source[start..self.pos];
        let kind = match keyword(word) {
            Some(kind) => kind,
            None => TokenKind::Name(word),
        };
        Ok(self.token(kind, start))
    }

    fn read_symbol(&mut self, start: usize) -> (r: Result<Token<'a>, LexError>)
        requires
            old(self).wf(),
            old(self).at() == start < old(self).text().len(),
        ensures
            final(self).wf(),
            final(self).text() == old(self).text(),
            delivers(r, symbol(old(self).text(), start as int), final(self).at()),
    {
        let byte = self.source[start];
        self.advance();
        Ok(
            if byte == EQUALS {
                if self.eat(EQUALS) {
                    self.token(TokenKind::Eq, start)
                } else {
                    self.token(TokenKind::Byte(EQUALS), start)
                }
            } else if byte == LESS {
                if self.eat(EQUALS) {
                    self.token(TokenKind::Le, start)
                } else if self.eat(LESS) {
                    self.token(TokenKind::Shl, start)
                } else {
                    self.token(TokenKind::Byte(LESS), start)
                }
            } else if byte == GREATER {
                if self.eat(EQUALS) {
                    self.token(TokenKind::Ge, start)
                } else if self.eat(GREATER) {
                    self.token(TokenKind::Shr, start)
                } else {
                    self.token(TokenKind::Byte(GREATER), start)
                }
            } else if byte == SLASH {
                if self.eat(SLASH) {
                    self.token(TokenKind::IDiv, start)
                } else {
                    self.token(TokenKind::Byte(SLASH), start)
                }
            } else if byte == TILDE {
                if self.eat(EQUALS) {
                    self.token(TokenKind::Ne, start)
                } else {
                    self.token(TokenKind::Byte(TILDE), start)
                }
            } else if byte == COLON {
                if self.eat(COLON) {
                    self.token(TokenKind::DbColon, start)
                } else {
                    self.token(TokenKind::Byte(COLON), start)
                }
            } else {
                self.token(TokenKind::Byte(byte), start)
            },
        )
    }
}

} // verus!
