//! The parser's state: the token window it reads through, and the depth it is allowed to
//! recurse to.
use vstd::prelude::*;

use crate::ast::{Ast, Builder};
use crate::error::{Error, ErrorKind};
use crate::lexer::MAX_SOURCE;
use crate::lexer::grammar::{lex, Lexed, Lexeme};
use crate::near::near_of;
use crate::lexer::span::{lemma_lex_span, lemma_lex_string_text};
use crate::lexer::Lexer;
use crate::near::is_string_text;
use crate::token::{description_of, Span, Token, TokenKind};

verus! {

/// How many nested `subexpr` and `block` entries the parser takes before it refuses the chunk.
pub const MAX_DEPTH: u32 = 1000;

/// A token as the lexer reads it from `s`: inside the source, at least one byte long unless
/// it is `<eof>`, and written with a quote or a long bracket when it is a string.
pub open spec fn token_in(t: Token, s: Seq<u8>) -> bool {
    &&& t.span.start <= t.span.end <= s.len()
    &&& (t.kind is Eof || t.span.start < t.span.end)
    &&& (t.kind is Str ==> is_string_text(s.subrange(t.span.start as int, t.span.end as int)))
}

/// A keyword or symbol: a token kind that carries nothing of its own but, for a symbol, the
/// byte it is.
pub open spec fn is_fixed(kind: TokenKind) -> bool {
    !(kind is Name || kind is Int || kind is Float || kind is Str)
}

pub(crate) struct Parser<'a> {
    pub(crate) source: &'a [u8],
    pub(crate) builder: Builder<'a>,
    pub(crate) current: Token<'a>,
    /// Where the last consumed token ended.
    pub(crate) last_end: u32,
    /// Whether the function being parsed takes `...`.
    pub(crate) varargs: bool,
    /// Loops open in the function being parsed.
    pub(crate) loops: u32,
    pub(crate) lexer: Lexer<'a>,
    /// One token past `current`, once something has asked for it.
    pub(crate) ahead: Option<Token<'a>>,
    /// Nested `subexpr` and `block` entries.
    pub(crate) depth: u32,
}

impl<'a> Parser<'a> {
    /// How many nodes the tree has so far.
    pub(crate) open spec fn nodes(&self) -> int {
        (self.builder.exprs().len() + self.builder.stats().len() + self.builder.blocks().len()
            + self.builder.funcs().len()) as int
    }

    /// Room for more nodes: four for every byte consumed, and one to start with. It never
    /// runs out, which keeps every node's number inside a `u32`.
    pub(crate) open spec fn budget(&self) -> int {
        4 * self.last_end + 1 - self.nodes()
    }

    /// The parser is well formed: the lexer reads the source, the current token and the one
    /// past it are tokens of the source in order, the lexer stands after the last of them, the
    /// nesting is in bounds, and the budget holds.
    pub(crate) open spec fn inv(&self) -> bool {
        &&& self.lexer.wf()
        &&& self.lexer.text() == self.source@
        &&& token_in(self.current, self.source@)
        &&& self.last_end <= self.current.span.start
        &&& match self.ahead {
            None => self.lexer.at() == self.current.span.end,
            Some(t) => token_in(t, self.source@) && self.current.span.end <= t.span.start && self.lexer.at()
                == t.span.end,
        }
        &&& self.depth <= MAX_DEPTH
        &&& self.budget() >= 0
        &&& self.builder.closed()
    }

    /// What a step that went through keeps of `before`: the source, the nesting and the
    /// counts of the function being parsed, every node made so far, and the invariant; and it
    /// never steps back.
    pub(crate) open spec fn stepped(&self, before: Parser<'a>) -> bool {
        &&& self.inv()
        &&& self.source@ == before.source@
        &&& self.depth == before.depth
        &&& self.loops == before.loops
        &&& self.varargs == before.varargs
        &&& self.builder.exprs().len() >= before.builder.exprs().len()
        &&& self.builder.stats().len() >= before.builder.stats().len()
        &&& self.builder.blocks().len() >= before.builder.blocks().len()
        &&& self.builder.funcs().len() >= before.builder.funcs().len()
        &&& self.last_end >= before.last_end
    }

    /// The lexer gives one more token where it stands.
    pub(crate) open spec fn can_lex(&self) -> bool {
        lex(self.lexer.text(), self.lexer.at()) is Token
    }

    /// The token after `current` can be had: it is read ahead already, or the lexer gives it.
    pub(crate) open spec fn can_step(&self) -> bool {
        self.ahead is Some || self.can_lex()
    }

    /// `t` is the token the lexer gives at `at` in `text`.
    pub(crate) open spec fn lexed_as(t: Token<'a>, text: Seq<u8>, at: int) -> bool {
        lex(text, at) matches Lexed::Token { lexeme, start, end } && t.kind.is(lexeme) && t.span.start == start
            && t.span.end == end
    }

    /// The nodes are the ones `before` had.
    pub(crate) open spec fn same_nodes(&self, before: Parser<'a>) -> bool {
        &&& self.builder.exprs() == before.builder.exprs()
        &&& self.builder.stats() == before.builder.stats()
        &&& self.builder.blocks() == before.builder.blocks()
        &&& self.builder.funcs() == before.builder.funcs()
    }

    /// Takes the next token from the lexer.
    fn lex_next(&mut self) -> (r: Result<Token<'a>, Error>)
        requires
            old(self).lexer.wf(),
        ensures
            final(self).lexer.wf(),
            final(self).lexer.text() == old(self).lexer.text(),
            final(self).source == old(self).source,
            final(self).builder == old(self).builder,
            final(self).current == old(self).current,
            final(self).ahead == old(self).ahead,
            final(self).last_end == old(self).last_end,
            final(self).depth == old(self).depth,
            final(self).loops == old(self).loops,
            final(self).varargs == old(self).varargs,
            r matches Ok(t) ==> token_in(t, old(self).lexer.text()) && old(self).lexer.at() <= t.span.start
                && final(self).lexer.at() == t.span.end,
            r is Ok <==> old(self).can_lex(),
            r matches Ok(t) ==> Self::lexed_as(t, old(self).lexer.text(), old(self).lexer.at()),
    {
        let ghost s = self.lexer.text();
        let ghost at = self.lexer.at();
        proof {
            lemma_lex_span(s, at);
            lemma_lex_string_text(s, at);
        }
        match self.lexer.next_token() {
            Ok(token) => Ok(token),
            Err(e) => Err(Error::from_lex(e)),
        }
    }

    pub(crate) fn advance(&mut self) -> (r: Result<(), Error>)
        requires
            old(self).inv(),
            !(old(self).current.kind is Eof),
        ensures
            r is Ok ==> final(self).stepped(*old(self)),
            r is Ok ==> final(self).same_nodes(*old(self)),
            r is Ok ==> final(self).last_end == old(self).current.span.end,
            r is Ok ==> final(self).budget() >= old(self).budget() + 4,
            r is Ok && old(self).ahead is Some ==> final(self).current == old(self).ahead->0,
            r is Ok && old(self).ahead is None ==> Self::lexed_as(final(self).current, old(self).lexer.text(), old(self).lexer.at()),
            r is Ok ==> final(self).ahead is None,
            r is Ok <==> old(self).can_step(),
    {
        self.last_end = self.current.span.end;
        let next = match self.ahead.take() {
            Some(token) => token,
            None => self.lex_next()?,
        };
        self.current = next;
        Ok(())
    }

    /// Reads the token after `current` into `ahead`, unless it is there already.
    pub(crate) fn peek(&mut self) -> (r: Result<(), Error>)
        requires
            old(self).inv(),
        ensures
            r is Ok ==> final(self).stepped(*old(self)),
            r is Ok ==> final(self).same_nodes(*old(self)),
            r is Ok ==> final(self).current == old(self).current,
            r is Ok ==> final(self).last_end == old(self).last_end,
            r is Ok ==> final(self).ahead is Some,
            r is Ok && old(self).ahead is Some ==> final(self).ahead == old(self).ahead,
            r is Ok && old(self).ahead is None ==> Self::lexed_as(final(self).ahead->0, old(self).lexer.text(), old(self).lexer.at()),
            r is Ok <==> old(self).can_step(),
    {
        if self.ahead.is_none() {
            let token = self.lex_next()?;
            self.ahead = Some(token);
        }
        Ok(())
    }

    pub(crate) fn at_byte(&self, byte: u8) -> (at: bool)
        ensures
            at == (self.current.kind == TokenKind::Byte(byte)),
    {
        match self.current.kind {
            TokenKind::Byte(b) => b == byte,
            _ => false,
        }
    }

    pub(crate) fn eat_byte(&mut self, byte: u8) -> (r: Result<bool, Error>)
        requires
            old(self).inv(),
        ensures
            r is Ok ==> final(self).stepped(*old(self)),
            r is Ok ==> final(self).same_nodes(*old(self)),
            r matches Ok(eaten) ==> eaten == (old(self).current.kind == TokenKind::Byte(byte)),
            old(self).current.kind != TokenKind::Byte(byte) ==> r == Ok::<bool, Error>(false),
            r is Ok <==> old(self).current.kind != TokenKind::Byte(byte) || old(self).can_step(),
            r matches Ok(eaten) ==> if eaten {
                final(self).budget() >= old(self).budget() + 4
            } else {
                *final(self) == *old(self)
            },
    {
        if !self.at_byte(byte) {
            return Ok(false);
        }
        self.advance()?;
        Ok(true)
    }

    /// Whether the current token is the keyword or symbol `kind`.
    pub(crate) fn at_kind(&self, kind: &TokenKind<'static>) -> (at: bool)
        requires
            is_fixed(*kind),
        ensures
            at == (self.current.kind == *kind),
    {
        same_fixed(&self.current.kind, kind)
    }

    /// Consumes a keyword or a multi-byte symbol when that is what is next.
    pub(crate) fn eat(&mut self, kind: TokenKind<'static>) -> (r: Result<bool, Error>)
        requires
            old(self).inv(),
            is_fixed(kind),
            !(kind is Eof),
        ensures
            r is Ok ==> final(self).stepped(*old(self)),
            r is Ok ==> final(self).same_nodes(*old(self)),
            r matches Ok(eaten) ==> eaten == (old(self).current.kind == kind),
            old(self).current.kind != kind ==> r == Ok::<bool, Error>(false),
            r matches Ok(eaten) ==> if eaten {
                final(self).budget() >= old(self).budget() + 4
            } else {
                *final(self) == *old(self)
            },
    {
        if !self.at_kind(&kind) {
            return Ok(false);
        }
        self.advance()?;
        Ok(true)
    }

    /// The same, for a token the grammar leaves no choice about.
    pub(crate) fn expect(&mut self, kind: TokenKind<'static>) -> (r: Result<(), Error>)
        requires
            old(self).inv(),
            is_fixed(kind),
            !(kind is Eof),
        ensures
            r is Ok ==> final(self).stepped(*old(self)),
            r is Ok ==> final(self).same_nodes(*old(self)),
            r is Ok ==> old(self).current.kind == kind,
            r is Ok ==> final(self).budget() >= old(self).budget() + 4,
            old(self).current.kind != kind ==> (r matches Err(e) && (e.kind matches ErrorKind::Expected(text) && text@ == description_of(kind))),
    {
        if self.at_kind(&kind) {
            return self.advance();
        }
        Err(self.syntax(ErrorKind::Expected(kind.describe())))
    }

    /// The same, for a token that closes one opened earlier at `open_at`.
    pub(crate) fn expect_match(&mut self, kind: TokenKind<'static>, open: TokenKind<'static>, open_at: u32) -> (r: Result<
        (),
        Error,
    >)
        requires
            old(self).inv(),
            is_fixed(kind),
            !(kind is Eof),
        ensures
            r is Ok ==> final(self).stepped(*old(self)),
            r is Ok ==> final(self).same_nodes(*old(self)),
            r is Ok ==> old(self).current.kind == kind,
            r is Ok ==> final(self).budget() >= old(self).budget() + 4,
            old(self).current.kind != kind ==> (r matches Err(e) && (e.kind matches ErrorKind::ExpectedToClose {
                expected,
                open: opened,
                open_at: at,
            } && expected@ == description_of(kind) && opened@ == description_of(open) && at == open_at)),
    {
        if self.at_kind(&kind) {
            return self.advance();
        }
        Err(
            self.syntax(
                ErrorKind::ExpectedToClose { expected: kind.describe(), open: open.describe(), open_at },
            ),
        )
    }

    /// The current token's name, consumed.
    pub(crate) fn name(&mut self) -> (r: Result<&'a [u8], Error>)
        requires
            old(self).inv(),
        ensures
            r is Ok ==> final(self).stepped(*old(self)),
            r is Ok ==> final(self).same_nodes(*old(self)),
            r is Ok ==> final(self).budget() >= old(self).budget() + 4,
            r matches Ok(name) ==> old(self).current.kind == TokenKind::Name(name),
            !(old(self).current.kind is Name) ==> r is Err,
            r is Ok <==> old(self).current.kind is Name && old(self).can_step(),
    {
        let name = match self.current.kind {
            TokenKind::Name(name) => name,
            _ => {
                // Any name describes the class of names.
                let expected = TokenKind::Name(self.source).describe();
                return Err(self.syntax(ErrorKind::Expected(expected)));
            },
        };
        self.advance()?;
        Ok(name)
    }

    pub(crate) fn current_name(&self) -> (name: Option<&'a [u8]>)
        ensures
            match name {
                Some(n) => self.current.kind == TokenKind::Name(n),
                None => !(self.current.kind is Name),
            },
    {
        match self.current.kind {
            TokenKind::Name(name) => Some(name),
            _ => None,
        }
    }

    /// From `start` to the end of the last consumed token.
    pub(crate) fn span_from(&self, start: u32) -> (span: Span)
        ensures
            span.start == start,
            span.end == if self.last_end >= start {
                self.last_end
            } else {
                start
            },
    {
        let end = if self.last_end >= start {
            self.last_end
        } else {
            start
        };
        Span::new(start, end)
    }

    /// Takes one level of recursion.
    pub(crate) fn descend(&mut self) -> (r: Result<(), Error>)
        requires
            old(self).inv(),
        ensures
            r is Ok ==> final(self).depth == old(self).depth + 1 && final(self).depth <= MAX_DEPTH,
            r is Ok ==> final(self).inv(),
            r is Ok ==> *final(self) == (Parser { depth: final(self).depth, ..*old(self) }),
            r matches Err(e) ==> old(self).depth == MAX_DEPTH && e.kind == ErrorKind::StackOverflow,
    {
        if self.depth >= MAX_DEPTH {
            return Err(self.semantic(ErrorKind::StackOverflow));
        }
        self.depth += 1;
        Ok(())
    }

    /// Gives back a level taken by `descend`.
    pub(crate) fn ascend(&mut self)
        requires
            old(self).depth > 0,
        ensures
            *final(self) == (Parser { depth: (old(self).depth - 1) as u32, ..*old(self) }),
    {
        self.depth -= 1;
    }

    fn new(source: &'a [u8]) -> (r: Result<Self, Error>)
        requires
            source@.len() < MAX_SOURCE,
        ensures
            r matches Ok(p) ==> p.inv() && p.source@ == source@ && p.depth == 0 && p.loops == 0 && p.varargs
                && p.nodes() == 0,
            r is Ok <==> lex(source@, 0) is Token,
            r matches Ok(p) ==> p.ahead is None && p.last_end == 0 && Self::lexed_as(p.current, source@, 0),
    {
        let mut lexer = Lexer::new(source);
        proof {
            lemma_lex_span(source@, 0);
            lemma_lex_string_text(source@, 0);
        }
        let current = match lexer.next_token() {
            Ok(token) => token,
            Err(e) => return Err(Error::from_lex(e)),
        };
        Ok(
            Parser {
                source,
                builder: Builder::new(),
                current,
                last_end: 0,
                varargs: true,
                loops: 0,
                lexer,
                ahead: None,
                depth: 0,
            },
        )
    }
}

/// Whether `a` is the keyword or symbol `b`.
pub fn same_fixed(a: &TokenKind, b: &TokenKind) -> (same: bool)
    requires
        is_fixed(*b),
    ensures
        same == (*a == *b),
{
    match (a, b) {
        (TokenKind::And, TokenKind::And) => true,
        (TokenKind::Break, TokenKind::Break) => true,
        (TokenKind::Do, TokenKind::Do) => true,
        (TokenKind::Else, TokenKind::Else) => true,
        (TokenKind::Elseif, TokenKind::Elseif) => true,
        (TokenKind::End, TokenKind::End) => true,
        (TokenKind::False, TokenKind::False) => true,
        (TokenKind::For, TokenKind::For) => true,
        (TokenKind::Function, TokenKind::Function) => true,
        (TokenKind::Goto, TokenKind::Goto) => true,
        (TokenKind::If, TokenKind::If) => true,
        (TokenKind::In, TokenKind::In) => true,
        (TokenKind::Local, TokenKind::Local) => true,
        (TokenKind::Nil, TokenKind::Nil) => true,
        (TokenKind::Not, TokenKind::Not) => true,
        (TokenKind::Or, TokenKind::Or) => true,
        (TokenKind::Repeat, TokenKind::Repeat) => true,
        (TokenKind::Return, TokenKind::Return) => true,
        (TokenKind::Then, TokenKind::Then) => true,
        (TokenKind::True, TokenKind::True) => true,
        (TokenKind::Until, TokenKind::Until) => true,
        (TokenKind::While, TokenKind::While) => true,
        (TokenKind::IDiv, TokenKind::IDiv) => true,
        (TokenKind::Concat, TokenKind::Concat) => true,
        (TokenKind::Dots, TokenKind::Dots) => true,
        (TokenKind::Eq, TokenKind::Eq) => true,
        (TokenKind::Ge, TokenKind::Ge) => true,
        (TokenKind::Le, TokenKind::Le) => true,
        (TokenKind::Ne, TokenKind::Ne) => true,
        (TokenKind::Shl, TokenKind::Shl) => true,
        (TokenKind::Shr, TokenKind::Shr) => true,
        (TokenKind::DbColon, TokenKind::DbColon) => true,
        (TokenKind::Eof, TokenKind::Eof) => true,
        (TokenKind::Byte(x), TokenKind::Byte(y)) => *x == *y,
        _ => false,
    }
}

/// Reads one chunk.
pub fn parse_chunk(source: &[u8]) -> (r: Result<Ast<'_>, Error>)
    requires
        source@.len() < MAX_SOURCE,
    ensures
        r matches Ok(ast) ==> ast.wf(),
        lex(source@, 0) is Fault ==> r is Err,
        lex(source@, 0) matches Lexed::Token { lexeme: Lexeme::Fixed(TokenKind::Eof), .. } ==> (r matches Ok(ast)
            && ast.blocks()[ast.main_id().id()].stats@.len() == 0),
        lex(source@, 0) matches Lexed::Token { lexeme: Lexeme::Fixed(TokenKind::Break), start, end } ==> (r matches Err(e)
            && e.kind == ErrorKind::BreakOutsideLoop && e.at == end && e.near@ == near_of(TokenKind::Break, source@.subrange(start, end))),
{
    let mut parser = Parser::new(source)?;
    let main = parser.chunk()?;
    Ok(parser.builder.finish(main))
}

} // verus!
