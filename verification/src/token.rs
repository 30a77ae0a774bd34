//! Tokens and source spans.
use vstd::prelude::*;
use vstd::string::{StrSliceExecFns, StringSliceAdditionalSpecFns};

use crate::text::{decimal_text, push_decimal};

verus! {

/// A byte range in the source.
#[derive(Debug, Clone, Copy, PartialEq, Eq)]
pub struct Span {
    pub start: u32,
    pub end: u32,
}

impl Span {
    pub fn new(start: u32, end: u32) -> (span: Self)
        ensures
            span.start == start,
            span.end == end,
    {
        Self { start, end }
    }
}

/// What a float numeral stands for.
///
/// A hexadecimal numeral is rounded here, to the bit pattern of the nearest binary64 value.
/// A decimal numeral is kept as the text it was written as: it is already known to be in the
/// syntax `f64::from_str` accepts, and turning it into a value is left to that parser.
#[derive(Debug, Clone, Copy, PartialEq, Eq)]
pub enum FloatValue<'a> {
    Bits(u64),
    Decimal(&'a [u8]),
}

#[derive(Debug, Clone, PartialEq, Eq)]
pub struct Token<'a> {
    pub kind: TokenKind<'a>,
    pub span: Span,
}

/// `global` is deliberately absent. `LUA_COMPAT_GLOBAL` is on, which makes it an ordinary name,
/// and the parser separates the two readings with one token of lookahead.
#[derive(Debug, Clone, PartialEq, Eq)]
pub enum TokenKind<'a> {
    Name(&'a [u8]),
    Int(i64),
    Float(FloatValue<'a>),
    Str(Vec<u8>),
    And,
    Break,
    Do,
    Else,
    Elseif,
    End,
    False,
    For,
    Function,
    Goto,
    If,
    In,
    Local,
    Nil,
    Not,
    Or,
    Repeat,
    Return,
    Then,
    True,
    Until,
    While,
    IDiv,
    Concat,
    Dots,
    Eq,
    Ge,
    Le,
    Ne,
    Shl,
    Shr,
    DbColon,
    /// Every symbol Lua treats as a token of its own bytes: `+`, `{`, `#`, and the rest.
    Byte(u8),
    Eof,
}

/// The reserved word a name is, if it is one.
pub open spec fn keyword_of(word: Seq<u8>) -> Option<TokenKind<'static>> {
    if word == seq![0x61u8, 0x6e, 0x64] {
        Some(TokenKind::And)
    } else if word == seq![0x62u8, 0x72, 0x65, 0x61, 0x6b] {
        Some(TokenKind::Break)
    } else if word == seq![0x64u8, 0x6f] {
        Some(TokenKind::Do)
    } else if word == seq![0x65u8, 0x6c, 0x73, 0x65] {
        Some(TokenKind::Else)
    } else if word == seq![0x65u8, 0x6c, 0x73, 0x65, 0x69, 0x66] {
        Some(TokenKind::Elseif)
    } else if word == seq![0x65u8, 0x6e, 0x64] {
        Some(TokenKind::End)
    } else if word == seq![0x66u8, 0x61, 0x6c, 0x73, 0x65] {
        Some(TokenKind::False)
    } else if word == seq![0x66u8, 0x6f, 0x72] {
        Some(TokenKind::For)
    } else if word == seq![0x66u8, 0x75, 0x6e, 0x63, 0x74, 0x69, 0x6f, 0x6e] {
        Some(TokenKind::Function)
    } else if word == seq![0x67u8, 0x6f, 0x74, 0x6f] {
        Some(TokenKind::Goto)
    } else if word == seq![0x69u8, 0x66] {
        Some(TokenKind::If)
    } else if word == seq![0x69u8, 0x6e] {
        Some(TokenKind::In)
    } else if word == seq![0x6cu8, 0x6f, 0x63, 0x61, 0x6c] {
        Some(TokenKind::Local)
    } else if word == seq![0x6eu8, 0x69, 0x6c] {
        Some(TokenKind::Nil)
    } else if word == seq![0x6eu8, 0x6f, 0x74] {
        Some(TokenKind::Not)
    } else if word == seq![0x6fu8, 0x72] {
        Some(TokenKind::Or)
    } else if word == seq![0x72u8, 0x65, 0x70, 0x65, 0x61, 0x74] {
        Some(TokenKind::Repeat)
    } else if word == seq![0x72u8, 0x65, 0x74, 0x75, 0x72, 0x6e] {
        Some(TokenKind::Return)
    } else if word == seq![0x74u8, 0x68, 0x65, 0x6e] {
        Some(TokenKind::Then)
    } else if word == seq![0x74u8, 0x72, 0x75, 0x65] {
        Some(TokenKind::True)
    } else if word == seq![0x75u8, 0x6e, 0x74, 0x69, 0x6c] {
        Some(TokenKind::Until)
    } else if word == seq![0x77u8, 0x68, 0x69, 0x6c, 0x65] {
        Some(TokenKind::While)
    } else {
        None
    }
}


/// Characters below 0x80 are encoded as the bytes of their own values.
proof fn lemma_ascii_spelling(chars: Seq<char>, bytes: Seq<u8>)
    requires
        chars.len() == bytes.len(),
        forall|i: int| 0 <= i < chars.len() ==> chars[i] as u32 == bytes[i] as u32 && bytes[i] < 0x80,
    ensures
        vstd::utf8::encode_utf8(chars) == bytes,
    decreases chars.len(),
{
    if chars.len() > 0 {
        let c = chars[0] as u32;
        assert(c < 0x80 ==> (c & 0x7f) as u8 as u32 == c) by (bit_vector);
        assert forall|i: int| 0 <= i < chars.len() - 1 implies chars.drop_first()[i] as u32 == bytes.drop_first()[i] as u32
            && bytes.drop_first()[i] < 0x80 by {
            assert(chars.drop_first()[i] == chars[i + 1]);
        }
        lemma_ascii_spelling(chars.drop_first(), bytes.drop_first());
        assert(vstd::utf8::encode_utf8(chars) =~= bytes);
    }
}

/// Spelling undoes keyword lookup: the reserved word a name is, spelled out, is that name.
pub proof fn lemma_spelling_undoes_keyword(word: Seq<u8>)
    ensures
        keyword_of(word) matches Some(kind) ==> spelling_of(kind) == word,
{
    if word == seq![0x61u8, 0x6e, 0x64] {
        reveal_strlit("and");
        lemma_ascii_spelling("and"@, word);
    }
    if word == seq![0x62u8, 0x72, 0x65, 0x61, 0x6b] {
        reveal_strlit("break");
        lemma_ascii_spelling("break"@, word);
    }
    if word == seq![0x64u8, 0x6f] {
        reveal_strlit("do");
        lemma_ascii_spelling("do"@, word);
    }
    if word == seq![0x65u8, 0x6c, 0x73, 0x65] {
        reveal_strlit("else");
        lemma_ascii_spelling("else"@, word);
    }
    if word == seq![0x65u8, 0x6c, 0x73, 0x65, 0x69, 0x66] {
        reveal_strlit("elseif");
        lemma_ascii_spelling("elseif"@, word);
    }
    if word == seq![0x65u8, 0x6e, 0x64] {
        reveal_strlit("end");
        lemma_ascii_spelling("end"@, word);
    }
    if word == seq![0x66u8, 0x61, 0x6c, 0x73, 0x65] {
        reveal_strlit("false");
        lemma_ascii_spelling("false"@, word);
    }
    if word == seq![0x66u8, 0x6f, 0x72] {
        reveal_strlit("for");
        lemma_ascii_spelling("for"@, word);
    }
    if word == seq![0x66u8, 0x75, 0x6e, 0x63, 0x74, 0x69, 0x6f, 0x6e] {
        reveal_strlit("function");
        lemma_ascii_spelling("function"@, word);
    }
    if word == seq![0x67u8, 0x6f, 0x74, 0x6f] {
        reveal_strlit("goto");
        lemma_ascii_spelling("goto"@, word);
    }
    if word == seq![0x69u8, 0x66] {
        reveal_strlit("if");
        lemma_ascii_spelling("if"@, word);
    }
    if word == seq![0x69u8, 0x6e] {
        reveal_strlit("in");
        lemma_ascii_spelling("in"@, word);
    }
    if word == seq![0x6cu8, 0x6f, 0x63, 0x61, 0x6c] {
        reveal_strlit("local");
        lemma_ascii_spelling("local"@, word);
    }
    if word == seq![0x6eu8, 0x69, 0x6c] {
        reveal_strlit("nil");
        lemma_ascii_spelling("nil"@, word);
    }
    if word == seq![0x6eu8, 0x6f, 0x74] {
        reveal_strlit("not");
        lemma_ascii_spelling("not"@, word);
    }
    if word == seq![0x6fu8, 0x72] {
        reveal_strlit("or");
        lemma_ascii_spelling("or"@, word);
    }
    if word == seq![0x72u8, 0x65, 0x70, 0x65, 0x61, 0x74] {
        reveal_strlit("repeat");
        lemma_ascii_spelling("repeat"@, word);
    }
    if word == seq![0x72u8, 0x65, 0x74, 0x75, 0x72, 0x6e] {
        reveal_strlit("return");
        lemma_ascii_spelling("return"@, word);
    }
    if word == seq![0x74u8, 0x68, 0x65, 0x6e] {
        reveal_strlit("then");
        lemma_ascii_spelling("then"@, word);
    }
    if word == seq![0x74u8, 0x72, 0x75, 0x65] {
        reveal_strlit("true");
        lemma_ascii_spelling("true"@, word);
    }
    if word == seq![0x75u8, 0x6e, 0x74, 0x69, 0x6c] {
        reveal_strlit("until");
        lemma_ascii_spelling("until"@, word);
    }
    if word == seq![0x77u8, 0x68, 0x69, 0x6c, 0x65] {
        reveal_strlit("while");
        lemma_ascii_spelling("while"@, word);
    }
}

/// The characters a named token is written with; a byte token has none of its own here.
pub open spec fn spelling_chars(kind: TokenKind) -> Seq<char> {
    match kind {
        TokenKind::Name(_) => "<name>"@,
        TokenKind::Int(_) => "<integer>"@,
        TokenKind::Float(_) => "<number>"@,
        TokenKind::Str(_) => "<string>"@,
        TokenKind::Eof => "<eof>"@,
        TokenKind::And => "and"@,
        TokenKind::Break => "break"@,
        TokenKind::Do => "do"@,
        TokenKind::Else => "else"@,
        TokenKind::Elseif => "elseif"@,
        TokenKind::End => "end"@,
        TokenKind::False => "false"@,
        TokenKind::For => "for"@,
        TokenKind::Function => "function"@,
        TokenKind::Goto => "goto"@,
        TokenKind::If => "if"@,
        TokenKind::In => "in"@,
        TokenKind::Local => "local"@,
        TokenKind::Nil => "nil"@,
        TokenKind::Not => "not"@,
        TokenKind::Or => "or"@,
        TokenKind::Repeat => "repeat"@,
        TokenKind::Return => "return"@,
        TokenKind::Then => "then"@,
        TokenKind::True => "true"@,
        TokenKind::Until => "until"@,
        TokenKind::While => "while"@,
        TokenKind::IDiv => "//"@,
        TokenKind::Concat => ".."@,
        TokenKind::Dots => "..."@,
        TokenKind::Eq => "=="@,
        TokenKind::Ge => ">="@,
        TokenKind::Le => "<="@,
        TokenKind::Ne => "~="@,
        TokenKind::Shl => "<<"@,
        TokenKind::Shr => ">>"@,
        TokenKind::DbColon => "::"@,
        TokenKind::Byte(_) => ""@,
    }
}

/// The same, as bytes.
pub open spec fn spelling_of(kind: TokenKind) -> Seq<u8> {
    vstd::utf8::encode_utf8(spelling_chars(kind))
}

/// What a `near` clause quotes for a token: its characters, or `<\N>` for an unprintable byte.
pub open spec fn symbol_of(kind: TokenKind) -> Seq<u8> {
    match kind {
        TokenKind::Byte(byte) => if 0x20 <= byte <= 0x7e {
            seq![byte]
        } else {
            "<\\".spec_bytes() + decimal_text(byte as nat) + ">".spec_bytes()
        },
        _ => spelling_of(kind),
    }
}

/// How a token is named inside an error message: a class of token by its placeholder, any
/// other token quoted.
pub open spec fn description_of(kind: TokenKind) -> Seq<u8> {
    match kind {
        TokenKind::Name(_) | TokenKind::Int(_) | TokenKind::Float(_) | TokenKind::Str(_)
        | TokenKind::Eof => spelling_of(kind),
        _ => "'".spec_bytes() + symbol_of(kind) + "'".spec_bytes(),
    }
}

impl TokenKind<'_> {
    /// How a token is named inside an error message.
    pub fn describe(&self) -> (text: Vec<u8>)
        ensures
            text@ == description_of(*self),
    {
        match self {
            TokenKind::Name(_) | TokenKind::Int(_) | TokenKind::Float(_) | TokenKind::Str(_)
            | TokenKind::Eof => self.spelling().as_bytes_vec(),
            written => {
                let mut out = "'".as_bytes_vec();
                let symbol = written.symbol();
                out.extend_from_slice(symbol.as_slice());
                let close = "'".as_bytes_vec();
                out.extend_from_slice(close.as_slice());
                out
            },
        }
    }

    /// The characters a token is written with, which is what a `near` clause quotes.
    pub fn symbol(&self) -> (text: Vec<u8>)
        ensures
            text@ == symbol_of(*self),
    {
        match self {
            TokenKind::Byte(byte) => {
                if 0x20 <= *byte && *byte <= 0x7e {
                    let mut out = Vec::new();
                    out.push(*byte);
                    proof {
                        assert(out@ =~= seq![*byte]);
                    }
                    out
                } else {
                    let mut out = "<\\".as_bytes_vec();
                    push_decimal(&mut out, *byte as u64);
                    let close = ">".as_bytes_vec();
                    out.extend_from_slice(close.as_slice());
                    out
                }
            },
            named => named.spelling().as_bytes_vec(),
        }
    }

    fn spelling(&self) -> (text: &'static str)
        ensures
            text@ == spelling_chars(*self),
    {
        match self {
            TokenKind::Name(_) => "<name>",
            TokenKind::Int(_) => "<integer>",
            TokenKind::Float(_) => "<number>",
            TokenKind::Str(_) => "<string>",
            TokenKind::Eof => "<eof>",
            TokenKind::And => "and",
            TokenKind::Break => "break",
            TokenKind::Do => "do",
            TokenKind::Else => "else",
            TokenKind::Elseif => "elseif",
            TokenKind::End => "end",
            TokenKind::False => "false",
            TokenKind::For => "for",
            TokenKind::Function => "function",
            TokenKind::Goto => "goto",
            TokenKind::If => "if",
            TokenKind::In => "in",
            TokenKind::Local => "local",
            TokenKind::Nil => "nil",
            TokenKind::Not => "not",
            TokenKind::Or => "or",
            TokenKind::Repeat => "repeat",
            TokenKind::Return => "return",
            TokenKind::Then => "then",
            TokenKind::True => "true",
            TokenKind::Until => "until",
            TokenKind::While => "while",
            TokenKind::IDiv => "//",
            TokenKind::Concat => "..",
            TokenKind::Dots => "...",
            TokenKind::Eq => "==",
            TokenKind::Ge => ">=",
            TokenKind::Le => "<=",
            TokenKind::Ne => "~=",
            TokenKind::Shl => "<<",
            TokenKind::Shr => ">>",
            TokenKind::DbColon => "::",
            TokenKind::Byte(_) => "",
        }
    }
}

} // verus!
