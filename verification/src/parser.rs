//! The `.seam` front end.
//!
//! ```text
//! file        := declaration*
//! declaration := "schema" ident "{" field* "}"
//!              | "union" ident "@" "tag" "(" string ")" "{" variant* "}"
//! variant     := (ident | string) ":" ident
//! field       := ident ":" "optional"? type rule*
//! type        := base "?"?
//! base        := ident | "[" type "]" | enum
//! enum        := "enum" "{" value ("," value)* ","? "}"
//! value       := ident | string
//! rule        := "@" ident "(" args ")"
//! ```
//!
//! Both stages are stated as functions over their input: the lexer over the
//! characters of the source, the parser over the tokens. A type a schema
//! names is checked once the whole file is known, so a declaration may refer
//! to one that comes later.

use vstd::prelude::*;
use vstd::string::StrSliceExecFns;

use crate::format::{format_named, Format};
use crate::message::owned;
use crate::schema::{
    Field, IntType, IntWidth, ObjectType, Presence, Rule, Schema, Type, UnionType, Variant, SpecField, SpecObject, SpecSchema, SpecType, SpecUnion,
};
use crate::schema::{object_names, union_names};
use crate::value::{first_index, lemma_first_index};
use crate::text::{
    alphabetic, alphanumeric, decimal, is_alphabetic, is_alphanumeric, is_white_space, push_char,
    push_decimal, push_signed_decimal, signed_decimal, str_eq, white_space,
};

verus! {

// ----------------------------------------------------------------- tokens

#[derive(Debug, Clone, PartialEq, Eq)]
pub enum Tok {
    Ident(String),
    Str(String),
    Int(i128),
    LBrace,
    RBrace,
    LBracket,
    RBracket,
    LParen,
    RParen,
    Colon,
    Question,
    At,
    Comma,
    RangeIncl,
    Eof,
}

/// A token as the contracts speak of it.
pub enum SpecTok {
    Ident(Seq<char>),
    Str(Seq<char>),
    Int(int),
    LBrace,
    RBrace,
    LBracket,
    RBracket,
    LParen,
    RParen,
    Colon,
    Question,
    At,
    Comma,
    RangeIncl,
    Eof,
}

impl Tok {
    pub open spec fn view(&self) -> SpecTok {
        match self {
            Tok::Ident(s) => SpecTok::Ident(s@),
            Tok::Str(s) => SpecTok::Str(s@),
            Tok::Int(n) => SpecTok::Int(*n as int),
            Tok::LBrace => SpecTok::LBrace,
            Tok::RBrace => SpecTok::RBrace,
            Tok::LBracket => SpecTok::LBracket,
            Tok::RBracket => SpecTok::RBracket,
            Tok::LParen => SpecTok::LParen,
            Tok::RParen => SpecTok::RParen,
            Tok::Colon => SpecTok::Colon,
            Tok::Question => SpecTok::Question,
            Tok::At => SpecTok::At,
            Tok::Comma => SpecTok::Comma,
            Tok::RangeIncl => SpecTok::RangeIncl,
            Tok::Eof => SpecTok::Eof,
        }
    }
}

/// How a token is named in a message.
pub open spec fn describe(t: SpecTok) -> Seq<char> {
    match t {
        SpecTok::Ident(s) => "`"@ + s + "`"@,
        SpecTok::Str(s) => "string \""@ + s + "\""@,
        SpecTok::Int(n) => "`"@ + signed_decimal(n) + "`"@,
        SpecTok::LBrace => "`{`"@,
        SpecTok::RBrace => "`}`"@,
        SpecTok::LBracket => "`[`"@,
        SpecTok::RBracket => "`]`"@,
        SpecTok::LParen => "`(`"@,
        SpecTok::RParen => "`)`"@,
        SpecTok::Colon => "`:`"@,
        SpecTok::Question => "`?`"@,
        SpecTok::At => "`@`"@,
        SpecTok::Comma => "`,`"@,
        SpecTok::RangeIncl => "`..=`"@,
        SpecTok::Eof => "end of input"@,
    }
}

impl Tok {
    /// How the token is named in a message.
    pub fn describe(&self) -> (r: String)
        ensures
            r@ == describe(self.view()),
    {
        let r = match self {
            Tok::Ident(s) => {
                let mut r = owned("`");
                r.append(s.as_str());
                r.append("`");
                r
            },
            Tok::Str(s) => {
                let mut r = owned("string \"");
                r.append(s.as_str());
                r.append("\"");
                r
            },
            Tok::Int(n) => {
                let mut r = owned("`");
                push_signed_decimal(&mut r, *n);
                r.append("`");
                r
            },
            Tok::LBrace => owned("`{`"),
            Tok::RBrace => owned("`}`"),
            Tok::LBracket => owned("`[`"),
            Tok::RBracket => owned("`]`"),
            Tok::LParen => owned("`(`"),
            Tok::RParen => owned("`)`"),
            Tok::Colon => owned("`:`"),
            Tok::Question => owned("`?`"),
            Tok::At => owned("`@`"),
            Tok::Comma => owned("`,`"),
            Tok::RangeIncl => owned("`..=`"),
            Tok::Eof => owned("end of input"),
        };
        assert(r@ =~= describe(self.view()));
        r
    }
}

#[derive(Debug, Clone)]
pub struct Token {
    pub tok: Tok,
    pub line: usize,
    pub column: usize,
}

/// A token and where it starts, as the contracts speak of it.
pub struct SpecToken {
    pub tok: SpecTok,
    pub line: nat,
    pub column: nat,
}

impl Token {
    pub open spec fn view(&self) -> SpecToken {
        SpecToken { tok: self.tok.view(), line: self.line as nat, column: self.column as nat }
    }
}

pub open spec fn tokens_view(t: Seq<Token>) -> Seq<SpecToken> {
    Seq::new(t.len(), |i: int| t[i].view())
}

/// A failure to read a schema, with a 1-based line and column.
#[derive(Debug, Clone, PartialEq, Eq)]
pub struct ParseError {
    pub line: usize,
    pub column: usize,
    pub message: String,
}

/// A failure as the contracts speak of it.
pub struct SpecError {
    pub line: nat,
    pub column: nat,
    pub message: Seq<char>,
}

impl ParseError {
    pub open spec fn view(&self) -> SpecError {
        SpecError { line: self.line as nat, column: self.column as nat, message: self.message@ }
    }

    /// `line:column: message`.
    pub fn describe(&self) -> (r: String)
        ensures
            r@ == decimal(self.line as nat) + ":"@ + decimal(self.column as nat) + ": "@
                + self.message@,
    {
        let mut s = String::new();
        push_decimal(&mut s, self.line as u128);
        s.append(":");
        push_decimal(&mut s, self.column as u128);
        s.append(": ");
        s.append(self.message.as_str());
        assert(s@ =~= decimal(self.line as nat) + ":"@ + decimal(self.column as nat) + ": "@
            + self.message@);
        s
    }
}

// ------------------------------------------------------------------ lexer

pub open spec fn char_at(cs: Seq<char>, i: int) -> Option<char> {
    if 0 <= i < cs.len() {
        Some(cs[i])
    } else {
        None
    }
}

pub open spec fn is_ascii_digit(c: char) -> bool {
    '0' <= c <= '9'
}

/// Whether an ASCII digit is at `i`.
pub open spec fn starts_digit(cs: Seq<char>, i: int) -> bool {
    0 <= i < cs.len() && is_ascii_digit(cs[i])
}

pub open spec fn chars_left(cs: Seq<char>, i: int) -> nat {
    if i <= cs.len() {
        (cs.len() - i) as nat
    } else {
        0
    }
}

/// How many characters from `i` come before a newline or the end.
pub open spec fn line_rest(cs: Seq<char>, i: int) -> nat
    decreases chars_left(cs, i),
{
    if 0 <= i < cs.len() && cs[i] != '\n' {
        1 + line_rest(cs, i + 1)
    } else {
        0
    }
}

/// How many characters of a quoted string's body start at `i`: up to a
/// quote, a newline or the end.
pub open spec fn quoted_len(cs: Seq<char>, i: int) -> nat
    decreases chars_left(cs, i),
{
    if 0 <= i < cs.len() && cs[i] != '"' && cs[i] != '\n' {
        1 + quoted_len(cs, i + 1)
    } else {
        0
    }
}

/// How many digits and `_` separators start at `i`.
pub open spec fn number_rest(cs: Seq<char>, i: int) -> nat
    decreases chars_left(cs, i),
{
    if 0 <= i < cs.len() && (is_ascii_digit(cs[i]) || cs[i] == '_') {
        1 + number_rest(cs, i + 1)
    } else {
        0
    }
}

/// How many identifier characters start at `i`.
pub open spec fn ident_rest(cs: Seq<char>, i: int) -> nat
    decreases chars_left(cs, i),
{
    if 0 <= i < cs.len() && (alphanumeric(cs[i]) || cs[i] == '_') {
        1 + ident_rest(cs, i + 1)
    } else {
        0
    }
}

/// The digits of a number, without its `_` separators.
pub open spec fn digits_only(s: Seq<char>) -> Seq<char>
    decreases s.len(),
{
    if s.len() == 0 {
        s
    } else if s.last() == '_' {
        digits_only(s.drop_last())
    } else {
        digits_only(s.drop_last()).push(s.last())
    }
}

/// The value of a run of ASCII digits.
pub open spec fn chars_value(s: Seq<char>) -> nat
    decreases s.len(),
{
    if s.len() == 0 {
        0
    } else {
        chars_value(s.drop_last()) * 10 + (s.last() as nat - '0' as nat) as nat
    }
}

pub open spec fn i128_fits(v: int) -> bool {
    -0x8000_0000_0000_0000_0000_0000_0000_0000 <= v <= 0x7fff_ffff_ffff_ffff_ffff_ffff_ffff_ffff
}

pub open spec fn symbol(c: char) -> Option<SpecTok> {
    if c == '{' {
        Some(SpecTok::LBrace)
    } else if c == '}' {
        Some(SpecTok::RBrace)
    } else if c == '[' {
        Some(SpecTok::LBracket)
    } else if c == ']' {
        Some(SpecTok::RBracket)
    } else if c == '(' {
        Some(SpecTok::LParen)
    } else if c == ')' {
        Some(SpecTok::RParen)
    } else if c == ':' {
        Some(SpecTok::Colon)
    } else if c == '?' {
        Some(SpecTok::Question)
    } else if c == '@' {
        Some(SpecTok::At)
    } else if c == ',' {
        Some(SpecTok::Comma)
    } else {
        None
    }
}

pub open spec fn lex_error(line: nat, column: nat, message: Seq<char>) -> Result<
    Seq<SpecToken>,
    SpecError,
> {
    Err(SpecError { line, column, message })
}

/// The tokens of `cs` from `i`, the character at `line` and `col`, after
/// `acc`. A newline starts a new line; every other character is one column.
pub open spec fn lex_from(cs: Seq<char>, i: int, line: nat, col: nat, acc: Seq<SpecToken>) -> Result<
    Seq<SpecToken>,
    SpecError,
>
    decreases chars_left(cs, i),
{
    if !(0 <= i < cs.len()) {
        Ok(acc.push(SpecToken { tok: SpecTok::Eof, line, column: col }))
    } else {
        let c = cs[i];
        if c == '\n' {
            lex_from(cs, i + 1, line + 1, 1, acc)
        } else if white_space(c) {
            lex_from(cs, i + 1, line, col + 1, acc)
        } else if c == '/' && char_at(cs, i + 1) == Some('/') {
            let n = 2 + line_rest(cs, i + 2);
            lex_from(cs, i + n, line, col + n, acc)
        } else if c == '.' && char_at(cs, i + 1) == Some('.') && char_at(cs, i + 2) == Some('=') {
            lex_from(
                cs,
                i + 3,
                line,
                col + 3,
                acc.push(SpecToken { tok: SpecTok::RangeIncl, line, column: col }),
            )
        } else if symbol(c) is Some {
            lex_from(
                cs,
                i + 1,
                line,
                col + 1,
                acc.push(SpecToken { tok: symbol(c)->0, line, column: col }),
            )
        } else if c == '"' {
            let n = quoted_len(cs, i + 1);
            if char_at(cs, i + 1 + n) != Some('"') {
                lex_error(line, col, "unterminated string"@)
            } else {
                lex_from(
                    cs,
                    i + 2 + n,
                    line,
                    col + 2 + n,
                    acc.push(
                        SpecToken {
                            tok: SpecTok::Str(cs.subrange(i + 1, i + 1 + n)),
                            line,
                            column: col,
                        },
                    ),
                )
            }
        } else if is_ascii_digit(c) || (c == '-' && starts_digit(cs, i + 1)) {
            let negative = c == '-';
            let start = if negative {
                i + 1
            } else {
                i
            };
            let n = 1 + number_rest(cs, start + 1);
            let width: nat = if negative {
                n + 1
            } else {
                n
            };
            let digits = digits_only(cs.subrange(start, start + n));
            let text = if negative {
                seq!['-'] + digits
            } else {
                digits
            };
            let v = if negative {
                -chars_value(digits)
            } else {
                chars_value(digits) as int
            };
            if !i128_fits(v) {
                lex_error(line, col, "`"@ + text + "` does not fit a 128-bit integer"@)
            } else {
                lex_from(
                    cs,
                    i + width,
                    line,
                    col + width,
                    acc.push(SpecToken { tok: SpecTok::Int(v), line, column: col }),
                )
            }
        } else if alphabetic(c) || c == '_' {
            let n = 1 + ident_rest(cs, i + 1);
            lex_from(
                cs,
                i + n,
                line,
                col + n,
                acc.push(
                    SpecToken { tok: SpecTok::Ident(cs.subrange(i, i + n)), line, column: col },
                ),
            )
        } else {
            lex_error(line, col, "unexpected character `"@ + seq![c] + "`"@)
        }
    }
}

/// The tokens of a source, ending with one `Eof` token.
pub open spec fn tokens_of(cs: Seq<char>) -> Result<Seq<SpecToken>, SpecError> {
    lex_from(cs, 0, 1, 1, Seq::empty())
}

/// The characters of a string, one per element.
fn chars_of(s: &str) -> (r: Vec<char>)
    ensures
        r@ == s@,
{
    broadcast use vstd::string::axiom_spec_iter;

    let mut out: Vec<char> = Vec::new();
    for c in it: s.chars()
        invariant
            it.seq() == s@,
            out@ == it.seq().take(it.index() as int),
    {
        out.push(c);
    }
    out
}

fn symbol_tok(c: char) -> (r: Option<Tok>)
    ensures
        match (r, symbol(c)) {
            (Some(t), Some(u)) => t.view() == u,
            (None, None) => true,
            _ => false,
        },
{
    if c == '{' {
        Some(Tok::LBrace)
    } else if c == '}' {
        Some(Tok::RBrace)
    } else if c == '[' {
        Some(Tok::LBracket)
    } else if c == ']' {
        Some(Tok::RBracket)
    } else if c == '(' {
        Some(Tok::LParen)
    } else if c == ')' {
        Some(Tok::RParen)
    } else if c == ':' {
        Some(Tok::Colon)
    } else if c == '?' {
        Some(Tok::Question)
    } else if c == '@' {
        Some(Tok::At)
    } else if c == ',' {
        Some(Tok::Comma)
    } else {
        None
    }
}

fn lex_failure(line: usize, column: usize, message: String) -> (r: ParseError)
    ensures
        r.view() == (SpecError { line: line as nat, column: column as nat, message: message@ }),
{
    ParseError { line, column, message }
}

/// An integer literal at `i`: its sign, then digits and `_` separators.
/// Returns where it ends and its value, or the literal's text when it does
/// not fit 128 bits.
fn lex_number(cs: &Vec<char>, i: usize) -> (r: (usize, Result<i128, String>))
    requires
        i < cs@.len(),
        is_ascii_digit(cs@[i as int]) || (cs@[i as int] == '-' && starts_digit(cs@, i + 1)),
    ensures
        ({
            let negative = cs@[i as int] == '-';
            let start = if negative {
                i + 1
            } else {
                i as int
            };
            let n = 1 + number_rest(cs@, start + 1);
            let width: nat = if negative {
                n + 1
            } else {
                n
            };
            let digits = digits_only(cs@.subrange(start, start + n));
            let v = if negative {
                -chars_value(digits)
            } else {
                chars_value(digits) as int
            };
            &&& r.0 == i + width
            &&& r.0 <= cs@.len()
            &&& i128_fits(v) ==> r.1 == Ok::<i128, String>(v as i128)
            &&& !i128_fits(v) ==> (r.1 matches Err(text) && text@ == if negative {
                seq!['-'] + digits
            } else {
                digits
            })
        }),
{
    let len = cs.len();
    let negative = cs[i] == '-';
    let start = if negative {
        i + 1
    } else {
        i
    };
    let mut digits = String::new();
    let mut mag: u128 = 0;
    let mut big = false;
    let mut j = start;
    while j < len && (('0' <= cs[j] && cs[j] <= '9') || (j > start && cs[j] == '_'))
        invariant
            len == cs@.len(),
            start < len,
            is_ascii_digit(cs@[start as int]),
            start <= j <= len,
            j > start ==> start + 1 + number_rest(cs@, start + 1) == j + number_rest(cs@, j as int),
            digits@ == digits_only(cs@.subrange(start as int, j as int)),
            !big ==> mag == chars_value(digits@),
            big ==> chars_value(digits@) > 0x8000_0000_0000_0000_0000_0000_0000_0000,
        decreases len - j,
    {
        let c = cs[j];
        assert(cs@.subrange(start as int, j + 1).drop_last() =~= cs@.subrange(start as int, j as int));
        if c != '_' {
            let d = (c as u32 - '0' as u32) as u128;
            let ghost old_digits = digits@;
            push_char(&mut digits, c);
            assert(digits@.drop_last() =~= old_digits);
            // Past 2^124 the value no longer fits 128 bits, whatever follows.
            if !big {
                if mag < 0x1000_0000_0000_0000_0000_0000_0000_0000 {
                    mag = mag * 10 + d;
                } else {
                    big = true;
                }
            }
        }
        j = j + 1;
    }
    assert(j == start + 1 + number_rest(cs@, start + 1));
    if !big && ((negative && mag <= 0x8000_0000_0000_0000_0000_0000_0000_0000) || (!negative && mag
        <= 0x7fff_ffff_ffff_ffff_ffff_ffff_ffff_ffff)) {
        let v: i128 = if negative {
            if mag == 0x8000_0000_0000_0000_0000_0000_0000_0000 {
                -0x8000_0000_0000_0000_0000_0000_0000_0000i128
            } else {
                -(mag as i128)
            }
        } else {
            mag as i128
        };
        (j, Ok(v))
    } else {
        let mut text = String::new();
        if negative {
            push_char(&mut text, '-');
        }
        text.append(digits.as_str());
        (j, Err(text))
    }
}

/// One step of the lexer at `i`: skips what is not a token or reads one
/// token. Gives the position, line and column after it.
#[verifier::rlimit(40)]
fn lex_step(cs: &Vec<char>, i: usize, line: usize, col: usize, out: &mut Vec<Token>) -> (r: Result<
    (usize, usize, usize),
    ParseError,
>)
    requires
        cs@.len() < usize::MAX,
        i < cs@.len(),
        1 <= line <= i + 1,
        1 <= col <= i + 1,
    ensures
        match r {
            Ok((i2, line2, col2)) => {
                &&& i < i2 <= cs@.len()
                &&& 1 <= line2 <= i2 + 1
                &&& 1 <= col2 <= i2 + 1
                &&& lex_from(cs@, i as int, line as nat, col as nat, tokens_view(old(out)@))
                    == lex_from(cs@, i2 as int, line2 as nat, col2 as nat, tokens_view(final(out)@))
            },
            Err(e) => lex_from(cs@, i as int, line as nat, col as nat, tokens_view(old(out)@))
                == Err::<Seq<SpecToken>, SpecError>(e.view()),
        },
{
    let len = cs.len();
    let mut i = i;
    let mut line = line;
    let mut col = col;
    let c = cs[i];
    let ghost before = tokens_view(out@);
    if c == '\n' {
        i = i + 1;
        line = line + 1;
        col = 1;
    } else if is_white_space(c) {
        i = i + 1;
        col = col + 1;
    } else if c == '/' && i + 1 < len && cs[i + 1] == '/' {
        let mut j = i + 2;
        while j < len && cs[j] != '\n'
            invariant
                len == cs@.len(),
                i + 2 <= j <= len,
                i + 2 + line_rest(cs@, i + 2) == j + line_rest(cs@, j as int),
            decreases len - j,
        {
            j = j + 1;
        }
        col = col + (j - i);
        i = j;
    } else if c == '.' && i + 2 < len && cs[i + 1] == '.' && cs[i + 2] == '=' {
        out.push(Token { tok: Tok::RangeIncl, line, column: col });
        assert(tokens_view(out@) =~= before.push(
            SpecToken { tok: SpecTok::RangeIncl, line: line as nat, column: col as nat },
        ));
        i = i + 3;
        col = col + 3;
    } else if let Some(tok) = symbol_tok(c) {
        out.push(Token { tok, line, column: col });
        assert(tokens_view(out@) =~= before.push(
            SpecToken { tok: symbol(c)->0, line: line as nat, column: col as nat },
        ));
        i = i + 1;
        col = col + 1;
    } else if c == '"' {
        let mut text = String::new();
        let mut j = i + 1;
        while j < len && cs[j] != '"' && cs[j] != '\n'
            invariant
                len == cs@.len(),
                i + 1 <= j <= len,
                i + 1 + quoted_len(cs@, i + 1) == j + quoted_len(cs@, j as int),
                text@ == cs@.subrange(i + 1, j as int),
            decreases len - j,
        {
            push_char(&mut text, cs[j]);
            j = j + 1;
            assert(text@ =~= cs@.subrange(i + 1, j as int));
        }
        if !(j < len && cs[j] == '"') {
            return Err(lex_failure(line, col, owned("unterminated string")));
        }
        out.push(Token { tok: Tok::Str(text), line, column: col });
        assert(tokens_view(out@) =~= before.push(
            SpecToken {
                tok: SpecTok::Str(cs@.subrange(i + 1, j as int)),
                line: line as nat,
                column: col as nat,
            },
        ));
        col = col + (j + 1 - i);
        i = j + 1;
    } else if ('0' <= c && c <= '9') || (c == '-' && i + 1 < len && '0' <= cs[i + 1] && cs[i
        + 1] <= '9') {
        let (end, value) = lex_number(&cs, i);
        match value {
            Ok(v) => {
                out.push(Token { tok: Tok::Int(v), line, column: col });
                assert(tokens_view(out@) =~= before.push(
                    SpecToken { tok: SpecTok::Int(v as int), line: line as nat, column: col as nat },
                ));
            },
            Err(text) => {
                let mut message = owned("`");
                message.append(text.as_str());
                message.append("` does not fit a 128-bit integer");
                assert(message@ =~= "`"@ + text@ + "` does not fit a 128-bit integer"@);
                return Err(lex_failure(line, col, message));
            },
        }
        col = col + (end - i);
        i = end;
    } else if is_alphabetic(c) || c == '_' {
        let mut name = String::new();
        push_char(&mut name, c);
        let mut j = i + 1;
        while j < len && (is_alphanumeric(cs[j]) || cs[j] == '_')
            invariant
                len == cs@.len(),
                i + 1 <= j <= len,
                i + 1 + ident_rest(cs@, i + 1) == j + ident_rest(cs@, j as int),
                name@ == cs@.subrange(i as int, j as int),
            decreases len - j,
        {
            push_char(&mut name, cs[j]);
            j = j + 1;
            assert(name@ =~= cs@.subrange(i as int, j as int));
        }
        out.push(Token { tok: Tok::Ident(name), line, column: col });
        assert(tokens_view(out@) =~= before.push(
            SpecToken {
                tok: SpecTok::Ident(cs@.subrange(i as int, j as int)),
                line: line as nat,
                column: col as nat,
            },
        ));
        col = col + (j - i);
        i = j;
    } else {
        let mut message = owned("unexpected character `");
        push_char(&mut message, c);
        message.append("`");
        assert(message@ =~= "unexpected character `"@ + seq![c] + "`"@);
        return Err(lex_failure(line, col, message));
    }
    Ok((i, line, col))
}

/// Splits a source into tokens, ending with one `Eof` token.
pub fn lex(src: &str) -> (r: Result<Vec<Token>, ParseError>)
    requires
        src@.len() < usize::MAX,
    ensures
        match (r, tokens_of(src@)) {
            (Ok(t), Ok(u)) => tokens_view(t@) == u,
            (Err(e), Err(f)) => e.view() == f,
            _ => false,
        },
{
    let cs = chars_of(src);
    let len = cs.len();
    let mut out: Vec<Token> = Vec::new();
    let mut i: usize = 0;
    let mut line: usize = 1;
    let mut col: usize = 1;
    assert(tokens_view(out@) =~= Seq::<SpecToken>::empty());
    while i < len
        invariant
            len == cs@.len(),
            cs@ == src@,
            len < usize::MAX,
            i <= len,
            1 <= line <= i + 1,
            1 <= col <= i + 1,
            tokens_of(src@) == lex_from(cs@, i as int, line as nat, col as nat, tokens_view(out@)),
        decreases len - i,
    {
        match lex_step(&cs, i, line, col, &mut out) {
            Ok((i2, line2, col2)) => {
                i = i2;
                line = line2;
                col = col2;
            },
            Err(e) => return Err(e),
        }
    }
    let ghost before = tokens_view(out@);
    out.push(Token { tok: Tok::Eof, line, column: col });
    assert(tokens_view(out@) =~= before.push(
        SpecToken { tok: SpecTok::Eof, line: line as nat, column: col as nat },
    ));
    Ok(out)
}

// ------------------------------------------------------------ parser spec

/// A name a schema uses, checked once the whole file is read. A variant's
/// reference carries its union's name and tag.
pub struct SpecRef {
    pub name: Seq<char>,
    pub line: nat,
    pub column: nat,
    pub variant_of: Option<(Seq<char>, Seq<char>)>,
}

/// What a part of the grammar yields, how many tokens it reads, and the
/// names it uses.
pub struct Read<T> {
    pub value: T,
    pub len: nat,
    pub refs: Seq<SpecRef>,
}

pub open spec fn tokens_left(toks: Seq<SpecToken>, p: int) -> nat {
    if p <= toks.len() {
        (toks.len() - p) as nat
    } else {
        0
    }
}

/// The token at `p`; past the end, the end of input.
pub open spec fn tok_at(toks: Seq<SpecToken>, p: int) -> SpecToken {
    if 0 <= p < toks.len() {
        toks[p]
    } else {
        SpecToken { tok: SpecTok::Eof, line: 1, column: 1 }
    }
}

pub open spec fn err_at(t: SpecToken, message: Seq<char>) -> SpecError {
    SpecError { line: t.line, column: t.column, message }
}

/// `expected <what>, found <token>`, at the token.
pub open spec fn expected(what: Seq<char>, t: SpecToken) -> SpecError {
    err_at(t, "expected "@ + what + ", found "@ + describe(t.tok))
}

pub open spec fn is_word(t: SpecTok, word: Seq<char>) -> bool {
    match t {
        SpecTok::Ident(s) => s == word,
        _ => false,
    }
}

/// An identifier or a quoted string, as an enum value or a variant's tag.
pub open spec fn word_or_string(t: SpecTok) -> Option<Seq<char>> {
    match t {
        SpecTok::Ident(s) => Some(s),
        SpecTok::Str(s) => Some(s),
        _ => None,
    }
}

/// The built-in type a name stands for.
pub open spec fn builtin_spec(name: Seq<char>) -> Option<SpecType> {
    if name == "String"@ {
        Some(SpecType::String)
    } else if name == "bool"@ {
        Some(SpecType::Bool)
    } else if name == "f64"@ {
        Some(SpecType::Float)
    } else if name == "Date"@ {
        Some(SpecType::Date)
    } else if name == "DateTime"@ {
        Some(SpecType::DateTime)
    } else if name == "i8"@ {
        Some(SpecType::Int(IntType { width: IntWidth::W8, signed: true }))
    } else if name == "i16"@ {
        Some(SpecType::Int(IntType { width: IntWidth::W16, signed: true }))
    } else if name == "i32"@ {
        Some(SpecType::Int(IntType { width: IntWidth::W32, signed: true }))
    } else if name == "i64"@ {
        Some(SpecType::Int(IntType { width: IntWidth::W64, signed: true }))
    } else if name == "u8"@ {
        Some(SpecType::Int(IntType { width: IntWidth::W8, signed: false }))
    } else if name == "u16"@ {
        Some(SpecType::Int(IntType { width: IntWidth::W16, signed: false }))
    } else if name == "u32"@ {
        Some(SpecType::Int(IntType { width: IntWidth::W32, signed: false }))
    } else if name == "u64"@ {
        Some(SpecType::Int(IntType { width: IntWidth::W64, signed: false }))
    } else {
        None
    }
}

/// The names of the built-in types, as a schema writes them.
pub open spec fn builtin_names() -> Seq<Seq<char>> {
    seq![
        "String"@, "bool"@, "f64"@, "Date"@, "DateTime"@, "i8"@, "i16"@, "i32"@, "i64"@, "u8"@,
        "u16"@, "u32"@, "u64"@,
    ]
}

/// A name is built in exactly when it is one of the thirteen built-in names;
/// the five that are not integers name `String`, `bool`, `f64`, `Date` and
/// `DateTime`; and the name of every integer type reads back as that type.
pub proof fn law_builtin_names_round_trip(n: Seq<char>, t: IntType)
    ensures
        builtin_spec(n) is Some <==> builtin_names().contains(n),
        builtin_spec("String"@) == Some(SpecType::String),
        builtin_spec("bool"@) == Some(SpecType::Bool),
        builtin_spec("f64"@) == Some(SpecType::Float),
        builtin_spec("Date"@) == Some(SpecType::Date),
        builtin_spec("DateTime"@) == Some(SpecType::DateTime),
        builtin_spec(crate::schema::int_type_name(t)) == Some(SpecType::Int(t)),
{
    reveal_strlit("String");
    reveal_strlit("bool");
    reveal_strlit("f64");
    reveal_strlit("Date");
    reveal_strlit("DateTime");
    reveal_strlit("i8");
    reveal_strlit("i16");
    reveal_strlit("i32");
    reveal_strlit("i64");
    reveal_strlit("u8");
    reveal_strlit("u16");
    reveal_strlit("u32");
    reveal_strlit("u64");
    assert("String"@.len() == 6 && "bool"@.len() == 4 && "f64"@.len() == 3 && "Date"@.len() == 4
        && "DateTime"@.len() == 8 && "i8"@.len() == 2 && "u8"@.len() == 2);
    assert("bool"@[0] == 'b' && "Date"@[0] == 'D' && "f64"@[0] == 'f' && "i8"@[0] == 'i'
        && "u8"@[0] == 'u');
    assert("i16"@[0] == 'i' && "i32"@[0] == 'i' && "i64"@[0] == 'i' && "u16"@[0] == 'u'
        && "u32"@[0] == 'u' && "u64"@[0] == 'u');
    assert("i16"@[1] == '1' && "i32"@[1] == '3' && "i64"@[1] == '6' && "u16"@[1] == '1'
        && "u32"@[1] == '3' && "u64"@[1] == '6' && "f64"@[1] == '6');
    let names = builtin_names();
    if builtin_spec(n) is Some {
        if n == "String"@ {
            assert(names[0] == n);
        } else if n == "bool"@ {
            assert(names[1] == n);
        } else if n == "f64"@ {
            assert(names[2] == n);
        } else if n == "Date"@ {
            assert(names[3] == n);
        } else if n == "DateTime"@ {
            assert(names[4] == n);
        } else if n == "i8"@ {
            assert(names[5] == n);
        } else if n == "i16"@ {
            assert(names[6] == n);
        } else if n == "i32"@ {
            assert(names[7] == n);
        } else if n == "i64"@ {
            assert(names[8] == n);
        } else if n == "u8"@ {
            assert(names[9] == n);
        } else if n == "u16"@ {
            assert(names[10] == n);
        } else if n == "u32"@ {
            assert(names[11] == n);
        } else {
            assert(names[12] == n);
        }
    }
    if names.contains(n) {
        let i = choose|i: int| 0 <= i < names.len() && names[i] == n;
        assert(0 <= i < 13);
    }
}

/// The values of an enum, from `q`, after `acc`.
pub open spec fn enum_values(toks: Seq<SpecToken>, q: int, acc: Seq<Seq<char>>) -> Result<
    Read<SpecType>,
    SpecError,
>
    decreases tokens_left(toks, q),
{
    let t = tok_at(toks, q);
    if t.tok is RBrace {
        enum_close(toks, q, acc)
    } else {
        match word_or_string(t.tok) {
            None => Err(expected("an enum value"@, t)),
            Some(v) => if acc.contains(v) {
                Err(err_at(tok_at(toks, q + 1), "`"@ + v + "` is listed twice"@))
            } else if tok_at(toks, q + 1).tok is Comma {
                match enum_values(toks, q + 2, acc.push(v)) {
                    Err(e) => Err(e),
                    Ok(r) => Ok(Read { value: r.value, len: r.len + 2, refs: Seq::empty() }),
                }
            } else {
                match enum_close(toks, q + 1, acc.push(v)) {
                    Err(e) => Err(e),
                    Ok(r) => Ok(Read { value: r.value, len: r.len + 1, refs: Seq::empty() }),
                }
            },
        }
    }
}

/// The `}` that ends an enum at `q`.
pub open spec fn enum_close(toks: Seq<SpecToken>, q: int, acc: Seq<Seq<char>>) -> Result<
    Read<SpecType>,
    SpecError,
> {
    if !(tok_at(toks, q).tok is RBrace) {
        Err(expected("`}`"@, tok_at(toks, q)))
    } else if acc.len() == 0 {
        Err(err_at(tok_at(toks, q + 1), "an enum needs at least one value"@))
    } else {
        Ok(Read { value: SpecType::Enum(acc), len: 1, refs: Seq::empty() })
    }
}

/// An enum whose `enum` keyword is at `p`.
pub open spec fn enum_at(toks: Seq<SpecToken>, p: int) -> Result<Read<SpecType>, SpecError> {
    if !(tok_at(toks, p + 1).tok is LBrace) {
        Err(expected("`{`"@, tok_at(toks, p + 1)))
    } else {
        match enum_values(toks, p + 2, Seq::empty()) {
            Err(e) => Err(e),
            Ok(r) => Ok(Read { value: r.value, len: r.len + 2, refs: Seq::empty() }),
        }
    }
}

/// A type at `p`, and whether a `?` marked it nullable.
pub open spec fn type_at(toks: Seq<SpecToken>, p: int) -> Result<Read<(SpecType, bool)>, SpecError>
    decreases tokens_left(toks, p),
{
    let t = tok_at(toks, p);
    let base: Result<Read<SpecType>, SpecError> = if t.tok is LBracket {
        match type_at(toks, p + 1) {
            Err(e) => Err(e),
            Ok(inner) => {
                let q = p + 1 + inner.len;
                if !(tok_at(toks, q).tok is RBracket) {
                    Err(expected("`]`"@, tok_at(toks, q)))
                } else {
                    Ok(
                        Read {
                            value: SpecType::Array(Box::new(inner.value.0), inner.value.1),
                            len: inner.len + 2,
                            refs: inner.refs,
                        },
                    )
                }
            },
        }
    } else if is_word(t.tok, "enum"@) {
        enum_at(toks, p)
    } else {
        match t.tok {
            SpecTok::Ident(name) => match builtin_spec(name) {
                Some(b) => Ok(Read { value: b, len: 1, refs: Seq::empty() }),
                None => Ok(
                    Read {
                        value: SpecType::Ref(name),
                        len: 1,
                        refs: seq![
                            SpecRef { name, line: t.line, column: t.column, variant_of: None },
                        ],
                    },
                ),
            },
            _ => Err(expected("a type"@, t)),
        }
    };
    match base {
        Err(e) => Err(e),
        Ok(b) => {
            let nullable = tok_at(toks, p + b.len).tok is Question;
            Ok(
                Read {
                    value: (b.value, nullable),
                    len: b.len + if nullable {
                        1nat
                    } else {
                        0nat
                    },
                    refs: b.refs,
                },
            )
        },
    }
}

/// The number a counting rule takes, at `p`.
pub open spec fn count_arg(toks: Seq<SpecToken>, p: int, rule: Seq<char>) -> Result<usize, SpecError> {
    let t = tok_at(toks, p);
    match t.tok {
        SpecTok::Int(n) => if 0 <= n <= usize::MAX {
            Ok(n as usize)
        } else {
            Err(
                err_at(
                    t,
                    "`@"@ + rule + "` needs a non-negative number, found "@ + signed_decimal(n),
                ),
            )
        },
        _ => Err(expected("a number"@, t)),
    }
}

pub open spec fn counting_rule(name: Seq<char>, n: usize) -> Option<Rule> {
    if name == "min_len"@ {
        Some(Rule::MinLen(n))
    } else if name == "max_len"@ {
        Some(Rule::MaxLen(n))
    } else if name == "min_items"@ {
        Some(Rule::MinItems(n))
    } else if name == "max_items"@ {
        Some(Rule::MaxItems(n))
    } else {
        None
    }
}

/// Each counting rule reads as the rule it names, with its count: `min_len`,
/// `max_len`, `min_items` and `max_items`; no other name is one.
pub proof fn law_counting_rules_read_as_named(name: Seq<char>, n: usize)
    ensures
        counting_rule("min_len"@, n) == Some(Rule::MinLen(n)),
        counting_rule("max_len"@, n) == Some(Rule::MaxLen(n)),
        counting_rule("min_items"@, n) == Some(Rule::MinItems(n)),
        counting_rule("max_items"@, n) == Some(Rule::MaxItems(n)),
        counting_rule(name, n) is Some ==> name == "min_len"@ || name == "max_len"@ || name
            == "min_items"@ || name == "max_items"@,
{
    reveal_strlit("min_len");
    reveal_strlit("max_len");
    reveal_strlit("min_items");
    reveal_strlit("max_items");
    assert("min_len"@[1] == 'i' && "max_len"@[1] == 'a' && "min_items"@[1] == 'i' && "max_items"@[1]
        == 'a');
    assert("min_len"@.len() == 7 && "max_len"@.len() == 7 && "min_items"@.len() == 9
        && "max_items"@.len() == 9);
}

/// The arguments of the rule `name`, from `p`: the rule and how many tokens
/// they take.
pub open spec fn rule_args(toks: Seq<SpecToken>, p: int, name: Seq<char>, at: SpecToken) -> Result<
    (Rule, nat),
    SpecError,
> {
    if counting_rule(name, 0) is Some {
        match count_arg(toks, p, name) {
            Err(e) => Err(e),
            Ok(n) => Ok((counting_rule(name, n)->0, 1)),
        }
    } else if name == "range"@ {
        match (tok_at(toks, p).tok, tok_at(toks, p + 1).tok, tok_at(toks, p + 2).tok) {
            (SpecTok::Int(min), SpecTok::RangeIncl, SpecTok::Int(max)) => if min > max {
                Err(
                    err_at(
                        tok_at(toks, p + 3),
                        "`range("@ + signed_decimal(min) + "..="@ + signed_decimal(max)
                            + ")` is empty"@,
                    ),
                )
            } else {
                Ok((Rule::Range { min: min as i128, max: max as i128 }, 3))
            },
            (SpecTok::Int(_), SpecTok::RangeIncl, _) => Err(
                expected("a number"@, tok_at(toks, p + 2)),
            ),
            (SpecTok::Int(_), _, _) => Err(expected("`..=`"@, tok_at(toks, p + 1))),
            _ => Err(expected("a number"@, tok_at(toks, p))),
        }
    } else if name == "format"@ {
        match tok_at(toks, p).tok {
            SpecTok::Ident(f) => match format_named(f) {
                Some(format) => Ok((Rule::Format(format), 1)),
                None => Err(err_at(tok_at(toks, p), "unknown format `"@ + f + "`"@)),
            },
            _ => Err(expected("a format name"@, tok_at(toks, p))),
        }
    } else {
        Err(err_at(at, "unknown rule `@"@ + name + "`"@))
    }
}

/// A rule whose name is at `p`, just after its `@`.
pub open spec fn rule_at(toks: Seq<SpecToken>, p: int) -> Result<Read<Rule>, SpecError> {
    let at = tok_at(toks, p);
    match at.tok {
        SpecTok::Ident(name) => if !(tok_at(toks, p + 1).tok is LParen) {
            Err(expected("`(`"@, tok_at(toks, p + 1)))
        } else {
            match rule_args(toks, p + 2, name, at) {
                Err(e) => Err(e),
                Ok((rule, n)) => if !(tok_at(toks, p + 2 + n).tok is RParen) {
                    Err(expected("`)`"@, tok_at(toks, p + 2 + n)))
                } else {
                    Ok(Read { value: rule, len: n + 3, refs: Seq::empty() })
                },
            }
        },
        _ => Err(expected("a rule name"@, at)),
    }
}

/// The rules from `q`, after `acc`.
pub open spec fn rules_from(toks: Seq<SpecToken>, q: int, acc: Seq<Rule>) -> Result<
    Read<Seq<Rule>>,
    SpecError,
>
    decreases tokens_left(toks, q),
{
    if !(tok_at(toks, q).tok is At) {
        Ok(Read { value: acc, len: 0, refs: Seq::empty() })
    } else {
        match rule_at(toks, q + 1) {
            Err(e) => Err(e),
            Ok(r) => match rules_from(toks, q + 1 + r.len, acc.push(r.value)) {
                Err(e) => Err(e),
                Ok(rest) => Ok(
                    Read { value: rest.value, len: 1 + r.len + rest.len, refs: Seq::empty() },
                ),
            },
        }
    }
}

/// A field whose name has been read, from its `:` at `p`.
pub open spec fn field_rest(toks: Seq<SpecToken>, p: int, name: Seq<char>) -> Result<
    Read<SpecField>,
    SpecError,
> {
    if !(tok_at(toks, p).tok is Colon) {
        Err(expected("`:`"@, tok_at(toks, p)))
    } else {
        let optional = is_word(tok_at(toks, p + 1).tok, "optional"@);
        let q = if optional {
            p + 2
        } else {
            p + 1
        };
        match type_at(toks, q) {
            Err(e) => Err(e),
            Ok(t) => match rules_from(toks, q + t.len, Seq::empty()) {
                Err(e) => Err(e),
                Ok(rs) => Ok(
                    Read {
                        value: SpecField {
                            name,
                            ty: t.value.0,
                            presence: Presence { optional, nullable: t.value.1 },
                            rules: rs.value,
                        },
                        len: (q + t.len + rs.len - p) as nat,
                        refs: t.refs,
                    },
                ),
            },
        }
    }
}

pub open spec fn spec_field_names(f: Seq<SpecField>) -> Seq<Seq<char>> {
    Seq::new(f.len(), |i: int| f[i].name)
}

/// The fields of the schema `owner` from `q`, after `acc`, through its `}`.
pub open spec fn fields_from(toks: Seq<SpecToken>, q: int, owner: Seq<char>, acc: Seq<SpecField>) -> Result<
    Read<Seq<SpecField>>,
    SpecError,
>
    decreases tokens_left(toks, q),
{
    let t = tok_at(toks, q);
    if t.tok is RBrace {
        Ok(Read { value: acc, len: 1, refs: Seq::empty() })
    } else if t.tok is Eof {
        Err(expected("`}`"@, t))
    } else {
        match t.tok {
            SpecTok::Ident(name) => match field_rest(toks, q + 1, name) {
                Err(e) => Err(e),
                Ok(f) => {
                    let q2 = q + 1 + f.len;
                    if spec_field_names(acc).contains(name) {
                        Err(
                            err_at(
                                tok_at(toks, q2),
                                "`"@ + owner + "` declares `"@ + name + "` more than once"@,
                            ),
                        )
                    } else {
                        match fields_from(toks, q2, owner, acc.push(f.value)) {
                            Err(e) => Err(e),
                            Ok(rest) => Ok(
                                Read {
                                    value: rest.value,
                                    len: 1 + f.len + rest.len,
                                    refs: f.refs + rest.refs,
                                },
                            ),
                        }
                    }
                },
            },
            _ => Err(expected("a field name"@, t)),
        }
    }
}

/// A schema declaration from its name at `p`, just after `schema`.
pub open spec fn schema_rest(toks: Seq<SpecToken>, p: int) -> Result<Read<SpecObject>, SpecError> {
    match tok_at(toks, p).tok {
        SpecTok::Ident(name) => if !(tok_at(toks, p + 1).tok is LBrace) {
            Err(expected("`{`"@, tok_at(toks, p + 1)))
        } else {
            match fields_from(toks, p + 2, name, Seq::empty()) {
                Err(e) => Err(e),
                Ok(r) => Ok(
                    Read {
                        value: SpecObject { name, fields: r.value, deny_unknown_fields: true },
                        len: r.len + 2,
                        refs: r.refs,
                    },
                ),
            }
        },
        _ => Err(expected("a schema name"@, tok_at(toks, p))),
    }
}

pub open spec fn msg_needs_tag(name: Seq<char>) -> Seq<char> {
    "`union "@ + name + "` needs `@tag(\"field\")`: the field that tells its variants apart is never guessed"@
}

pub open spec fn spec_variant_tags(v: Seq<(Seq<char>, Seq<char>)>) -> Seq<Seq<char>> {
    Seq::new(v.len(), |i: int| v[i].0)
}

/// The variants of the union `name` with tag `tag` from `q`, after `acc`,
/// through its `}`.
pub open spec fn variants_from(
    toks: Seq<SpecToken>,
    q: int,
    name: Seq<char>,
    tag: Seq<char>,
    acc: Seq<(Seq<char>, Seq<char>)>,
) -> Result<Read<Seq<(Seq<char>, Seq<char>)>>, SpecError>
    decreases tokens_left(toks, q),
{
    let t = tok_at(toks, q);
    if t.tok is RBrace {
        if acc.len() == 0 {
            Err(err_at(tok_at(toks, q + 1), "a union needs at least one variant"@))
        } else {
            Ok(Read { value: acc, len: 1, refs: Seq::empty() })
        }
    } else if t.tok is Eof {
        Err(expected("`}`"@, t))
    } else {
        match word_or_string(t.tok) {
            None => Err(expected("a variant tag"@, t)),
            Some(v) => if !(tok_at(toks, q + 1).tok is Colon) {
                Err(expected("`:`"@, tok_at(toks, q + 1)))
            } else {
                let s = tok_at(toks, q + 2);
                match s.tok {
                    SpecTok::Ident(target) => if builtin_spec(target) is Some {
                        Err(
                            err_at(
                                s,
                                "`"@ + target + "` is a built-in type; a variant names a schema"@,
                            ),
                        )
                    } else if spec_variant_tags(acc).contains(v) {
                        Err(err_at(tok_at(toks, q + 3), "`"@ + v + "` is listed twice"@))
                    } else {
                        match variants_from(toks, q + 3, name, tag, acc.push((v, target))) {
                            Err(e) => Err(e),
                            Ok(rest) => Ok(
                                Read {
                                    value: rest.value,
                                    len: 3 + rest.len,
                                    refs: seq![
                                        SpecRef {
                                            name: target,
                                            line: s.line,
                                            column: s.column,
                                            variant_of: Some((name, tag)),
                                        },
                                    ] + rest.refs,
                                },
                            ),
                        }
                    },
                    _ => Err(expected("a schema name"@, s)),
                }
            },
        }
    }
}

/// A union declaration from its name at `p`, just after `union`.
pub open spec fn union_rest(toks: Seq<SpecToken>, p: int) -> Result<Read<SpecUnion>, SpecError> {
    match tok_at(toks, p).tok {
        SpecTok::Ident(name) => if !(tok_at(toks, p + 1).tok is At) {
            Err(err_at(tok_at(toks, p + 1), msg_needs_tag(name)))
        } else if !is_word(tok_at(toks, p + 2).tok, "tag"@) {
            Err(err_at(tok_at(toks, p + 2), msg_needs_tag(name)))
        } else if !(tok_at(toks, p + 3).tok is LParen) {
            Err(expected("`(`"@, tok_at(toks, p + 3)))
        } else {
            match tok_at(toks, p + 4).tok {
                SpecTok::Str(tag) => if !(tok_at(toks, p + 5).tok is RParen) {
                    Err(expected("`)`"@, tok_at(toks, p + 5)))
                } else if !(tok_at(toks, p + 6).tok is LBrace) {
                    Err(expected("`{`"@, tok_at(toks, p + 6)))
                } else {
                    match variants_from(toks, p + 7, name, tag, Seq::empty()) {
                        Err(e) => Err(e),
                        Ok(r) => Ok(
                            Read {
                                value: SpecUnion { name, tag, variants: r.value },
                                len: r.len + 7,
                                refs: r.refs,
                            },
                        ),
                    }
                },
                _ => Err(expected("the tag's field name as a string"@, tok_at(toks, p + 4))),
            }
        },
        _ => Err(expected("a union name"@, tok_at(toks, p))),
    }
}

pub open spec fn spec_object_names(s: Seq<SpecObject>) -> Seq<Seq<char>> {
    Seq::new(s.len(), |i: int| s[i].name)
}

pub open spec fn spec_union_names(s: Seq<SpecUnion>) -> Seq<Seq<char>> {
    Seq::new(s.len(), |i: int| s[i].name)
}

/// Whether a name is already declared, as an object or as a union.
pub open spec fn declared(s: SpecSchema, name: Seq<char>) -> bool {
    spec_object_names(s.types).contains(name) || spec_union_names(s.unions).contains(name)
}

pub open spec fn msg_twice_declared(name: Seq<char>) -> Seq<char> {
    "`"@ + name + "` is declared more than once"@
}

/// The declarations from `q`, after those in `acc`, through the end of input.
pub open spec fn decls_from(toks: Seq<SpecToken>, q: int, acc: SpecSchema) -> Result<
    Read<SpecSchema>,
    SpecError,
>
    decreases tokens_left(toks, q),
{
    let t = tok_at(toks, q);
    if t.tok is Eof {
        Ok(Read { value: acc, len: 0, refs: Seq::empty() })
    } else if is_word(t.tok, "schema"@) {
        match schema_rest(toks, q + 1) {
            Err(e) => Err(e),
            Ok(d) => {
                let q2 = q + 1 + d.len;
                if declared(acc, d.value.name) {
                    Err(err_at(tok_at(toks, q2), msg_twice_declared(d.value.name)))
                } else {
                    match decls_from(
                        toks,
                        q2,
                        SpecSchema { types: acc.types.push(d.value), unions: acc.unions },
                    ) {
                        Err(e) => Err(e),
                        Ok(rest) => Ok(
                            Read {
                                value: rest.value,
                                len: 1 + d.len + rest.len,
                                refs: d.refs + rest.refs,
                            },
                        ),
                    }
                }
            },
        }
    } else if is_word(t.tok, "union"@) {
        match union_rest(toks, q + 1) {
            Err(e) => Err(e),
            Ok(d) => {
                let q2 = q + 1 + d.len;
                if declared(acc, d.value.name) {
                    Err(err_at(tok_at(toks, q2), msg_twice_declared(d.value.name)))
                } else {
                    match decls_from(
                        toks,
                        q2,
                        SpecSchema { types: acc.types, unions: acc.unions.push(d.value) },
                    ) {
                        Err(e) => Err(e),
                        Ok(rest) => Ok(
                            Read {
                                value: rest.value,
                                len: 1 + d.len + rest.len,
                                refs: d.refs + rest.refs,
                            },
                        ),
                    }
                }
            },
        }
    } else {
        Err(expected("`schema`"@, t))
    }
}

/// The object type declared under `name`.
pub open spec fn spec_object(s: SpecSchema, name: Seq<char>) -> Option<SpecObject> {
    match first_index(spec_object_names(s.types), name) {
        Some(i) => Some(s.types[i]),
        None => None,
    }
}

/// Whether one reference names what it must, once every name is known.
pub open spec fn check_ref(s: SpecSchema, r: SpecRef) -> Result<(), SpecError> {
    let unknown = SpecError {
        line: r.line,
        column: r.column,
        message: "unknown type `"@ + r.name + "`"@,
    };
    match r.variant_of {
        None => if declared(s, r.name) {
            Ok(())
        } else {
            Err(unknown)
        },
        Some((union_name, tag)) => match spec_object(s, r.name) {
            Some(obj) => if spec_field_names(obj.fields).contains(tag) {
                Err(
                    SpecError {
                        line: r.line,
                        column: r.column,
                        message: "`"@ + r.name + "` declares `"@ + tag + "`, the tag of union `"@
                            + union_name + "`; only the union may declare its tag"@,
                    },
                )
            } else {
                Ok(())
            },
            None => if spec_union_names(s.unions).contains(r.name) {
                Err(
                    SpecError {
                        line: r.line,
                        column: r.column,
                        message: "`"@ + r.name + "` is a union; a variant names a schema"@,
                    },
                )
            } else {
                Err(unknown)
            },
        },
    }
}

/// The first reference, in source order, that names nothing it may.
pub open spec fn resolve(s: SpecSchema, refs: Seq<SpecRef>) -> Result<(), SpecError>
    decreases refs.len(),
{
    if refs.len() == 0 {
        Ok(())
    } else {
        match resolve(s, refs.drop_last()) {
            Err(e) => Err(e),
            Ok(()) => check_ref(s, refs.last()),
        }
    }
}

/// What a `.seam` source compiles to, or the first thing wrong with it.
pub open spec fn schema_of(cs: Seq<char>) -> Result<SpecSchema, SpecError> {
    match tokens_of(cs) {
        Err(e) => Err(e),
        Ok(toks) => match decls_from(
            toks,
            0,
            SpecSchema { types: Seq::empty(), unions: Seq::empty() },
        ) {
            Err(e) => Err(e),
            Ok(r) => match resolve(r.value, r.refs) {
                Err(e) => Err(e),
                Ok(()) => Ok(r.value),
            },
        },
    }
}

// ------------------------------------------------------------- the parser

/// A name a schema uses, with where it is used. A variant's reference
/// carries its union's name and tag.
pub struct Reference {
    pub name: String,
    pub line: usize,
    pub column: usize,
    pub variant_of: Option<(String, String)>,
}

impl Reference {
    pub open spec fn view(&self) -> SpecRef {
        SpecRef {
            name: self.name@,
            line: self.line as nat,
            column: self.column as nat,
            variant_of: match self.variant_of {
                Some((u, t)) => Some((u@, t@)),
                None => None,
            },
        }
    }
}

/// A read, as seen from `k` tokens earlier.
pub open spec fn shifted<T>(r: Result<Read<T>, SpecError>, k: int) -> Result<Read<T>, SpecError> {
    match r {
        Err(e) => Err(e),
        Ok(x) => Ok(Read { value: x.value, len: (x.len + k) as nat, refs: x.refs }),
    }
}

/// A read, as seen from `k` tokens earlier by a caller that has already
/// found the references `pre`.
pub open spec fn prefixed<T>(r: Result<Read<T>, SpecError>, k: int, pre: Seq<SpecRef>) -> Result<
    Read<T>,
    SpecError,
> {
    match r {
        Err(e) => Err(e),
        Ok(x) => Ok(Read { value: x.value, len: (x.len + k) as nat, refs: pre + x.refs }),
    }
}

pub open spec fn fields_view(f: Seq<Field>) -> Seq<SpecField> {
    Seq::new(f.len(), |i: int| f[i].view())
}

pub open spec fn variants_view(v: Seq<Variant>) -> Seq<(Seq<char>, Seq<char>)> {
    Seq::new(v.len(), |i: int| (v[i].tag@, v[i].schema_name@))
}

pub open spec fn refs_view(r: Seq<Reference>) -> Seq<SpecRef> {
    Seq::new(r.len(), |i: int| r[i].view())
}

/// The token stream ends with its end of input, which nothing reads past.
pub open spec fn well_ended(toks: Seq<SpecToken>) -> bool {
    toks.len() > 0 && toks.last().tok is Eof
}

proof fn lemma_not_last(toks: Seq<SpecToken>, p: int)
    requires
        well_ended(toks),
        0 <= p < toks.len(),
        !(toks[p].tok is Eof),
    ensures
        p + 1 < toks.len(),
{
}

fn token_error(t: &Token, message: String) -> (r: ParseError)
    ensures
        r.view() == err_at(t.view(), message@),
{
    ParseError { line: t.line, column: t.column, message }
}

fn expected_error(what: &str, t: &Token) -> (r: ParseError)
    ensures
        r.view() == expected(what@, t.view()),
{
    let mut m = owned("expected ");
    m.append(what);
    m.append(", found ");
    let d = t.tok.describe();
    m.append(d.as_str());
    assert(m@ =~= "expected "@ + what@ + ", found "@ + describe(t.tok.view()));
    token_error(t, m)
}

fn is_keyword(t: &Tok, word: &str) -> (r: bool)
    ensures
        r == is_word(t.view(), word@),
{
    match t {
        Tok::Ident(s) => str_eq(s.as_str(), word),
        _ => false,
    }
}

fn is_lbrace(t: &Tok) -> (r: bool) ensures r == (t.view() is LBrace) { matches!(t, Tok::LBrace) }
fn is_rbrace(t: &Tok) -> (r: bool) ensures r == (t.view() is RBrace) { matches!(t, Tok::RBrace) }
fn is_lbracket(t: &Tok) -> (r: bool) ensures r == (t.view() is LBracket) { matches!(t, Tok::LBracket) }
fn is_rbracket(t: &Tok) -> (r: bool) ensures r == (t.view() is RBracket) { matches!(t, Tok::RBracket) }
fn is_lparen(t: &Tok) -> (r: bool) ensures r == (t.view() is LParen) { matches!(t, Tok::LParen) }
fn is_rparen(t: &Tok) -> (r: bool) ensures r == (t.view() is RParen) { matches!(t, Tok::RParen) }
fn is_colon(t: &Tok) -> (r: bool) ensures r == (t.view() is Colon) { matches!(t, Tok::Colon) }
fn is_question(t: &Tok) -> (r: bool) ensures r == (t.view() is Question) { matches!(t, Tok::Question) }
fn is_at(t: &Tok) -> (r: bool) ensures r == (t.view() is At) { matches!(t, Tok::At) }
fn is_comma(t: &Tok) -> (r: bool) ensures r == (t.view() is Comma) { matches!(t, Tok::Comma) }
fn is_eof(t: &Tok) -> (r: bool) ensures r == (t.view() is Eof) { matches!(t, Tok::Eof) }

/// The built-in type a name stands for.
pub fn builtin(name: &str) -> (r: Option<Type>)
    ensures
        match (r, builtin_spec(name@)) {
            (Some(t), Some(u)) => t.view() == u,
            (None, None) => true,
            _ => false,
        },
{
    if str_eq(name, "String") {
        Some(Type::String)
    } else if str_eq(name, "bool") {
        Some(Type::Bool)
    } else if str_eq(name, "f64") {
        Some(Type::Float)
    } else if str_eq(name, "Date") {
        Some(Type::Date)
    } else if str_eq(name, "DateTime") {
        Some(Type::DateTime)
    } else if str_eq(name, "i8") {
        Some(Type::Int(IntType { width: IntWidth::W8, signed: true }))
    } else if str_eq(name, "i16") {
        Some(Type::Int(IntType { width: IntWidth::W16, signed: true }))
    } else if str_eq(name, "i32") {
        Some(Type::Int(IntType { width: IntWidth::W32, signed: true }))
    } else if str_eq(name, "i64") {
        Some(Type::Int(IntType { width: IntWidth::W64, signed: true }))
    } else if str_eq(name, "u8") {
        Some(Type::Int(IntType { width: IntWidth::W8, signed: false }))
    } else if str_eq(name, "u16") {
        Some(Type::Int(IntType { width: IntWidth::W16, signed: false }))
    } else if str_eq(name, "u32") {
        Some(Type::Int(IntType { width: IntWidth::W32, signed: false }))
    } else if str_eq(name, "u64") {
        Some(Type::Int(IntType { width: IntWidth::W64, signed: false }))
    } else {
        None
    }
}

pub open spec fn strings_of(v: Seq<String>) -> Seq<Seq<char>> {
    Seq::new(v.len(), |i: int| v[i]@)
}

/// Whether `v` is among `values`.
fn listed(values: &Vec<String>, v: &str) -> (r: bool)
    ensures
        r == strings_of(values@).contains(v@),
{
    let n = values.len();
    let mut i: usize = 0;
    while i < n
        invariant
            n == values@.len(),
            i <= n,
            forall|j: int| 0 <= j < i ==> strings_of(values@)[j] != v@,
        decreases n - i,
    {
        if str_eq(values[i].as_str(), v) {
            assert(strings_of(values@)[i as int] == v@);
            return true;
        }
        i = i + 1;
    }
    false
}

fn parse_enum(toks: &Vec<Token>, p: usize) -> (r: Result<(Type, usize), ParseError>)
    requires
        well_ended(tokens_view(toks@)),
        p < toks@.len(),
        is_word(toks@[p as int].tok.view(), "enum"@),
    ensures
        match (r, enum_at(tokens_view(toks@), p as int)) {
            (Ok((t, n)), Ok(read)) => t.view() == read.value && n == read.len && p + n < toks@.len(),
            (Err(e), Err(f)) => e.view() == f,
            _ => false,
        },
{
    let len = toks.len();
    let ghost ts = tokens_view(toks@);
    proof {
        lemma_not_last(ts, p as int);
    }
    if !is_lbrace(&toks[p + 1].tok) {
        return Err(expected_error("`{`", &toks[p + 1]));
    }
    proof {
        lemma_not_last(ts, p + 1);
    }
    let mut values: Vec<String> = Vec::new();
    let mut q = p + 2;
    assert(strings_of(values@) =~= Seq::<Seq<char>>::empty());
    loop
        invariant_except_break
            enum_at(ts, p as int) == shifted(enum_values(ts, q as int, strings_of(values@)), q - p),
        invariant
            ts == tokens_view(toks@),
            len == toks@.len(),
            well_ended(ts),
            p + 2 <= q < toks@.len(),
        ensures
            enum_at(ts, p as int) == shifted(enum_close(ts, q as int, strings_of(values@)), q - p),
        decreases toks@.len() - q,
    {
        let t = &toks[q];
        if is_rbrace(&t.tok) {
            break;
        }
        let v = match &t.tok {
            Tok::Ident(s) => s,
            Tok::Str(s) => s,
            _ => return Err(expected_error("an enum value", t)),
        };
        proof {
            lemma_not_last(ts, q as int);
        }
        if listed(&values, v.as_str()) {
            let mut m = owned("`");
            m.append(v.as_str());
            m.append("` is listed twice");
            assert(m@ =~= "`"@ + v@ + "` is listed twice"@);
            return Err(token_error(&toks[q + 1], m));
        }
        let ghost before = strings_of(values@);
        values.push(v.clone());
        assert(strings_of(values@) =~= before.push(v@));
        if is_comma(&toks[q + 1].tok) {
            proof {
                lemma_not_last(ts, q + 1);
            }
            q = q + 2;
        } else {
            q = q + 1;
            break;
        }
    }
    let t = &toks[q];
    if !is_rbrace(&t.tok) {
        return Err(expected_error("`}`", t));
    }
    proof {
        lemma_not_last(ts, q as int);
    }
    if values.len() == 0 {
        return Err(token_error(&toks[q + 1], owned("an enum needs at least one value")));
    }
    let r = Type::Enum(values);
    assert(r.view() == SpecType::Enum(strings_of(values@))) by {
        assert(r.view()->Enum_0 =~= strings_of(values@));
    }
    Ok((r, q + 1 - p))
}

fn parse_type(toks: &Vec<Token>, p: usize, refs: &mut Vec<Reference>) -> (r: Result<
    (Type, bool, usize),
    ParseError,
>)
    requires
        well_ended(tokens_view(toks@)),
        p < toks@.len(),
    ensures
        match (r, type_at(tokens_view(toks@), p as int)) {
            (Ok((t, nullable, n)), Ok(read)) => {
                &&& t.view() == read.value.0
                &&& nullable == read.value.1
                &&& n == read.len
                &&& p + n < toks@.len()
                &&& refs_view(final(refs)@) == refs_view(old(refs)@) + read.refs
            },
            (Err(e), Err(f)) => e.view() == f,
            _ => false,
        },
    decreases toks@.len() - p,
{
    let len = toks.len();
    let ghost ts = tokens_view(toks@);
    let ghost start = refs_view(refs@);
    let t = &toks[p];
    let (base, n) = if is_lbracket(&t.tok) {
        proof {
            lemma_not_last(ts, p as int);
        }
        let (inner, inner_nullable, m) = match parse_type(toks, p + 1, refs) {
            Ok(x) => x,
            Err(e) => return Err(e),
        };
        let q = p + 1 + m;
        if !is_rbracket(&toks[q].tok) {
            return Err(expected_error("`]`", &toks[q]));
        }
        proof {
            lemma_not_last(ts, q as int);
        }
        (Type::Array { item: Box::new(inner), item_nullable: inner_nullable }, m + 2)
    } else if is_keyword(&t.tok, "enum") {
        match parse_enum(toks, p) {
            Ok(x) => x,
            Err(e) => return Err(e),
        }
    } else {
        match &t.tok {
            Tok::Ident(name) => match builtin(name.as_str()) {
                Some(b) => (b, 1),
                None => {
                    refs.push(
                        Reference {
                            name: name.clone(),
                            line: t.line,
                            column: t.column,
                            variant_of: None,
                        },
                    );
                    assert(refs_view(refs@) =~= start + seq![
                        SpecRef {
                            name: name@,
                            line: t.line as nat,
                            column: t.column as nat,
                            variant_of: None,
                        },
                    ]);
                    (Type::Ref(name.clone()), 1)
                },
            },
            _ => return Err(expected_error("a type", t)),
        }
    };
    let q = p + n;
    if is_question(&toks[q].tok) {
        proof {
            lemma_not_last(ts, q as int);
        }
        Ok((base, true, n + 1))
    } else {
        Ok((base, false, n))
    }
}

fn parse_count(toks: &Vec<Token>, p: usize, rule: &str) -> (r: Result<usize, ParseError>)
    requires
        p < toks@.len(),
    ensures
        match (r, count_arg(tokens_view(toks@), p as int, rule@)) {
            (Ok(n), Ok(m)) => n == m,
            (Err(e), Err(f)) => e.view() == f,
            _ => false,
        },
{
    let t = &toks[p];
    match &t.tok {
        Tok::Int(n) => {
            if *n < 0 || *n > usize::MAX as i128 {
                let mut m = owned("`@");
                m.append(rule);
                m.append("` needs a non-negative number, found ");
                push_signed_decimal(&mut m, *n);
                assert(m@ =~= "`@"@ + rule@ + "` needs a non-negative number, found "@
                    + signed_decimal(*n as int));
                Err(token_error(t, m))
            } else {
                Ok(*n as usize)
            }
        },
        _ => Err(expected_error("a number", t)),
    }
}

fn parse_rule_args(toks: &Vec<Token>, p: usize, name: &str, at: &Token) -> (r: Result<
    (Rule, usize),
    ParseError,
>)
    requires
        well_ended(tokens_view(toks@)),
        p < toks@.len(),
    ensures
        match (r, rule_args(tokens_view(toks@), p as int, name@, at.view())) {
            (Ok((rule, n)), Ok((w, m))) => rule == w && n == m && p + n < toks@.len(),
            (Err(e), Err(f)) => e.view() == f,
            _ => false,
        },
{
    let len = toks.len();
    let ghost ts = tokens_view(toks@);
    if str_eq(name, "min_len") || str_eq(name, "max_len") || str_eq(name, "min_items") || str_eq(
        name,
        "max_items",
    ) {
        let n = match parse_count(toks, p, name) {
            Ok(n) => n,
            Err(e) => return Err(e),
        };
        proof {
            lemma_not_last(ts, p as int);
        }
        let rule = if str_eq(name, "min_len") {
            Rule::MinLen(n)
        } else if str_eq(name, "max_len") {
            Rule::MaxLen(n)
        } else if str_eq(name, "min_items") {
            Rule::MinItems(n)
        } else {
            Rule::MaxItems(n)
        };
        Ok((rule, 1))
    } else if str_eq(name, "range") {
        let min = match &toks[p].tok {
            Tok::Int(v) => *v,
            _ => return Err(expected_error("a number", &toks[p])),
        };
        proof {
            lemma_not_last(ts, p as int);
        }
        if !matches!(&toks[p + 1].tok, Tok::RangeIncl) {
            return Err(expected_error("`..=`", &toks[p + 1]));
        }
        proof {
            lemma_not_last(ts, p + 1);
        }
        let max = match &toks[p + 2].tok {
            Tok::Int(v) => *v,
            _ => return Err(expected_error("a number", &toks[p + 2])),
        };
        proof {
            lemma_not_last(ts, p + 2);
        }
        if min > max {
            let mut m = owned("`range(");
            push_signed_decimal(&mut m, min);
            m.append("..=");
            push_signed_decimal(&mut m, max);
            m.append(")` is empty");
            assert(m@ =~= "`range("@ + signed_decimal(min as int) + "..="@ + signed_decimal(
                max as int,
            ) + ")` is empty"@);
            return Err(token_error(&toks[p + 3], m));
        }
        Ok((Rule::Range { min, max }, 3))
    } else if str_eq(name, "format") {
        match &toks[p].tok {
            Tok::Ident(f) => match Format::parse(f.as_str()) {
                Some(format) => {
                    proof {
                        lemma_not_last(ts, p as int);
                    }
                    Ok((Rule::Format(format), 1))
                },
                None => {
                    let mut m = owned("unknown format `");
                    m.append(f.as_str());
                    m.append("`");
                    assert(m@ =~= "unknown format `"@ + f@ + "`"@);
                    Err(token_error(&toks[p], m))
                },
            },
            _ => Err(expected_error("a format name", &toks[p])),
        }
    } else {
        let mut m = owned("unknown rule `@");
        m.append(name);
        m.append("`");
        assert(m@ =~= "unknown rule `@"@ + name@ + "`"@);
        Err(token_error(at, m))
    }
}

/// A rule whose name is at `p`, just after its `@`.
fn parse_rule(toks: &Vec<Token>, p: usize) -> (r: Result<(Rule, usize), ParseError>)
    requires
        well_ended(tokens_view(toks@)),
        p < toks@.len(),
    ensures
        match (r, rule_at(tokens_view(toks@), p as int)) {
            (Ok((rule, n)), Ok(read)) => rule == read.value && n == read.len && p + n < toks@.len(),
            (Err(e), Err(f)) => e.view() == f,
            _ => false,
        },
{
    let len = toks.len();
    let ghost ts = tokens_view(toks@);
    let at = &toks[p];
    let name = match &at.tok {
        Tok::Ident(name) => name,
        _ => return Err(expected_error("a rule name", at)),
    };
    proof {
        lemma_not_last(ts, p as int);
    }
    if !is_lparen(&toks[p + 1].tok) {
        return Err(expected_error("`(`", &toks[p + 1]));
    }
    proof {
        lemma_not_last(ts, p + 1);
    }
    let (rule, n) = match parse_rule_args(toks, p + 2, name.as_str(), at) {
        Ok(x) => x,
        Err(e) => return Err(e),
    };
    let q = p + 2 + n;
    if !is_rparen(&toks[q].tok) {
        return Err(expected_error("`)`", &toks[q]));
    }
    proof {
        lemma_not_last(ts, q as int);
    }
    Ok((rule, n + 3))
}

fn parse_rules(toks: &Vec<Token>, q0: usize) -> (r: Result<(Vec<Rule>, usize), ParseError>)
    requires
        well_ended(tokens_view(toks@)),
        q0 < toks@.len(),
    ensures
        match (r, rules_from(tokens_view(toks@), q0 as int, Seq::empty())) {
            (Ok((rules, n)), Ok(read)) => rules@ == read.value && n == read.len && q0 + n
                < toks@.len(),
            (Err(e), Err(f)) => e.view() == f,
            _ => false,
        },
{
    let len = toks.len();
    let ghost ts = tokens_view(toks@);
    let mut rules: Vec<Rule> = Vec::new();
    let mut q = q0;
    while is_at(&toks[q].tok)
        invariant
            ts == tokens_view(toks@),
            len == toks@.len(),
            well_ended(ts),
            q0 <= q < toks@.len(),
            rules_from(ts, q0 as int, Seq::empty()) == shifted(
                rules_from(ts, q as int, rules@),
                q - q0,
            ),
        decreases toks@.len() - q,
    {
        proof {
            lemma_not_last(ts, q as int);
        }
        let (rule, n) = match parse_rule(toks, q + 1) {
            Ok(x) => x,
            Err(e) => return Err(e),
        };
        rules.push(rule);
        q = q + 1 + n;
    }
    Ok((rules, q - q0))
}

/// A field whose name has been read, from its `:` at `p`.
fn parse_field(toks: &Vec<Token>, p: usize, name: String, refs: &mut Vec<Reference>) -> (r: Result<
    (Field, usize),
    ParseError,
>)
    requires
        well_ended(tokens_view(toks@)),
        p < toks@.len(),
    ensures
        match (r, field_rest(tokens_view(toks@), p as int, name@)) {
            (Ok((f, n)), Ok(read)) => {
                &&& f.view() == read.value
                &&& n == read.len
                &&& p + n < toks@.len()
                &&& refs_view(final(refs)@) == refs_view(old(refs)@) + read.refs
            },
            (Err(e), Err(f)) => e.view() == f,
            _ => false,
        },
{
    let len = toks.len();
    let ghost ts = tokens_view(toks@);
    if !is_colon(&toks[p].tok) {
        return Err(expected_error("`:`", &toks[p]));
    }
    proof {
        lemma_not_last(ts, p as int);
    }
    let optional = is_keyword(&toks[p + 1].tok, "optional");
    let q = if optional {
        proof {
            lemma_not_last(ts, p + 1);
        }
        p + 2
    } else {
        p + 1
    };
    let (ty, nullable, n) = match parse_type(toks, q, refs) {
        Ok(x) => x,
        Err(e) => return Err(e),
    };
    let (rules, m) = match parse_rules(toks, q + n) {
        Ok(x) => x,
        Err(e) => return Err(e),
    };
    let f = Field { name, ty, presence: Presence { optional, nullable }, rules };
    Ok((f, q + n + m - p))
}

fn field_listed(fields: &Vec<Field>, name: &str) -> (r: bool)
    ensures
        r == spec_field_names(fields_view(fields@)).contains(name@),
{
    let ghost names = spec_field_names(fields_view(fields@));
    let n = fields.len();
    let mut i: usize = 0;
    while i < n
        invariant
            n == fields@.len(),
            names == spec_field_names(fields_view(fields@)),
            i <= n,
            forall|j: int| 0 <= j < i ==> names[j] != name@,
        decreases n - i,
    {
        if str_eq(fields[i].name.as_str(), name) {
            assert(names[i as int] == name@);
            return true;
        }
        i = i + 1;
    }
    false
}

fn variant_listed(variants: &Vec<Variant>, tag: &str) -> (r: bool)
    ensures
        r == spec_variant_tags(variants_view(variants@)).contains(tag@),
{
    let ghost tags = spec_variant_tags(variants_view(variants@));
    let n = variants.len();
    let mut i: usize = 0;
    while i < n
        invariant
            n == variants@.len(),
            tags == spec_variant_tags(variants_view(variants@)),
            i <= n,
            forall|j: int| 0 <= j < i ==> tags[j] != tag@,
        decreases n - i,
    {
        if str_eq(variants[i].tag.as_str(), tag) {
            assert(tags[i as int] == tag@);
            return true;
        }
        i = i + 1;
    }
    false
}

/// One more field read: what remains of a schema's fields moves past it.
proof fn lemma_fields_step(
    ts: Seq<SpecToken>,
    p2: int,
    q: int,
    owner: Seq<char>,
    acc: Seq<SpecField>,
    found: Seq<SpecRef>,
    fname: Seq<char>,
    fr: Read<SpecField>,
)
    requires
        fields_from(ts, p2, owner, Seq::empty()) == prefixed(
            fields_from(ts, q, owner, acc),
            q - p2,
            found,
        ),
        tok_at(ts, q).tok == SpecTok::Ident(fname),
        field_rest(ts, q + 1, fname) == Ok::<Read<SpecField>, SpecError>(fr),
        !spec_field_names(acc).contains(fname),
    ensures
        fields_from(ts, p2, owner, Seq::empty()) == prefixed(
            fields_from(ts, q + 1 + fr.len, owner, acc.push(fr.value)),
            q + 1 + fr.len - p2,
            found + fr.refs,
        ),
{
    assert forall|x: Seq<SpecRef>| found + (fr.refs + x) == (found + fr.refs) + x by {
        assert(found + (fr.refs + x) =~= (found + fr.refs) + x);
    }
}

/// A schema declaration from its name at `p`, just after `schema`.
#[verifier::spinoff_prover]
#[verifier::rlimit(40)]
fn parse_schema(toks: &Vec<Token>, p: usize, refs: &mut Vec<Reference>) -> (r: Result<
    (ObjectType, usize),
    ParseError,
>)
    requires
        well_ended(tokens_view(toks@)),
        p < toks@.len(),
    ensures
        match (r, schema_rest(tokens_view(toks@), p as int)) {
            (Ok((o, n)), Ok(read)) => {
                &&& o.view() == read.value
                &&& n == read.len
                &&& p + n < toks@.len()
                &&& refs_view(final(refs)@) == refs_view(old(refs)@) + read.refs
            },
            (Err(e), Err(f)) => e.view() == f,
            _ => false,
        },
{
    let len = toks.len();
    let ghost ts = tokens_view(toks@);
    let ghost start = refs_view(refs@);
    let name = match &toks[p].tok {
        Tok::Ident(n) => n.clone(),
        _ => return Err(expected_error("a schema name", &toks[p])),
    };
    proof {
        lemma_not_last(ts, p as int);
    }
    if !is_lbrace(&toks[p + 1].tok) {
        return Err(expected_error("`{`", &toks[p + 1]));
    }
    proof {
        lemma_not_last(ts, p + 1);
    }
    let mut fields: Vec<Field> = Vec::new();
    let mut q = p + 2;
    let ghost mut found: Seq<SpecRef> = Seq::empty();
    assert(fields_view(fields@) =~= Seq::<SpecField>::empty());
    assert(start + found =~= start);
    loop
        invariant_except_break
            fields_from(ts, p + 2, name@, Seq::empty()) == prefixed(
                fields_from(ts, q as int, name@, fields_view(fields@)),
                q - (p + 2),
                found,
            ),
        invariant
            ts == tokens_view(toks@),
            len == toks@.len(),
            well_ended(ts),
            p + 2 <= q < toks@.len(),
            refs_view(refs@) == start + found,
            schema_rest(ts, p as int) == match fields_from(ts, p + 2, name@, Seq::empty()) {
                Err(e) => Err(e),
                Ok(r) => Ok(
                    Read {
                        value: SpecObject { name: name@, fields: r.value, deny_unknown_fields: true },
                        len: r.len + 2,
                        refs: r.refs,
                    },
                ),
            },
        ensures
            fields_from(ts, p + 2, name@, Seq::empty()) == Ok::<Read<Seq<SpecField>>, SpecError>(
                Read { value: fields_view(fields@), len: (q + 1 - (p + 2)) as nat, refs: found },
            ),
            toks@[q as int].tok is RBrace,
        decreases toks@.len() - q,
    {
        let t = &toks[q];
        if is_rbrace(&t.tok) {
            assert(found + Seq::<SpecRef>::empty() =~= found);
            break;
        }
        if is_eof(&t.tok) {
            return Err(expected_error("`}`", t));
        }
        let fname = match &t.tok {
            Tok::Ident(f) => f,
            _ => return Err(expected_error("a field name", t)),
        };
        proof {
            lemma_not_last(ts, q as int);
        }
        let ghost before = refs_view(refs@);
        let (f, n) = match parse_field(toks, q + 1, fname.clone(), refs) {
            Ok(x) => x,
            Err(e) => return Err(e),
        };
        let q2 = q + 1 + n;
        if field_listed(&fields, fname.as_str()) {
            let mut m = owned("`");
            m.append(name.as_str());
            m.append("` declares `");
            m.append(fname.as_str());
            m.append("` more than once");
            assert(m@ =~= "`"@ + name@ + "` declares `"@ + fname@ + "` more than once"@);
            return Err(token_error(&toks[q2], m));
        }
        let ghost fv = fields_view(fields@);
        let ghost fr = field_rest(ts, q + 1, fname@)->Ok_0;
        proof {
            lemma_fields_step(ts, p + 2, q as int, name@, fv, found, fname@, fr);
        }
        fields.push(f);
        assert(fields_view(fields@) =~= fv.push(f.view()));
        proof {
            found = found + fr.refs;
            assert(refs_view(refs@) =~= start + found);
        }
        q = q2;
    }
    let o = ObjectType { name, fields, deny_unknown_fields: true };
    assert(o.view().fields =~= fields_view(o.fields@));
    Ok((o, q + 1 - p))
}

/// A union declaration from its name at `p`, just after `union`.
fn parse_union(toks: &Vec<Token>, p: usize, refs: &mut Vec<Reference>) -> (r: Result<
    (UnionType, usize),
    ParseError,
>)
    requires
        well_ended(tokens_view(toks@)),
        p < toks@.len(),
    ensures
        match (r, union_rest(tokens_view(toks@), p as int)) {
            (Ok((u, n)), Ok(read)) => {
                &&& u.view() == read.value
                &&& n == read.len
                &&& p + n < toks@.len()
                &&& refs_view(final(refs)@) == refs_view(old(refs)@) + read.refs
            },
            (Err(e), Err(f)) => e.view() == f,
            _ => false,
        },
{
    let len = toks.len();
    let ghost ts = tokens_view(toks@);
    let ghost start = refs_view(refs@);
    let name = match &toks[p].tok {
        Tok::Ident(n) => n.clone(),
        _ => return Err(expected_error("a union name", &toks[p])),
    };
    proof {
        lemma_not_last(ts, p as int);
    }
    let mut needs = owned("`union ");
    needs.append(name.as_str());
    needs.append("` needs `@tag(\"field\")`: the field that tells its variants apart is never guessed");
    assert(needs@ =~= msg_needs_tag(name@));
    if !is_at(&toks[p + 1].tok) {
        return Err(token_error(&toks[p + 1], needs));
    }
    proof {
        lemma_not_last(ts, p + 1);
    }
    if !is_keyword(&toks[p + 2].tok, "tag") {
        return Err(token_error(&toks[p + 2], needs));
    }
    proof {
        lemma_not_last(ts, p + 2);
    }
    if !is_lparen(&toks[p + 3].tok) {
        return Err(expected_error("`(`", &toks[p + 3]));
    }
    proof {
        lemma_not_last(ts, p + 3);
    }
    let tag = match &toks[p + 4].tok {
        Tok::Str(t) => t.clone(),
        _ => return Err(expected_error("the tag's field name as a string", &toks[p + 4])),
    };
    proof {
        lemma_not_last(ts, p + 4);
    }
    if !is_rparen(&toks[p + 5].tok) {
        return Err(expected_error("`)`", &toks[p + 5]));
    }
    proof {
        lemma_not_last(ts, p + 5);
    }
    if !is_lbrace(&toks[p + 6].tok) {
        return Err(expected_error("`{`", &toks[p + 6]));
    }
    proof {
        lemma_not_last(ts, p + 6);
    }
    let mut variants: Vec<Variant> = Vec::new();
    let mut q = p + 7;
    let ghost mut found: Seq<SpecRef> = Seq::empty();
    assert(variants_view(variants@) =~= Seq::<(Seq<char>, Seq<char>)>::empty());
    assert(start + found =~= start);
    loop
        invariant_except_break
            variants_from(ts, p + 7, name@, tag@, Seq::empty()) == prefixed(
                variants_from(ts, q as int, name@, tag@, variants_view(variants@)),
                q - (p + 7),
                found,
            ),
        invariant
            ts == tokens_view(toks@),
            len == toks@.len(),
            well_ended(ts),
            p + 7 <= q < toks@.len(),
            refs_view(refs@) == start + found,
            union_rest(ts, p as int) == match variants_from(ts, p + 7, name@, tag@, Seq::empty()) {
                Err(e) => Err(e),
                Ok(r) => Ok(
                    Read {
                        value: SpecUnion { name: name@, tag: tag@, variants: r.value },
                        len: r.len + 7,
                        refs: r.refs,
                    },
                ),
            },
        ensures
            variants_from(ts, p + 7, name@, tag@, Seq::empty()) == Ok::<
                Read<Seq<(Seq<char>, Seq<char>)>>,
                SpecError,
            >(
                Read {
                    value: variants_view(variants@),
                    len: (q + 1 - (p + 7)) as nat,
                    refs: found,
                },
            ),
            toks@[q as int].tok is RBrace,
        decreases toks@.len() - q,
    {
        let t = &toks[q];
        if is_rbrace(&t.tok) {
            if variants.len() == 0 {
                proof {
                    lemma_not_last(ts, q as int);
                }
                return Err(token_error(&toks[q + 1], owned("a union needs at least one variant")));
            }
            assert(found + Seq::<SpecRef>::empty() =~= found);
            break;
        }
        if is_eof(&t.tok) {
            return Err(expected_error("`}`", t));
        }
        let v = match &t.tok {
            Tok::Ident(v) => v,
            Tok::Str(v) => v,
            _ => return Err(expected_error("a variant tag", t)),
        };
        proof {
            lemma_not_last(ts, q as int);
        }
        if !is_colon(&toks[q + 1].tok) {
            return Err(expected_error("`:`", &toks[q + 1]));
        }
        proof {
            lemma_not_last(ts, q + 1);
        }
        let st = &toks[q + 2];
        let target = match &st.tok {
            Tok::Ident(target) => target,
            _ => return Err(expected_error("a schema name", st)),
        };
        if builtin(target.as_str()).is_some() {
            let mut m = owned("`");
            m.append(target.as_str());
            m.append("` is a built-in type; a variant names a schema");
            assert(m@ =~= "`"@ + target@ + "` is a built-in type; a variant names a schema"@);
            return Err(token_error(st, m));
        }
        proof {
            lemma_not_last(ts, q + 2);
        }
        if variant_listed(&variants, v.as_str()) {
            let mut m = owned("`");
            m.append(v.as_str());
            m.append("` is listed twice");
            assert(m@ =~= "`"@ + v@ + "` is listed twice"@);
            return Err(token_error(&toks[q + 3], m));
        }
        let ghost before = refs_view(refs@);
        let reference = Reference {
            name: target.clone(),
            line: st.line,
            column: st.column,
            variant_of: Some((name.clone(), tag.clone())),
        };
        let ghost one = reference.view();
        refs.push(reference);
        assert(refs_view(refs@) =~= before.push(one));
        let ghost vv = variants_view(variants@);
        variants.push(Variant { tag: v.clone(), schema_name: target.clone() });
        assert(variants_view(variants@) =~= vv.push((v@, target@)));
        proof {
            assert forall|x: Seq<SpecRef>| found + (seq![one] + x) == found.push(one) + x by {
                assert(found + (seq![one] + x) =~= found.push(one) + x);
            }
            found = found.push(one);
            assert(refs_view(refs@) =~= start + found);
        }
        q = q + 3;
    }
    let u = UnionType { name, tag, variants };
    assert(u.view().variants =~= variants_view(u.variants@));
    Ok((u, q + 1 - p))
}

/// What the schema's own lookups say, in the terms the grammar uses.
proof fn lemma_declared(s: Schema, name: Seq<char>)
    ensures
        declared(s.view(), name) == (s.object_spec(name) is Some || s.union_spec(name) is Some),
        spec_object(s.view(), name) == match s.object_spec(name) {
            Some(o) => Some(o.view()),
            None => None,
        },
        spec_union_names(s.view().unions).contains(name) == (s.union_spec(name) is Some),
{
    assert(spec_object_names(s.view().types) =~= object_names(s.types@));
    assert(spec_union_names(s.view().unions) =~= union_names(s.unions@));
    lemma_first_index(object_names(s.types@), name);
    lemma_first_index(union_names(s.unions@), name);
}

/// One more schema declared.
proof fn lemma_decls_schema_step(
    ts: Seq<SpecToken>,
    q: int,
    acc: SpecSchema,
    found: Seq<SpecRef>,
    d: Read<SpecObject>,
)
    requires
        decls_from(ts, 0, SpecSchema { types: Seq::empty(), unions: Seq::empty() }) == prefixed(
            decls_from(ts, q, acc),
            q,
            found,
        ),
        is_word(tok_at(ts, q).tok, "schema"@),
        schema_rest(ts, q + 1) == Ok::<Read<SpecObject>, SpecError>(d),
        !declared(acc, d.value.name),
    ensures
        decls_from(ts, 0, SpecSchema { types: Seq::empty(), unions: Seq::empty() }) == prefixed(
            decls_from(
                ts,
                q + 1 + d.len,
                SpecSchema { types: acc.types.push(d.value), unions: acc.unions },
            ),
            q + 1 + d.len,
            found + d.refs,
        ),
{
    assert forall|x: Seq<SpecRef>| found + (d.refs + x) == (found + d.refs) + x by {
        assert(found + (d.refs + x) =~= (found + d.refs) + x);
    }
}

/// One more union declared.
proof fn lemma_decls_union_step(
    ts: Seq<SpecToken>,
    q: int,
    acc: SpecSchema,
    found: Seq<SpecRef>,
    d: Read<SpecUnion>,
)
    requires
        decls_from(ts, 0, SpecSchema { types: Seq::empty(), unions: Seq::empty() }) == prefixed(
            decls_from(ts, q, acc),
            q,
            found,
        ),
        is_word(tok_at(ts, q).tok, "union"@),
        union_rest(ts, q + 1) == Ok::<Read<SpecUnion>, SpecError>(d),
        !declared(acc, d.value.name),
    ensures
        decls_from(ts, 0, SpecSchema { types: Seq::empty(), unions: Seq::empty() }) == prefixed(
            decls_from(
                ts,
                q + 1 + d.len,
                SpecSchema { types: acc.types, unions: acc.unions.push(d.value) },
            ),
            q + 1 + d.len,
            found + d.refs,
        ),
{
    reveal_strlit("schema");
    reveal_strlit("union");
    assert("schema"@ != "union"@) by {
        assert("schema"@.len() != "union"@.len());
    }
    assert forall|x: Seq<SpecRef>| found + (d.refs + x) == (found + d.refs) + x by {
        assert(found + (d.refs + x) =~= (found + d.refs) + x);
    }
}

fn twice_declared(name: &str) -> (r: String)
    ensures
        r@ == msg_twice_declared(name@),
{
    let mut m = owned("`");
    m.append(name);
    m.append("` is declared more than once");
    assert(m@ =~= msg_twice_declared(name@));
    m
}

/// Every declaration, through the end of input.
#[verifier::spinoff_prover]
#[verifier::rlimit(40)]
fn parse_decls(toks: &Vec<Token>, refs: &mut Vec<Reference>) -> (r: Result<Schema, ParseError>)
    requires
        well_ended(tokens_view(toks@)),
    ensures
        match (r, decls_from(
            tokens_view(toks@),
            0,
            SpecSchema { types: Seq::empty(), unions: Seq::empty() },
        )) {
            (Ok(s), Ok(read)) => s.view() == read.value && refs_view(final(refs)@) == refs_view(
                old(refs)@,
            ) + read.refs,
            (Err(e), Err(f)) => e.view() == f,
            _ => false,
        },
{
    let len = toks.len();
    let ghost ts = tokens_view(toks@);
    let ghost start = refs_view(refs@);
    let ghost empty = SpecSchema { types: Seq::empty(), unions: Seq::empty() };
    let mut schema = Schema { types: Vec::new(), unions: Vec::new() };
    let mut q: usize = 0;
    let ghost mut found: Seq<SpecRef> = Seq::empty();
    assert(schema.view().types =~= Seq::<SpecObject>::empty());
    assert(schema.view().unions =~= Seq::<SpecUnion>::empty());
    assert(start + found =~= start);
    loop
        invariant_except_break
            decls_from(ts, 0, empty) == prefixed(decls_from(ts, q as int, schema.view()), q as int, found),
        invariant
            ts == tokens_view(toks@),
            empty == (SpecSchema { types: Seq::empty(), unions: Seq::empty() }),
            len == toks@.len(),
            well_ended(ts),
            q < toks@.len(),
            refs_view(refs@) == start + found,
        ensures
            decls_from(ts, 0, empty) == Ok::<Read<SpecSchema>, SpecError>(
                Read { value: schema.view(), len: q as nat, refs: found },
            ),
        decreases toks@.len() - q,
    {
        let t = &toks[q];
        if is_eof(&t.tok) {
            assert(found + Seq::<SpecRef>::empty() =~= found);
            break;
        }
        let ghost sv = schema.view();
        if is_keyword(&t.tok, "schema") {
            proof {
                lemma_not_last(ts, q as int);
            }
            let (o, n) = match parse_schema(toks, q + 1, refs) {
                Ok(x) => x,
                Err(e) => return Err(e),
            };
            let q2 = q + 1 + n;
            proof {
                lemma_declared(schema, o.name@);
            }
            if schema.declares(o.name.as_str()) {
                return Err(token_error(&toks[q2], twice_declared(o.name.as_str())));
            }
            let ghost d = schema_rest(ts, q + 1)->Ok_0;
            proof {
                lemma_decls_schema_step(ts, q as int, sv, found, d);
            }
            schema.types.push(o);
            assert(schema.view().types =~= sv.types.push(d.value));
            assert(schema.view().unions =~= sv.unions);
            proof {
                found = found + d.refs;
                assert(refs_view(refs@) =~= start + found);
            }
            q = q2;
        } else if is_keyword(&t.tok, "union") {
            proof {
                lemma_not_last(ts, q as int);
            }
            let (u, n) = match parse_union(toks, q + 1, refs) {
                Ok(x) => x,
                Err(e) => return Err(e),
            };
            let q2 = q + 1 + n;
            proof {
                lemma_declared(schema, u.name@);
            }
            if schema.declares(u.name.as_str()) {
                return Err(token_error(&toks[q2], twice_declared(u.name.as_str())));
            }
            let ghost d = union_rest(ts, q + 1)->Ok_0;
            proof {
                lemma_decls_union_step(ts, q as int, sv, found, d);
            }
            schema.unions.push(u);
            assert(schema.view().types =~= sv.types);
            assert(schema.view().unions =~= sv.unions.push(d.value));
            proof {
                found = found + d.refs;
                assert(refs_view(refs@) =~= start + found);
            }
            q = q2;
        } else {
            return Err(expected_error("`schema`", t));
        }
    }
    Ok(schema)
}

fn check_reference(schema: &Schema, r: &Reference) -> (res: Result<(), ParseError>)
    ensures
        match (res, check_ref(schema.view(), r.view())) {
            (Ok(()), Ok(())) => true,
            (Err(e), Err(f)) => e.view() == f,
            _ => false,
        },
{
    proof {
        lemma_declared(*schema, r.name@);
    }
    let mut unknown = owned("unknown type `");
    unknown.append(r.name.as_str());
    unknown.append("`");
    assert(unknown@ =~= "unknown type `"@ + r.name@ + "`"@);
    match &r.variant_of {
        None => {
            if schema.declares(r.name.as_str()) {
                Ok(())
            } else {
                Err(ParseError { line: r.line, column: r.column, message: unknown })
            }
        },
        Some((union_name, tag)) => match schema.get(r.name.as_str()) {
            Some(obj) => {
                proof {
                    assert(spec_field_names(obj.view().fields) =~= crate::schema::field_names(
                        obj.fields@,
                    ));
                    lemma_first_index(crate::schema::field_names(obj.fields@), tag@);
                }
                if obj.field(tag.as_str()).is_some() {
                    let mut m = owned("`");
                    m.append(r.name.as_str());
                    m.append("` declares `");
                    m.append(tag.as_str());
                    m.append("`, the tag of union `");
                    m.append(union_name.as_str());
                    m.append("`; only the union may declare its tag");
                    assert(m@ =~= "`"@ + r.name@ + "` declares `"@ + tag@ + "`, the tag of union `"@
                        + union_name@ + "`; only the union may declare its tag"@);
                    Err(ParseError { line: r.line, column: r.column, message: m })
                } else {
                    Ok(())
                }
            },
            None => {
                if schema.union(r.name.as_str()).is_some() {
                    let mut m = owned("`");
                    m.append(r.name.as_str());
                    m.append("` is a union; a variant names a schema");
                    assert(m@ =~= "`"@ + r.name@ + "` is a union; a variant names a schema"@);
                    Err(ParseError { line: r.line, column: r.column, message: m })
                } else {
                    Err(ParseError { line: r.line, column: r.column, message: unknown })
                }
            },
        },
    }
}

/// Once a reference fails, resolving stops there.
proof fn lemma_resolve_stops(s: SpecSchema, refs: Seq<SpecRef>, i: int)
    requires
        0 <= i < refs.len(),
        resolve(s, refs.take(i)) == Ok::<(), SpecError>(()),
        check_ref(s, refs[i]) is Err,
    ensures
        resolve(s, refs) == check_ref(s, refs[i]),
    decreases refs.len(),
{
    if refs.len() == i + 1 {
        assert(refs.drop_last() =~= refs.take(i));
    } else {
        let d = refs.drop_last();
        assert(d.take(i) =~= refs.take(i));
        lemma_resolve_stops(s, d, i);
    }
}

fn resolve_refs(schema: &Schema, refs: &Vec<Reference>) -> (r: Result<(), ParseError>)
    ensures
        match (r, resolve(schema.view(), refs_view(refs@))) {
            (Ok(()), Ok(())) => true,
            (Err(e), Err(f)) => e.view() == f,
            _ => false,
        },
{
    let ghost rv = refs_view(refs@);
    let n = refs.len();
    let mut i: usize = 0;
    assert(rv.take(0) =~= Seq::<SpecRef>::empty());
    while i < n
        invariant
            n == refs@.len(),
            rv == refs_view(refs@),
            i <= n,
            resolve(schema.view(), rv.take(i as int)) == Ok::<(), SpecError>(()),
        decreases n - i,
    {
        assert(rv.take(i + 1).drop_last() =~= rv.take(i as int));
        match check_reference(schema, &refs[i]) {
            Ok(()) => {},
            Err(e) => {
                proof {
                    lemma_resolve_stops(schema.view(), rv, i as int);
                }
                return Err(e);
            },
        }
        i = i + 1;
    }
    assert(rv.take(n as int) =~= rv);
    Ok(())
}

/// A successful read of the source ends with its end of input.
proof fn lemma_lex_ends(cs: Seq<char>, i: int, line: nat, col: nat, acc: Seq<SpecToken>)
    ensures
        lex_from(cs, i, line, col, acc) matches Ok(t) ==> well_ended(t),
    decreases chars_left(cs, i),
{
    if 0 <= i < cs.len() {
        let c = cs[i];
        if c == '\n' {
            lemma_lex_ends(cs, i + 1, line + 1, 1, acc);
        } else if white_space(c) {
            lemma_lex_ends(cs, i + 1, line, col + 1, acc);
        } else if c == '/' && char_at(cs, i + 1) == Some('/') {
            let n = 2 + line_rest(cs, i + 2);
            lemma_lex_ends(cs, i + n, line, col + n, acc);
        } else if c == '.' && char_at(cs, i + 1) == Some('.') && char_at(cs, i + 2) == Some('=') {
            lemma_lex_ends(
                cs,
                i + 3,
                line,
                col + 3,
                acc.push(SpecToken { tok: SpecTok::RangeIncl, line, column: col }),
            );
        } else if symbol(c) is Some {
            lemma_lex_ends(
                cs,
                i + 1,
                line,
                col + 1,
                acc.push(SpecToken { tok: symbol(c)->0, line, column: col }),
            );
        } else if c == '"' {
            let n = quoted_len(cs, i + 1);
            if char_at(cs, i + 1 + n) == Some('"') {
                lemma_lex_ends(
                    cs,
                    i + 2 + n,
                    line,
                    col + 2 + n,
                    acc.push(
                        SpecToken {
                            tok: SpecTok::Str(cs.subrange(i + 1, i + 1 + n)),
                            line,
                            column: col,
                        },
                    ),
                );
            }
        } else if is_ascii_digit(c) || (c == '-' && starts_digit(cs, i + 1)) {
            let negative = c == '-';
            let start = if negative {
                i + 1
            } else {
                i
            };
            let n = 1 + number_rest(cs, start + 1);
            let width: nat = if negative {
                n + 1
            } else {
                n
            };
            let digits = digits_only(cs.subrange(start, start + n));
            let v = if negative {
                -chars_value(digits)
            } else {
                chars_value(digits) as int
            };
            lemma_lex_ends(
                cs,
                i + width,
                line,
                col + width,
                acc.push(SpecToken { tok: SpecTok::Int(v), line, column: col }),
            );
        } else if alphabetic(c) || c == '_' {
            let n = 1 + ident_rest(cs, i + 1);
            lemma_lex_ends(
                cs,
                i + n,
                line,
                col + n,
                acc.push(
                    SpecToken { tok: SpecTok::Ident(cs.subrange(i, i + n)), line, column: col },
                ),
            );
        }
    }
}

/// Whether a token starts strictly before `line` and `col`, line first.
pub open spec fn starts_before(t: SpecToken, line: nat, col: nat) -> bool {
    t.line < line || (t.line == line && t.column < col)
}

/// Every token starts strictly before every later one, line first, then column.
pub open spec fn positions_increase(ts: Seq<SpecToken>) -> bool {
    forall|i: int, j: int|
        0 <= i < j < ts.len() ==> starts_before(#[trigger] ts[i], ts[j].line, #[trigger] ts[j].column)
}

/// What a successful read of any source gives: one `Eof` token, last; every
/// position 1-based; and positions that strictly increase.
pub open spec fn lexed_well(ts: Seq<SpecToken>) -> bool {
    &&& ts.len() > 0
    &&& ts.last().tok is Eof
    &&& forall|i: int| 0 <= i < ts.len() - 1 ==> !(#[trigger] ts[i].tok is Eof)
    &&& forall|i: int| 0 <= i < ts.len() ==> #[trigger] ts[i].line >= 1 && ts[i].column >= 1
    &&& positions_increase(ts)
    &&& ints_fit(ts)
}

/// Every integer token holds a value that fits 128 bits.
pub open spec fn ints_fit(ts: Seq<SpecToken>) -> bool {
    forall|i: int| 0 <= i < ts.len() ==> (#[trigger] ts[i].tok matches SpecTok::Int(v) ==> i128_fits(v))
}

/// A token read before the character at `line` and `col`.
spec fn read_before(t: SpecToken, line: nat, col: nat) -> bool {
    &&& starts_before(t, line, col)
    &&& !(t.tok is Eof)
    &&& t.line >= 1
    &&& t.column >= 1
    &&& (t.tok matches SpecTok::Int(v) ==> i128_fits(v))
}

/// The state of a read at the character at `line` and `col`, after `acc`.
spec fn lex_state_ok(acc: Seq<SpecToken>, line: nat, col: nat) -> bool {
    &&& line >= 1
    &&& col >= 1
    &&& forall|k: int| 0 <= k < acc.len() ==> read_before(#[trigger] acc[k], line, col)
    &&& positions_increase(acc)
}

proof fn lemma_state_moves_on(acc: Seq<SpecToken>, line: nat, col: nat, l2: nat, c2: nat)
    requires
        lex_state_ok(acc, line, col),
        line < l2 || (line == l2 && col <= c2),
        c2 >= 1,
    ensures
        lex_state_ok(acc, l2, c2),
{
    assert forall|k: int| 0 <= k < acc.len() implies read_before(#[trigger] acc[k], l2, c2) by {
        assert(read_before(acc[k], line, col));
    }
}

proof fn lemma_state_takes_token(acc: Seq<SpecToken>, line: nat, col: nat, tok: SpecTok, w: nat)
    requires
        lex_state_ok(acc, line, col),
        !(tok is Eof),
        tok matches SpecTok::Int(v) ==> i128_fits(v),
        w >= 1,
    ensures
        lex_state_ok(acc.push(SpecToken { tok, line, column: col }), line, col + w),
{
    let t = SpecToken { tok, line, column: col };
    let a2 = acc.push(t);
    assert forall|k: int| 0 <= k < a2.len() implies read_before(#[trigger] a2[k], line, col + w) by {
        if k < acc.len() {
            assert(read_before(acc[k], line, col));
        }
    }
    assert forall|i: int, j: int| 0 <= i < j < a2.len() implies starts_before(
        #[trigger] a2[i],
        a2[j].line,
        #[trigger] a2[j].column,
    ) by {
        if j < acc.len() {
            assert(starts_before(acc[i], acc[j].line, acc[j].column));
        } else {
            assert(read_before(acc[i], line, col));
        }
    }
}

/// A successful read from a sound state ends well.
proof fn lemma_lex_positions(cs: Seq<char>, i: int, line: nat, col: nat, acc: Seq<SpecToken>)
    requires
        lex_state_ok(acc, line, col),
    ensures
        lex_from(cs, i, line, col, acc) matches Ok(t) ==> lexed_well(t),
    decreases chars_left(cs, i),
{
    if 0 <= i < cs.len() {
        let c = cs[i];
        if c == '\n' {
            lemma_state_moves_on(acc, line, col, line + 1, 1);
            lemma_lex_positions(cs, i + 1, line + 1, 1, acc);
        } else if white_space(c) {
            lemma_state_moves_on(acc, line, col, line, col + 1);
            lemma_lex_positions(cs, i + 1, line, col + 1, acc);
        } else if c == '/' && char_at(cs, i + 1) == Some('/') {
            let n = 2 + line_rest(cs, i + 2);
            lemma_state_moves_on(acc, line, col, line, col + n);
            lemma_lex_positions(cs, i + n, line, col + n, acc);
        } else if c == '.' && char_at(cs, i + 1) == Some('.') && char_at(cs, i + 2) == Some('=') {
            lemma_state_takes_token(acc, line, col, SpecTok::RangeIncl, 3);
            lemma_lex_positions(
                cs,
                i + 3,
                line,
                col + 3,
                acc.push(SpecToken { tok: SpecTok::RangeIncl, line, column: col }),
            );
        } else if symbol(c) is Some {
            lemma_state_takes_token(acc, line, col, symbol(c)->0, 1);
            lemma_lex_positions(
                cs,
                i + 1,
                line,
                col + 1,
                acc.push(SpecToken { tok: symbol(c)->0, line, column: col }),
            );
        } else if c == '"' {
            let n = quoted_len(cs, i + 1);
            if char_at(cs, i + 1 + n) == Some('"') {
                let tok = SpecTok::Str(cs.subrange(i + 1, i + 1 + n));
                lemma_state_takes_token(acc, line, col, tok, 2 + n);
                lemma_lex_positions(
                    cs,
                    i + 2 + n,
                    line,
                    col + 2 + n,
                    acc.push(SpecToken { tok, line, column: col }),
                );
            }
        } else if is_ascii_digit(c) || (c == '-' && starts_digit(cs, i + 1)) {
            let negative = c == '-';
            let start = if negative {
                i + 1
            } else {
                i
            };
            let n = 1 + number_rest(cs, start + 1);
            let width: nat = if negative {
                n + 1
            } else {
                n
            };
            let digits = digits_only(cs.subrange(start, start + n));
            let v = if negative {
                -chars_value(digits)
            } else {
                chars_value(digits) as int
            };
            if i128_fits(v) {
                lemma_state_takes_token(acc, line, col, SpecTok::Int(v), width);
                lemma_lex_positions(
                    cs,
                    i + width,
                    line,
                    col + width,
                    acc.push(SpecToken { tok: SpecTok::Int(v), line, column: col }),
                );
            }
        } else if alphabetic(c) || c == '_' {
            let n = 1 + ident_rest(cs, i + 1);
            let tok = SpecTok::Ident(cs.subrange(i, i + n));
            lemma_state_takes_token(acc, line, col, tok, n);
            lemma_lex_positions(
                cs,
                i + n,
                line,
                col + n,
                acc.push(SpecToken { tok, line, column: col }),
            );
        }
    } else {
        let t = acc.push(SpecToken { tok: SpecTok::Eof, line, column: col });
        assert forall|k: int| 0 <= k < t.len() - 1 implies !(#[trigger] t[k].tok is Eof) by {
            assert(read_before(acc[k], line, col));
        }
        assert forall|k: int| 0 <= k < t.len() implies #[trigger] t[k].line >= 1 && t[k].column
            >= 1 by {
            if k < acc.len() {
                assert(read_before(acc[k], line, col));
            }
        }
        assert forall|k: int| 0 <= k < t.len() implies (#[trigger] t[k].tok matches SpecTok::Int(v)
            ==> i128_fits(v)) by {
            if k < acc.len() {
                assert(read_before(acc[k], line, col));
            }
        }
        assert forall|a: int, b: int| 0 <= a < b < t.len() implies starts_before(
            #[trigger] t[a],
            t[b].line,
            #[trigger] t[b].column,
        ) by {
            if b < acc.len() {
                assert(starts_before(acc[a], acc[b].line, acc[b].column));
            } else {
                assert(read_before(acc[a], line, col));
            }
        }
    }
}

/// Whatever the source, a successful read ends with exactly one end-of-input
/// token; every token starts at line 1 or later and column 1 or later; the
/// tokens' positions strictly increase, by line and then by column; and every
/// integer token fits 128 bits.
pub proof fn law_token_positions_strictly_increase(cs: Seq<char>)
    ensures
        tokens_of(cs) matches Ok(ts) ==> lexed_well(ts),
{
    lemma_lex_positions(cs, 0, 1, 1, Seq::empty());
}

/// Reads a `.seam` source into a schema: every declaration, then every name
/// the declarations use, checked against what the file declares.
pub fn parse(source: &str) -> (r: Result<Schema, ParseError>)
    requires
        source@.len() < usize::MAX,
    ensures
        match (r, schema_of(source@)) {
            (Ok(s), Ok(t)) => s.view() == t,
            (Err(e), Err(f)) => e.view() == f,
            _ => false,
        },
{
    let toks = match lex(source) {
        Ok(t) => t,
        Err(e) => return Err(e),
    };
    proof {
        lemma_lex_ends(source@, 0, 1, 1, Seq::empty());
    }
    let mut refs: Vec<Reference> = Vec::new();
    assert(refs_view(refs@) =~= Seq::<SpecRef>::empty());
    let schema = match parse_decls(&toks, &mut refs) {
        Ok(s) => s,
        Err(e) => return Err(e),
    };
    assert(refs_view(refs@) =~= decls_from(
        tokens_view(toks@),
        0,
        SpecSchema { types: Seq::empty(), unions: Seq::empty() },
    )->Ok_0.refs);
    match resolve_refs(&schema, &refs) {
        Ok(()) => Ok(schema),
        Err(e) => Err(e),
    }
}


// ------------------------------------------------------------------ laws

/// Every name a schema declares, object types first, then unions.
pub open spec fn all_names(s: SpecSchema) -> Seq<Seq<char>> {
    spec_object_names(s.types) + spec_union_names(s.unions)
}

/// No name is declared twice, as two object types, two unions, or one of each.
pub open spec fn names_unique(s: SpecSchema) -> bool {
    all_names(s).no_duplicates()
}

proof fn lemma_declare_keeps_unique(acc: SpecSchema, next: SpecSchema, name: Seq<char>)
    requires
        names_unique(acc),
        !declared(acc, name),
        (next.types == acc.types.push(next.types.last()) && next.types.last().name == name
            && next.unions == acc.unions) || (next.unions == acc.unions.push(next.unions.last())
            && next.unions.last().name == name && next.types == acc.types),
    ensures
        names_unique(next),
{
    let a = all_names(acc);
    let b = all_names(next);
    let on = spec_object_names(acc.types);
    let un = spec_union_names(acc.unions);
    assert(!a.contains(name)) by {
        if a.contains(name) {
            let i = choose|i: int| 0 <= i < a.len() && a[i] == name;
            if i < on.len() {
                assert(on[i] == name);
            } else {
                assert(un[i - on.len()] == name);
            }
        }
    }
    if next.types.len() == acc.types.len() + 1 && next.types == acc.types.push(next.types.last()) && next.types.last().name == name {
        assert(spec_object_names(next.types) =~= on.push(name));
        assert(spec_union_names(next.unions) =~= un);
        assert forall|i: int, j: int| 0 <= i < b.len() && 0 <= j < b.len() && i != j implies b[i] != b[j] by {
            let k = on.len() as int;
            let old_i = if i < k { i } else if i == k { -1 } else { i - 1 };
            let old_j = if j < k { j } else if j == k { -1 } else { j - 1 };
            if i == k {
                assert(b[i] == name);
                assert(b[j] == a[old_j]);
            } else if j == k {
                assert(b[j] == name);
                assert(b[i] == a[old_i]);
            } else {
                assert(b[i] == a[old_i] && b[j] == a[old_j]);
            }
        }
    } else {
        assert(spec_object_names(next.types) =~= on);
        assert(spec_union_names(next.unions) =~= un.push(name));
        assert(b =~= a.push(name));
        assert forall|i: int, j: int| 0 <= i < b.len() && 0 <= j < b.len() && i != j implies b[i] != b[j] by {
            if i == a.len() {
                assert(b[j] == a[j]);
            } else if j == a.len() {
                assert(b[i] == a[i]);
            }
        }
    }
}

proof fn lemma_decls_unique(toks: Seq<SpecToken>, q: int, acc: SpecSchema)
    requires
        names_unique(acc),
    ensures
        decls_from(toks, q, acc) matches Ok(r) ==> names_unique(r.value),
    decreases tokens_left(toks, q),
{
    let t = tok_at(toks, q);
    if t.tok is Eof {
    } else if is_word(t.tok, "schema"@) {
        if let Ok(d) = schema_rest(toks, q + 1) {
            let q2 = q + 1 + d.len;
            if !declared(acc, d.value.name) {
                let next = SpecSchema { types: acc.types.push(d.value), unions: acc.unions };
                lemma_declare_keeps_unique(acc, next, d.value.name);
                lemma_decls_unique(toks, q2, next);
            }
        }
    } else if is_word(t.tok, "union"@) {
        if let Ok(d) = union_rest(toks, q + 1) {
            let q2 = q + 1 + d.len;
            if !declared(acc, d.value.name) {
                let next = SpecSchema { types: acc.types, unions: acc.unions.push(d.value) };
                lemma_declare_keeps_unique(acc, next, d.value.name);
                lemma_decls_unique(toks, q2, next);
            }
        }
    }
}

/// A schema that compiles declares each name once: two object types, two
/// unions, or one of each under one name are refused. So each object type is
/// the one found under its own name.
pub proof fn law_a_name_is_declared_once(cs: Seq<char>)
    ensures
        schema_of(cs) matches Ok(s) ==> names_unique(s),
        schema_of(cs) matches Ok(s) ==> forall|i: int|
            0 <= i < s.types.len() ==> spec_object(s, (#[trigger] s.types[i]).name) == Some(
                s.types[i],
            ),
{
    if let Ok(toks) = tokens_of(cs) {
        let empty = SpecSchema { types: Seq::empty(), unions: Seq::empty() };
        assert(all_names(empty) =~= Seq::empty());
        lemma_decls_unique(toks, 0, empty);
    }
    if let Ok(s) = schema_of(cs) {
        assert(names_unique(s));
        let names = spec_object_names(s.types);
        let all = all_names(s);
        assert forall|i: int| 0 <= i < s.types.len() implies spec_object(s, (#[trigger] s.types[i]).name)
            == Some(s.types[i]) by {
            lemma_first_index(names, s.types[i].name);
            assert(names[i] == s.types[i].name);
            assert forall|j: int| 0 <= j < i implies names[j] != s.types[i].name by {
                assert(all[j] == names[j]);
                assert(all[i] == names[i]);
                assert(all[j] != all[i]);
            }
            assert(first_index(names, s.types[i].name) == Some(i));
        }
    }
}


proof fn lemma_push_keeps_unique(names: Seq<Seq<char>>, name: Seq<char>)
    requires
        names.no_duplicates(),
        !names.contains(name),
    ensures
        names.push(name).no_duplicates(),
{
    let b = names.push(name);
    assert forall|i: int, j: int| 0 <= i < b.len() && 0 <= j < b.len() && i != j implies b[i] != b[j] by {
        if i == names.len() {
            assert(b[j] == names[j]);
        } else if j == names.len() {
            assert(b[i] == names[i]);
        }
    }
}

proof fn lemma_fields_unique(toks: Seq<SpecToken>, q: int, owner: Seq<char>, acc: Seq<SpecField>)
    requires
        spec_field_names(acc).no_duplicates(),
    ensures
        fields_from(toks, q, owner, acc) matches Ok(r) ==> spec_field_names(r.value).no_duplicates(),
    decreases tokens_left(toks, q),
{
    let t = tok_at(toks, q);
    if !(t.tok is RBrace) && !(t.tok is Eof) {
        if let SpecTok::Ident(name) = t.tok {
            if let Ok(f) = field_rest(toks, q + 1, name) {
                let q2 = q + 1 + f.len;
                if !spec_field_names(acc).contains(name) {
                    assert(spec_field_names(acc.push(f.value)) =~= spec_field_names(acc).push(name));
                    lemma_push_keeps_unique(spec_field_names(acc), name);
                    lemma_fields_unique(toks, q2, owner, acc.push(f.value));
                }
            }
        }
    }
}

proof fn lemma_variants_unique(
    toks: Seq<SpecToken>,
    q: int,
    name: Seq<char>,
    tag: Seq<char>,
    acc: Seq<(Seq<char>, Seq<char>)>,
)
    requires
        spec_variant_tags(acc).no_duplicates(),
    ensures
        variants_from(toks, q, name, tag, acc) matches Ok(r) ==> spec_variant_tags(r.value).no_duplicates(),
    decreases tokens_left(toks, q),
{
    let t = tok_at(toks, q);
    if !(t.tok is RBrace) && !(t.tok is Eof) {
        if let Some(v) = word_or_string(t.tok) {
            if let SpecTok::Ident(target) = tok_at(toks, q + 2).tok {
                if tok_at(toks, q + 1).tok is Colon && builtin_spec(target) is None
                    && !spec_variant_tags(acc).contains(v) {
                    assert(spec_variant_tags(acc.push((v, target))) =~= spec_variant_tags(acc).push(v));
                    lemma_push_keeps_unique(spec_variant_tags(acc), v);
                    lemma_variants_unique(toks, q + 3, name, tag, acc.push((v, target)));
                }
            }
        }
    }
}

/// Within each object type no two fields share a name, and within each union
/// no two variants share a tag value.
pub open spec fn members_unique(s: SpecSchema) -> bool {
    &&& forall|i: int| 0 <= i < s.types.len() ==> spec_field_names(#[trigger] s.types[i].fields).no_duplicates()
    &&& forall|i: int| 0 <= i < s.unions.len() ==> spec_variant_tags(#[trigger] s.unions[i].variants).no_duplicates()
}

proof fn lemma_decls_members_unique(toks: Seq<SpecToken>, q: int, acc: SpecSchema)
    requires
        members_unique(acc),
    ensures
        decls_from(toks, q, acc) matches Ok(r) ==> members_unique(r.value),
    decreases tokens_left(toks, q),
{
    let t = tok_at(toks, q);
    if t.tok is Eof {
    } else if is_word(t.tok, "schema"@) {
        if let Ok(d) = schema_rest(toks, q + 1) {
            let q2 = q + 1 + d.len;
            if !declared(acc, d.value.name) {
                if let SpecTok::Ident(name) = tok_at(toks, q + 1).tok {
                    assert(spec_field_names(Seq::<SpecField>::empty()) =~= Seq::<Seq<char>>::empty());
                    lemma_fields_unique(toks, q + 3, name, Seq::empty());
                }
                let next = SpecSchema { types: acc.types.push(d.value), unions: acc.unions };
                assert(members_unique(next));
                lemma_decls_members_unique(toks, q2, next);
            }
        }
    } else if is_word(t.tok, "union"@) {
        if let Ok(d) = union_rest(toks, q + 1) {
            let q2 = q + 1 + d.len;
            if !declared(acc, d.value.name) {
                if let SpecTok::Ident(name) = tok_at(toks, q + 1).tok {
                    if let SpecTok::Str(tag) = tok_at(toks, q + 5).tok {
                        assert(spec_variant_tags(Seq::<(Seq<char>, Seq<char>)>::empty()) =~= Seq::<Seq<char>>::empty());
                        lemma_variants_unique(toks, q + 8, name, tag, Seq::empty());
                    }
                }
                let next = SpecSchema { types: acc.types, unions: acc.unions.push(d.value) };
                assert(members_unique(next));
                lemma_decls_members_unique(toks, q2, next);
            }
        }
    }
}

/// A `range` rule admits at least one value.
pub open spec fn rule_nonempty(r: Rule) -> bool {
    match r {
        Rule::Range { min, max } => min <= max,
        _ => true,
    }
}

pub open spec fn rules_nonempty(rules: Seq<Rule>) -> bool {
    forall|i: int| 0 <= i < rules.len() ==> rule_nonempty(#[trigger] rules[i])
}

/// Every enum in a type, arrays included, lists at least one value, each once.
pub open spec fn enums_sound(t: SpecType) -> bool
    decreases t,
{
    match t {
        SpecType::Enum(vs) => vs.len() > 0 && vs.no_duplicates(),
        SpecType::Array(item, _) => enums_sound(*item),
        _ => true,
    }
}

pub open spec fn fields_rules_nonempty(fields: Seq<SpecField>) -> bool {
    forall|j: int|
        0 <= j < fields.len() ==> rules_nonempty(#[trigger] fields[j].rules) && enums_sound(
            fields[j].ty,
        )
}

proof fn lemma_type_at_enums(toks: Seq<SpecToken>, p: int)
    ensures
        type_at(toks, p) matches Ok(r) ==> enums_sound(r.value.0),
    decreases tokens_left(toks, p),
{
    let t = tok_at(toks, p);
    if t.tok is LBracket {
        lemma_type_at_enums(toks, p + 1);
    } else if is_word(t.tok, "enum"@) {
        law_an_enum_lists_each_value_once(toks, p);
    }
}

/// Every object type refuses unknown keys, every `range` on its fields admits
/// at least one value, and every enum lists at least one value, each once.
pub open spec fn objects_strict(s: SpecSchema) -> bool {
    forall|i: int|
        0 <= i < s.types.len() ==> (#[trigger] s.types[i]).deny_unknown_fields
            && fields_rules_nonempty(s.types[i].fields)
}

proof fn lemma_rule_at_nonempty(toks: Seq<SpecToken>, p: int)
    requires
        ints_fit(toks),
    ensures
        rule_at(toks, p) matches Ok(r) ==> rule_nonempty(r.value),
{
    let a = tok_at(toks, p + 2);
    let b = tok_at(toks, p + 4);
    if 0 <= p + 2 < toks.len() {
        assert(a.tok matches SpecTok::Int(v) ==> i128_fits(v));
    }
    if 0 <= p + 4 < toks.len() {
        assert(b.tok matches SpecTok::Int(v) ==> i128_fits(v));
    }
}

proof fn lemma_rules_from_nonempty(toks: Seq<SpecToken>, q: int, acc: Seq<Rule>)
    requires
        ints_fit(toks),
        rules_nonempty(acc),
    ensures
        rules_from(toks, q, acc) matches Ok(r) ==> rules_nonempty(r.value),
    decreases tokens_left(toks, q),
{
    if tok_at(toks, q).tok is At {
        lemma_rule_at_nonempty(toks, q + 1);
        if let Ok(r) = rule_at(toks, q + 1) {
            let next = acc.push(r.value);
            assert(rules_nonempty(next)) by {
                assert forall|i: int| 0 <= i < next.len() implies rule_nonempty(#[trigger] next[i]) by {
                    if i < acc.len() {
                        assert(next[i] == acc[i]);
                    }
                }
            }
            lemma_rules_from_nonempty(toks, q + 1 + r.len, next);
        }
    }
}

proof fn lemma_fields_nonempty(toks: Seq<SpecToken>, q: int, owner: Seq<char>, acc: Seq<SpecField>)
    requires
        ints_fit(toks),
        fields_rules_nonempty(acc),
    ensures
        fields_from(toks, q, owner, acc) matches Ok(r) ==> fields_rules_nonempty(r.value),
    decreases tokens_left(toks, q),
{
    let t = tok_at(toks, q);
    if !(t.tok is RBrace) && !(t.tok is Eof) {
        if let SpecTok::Ident(name) = t.tok {
            let p = q + 1;
            let optional = is_word(tok_at(toks, p + 1).tok, "optional"@);
            let q1 = if optional {
                p + 2
            } else {
                p + 1
            };
            lemma_type_at_enums(toks, q1);
            if let Ok(ty) = type_at(toks, q1) {
                lemma_rules_from_nonempty(toks, q1 + ty.len, Seq::empty());
            }
            if let Ok(f) = field_rest(toks, p, name) {
                let next = acc.push(f.value);
                assert(fields_rules_nonempty(next)) by {
                    assert forall|j: int| 0 <= j < next.len() implies rules_nonempty(
                        #[trigger] next[j].rules,
                    ) && enums_sound(next[j].ty) by {
                        if j < acc.len() {
                            assert(next[j] == acc[j]);
                        }
                    }
                }
                lemma_fields_nonempty(toks, q + 1 + f.len, owner, next);
            }
        }
    }
}

proof fn lemma_decls_strict(toks: Seq<SpecToken>, q: int, acc: SpecSchema)
    requires
        ints_fit(toks),
        objects_strict(acc),
    ensures
        decls_from(toks, q, acc) matches Ok(r) ==> objects_strict(r.value),
    decreases tokens_left(toks, q),
{
    let t = tok_at(toks, q);
    if t.tok is Eof {
    } else if is_word(t.tok, "schema"@) {
        if let Ok(d) = schema_rest(toks, q + 1) {
            if !declared(acc, d.value.name) {
                if let SpecTok::Ident(name) = tok_at(toks, q + 1).tok {
                    lemma_fields_nonempty(toks, q + 3, name, Seq::empty());
                }
                let next = SpecSchema { types: acc.types.push(d.value), unions: acc.unions };
                assert(objects_strict(next)) by {
                    assert forall|i: int| 0 <= i < next.types.len() implies (#[trigger] next.types[i]).deny_unknown_fields
                        && fields_rules_nonempty(next.types[i].fields) by {
                        if i < acc.types.len() {
                            assert(next.types[i] == acc.types[i]);
                        }
                    }
                }
                lemma_decls_strict(toks, q + 1 + d.len, next);
            }
        }
    } else if is_word(t.tok, "union"@) {
        if let Ok(d) = union_rest(toks, q + 1) {
            if !declared(acc, d.value.name) {
                let next = SpecSchema { types: acc.types, unions: acc.unions.push(d.value) };
                lemma_decls_strict(toks, q + 1 + d.len, next);
            }
        }
    }
}

/// Every object type of a schema that compiles refuses unknown keys; every
/// `range` rule in it admits at least one value, an empty range being refused
/// when the schema is read, never left for a payload to fail; and every enum
/// in a field's type, arrays included, lists at least one value, each once.
pub proof fn law_compiled_objects_are_strict_and_sound(cs: Seq<char>)
    ensures
        schema_of(cs) matches Ok(s) ==> objects_strict(s),
{
    law_token_positions_strictly_increase(cs);
    if let Ok(toks) = tokens_of(cs) {
        let empty = SpecSchema { types: Seq::empty(), unions: Seq::empty() };
        lemma_decls_strict(toks, 0, empty);
    }
}

/// A schema that compiles declares each field of an object type once, and
/// lists each tag value of a union once.
pub proof fn law_a_member_is_declared_once(cs: Seq<char>)
    ensures
        schema_of(cs) matches Ok(s) ==> members_unique(s),
{
    if let Ok(toks) = tokens_of(cs) {
        let empty = SpecSchema { types: Seq::empty(), unions: Seq::empty() };
        lemma_decls_members_unique(toks, 0, empty);
    }
}


proof fn lemma_enum_values_unique(toks: Seq<SpecToken>, q: int, acc: Seq<Seq<char>>)
    requires
        acc.no_duplicates(),
    ensures
        enum_values(toks, q, acc) matches Ok(r) ==> (r.value matches SpecType::Enum(vs)
            && vs.no_duplicates() && vs.len() > 0),
    decreases tokens_left(toks, q),
{
    let t = tok_at(toks, q);
    if !(t.tok is RBrace) {
        if let Some(v) = word_or_string(t.tok) {
            if !acc.contains(v) {
                lemma_push_keeps_unique(acc, v);
                if tok_at(toks, q + 1).tok is Comma {
                    lemma_enum_values_unique(toks, q + 2, acc.push(v));
                }
            }
        }
    }
}

/// An enum that compiles lists each of its values once, and at least one.
pub proof fn law_an_enum_lists_each_value_once(toks: Seq<SpecToken>, p: int)
    ensures
        enum_at(toks, p) matches Ok(r) ==> (r.value matches SpecType::Enum(vs) && vs.no_duplicates()
            && vs.len() > 0),
{
    assert(Seq::<Seq<char>>::empty().no_duplicates());
    lemma_enum_values_unique(toks, p + 2, Seq::empty());
}


/// Whether `refs` holds the reference a variant naming `target` makes, for
/// the union `name` with tag `tag`.
pub open spec fn has_variant_ref(refs: Seq<SpecRef>, target: Seq<char>, name: Seq<char>, tag: Seq<char>) -> bool {
    exists|k: int|
        0 <= k < refs.len() && (#[trigger] refs[k]).name == target && refs[k].variant_of == Some(
            (name, tag),
        )
}

proof fn lemma_variants_refs(
    toks: Seq<SpecToken>,
    q: int,
    name: Seq<char>,
    tag: Seq<char>,
    acc: Seq<(Seq<char>, Seq<char>)>,
)
    ensures
        variants_from(toks, q, name, tag, acc) matches Ok(r) ==> {
            &&& r.value.len() >= acc.len()
            &&& forall|j: int| 0 <= j < acc.len() ==> r.value[j] == acc[j]
            &&& forall|j: int|
                acc.len() <= j < r.value.len() ==> has_variant_ref(r.refs, #[trigger] r.value[j].1, name, tag)
        },
    decreases tokens_left(toks, q),
{
    let t = tok_at(toks, q);
    if !(t.tok is RBrace) && !(t.tok is Eof) {
        if let Some(v) = word_or_string(t.tok) {
            let st = tok_at(toks, q + 2);
            if let SpecTok::Ident(target) = st.tok {
                if tok_at(toks, q + 1).tok is Colon && builtin_spec(target) is None
                    && !spec_variant_tags(acc).contains(v) {
                    let acc2 = acc.push((v, target));
                    lemma_variants_refs(toks, q + 3, name, tag, acc2);
                    if let Ok(rest) = variants_from(toks, q + 3, name, tag, acc2) {
                        let first = SpecRef {
                            name: target,
                            line: st.line,
                            column: st.column,
                            variant_of: Some((name, tag)),
                        };
                        let refs = seq![first] + rest.refs;
                        assert forall|j: int| acc.len() <= j < rest.value.len() implies has_variant_ref(
                            refs,
                            #[trigger] rest.value[j].1,
                            name,
                            tag,
                        ) by {
                            if j == acc.len() {
                                assert(rest.value[j] == acc2[j]);
                                assert(refs[0] == first);
                            } else {
                                assert(has_variant_ref(rest.refs, rest.value[j].1, name, tag));
                                let k = choose|k: int|
                                    0 <= k < rest.refs.len() && (#[trigger] rest.refs[k]).name
                                        == rest.value[j].1 && rest.refs[k].variant_of == Some((name, tag));
                                assert(refs[k + 1] == rest.refs[k]);
                            }
                        }
                        assert forall|j: int| 0 <= j < acc.len() implies rest.value[j] == acc[j] by {
                            assert(rest.value[j] == acc2[j]);
                        }
                    }
                }
            }
        }
    }
}

/// Every variant of the unions from `acc.unions.len()` on has its reference
/// among the declarations' references; the earlier ones are kept as they were.
proof fn lemma_decls_variant_refs(toks: Seq<SpecToken>, q: int, acc: SpecSchema)
    ensures
        decls_from(toks, q, acc) matches Ok(r) ==> {
            &&& r.value.unions.len() >= acc.unions.len()
            &&& forall|i: int| 0 <= i < acc.unions.len() ==> r.value.unions[i] == acc.unions[i]
            &&& forall|i: int, j: int|
                acc.unions.len() <= i < r.value.unions.len() && 0 <= j
                    < r.value.unions[i].variants.len() ==> has_variant_ref(
                    r.refs,
                    (#[trigger] r.value.unions[i].variants[j]).1,
                    r.value.unions[i].name,
                    r.value.unions[i].tag,
                )
        },
    decreases tokens_left(toks, q),
{
    let t = tok_at(toks, q);
    if t.tok is Eof {
    } else if is_word(t.tok, "schema"@) {
        if let Ok(d) = schema_rest(toks, q + 1) {
            let q2 = q + 1 + d.len;
            if !declared(acc, d.value.name) {
                let next = SpecSchema { types: acc.types.push(d.value), unions: acc.unions };
                lemma_decls_variant_refs(toks, q2, next);
                if let Ok(rest) = decls_from(toks, q2, next) {
                    let refs = d.refs + rest.refs;
                    assert forall|i: int, j: int|
                        acc.unions.len() <= i < rest.value.unions.len() && 0 <= j
                            < rest.value.unions[i].variants.len() implies has_variant_ref(
                        refs,
                        (#[trigger] rest.value.unions[i].variants[j]).1,
                        rest.value.unions[i].name,
                        rest.value.unions[i].tag,
                    ) by {
                        let u = rest.value.unions[i];
                        assert(has_variant_ref(rest.refs, u.variants[j].1, u.name, u.tag));
                        let k = choose|k: int|
                            0 <= k < rest.refs.len() && (#[trigger] rest.refs[k]).name == u.variants[j].1
                                && rest.refs[k].variant_of == Some((u.name, u.tag));
                        assert(refs[d.refs.len() + k] == rest.refs[k]);
                    }
                }
            }
        }
    } else if is_word(t.tok, "union"@) {
        if let Ok(d) = union_rest(toks, q + 1) {
            let q2 = q + 1 + d.len;
            if !declared(acc, d.value.name) {
                let next = SpecSchema { types: acc.types, unions: acc.unions.push(d.value) };
                lemma_decls_variant_refs(toks, q2, next);
                if let SpecTok::Ident(name) = tok_at(toks, q + 1).tok {
                    if let SpecTok::Str(tag) = tok_at(toks, q + 5).tok {
                        lemma_variants_refs(toks, q + 8, name, tag, Seq::empty());
                    }
                }
                if let Ok(rest) = decls_from(toks, q2, next) {
                    let refs = d.refs + rest.refs;
                    assert forall|i: int, j: int|
                        acc.unions.len() <= i < rest.value.unions.len() && 0 <= j
                            < rest.value.unions[i].variants.len() implies has_variant_ref(
                        refs,
                        (#[trigger] rest.value.unions[i].variants[j]).1,
                        rest.value.unions[i].name,
                        rest.value.unions[i].tag,
                    ) by {
                        let u = rest.value.unions[i];
                        if i == acc.unions.len() {
                            assert(rest.value.unions[i] == next.unions[i]);
                            assert(next.unions[i] == d.value);
                            assert(has_variant_ref(d.refs, u.variants[j].1, u.name, u.tag));
                            let k = choose|k: int|
                                0 <= k < d.refs.len() && (#[trigger] d.refs[k]).name == u.variants[j].1
                                    && d.refs[k].variant_of == Some((u.name, u.tag));
                            assert(refs[k] == d.refs[k]);
                        } else {
                            assert(has_variant_ref(rest.refs, u.variants[j].1, u.name, u.tag));
                            let k = choose|k: int|
                                0 <= k < rest.refs.len() && (#[trigger] rest.refs[k]).name
                                    == u.variants[j].1 && rest.refs[k].variant_of == Some((u.name, u.tag));
                            assert(refs[d.refs.len() + k] == rest.refs[k]);
                        }
                    }
                    assert forall|i: int| 0 <= i < acc.unions.len() implies rest.value.unions[i] == acc.unions[i] by {
                        assert(rest.value.unions[i] == next.unions[i]);
                    }
                }
            }
        }
    }
}

/// Every reference of a resolved schema names what it may.
proof fn lemma_resolved_refs(s: SpecSchema, refs: Seq<SpecRef>)
    requires
        resolve(s, refs) is Ok,
    ensures
        forall|k: int| 0 <= k < refs.len() ==> check_ref(s, #[trigger] refs[k]) is Ok,
    decreases refs.len(),
{
    if refs.len() > 0 {
        lemma_resolved_refs(s, refs.drop_last());
        assert forall|k: int| 0 <= k < refs.len() implies check_ref(s, #[trigger] refs[k]) is Ok by {
            if k < refs.len() - 1 {
                assert(refs[k] == refs.drop_last()[k]);
            }
        }
    }
}

/// In a schema that compiles, every variant of a union names a declared
/// object type, never a built-in or another union, and that type does not
/// declare the union's tag: the tag belongs to the union alone.
#[verifier::spinoff_prover]
pub proof fn law_a_variant_names_a_schema_without_the_tag(cs: Seq<char>)
    ensures
        schema_of(cs) matches Ok(s) ==> forall|i: int, j: int|
            0 <= i < s.unions.len() && 0 <= j < s.unions[i].variants.len() ==> {
                &&& spec_object(s, (#[trigger] s.unions[i].variants[j]).1) is Some
                &&& !spec_field_names(spec_object(s, s.unions[i].variants[j].1)->0.fields).contains(
                    s.unions[i].tag,
                )
            },
{
    if let Ok(toks) = tokens_of(cs) {
        let empty = SpecSchema { types: Seq::empty(), unions: Seq::empty() };
        lemma_decls_variant_refs(toks, 0, empty);
        if let Ok(r) = decls_from(toks, 0, empty) {
            if resolve(r.value, r.refs) is Ok {
                let s = r.value;
                lemma_resolved_refs(s, r.refs);
                assert forall|i: int, j: int|
                    0 <= i < s.unions.len() && 0 <= j < s.unions[i].variants.len() implies {
                    &&& spec_object(s, (#[trigger] s.unions[i].variants[j]).1) is Some
                    &&& !spec_field_names(spec_object(s, s.unions[i].variants[j].1)->0.fields).contains(
                        s.unions[i].tag,
                    )
                } by {
                    let u = s.unions[i];
                    assert(has_variant_ref(r.refs, u.variants[j].1, u.name, u.tag));
                    let k = choose|k: int|
                        0 <= k < r.refs.len() && (#[trigger] r.refs[k]).name == u.variants[j].1
                            && r.refs[k].variant_of == Some((u.name, u.tag));
                    assert(check_ref(s, r.refs[k]) is Ok);
                }
            }
        }
    }
}


/// Whether `refs` holds a plain reference, not a variant's, to `name`.
pub open spec fn has_plain_ref(refs: Seq<SpecRef>, name: Seq<char>) -> bool {
    exists|k: int| 0 <= k < refs.len() && (#[trigger] refs[k]).name == name && refs[k].variant_of is None
}

/// Whether every name a type refers to has its reference in `refs`.
pub open spec fn refs_recorded(t: SpecType, refs: Seq<SpecRef>) -> bool
    decreases t,
{
    match t {
        SpecType::Ref(n) => has_plain_ref(refs, n),
        SpecType::Array(item, _) => refs_recorded(*item, refs),
        _ => true,
    }
}

/// Whether every name a type refers to is declared in `s`.
pub open spec fn refs_declared(t: SpecType, s: SpecSchema) -> bool
    decreases t,
{
    match t {
        SpecType::Ref(n) => declared(s, n),
        SpecType::Array(item, _) => refs_declared(*item, s),
        _ => true,
    }
}

proof fn lemma_refs_recorded_grow(t: SpecType, a: Seq<SpecRef>, b: Seq<SpecRef>)
    requires
        refs_recorded(t, a),
    ensures
        refs_recorded(t, a + b),
        refs_recorded(t, b + a),
    decreases t,
{
    match t {
        SpecType::Ref(n) => {
            let k = choose|k: int| 0 <= k < a.len() && (#[trigger] a[k]).name == n && a[k].variant_of is None;
            assert((a + b)[k] == a[k]);
            assert((b + a)[b.len() + k] == a[k]);
        },
        SpecType::Array(item, _) => {
            lemma_refs_recorded_grow(*item, a, b);
        },
        _ => {},
    }
}

proof fn lemma_type_at_refs(toks: Seq<SpecToken>, p: int)
    ensures
        type_at(toks, p) matches Ok(r) ==> refs_recorded(r.value.0, r.refs),
    decreases tokens_left(toks, p),
{
    let t = tok_at(toks, p);
    if t.tok is LBracket {
        lemma_type_at_refs(toks, p + 1);
    } else if is_word(t.tok, "enum"@) {
        law_an_enum_lists_each_value_once(toks, p);
    } else {
        if let SpecTok::Ident(name) = t.tok {
            if builtin_spec(name) is None {
                let r = seq![SpecRef { name, line: t.line, column: t.column, variant_of: None }];
                assert(r[0].name == name && r[0].variant_of is None);
                assert(has_plain_ref(r, name));
            }
        }
    }
}

proof fn lemma_fields_refs(toks: Seq<SpecToken>, q: int, owner: Seq<char>, acc: Seq<SpecField>)
    ensures
        fields_from(toks, q, owner, acc) matches Ok(r) ==> {
            &&& r.value.len() >= acc.len()
            &&& forall|j: int| 0 <= j < acc.len() ==> r.value[j] == acc[j]
            &&& forall|j: int| acc.len() <= j < r.value.len() ==> refs_recorded((#[trigger] r.value[j]).ty, r.refs)
        },
    decreases tokens_left(toks, q),
{
    let t = tok_at(toks, q);
    if !(t.tok is RBrace) && !(t.tok is Eof) {
        if let SpecTok::Ident(name) = t.tok {
            if let Ok(f) = field_rest(toks, q + 1, name) {
                let q2 = q + 1 + f.len;
                if !spec_field_names(acc).contains(name) {
                    let acc2 = acc.push(f.value);
                    lemma_fields_refs(toks, q2, owner, acc2);
                    let p = q + 2;
                    let optional = is_word(tok_at(toks, p).tok, "optional"@);
                    let tq = if optional { p + 1 } else { p };
                    lemma_type_at_refs(toks, tq);
                    assert(refs_recorded(f.value.ty, f.refs));
                    if let Ok(rest) = fields_from(toks, q2, owner, acc2) {
                        assert forall|j: int| acc.len() <= j < rest.value.len() implies refs_recorded(
                            (#[trigger] rest.value[j]).ty,
                            f.refs + rest.refs,
                        ) by {
                            if j == acc.len() {
                                assert(rest.value[j] == acc2[j]);
                                lemma_refs_recorded_grow(f.value.ty, f.refs, rest.refs);
                            } else {
                                lemma_refs_recorded_grow(rest.value[j].ty, rest.refs, f.refs);
                            }
                        }
                        assert forall|j: int| 0 <= j < acc.len() implies rest.value[j] == acc[j] by {
                            assert(rest.value[j] == acc2[j]);
                        }
                    }
                }
            }
        }
    }
}

proof fn lemma_decls_type_refs(toks: Seq<SpecToken>, q: int, acc: SpecSchema)
    ensures
        decls_from(toks, q, acc) matches Ok(r) ==> {
            &&& r.value.types.len() >= acc.types.len()
            &&& forall|i: int| 0 <= i < acc.types.len() ==> r.value.types[i] == acc.types[i]
            &&& forall|i: int, j: int|
                acc.types.len() <= i < r.value.types.len() && 0 <= j < r.value.types[i].fields.len()
                    ==> refs_recorded((#[trigger] r.value.types[i].fields[j]).ty, r.refs)
        },
    decreases tokens_left(toks, q),
{
    let t = tok_at(toks, q);
    if t.tok is Eof {
    } else if is_word(t.tok, "schema"@) {
        if let Ok(d) = schema_rest(toks, q + 1) {
            let q2 = q + 1 + d.len;
            if !declared(acc, d.value.name) {
                let next = SpecSchema { types: acc.types.push(d.value), unions: acc.unions };
                lemma_decls_type_refs(toks, q2, next);
                if let SpecTok::Ident(name) = tok_at(toks, q + 1).tok {
                    lemma_fields_refs(toks, q + 3, name, Seq::empty());
                }
                if let Ok(rest) = decls_from(toks, q2, next) {
                    assert forall|i: int, j: int|
                        acc.types.len() <= i < rest.value.types.len() && 0 <= j
                            < rest.value.types[i].fields.len() implies refs_recorded(
                        (#[trigger] rest.value.types[i].fields[j]).ty,
                        d.refs + rest.refs,
                    ) by {
                        if i == acc.types.len() {
                            assert(rest.value.types[i] == next.types[i]);
                            assert(next.types[i] == d.value);
                            lemma_refs_recorded_grow(rest.value.types[i].fields[j].ty, d.refs, rest.refs);
                        } else {
                            lemma_refs_recorded_grow(rest.value.types[i].fields[j].ty, rest.refs, d.refs);
                        }
                    }
                    assert forall|i: int| 0 <= i < acc.types.len() implies rest.value.types[i] == acc.types[i] by {
                        assert(rest.value.types[i] == next.types[i]);
                    }
                }
            }
        }
    } else if is_word(t.tok, "union"@) {
        if let Ok(d) = union_rest(toks, q + 1) {
            let q2 = q + 1 + d.len;
            if !declared(acc, d.value.name) {
                let next = SpecSchema { types: acc.types, unions: acc.unions.push(d.value) };
                lemma_decls_type_refs(toks, q2, next);
                if let Ok(rest) = decls_from(toks, q2, next) {
                    assert forall|i: int, j: int|
                        acc.types.len() <= i < rest.value.types.len() && 0 <= j
                            < rest.value.types[i].fields.len() implies refs_recorded(
                        (#[trigger] rest.value.types[i].fields[j]).ty,
                        d.refs + rest.refs,
                    ) by {
                        lemma_refs_recorded_grow(rest.value.types[i].fields[j].ty, rest.refs, d.refs);
                    }
                }
            }
        }
    }
}

proof fn lemma_recorded_declared(t: SpecType, s: SpecSchema, refs: Seq<SpecRef>)
    requires
        refs_recorded(t, refs),
        forall|k: int| 0 <= k < refs.len() ==> check_ref(s, #[trigger] refs[k]) is Ok,
    ensures
        refs_declared(t, s),
    decreases t,
{
    match t {
        SpecType::Ref(n) => {
            let k = choose|k: int| 0 <= k < refs.len() && (#[trigger] refs[k]).name == n && refs[k].variant_of is None;
            assert(check_ref(s, refs[k]) is Ok);
        },
        SpecType::Array(item, _) => {
            lemma_recorded_declared(*item, s, refs);
        },
        _ => {},
    }
}

/// In a schema that compiles, every type a field refers to by name is
/// declared, as an object type or a union, wherever in the file it stands.
pub proof fn law_a_reference_names_a_declared_type(cs: Seq<char>)
    ensures
        schema_of(cs) matches Ok(s) ==> forall|i: int, j: int|
            0 <= i < s.types.len() && 0 <= j < s.types[i].fields.len() ==> refs_declared(
                (#[trigger] s.types[i].fields[j]).ty,
                s,
            ),
{
    if let Ok(toks) = tokens_of(cs) {
        let empty = SpecSchema { types: Seq::empty(), unions: Seq::empty() };
        lemma_decls_type_refs(toks, 0, empty);
        if let Ok(r) = decls_from(toks, 0, empty) {
            if resolve(r.value, r.refs) is Ok {
                let s = r.value;
                lemma_resolved_refs(s, r.refs);
                assert forall|i: int, j: int|
                    0 <= i < s.types.len() && 0 <= j < s.types[i].fields.len() implies refs_declared(
                    (#[trigger] s.types[i].fields[j]).ty,
                    s,
                ) by {
                    lemma_recorded_declared(s.types[i].fields[j].ty, s, r.refs);
                }
            }
        }
    }
}

} // verus!
