use vstd::prelude::*;
use crate::compiler::{Compiler, has_file_id};
use crate::text::{
    all_digits, chars_of, decimal_i64, decimal_text, digits_value, i64_to_text,
    is_ascii_digit_char, string_from_chars,
};

verus! {

/// The kinds of token the lexer produces.
#[derive(Debug, Clone, PartialEq)]
pub enum TokenKind {
    Let,
    Mut,
    Equal,
    Plus,
    Minus,
    Star,
    Slash,
    Percent,
    LParen,
    RParen,
    If,
    Else,
    Elif,
    LBrace,
    RBrace,
    Less,
    Greater,
    EqualEqual,
    NotEqual,
    While,
    Semicolon,
    Comma,
    Not,
    DQuote,
    Print,
    Identifier(String),
    Integer(i64),
    DataType(String),
    String(String),
    ILLEGAL,
    EOF,
}

/// The mathematical value of a token kind: text payloads as character sequences.
pub enum KindView {
    Let,
    Mut,
    Equal,
    Plus,
    Minus,
    Star,
    Slash,
    Percent,
    LParen,
    RParen,
    If,
    Else,
    Elif,
    LBrace,
    RBrace,
    Less,
    Greater,
    EqualEqual,
    NotEqual,
    While,
    Semicolon,
    Comma,
    Not,
    DQuote,
    Print,
    Identifier(Seq<char>),
    Integer(i64),
    DataType(Seq<char>),
    Str(Seq<char>),
    Illegal,
    Eof,
}

impl View for TokenKind {
    type V = KindView;

    open spec fn view(&self) -> KindView {
        match self {
            TokenKind::Let => KindView::Let,
            TokenKind::Mut => KindView::Mut,
            TokenKind::Equal => KindView::Equal,
            TokenKind::Plus => KindView::Plus,
            TokenKind::Minus => KindView::Minus,
            TokenKind::Star => KindView::Star,
            TokenKind::Slash => KindView::Slash,
            TokenKind::Percent => KindView::Percent,
            TokenKind::LParen => KindView::LParen,
            TokenKind::RParen => KindView::RParen,
            TokenKind::If => KindView::If,
            TokenKind::Else => KindView::Else,
            TokenKind::Elif => KindView::Elif,
            TokenKind::LBrace => KindView::LBrace,
            TokenKind::RBrace => KindView::RBrace,
            TokenKind::Less => KindView::Less,
            TokenKind::Greater => KindView::Greater,
            TokenKind::EqualEqual => KindView::EqualEqual,
            TokenKind::NotEqual => KindView::NotEqual,
            TokenKind::While => KindView::While,
            TokenKind::Semicolon => KindView::Semicolon,
            TokenKind::Comma => KindView::Comma,
            TokenKind::Not => KindView::Not,
            TokenKind::DQuote => KindView::DQuote,
            TokenKind::Print => KindView::Print,
            TokenKind::Identifier(s) => KindView::Identifier(s@),
            TokenKind::Integer(n) => KindView::Integer(*n),
            TokenKind::DataType(s) => KindView::DataType(s@),
            TokenKind::String(s) => KindView::Str(s@),
            TokenKind::ILLEGAL => KindView::Illegal,
            TokenKind::EOF => KindView::Eof,
        }
    }
}

/// The text with which a token kind is shown in messages.
pub open spec fn kind_text(k: KindView) -> Seq<char> {
    match k {
        KindView::Let => "let"@,
        KindView::Mut => "mut"@,
        KindView::If => "if"@,
        KindView::Elif => "elif"@,
        KindView::Else => "else"@,
        KindView::While => "while"@,
        KindView::Print => "print"@,
        KindView::LParen => "("@,
        KindView::RParen => ")"@,
        KindView::LBrace => "{"@,
        KindView::RBrace => "}"@,
        KindView::Semicolon => ";"@,
        KindView::Comma => ","@,
        KindView::DQuote => "\""@,
        KindView::Not => "!"@,
        KindView::Equal => "="@,
        KindView::Plus => "+"@,
        KindView::Minus => "-"@,
        KindView::Star => "*"@,
        KindView::Slash => "/"@,
        KindView::Percent => "%"@,
        KindView::EqualEqual => "=="@,
        KindView::NotEqual => "!="@,
        KindView::Less => "<"@,
        KindView::Greater => ">"@,
        KindView::Identifier(ident) => "identifier "@ + ident,
        KindView::Integer(num) => decimal_text(num as int),
        KindView::Str(s) => s,
        KindView::DataType(d) => d,
        KindView::Illegal => "[ILLEGAL CHARACTER]"@,
        KindView::Eof => "[END OF FILE]"@,
    }
}

impl TokenKind {
    /// The text of the kind as it appears in messages (what `Display` shows).
    pub fn to_display_string(&self) -> (r: String)
        ensures
            r@ == kind_text(self@),
    {
        match self {
            TokenKind::Let => String::from_str("let"),
            TokenKind::Mut => String::from_str("mut"),
            TokenKind::If => String::from_str("if"),
            TokenKind::Elif => String::from_str("elif"),
            TokenKind::Else => String::from_str("else"),
            TokenKind::While => String::from_str("while"),
            TokenKind::Print => String::from_str("print"),
            TokenKind::LParen => String::from_str("("),
            TokenKind::RParen => String::from_str(")"),
            TokenKind::LBrace => String::from_str("{"),
            TokenKind::RBrace => String::from_str("}"),
            TokenKind::Semicolon => String::from_str(";"),
            TokenKind::Comma => String::from_str(","),
            TokenKind::DQuote => String::from_str("\""),
            TokenKind::Not => String::from_str("!"),
            TokenKind::Equal => String::from_str("="),
            TokenKind::Plus => String::from_str("+"),
            TokenKind::Minus => String::from_str("-"),
            TokenKind::Star => String::from_str("*"),
            TokenKind::Slash => String::from_str("/"),
            TokenKind::Percent => String::from_str("%"),
            TokenKind::EqualEqual => String::from_str("=="),
            TokenKind::NotEqual => String::from_str("!="),
            TokenKind::Less => String::from_str("<"),
            TokenKind::Greater => String::from_str(">"),
            TokenKind::Identifier(ident) => {
                let mut s = String::from_str("identifier ");
                s.append(ident.as_str());
                s
            },
            TokenKind::Integer(num) => i64_to_text(*num),
            TokenKind::String(s) => s.clone(),
            TokenKind::DataType(d) => d.clone(),
            TokenKind::ILLEGAL => String::from_str("[ILLEGAL CHARACTER]"),
            TokenKind::EOF => String::from_str("[END OF FILE]"),
        }
    }

    /// Whether two kinds are the same kind with the same payload.
    pub fn same_as(&self, other: &TokenKind) -> (r: bool)
        ensures
            r == (self@ == other@),
    {
        match self {
            TokenKind::Let => match other {
                TokenKind::Let => true,
                _ => false,
            },
            TokenKind::Mut => match other {
                TokenKind::Mut => true,
                _ => false,
            },
            TokenKind::Equal => match other {
                TokenKind::Equal => true,
                _ => false,
            },
            TokenKind::Plus => match other {
                TokenKind::Plus => true,
                _ => false,
            },
            TokenKind::Minus => match other {
                TokenKind::Minus => true,
                _ => false,
            },
            TokenKind::Star => match other {
                TokenKind::Star => true,
                _ => false,
            },
            TokenKind::Slash => match other {
                TokenKind::Slash => true,
                _ => false,
            },
            TokenKind::Percent => match other {
                TokenKind::Percent => true,
                _ => false,
            },
            TokenKind::LParen => match other {
                TokenKind::LParen => true,
                _ => false,
            },
            TokenKind::RParen => match other {
                TokenKind::RParen => true,
                _ => false,
            },
            TokenKind::If => match other {
                TokenKind::If => true,
                _ => false,
            },
            TokenKind::Else => match other {
                TokenKind::Else => true,
                _ => false,
            },
            TokenKind::Elif => match other {
                TokenKind::Elif => true,
                _ => false,
            },
            TokenKind::LBrace => match other {
                TokenKind::LBrace => true,
                _ => false,
            },
            TokenKind::RBrace => match other {
                TokenKind::RBrace => true,
                _ => false,
            },
            TokenKind::Less => match other {
                TokenKind::Less => true,
                _ => false,
            },
            TokenKind::Greater => match other {
                TokenKind::Greater => true,
                _ => false,
            },
            TokenKind::EqualEqual => match other {
                TokenKind::EqualEqual => true,
                _ => false,
            },
            TokenKind::NotEqual => match other {
                TokenKind::NotEqual => true,
                _ => false,
            },
            TokenKind::While => match other {
                TokenKind::While => true,
                _ => false,
            },
            TokenKind::Semicolon => match other {
                TokenKind::Semicolon => true,
                _ => false,
            },
            TokenKind::Comma => match other {
                TokenKind::Comma => true,
                _ => false,
            },
            TokenKind::Not => match other {
                TokenKind::Not => true,
                _ => false,
            },
            TokenKind::DQuote => match other {
                TokenKind::DQuote => true,
                _ => false,
            },
            TokenKind::Print => match other {
                TokenKind::Print => true,
                _ => false,
            },
            TokenKind::ILLEGAL => match other {
                TokenKind::ILLEGAL => true,
                _ => false,
            },
            TokenKind::EOF => match other {
                TokenKind::EOF => true,
                _ => false,
            },
            TokenKind::Identifier(a) => match other {
                TokenKind::Identifier(b) => *a == *b,
                _ => false,
            },
            TokenKind::DataType(a) => match other {
                TokenKind::DataType(b) => *a == *b,
                _ => false,
            },
            TokenKind::String(a) => match other {
                TokenKind::String(b) => *a == *b,
                _ => false,
            },
            TokenKind::Integer(a) => match other {
                TokenKind::Integer(b) => *a == *b,
                _ => false,
            },
        }
    }

    /// A copy of the kind with the same view.
    pub fn duplicate(&self) -> (r: TokenKind)
        ensures
            r@ == self@,
    {
        match self {
            TokenKind::Let => TokenKind::Let,
            TokenKind::Mut => TokenKind::Mut,
            TokenKind::Equal => TokenKind::Equal,
            TokenKind::Plus => TokenKind::Plus,
            TokenKind::Minus => TokenKind::Minus,
            TokenKind::Star => TokenKind::Star,
            TokenKind::Slash => TokenKind::Slash,
            TokenKind::Percent => TokenKind::Percent,
            TokenKind::LParen => TokenKind::LParen,
            TokenKind::RParen => TokenKind::RParen,
            TokenKind::If => TokenKind::If,
            TokenKind::Else => TokenKind::Else,
            TokenKind::Elif => TokenKind::Elif,
            TokenKind::LBrace => TokenKind::LBrace,
            TokenKind::RBrace => TokenKind::RBrace,
            TokenKind::Less => TokenKind::Less,
            TokenKind::Greater => TokenKind::Greater,
            TokenKind::EqualEqual => TokenKind::EqualEqual,
            TokenKind::NotEqual => TokenKind::NotEqual,
            TokenKind::While => TokenKind::While,
            TokenKind::Semicolon => TokenKind::Semicolon,
            TokenKind::Comma => TokenKind::Comma,
            TokenKind::Not => TokenKind::Not,
            TokenKind::DQuote => TokenKind::DQuote,
            TokenKind::Print => TokenKind::Print,
            TokenKind::Identifier(s) => TokenKind::Identifier(s.clone()),
            TokenKind::Integer(n) => TokenKind::Integer(*n),
            TokenKind::DataType(s) => TokenKind::DataType(s.clone()),
            TokenKind::String(s) => TokenKind::String(s.clone()),
            TokenKind::ILLEGAL => TokenKind::ILLEGAL,
            TokenKind::EOF => TokenKind::EOF,
        }
    }
}


/// A token with the place where the lexer stood after reading it.
#[derive(Debug, Clone)]
pub struct Token {
    pub kind: TokenKind,
    pub line_no: usize,
    pub col_no: usize,
    pub isfile: bool,
    pub file_id: u16,
}

/// The mathematical value of a token.
pub struct TokenView {
    pub kind: KindView,
    pub line_no: nat,
    pub col_no: nat,
    pub isfile: bool,
    pub file_id: u16,
}

impl View for Token {
    type V = TokenView;

    open spec fn view(&self) -> TokenView {
        TokenView {
            kind: self.kind@,
            line_no: self.line_no as nat,
            col_no: self.col_no as nat,
            isfile: self.isfile,
            file_id: self.file_id,
        }
    }
}

/// The views of a sequence of tokens.
pub open spec fn token_views(tokens: Seq<Token>) -> Seq<TokenView> {
    tokens.map_values(|t: Token| t@)
}

impl Token {
    /// A copy of the token with the same view.
    pub fn duplicate(&self) -> (r: Token)
        ensures
            r@ == self@,
    {
        Token {
            kind: self.kind.duplicate(),
            line_no: self.line_no,
            col_no: self.col_no,
            isfile: self.isfile,
            file_id: self.file_id,
        }
    }
}

// ---------------------------------------------------------------------------
// Character classes, as std's `char` methods define them
// ---------------------------------------------------------------------------

/// `c` has the Unicode `White_Space` property, which is what
/// `char::is_whitespace` tests: tab through carriage return, space, next
/// line, no-break space, ogham space mark, the spaces U+2000 to U+200A, the
/// line and paragraph separators, narrow no-break space, medium mathematical
/// space and ideographic space.
pub open spec fn is_white_space(c: char) -> bool {
    let u = c as u32;
    ||| 0x09 <= u <= 0x0d
    ||| u == 0x20
    ||| u == 0x85
    ||| u == 0xa0
    ||| u == 0x1680
    ||| 0x2000 <= u <= 0x200a
    ||| u == 0x2028
    ||| u == 0x2029
    ||| u == 0x202f
    ||| u == 0x205f
    ||| u == 0x3000
}

/// What `char::is_alphabetic` returns beyond ASCII (the Unicode `Alphabetic` property).
pub uninterp spec fn is_unicode_alphabetic(c: char) -> bool;

/// What `char::is_numeric` returns beyond ASCII (the Unicode number categories).
pub uninterp spec fn is_unicode_numeric(c: char) -> bool;

/// `c` is an ASCII character.
pub open spec fn is_ascii_char(c: char) -> bool {
    (c as u32) < 128
}

/// `c` is an ASCII letter.
pub open spec fn is_ascii_letter(c: char) -> bool {
    ('A' <= c && c <= 'Z') || ('a' <= c && c <= 'z')
}

/// `char::is_alphabetic`: among ASCII characters exactly the letters.
pub open spec fn is_alphabetic_char(c: char) -> bool {
    if is_ascii_char(c) {
        is_ascii_letter(c)
    } else {
        is_unicode_alphabetic(c)
    }
}

/// `char::is_alphanumeric`: alphabetic or numeric; among ASCII characters
/// exactly the letters and the digits.
pub open spec fn is_alphanumeric_char(c: char) -> bool {
    if is_ascii_char(c) {
        is_ascii_letter(c) || is_ascii_digit_char(c)
    } else {
        is_unicode_alphabetic(c) || is_unicode_numeric(c)
    }
}

/// Whether `c` is whitespace, as `char::is_whitespace` decides.
fn char_is_whitespace(c: char) -> (r: bool)
    ensures
        r == is_white_space(c),
{
    let u = c as u32;
    (0x09 <= u && u <= 0x0d) || u == 0x20 || u == 0x85 || u == 0xa0 || u == 0x1680 || (0x2000
        <= u && u <= 0x200a) || u == 0x2028 || u == 0x2029 || u == 0x202f || u == 0x205f || u
        == 0x3000
}

/// Calls `char::is_alphabetic`: an ASCII character is alphabetic exactly when
/// it is a letter; beyond ASCII the answer is named, not stated.
#[verifier::external_body]
fn char_is_alphabetic(c: char) -> (r: bool)
    ensures
        r == is_alphabetic_char(c),
        !is_ascii_char(c) ==> r == is_unicode_alphabetic(c),
{
    c.is_alphabetic()
}

/// Calls `char::is_alphanumeric`, which is `is_alphabetic() || is_numeric()`:
/// an ASCII character is alphanumeric exactly when it is a letter or a digit;
/// beyond ASCII the two properties are named, not stated.
#[verifier::external_body]
fn char_is_alphanumeric(c: char) -> (r: bool)
    ensures
        r == is_alphanumeric_char(c),
        !is_ascii_char(c) ==> r == (is_unicode_alphabetic(c) || is_unicode_numeric(c)),
{
    c.is_alphanumeric()
}


// ---------------------------------------------------------------------------
// The lexer's state and the functions that define its steps
// ---------------------------------------------------------------------------

/// The mathematical state of a lexer.
pub struct LexState {
    pub input: Seq<char>,
    pub position: nat,
    pub line_no: nat,
    pub col_no: nat,
    pub isfile: bool,
    pub file_id: u16,
    pub reached_eof: bool,
}

/// The 1-based line of position `pos` of `input`.
pub open spec fn line_at(input: Seq<char>, pos: int) -> nat
    decreases pos,
{
    if pos <= 0 {
        1
    } else {
        line_at(input, pos - 1) + if input[pos - 1] == '\n' { 1nat } else { 0nat }
    }
}

/// The column of position `pos` of `input`: 1 after a newline (0 if the
/// newline ends the input), one more for every other character.
pub open spec fn col_at(input: Seq<char>, pos: int) -> nat
    decreases pos,
{
    if pos <= 0 {
        1
    } else if input[pos - 1] == '\n' {
        if pos < input.len() {
            1
        } else {
            0
        }
    } else {
        col_at(input, pos - 1) + 1
    }
}

/// The state is one a lexer can be in: the position lies within the input and
/// the line and column describe it (both 0 for an empty input).
pub open spec fn lex_wf(st: LexState) -> bool {
    &&& st.position <= st.input.len()
    &&& st.input.len() < usize::MAX
    &&& st.input.len() == 0 ==> st.line_no == 0 && st.col_no == 0
    &&& st.input.len() > 0 ==> st.line_no == line_at(st.input, st.position as int) && st.col_no
        == col_at(st.input, st.position as int)
}

pub open spec fn char_at(st: LexState, i: int) -> Option<char> {
    if 0 <= i < st.input.len() {
        Some(st.input[i])
    } else {
        None
    }
}

pub open spec fn current_char(st: LexState) -> Option<char> {
    char_at(st, st.position as int)
}

/// One character further, with the line and column moved along.
pub open spec fn advanced(st: LexState) -> LexState {
    match current_char(st) {
        Some(c) => if c == '\n' {
            LexState {
                position: st.position + 1,
                line_no: st.line_no + 1,
                col_no: if char_at(st, st.position + 1int) is Some { 1nat } else { 0nat },
                ..st
            }
        } else {
            LexState { position: st.position + 1, col_no: st.col_no + 1, ..st }
        },
        None => LexState { position: st.position + 1, ..st },
    }
}

pub open spec fn after_whitespace(st: LexState) -> LexState
    decreases st.input.len() - st.position,
{
    match current_char(st) {
        Some(c) => if is_white_space(c) {
            after_whitespace(advanced(st))
        } else {
            st
        },
        None => st,
    }
}

pub open spec fn after_digits(st: LexState) -> LexState
    decreases st.input.len() - st.position,
{
    match current_char(st) {
        Some(c) => if is_ascii_digit_char(c) {
            after_digits(advanced(st))
        } else {
            st
        },
        None => st,
    }
}

pub open spec fn after_alphanumeric(st: LexState) -> LexState
    decreases st.input.len() - st.position,
{
    match current_char(st) {
        Some(c) => if is_alphanumeric_char(c) {
            after_alphanumeric(advanced(st))
        } else {
            st
        },
        None => st,
    }
}

/// Reads an integer literal: the digits from the current position, refused
/// when a letter follows them or when their value does not fit in `i64`.
pub open spec fn lex_number(st: LexState) -> (Option<i64>, LexState) {
    let st2 = after_digits(st);
    let digits = st.input.subrange(st.position as int, st2.position as int);
    match current_char(st2) {
        Some(c) => if is_alphabetic_char(c) {
            (None, st2)
        } else {
            (decimal_i64(digits), st2)
        },
        None => (decimal_i64(digits), st2),
    }
}

/// Looks for the closing quote: a `"` not preceded by a backslash.
pub open spec fn string_scan(st: LexState, prev: char) -> (bool, LexState)
    decreases st.input.len() - st.position,
{
    match current_char(st) {
        None => (false, st),
        Some(c) => if prev != '\\' && c == '"' {
            (true, st)
        } else {
            string_scan(advanced(st), c)
        },
    }
}

/// Reads a string literal: its text between the quotes, escapes kept as written.
pub open spec fn lex_string(st: LexState) -> (Option<Seq<char>>, LexState) {
    if current_char(st) == Some('"') {
        let st1 = advanced(st);
        let (found, st2) = string_scan(st1, '"');
        if found {
            (Some(st.input.subrange(st1.position as int, st2.position as int)), advanced(st2))
        } else {
            (None, st2)
        }
    } else {
        (None, st)
    }
}

/// Reads an identifier: a letter and the alphanumeric characters after it.
pub open spec fn lex_identifier(st: LexState) -> (Option<Seq<char>>, LexState) {
    match current_char(st) {
        Some(c) => if !is_alphabetic_char(c) {
            (None, st)
        } else {
            let st2 = after_alphanumeric(advanced(st));
            (Some(st.input.subrange(st.position as int, st2.position as int)), st2)
        },
        None => (Some(Seq::empty()), st),
    }
}

/// The keyword a word spells, or an identifier.
pub open spec fn keyword_kind(word: Seq<char>) -> KindView {
    if word == seq!['l', 'e', 't'] {
        KindView::Let
    } else if word == seq!['m', 'u', 't'] {
        KindView::Mut
    } else if word == seq!['i', 'f'] {
        KindView::If
    } else if word == seq!['e', 'l', 's', 'e'] {
        KindView::Else
    } else if word == seq!['e', 'l', 'i', 'f'] {
        KindView::Elif
    } else if word == seq!['w', 'h', 'i', 'l', 'e'] {
        KindView::While
    } else if word == seq!['p', 'r', 'i', 'n', 't'] {
        KindView::Print
    } else {
        KindView::Identifier(word)
    }
}

/// The kind of a token made of the single character `c` alone.
pub open spec fn single_char_kind(c: char) -> Option<KindView> {
    if c == '+' {
        Some(KindView::Plus)
    } else if c == '-' {
        Some(KindView::Minus)
    } else if c == '*' {
        Some(KindView::Star)
    } else if c == '/' {
        Some(KindView::Slash)
    } else if c == '%' {
        Some(KindView::Percent)
    } else if c == '(' {
        Some(KindView::LParen)
    } else if c == ')' {
        Some(KindView::RParen)
    } else if c == '{' {
        Some(KindView::LBrace)
    } else if c == '}' {
        Some(KindView::RBrace)
    } else if c == '<' {
        Some(KindView::Less)
    } else if c == '>' {
        Some(KindView::Greater)
    } else if c == ';' {
        Some(KindView::Semicolon)
    } else if c == ',' {
        Some(KindView::Comma)
    } else {
        None
    }
}

/// The kind of the token that starts with `c` at the position of `st`, and
/// the state after it. An unknown character is an illegal token of its own.
pub open spec fn scan_kind(st: LexState, c: char) -> (KindView, LexState) {
    if single_char_kind(c) is Some {
        (single_char_kind(c)->0, advanced(st))
    } else if c == '=' {
        if char_at(st, st.position + 1int) == Some('=') {
            (KindView::EqualEqual, advanced(advanced(st)))
        } else {
            (KindView::Equal, advanced(st))
        }
    } else if c == '!' {
        match char_at(st, st.position + 1int) {
            Some(n) => if n == '=' {
                (KindView::NotEqual, advanced(advanced(st)))
            } else {
                (KindView::Not, advanced(st))
            },
            None => (KindView::Not, advanced(st)),
        }
    } else if c == '"' {
        let (r, st2) = lex_string(st);
        (
            match r {
                Some(text) => KindView::Str(text),
                None => KindView::Illegal,
            },
            st2,
        )
    } else if is_ascii_digit_char(c) {
        let (r, st2) = lex_number(st);
        (
            match r {
                Some(n) => KindView::Integer(n),
                None => KindView::Illegal,
            },
            st2,
        )
    } else if is_ascii_letter(c) {
        let (r, st2) = lex_identifier(st);
        (
            match r {
                Some(word) => keyword_kind(word),
                None => KindView::Illegal,
            },
            match r {
                Some(_) => st2,
                None => advanced(st),
            },
        )
    } else {
        (KindView::Illegal, advanced(st))
    }
}

/// A token of the given kind, placed where `st` stands.
pub open spec fn token_at_state(kind: KindView, st: LexState) -> TokenView {
    TokenView {
        kind,
        line_no: st.line_no,
        col_no: st.col_no,
        isfile: st.isfile,
        file_id: st.file_id,
    }
}

/// The next token after the whitespace, and the state after it. At the end
/// of the input the token is `EOF` and the end is recorded as reached.
pub open spec fn lex_token(st: LexState) -> (TokenView, LexState) {
    let st0 = after_whitespace(st);
    match current_char(st0) {
        None => (token_at_state(KindView::Eof, st0), LexState { reached_eof: true, ..st0 }),
        Some(c) => {
            let (kind, st1) = scan_kind(st0, c);
            (token_at_state(kind, st1), st1)
        },
    }
}

/// The tokens the lexer yields as an iterator from `st` on: up to and
/// including `EOF`; nothing when the end was already reached.
pub open spec fn lex_all(st: LexState) -> Seq<TokenView>
    decreases 2 * (st.input.len() - st.position) + if st.reached_eof { 0int } else { 1int },
{
    if st.reached_eof || st.position > st.input.len() {
        Seq::empty()
    } else {
        let (t, st2) = lex_token(st);
        if !st2.reached_eof && st2.input == st.input && st.position < st2.position
            <= st.input.len() {
            seq![t] + lex_all(st2)
        } else {
            seq![t]
        }
    }
}

/// Where the lexer stands after `lex_all`: past the end.
pub open spec fn lex_all_state(st: LexState) -> LexState
    decreases 2 * (st.input.len() - st.position) + if st.reached_eof { 0int } else { 1int },
{
    if st.reached_eof || st.position > st.input.len() {
        st
    } else {
        let (t, st2) = lex_token(st);
        if !st2.reached_eof && st2.input == st.input && st.position < st2.position
            <= st.input.len() {
            lex_all_state(st2)
        } else {
            st2
        }
    }
}

/// The state of a fresh lexer over `input`.
pub open spec fn initial_state(input: Seq<char>, isfile: bool, file_id: u16) -> LexState {
    LexState {
        input,
        position: 0,
        line_no: if input.len() == 0 { 0nat } else { 1nat },
        col_no: if input.len() == 0 { 0nat } else { 1nat },
        isfile,
        file_id,
        reached_eof: false,
    }
}

/// Lines and columns never run ahead of the position.
pub proof fn lemma_line_col_bounds(input: Seq<char>, pos: int)
    requires
        0 <= pos,
    ensures
        line_at(input, pos) <= pos + 1,
        col_at(input, pos) <= pos + 1,
    decreases pos,
{
    if pos > 0 {
        lemma_line_col_bounds(input, pos - 1);
    }
}

/// Moving one character keeps a state well formed.
pub proof fn lemma_advanced_wf(st: LexState)
    requires
        lex_wf(st),
        st.position < st.input.len(),
    ensures
        lex_wf(advanced(st)),
        advanced(st).input == st.input,
        advanced(st).position == st.position + 1,
        advanced(st).isfile == st.isfile,
        advanced(st).file_id == st.file_id,
        advanced(st).reached_eof == st.reached_eof,
{
    let p = st.position as int;
    assert(line_at(st.input, p + 1) == line_at(st.input, p) + if st.input[p] == '\n' {
        1nat
    } else {
        0nat
    });
}

/// Facts about the steps that keep the input and the file and never move back.
pub open spec fn same_source(a: LexState, b: LexState) -> bool {
    &&& b.input == a.input
    &&& b.isfile == a.isfile
    &&& b.file_id == a.file_id
    &&& a.position <= b.position <= b.input.len()
    &&& lex_wf(b)
}

pub proof fn lemma_after_whitespace(st: LexState)
    requires
        lex_wf(st),
    ensures
        same_source(st, after_whitespace(st)),
        after_whitespace(st).reached_eof == st.reached_eof,
    decreases st.input.len() - st.position,
{
    if let Some(c) = current_char(st) {
        if is_white_space(c) {
            lemma_advanced_wf(st);
            lemma_after_whitespace(advanced(st));
        }
    }
}

pub proof fn lemma_after_digits(st: LexState)
    requires
        lex_wf(st),
    ensures
        same_source(st, after_digits(st)),
        after_digits(st).reached_eof == st.reached_eof,
    decreases st.input.len() - st.position,
{
    if let Some(c) = current_char(st) {
        if is_ascii_digit_char(c) {
            lemma_advanced_wf(st);
            lemma_after_digits(advanced(st));
        }
    }
}

pub proof fn lemma_after_alphanumeric(st: LexState)
    requires
        lex_wf(st),
    ensures
        same_source(st, after_alphanumeric(st)),
        after_alphanumeric(st).reached_eof == st.reached_eof,
    decreases st.input.len() - st.position,
{
    if let Some(c) = current_char(st) {
        if is_alphanumeric_char(c) {
            lemma_advanced_wf(st);
            lemma_after_alphanumeric(advanced(st));
        }
    }
}

pub proof fn lemma_string_scan(st: LexState, prev: char)
    requires
        lex_wf(st),
    ensures
        same_source(st, string_scan(st, prev).1),
        string_scan(st, prev).1.reached_eof == st.reached_eof,
        string_scan(st, prev).0 ==> string_scan(st, prev).1.position < st.input.len(),
    decreases st.input.len() - st.position,
{
    if let Some(c) = current_char(st) {
        if !(prev != '\\' && c == '"') {
            lemma_advanced_wf(st);
            lemma_string_scan(advanced(st), c);
        }
    }
}

/// A token step keeps the source and stays well formed; every token but
/// `EOF` consumes at least one character, so the lexer never gets stuck.
pub proof fn lemma_lex_token_progress(st: LexState)
    requires
        lex_wf(st),
    ensures
        same_source(st, lex_token(st).1),
        !lex_token(st).1.reached_eof ==> !st.reached_eof,
        !lex_token(st).1.reached_eof ==> lex_token(st).1.position > st.position,
{
    lemma_after_whitespace(st);
    let st0 = after_whitespace(st);
    if let Some(c) = current_char(st0) {
        lemma_advanced_wf(st0);
        let a = advanced(st0);
        if a.position < a.input.len() {
            lemma_advanced_wf(a);
        }
        if c == '"' {
            lemma_string_scan(a, '"');
            let st2 = string_scan(a, '"').1;
            if string_scan(a, '"').0 {
                lemma_advanced_wf(st2);
            }
        }
        lemma_after_digits(st0);
        if a.position <= a.input.len() && a.position > 0 && lex_wf(a) {
            lemma_after_digits(a);
        }
        lemma_after_alphanumeric(a);
    }
}

/// Every token carries the line and column of the place the lexer reached
/// after it; a non-empty input counts lines and columns from 1.
pub proof fn law_token_position(st: LexState)
    requires
        lex_wf(st),
        st.input.len() > 0,
    ensures
        lex_token(st).0.line_no == line_at(st.input, lex_token(st).1.position as int),
        lex_token(st).0.col_no == col_at(st.input, lex_token(st).1.position as int),
        lex_token(st).0.isfile == st.isfile,
        lex_token(st).0.file_id == st.file_id,
{
    lemma_lex_token_progress(st);
}

/// Only the end of the input gives an `EOF` token.
pub proof fn lemma_eof_only_at_end(st: LexState)
    requires
        lex_wf(st),
        !st.reached_eof,
    ensures
        (lex_token(st).0.kind == KindView::Eof) == lex_token(st).1.reached_eof,
{
    lemma_lex_token_progress(st);
    let st0 = after_whitespace(st);
    lemma_after_whitespace(st);
    if let Some(c) = current_char(st0) {
        let (k, st1) = scan_kind(st0, c);
        assert(k != KindView::Eof);
        let a = advanced(st0);
        lemma_advanced_wf(st0);
        if a.position < a.input.len() {
            lemma_advanced_wf(a);
        }
        if c == '"' {
            lemma_string_scan(a, '"');
            if string_scan(a, '"').0 {
                lemma_advanced_wf(string_scan(a, '"').1);
            }
        }
        lemma_after_digits(st0);
        lemma_after_alphanumeric(a);
    }
}

/// Lexing a whole input always ends, and yields its tokens up to and
/// including one `EOF`, which comes last and nowhere else.
pub proof fn law_tokens_end_with_eof(st: LexState)
    requires
        lex_wf(st),
        !st.reached_eof,
    ensures
        ({
            let ts = lex_all(st);
            &&& ts.len() > 0
            &&& ts.last().kind == KindView::Eof
            &&& forall|i: int| 0 <= i < ts.len() - 1 ==> #[trigger] ts[i].kind != KindView::Eof
        }),
    decreases st.input.len() - st.position,
{
    lemma_lex_token_progress(st);
    lemma_eof_only_at_end(st);
    let (t, st2) = lex_token(st);
    if !st2.reached_eof {
        law_tokens_end_with_eof(st2);
        let rest = lex_all(st2);
        let ts = seq![t] + rest;
        assert(lex_all(st) == ts);
        assert forall|i: int| 0 <= i < ts.len() - 1 implies #[trigger] ts[i].kind != KindView::Eof by {
            if i > 0 {
                assert(ts[i] == rest[i - 1]);
            }
        }
    }
}

// ---------------------------------------------------------------------------
// What a token depends on
// ---------------------------------------------------------------------------

/// The input from the current position on.
pub open spec fn rest(st: LexState) -> Seq<char> {
    st.input.skip(st.position as int)
}

/// Two states with the same input left to read.
pub open spec fn same_rest(a: LexState, b: LexState) -> bool {
    &&& a.position <= a.input.len()
    &&& b.position <= b.input.len()
    &&& rest(a) == rest(b)
}

/// `a2` lies `n` characters further along the same input as `a`, and
/// `b2` as far along `b`'s.
pub open spec fn moved_alike(a: LexState, a2: LexState, b: LexState, b2: LexState) -> bool {
    &&& a2.input == a.input
    &&& b2.input == b.input
    &&& a.position <= a2.position
    &&& a2.position - a.position == b2.position - b.position
    &&& same_rest(a2, b2)
}

proof fn lemma_same_rest_chars(a: LexState, b: LexState, k: int)
    requires
        same_rest(a, b),
        0 <= k,
    ensures
        char_at(a, a.position + k) == char_at(b, b.position + k),
        current_char(a) == current_char(b),
{
    assert(rest(a).len() == a.input.len() - a.position);
    assert(rest(b).len() == b.input.len() - b.position);
    if a.position + k < a.input.len() {
        assert(rest(a)[k] == a.input[a.position + k]);
        assert(rest(b)[k] == b.input[b.position + k]);
    }
    if a.position < a.input.len() {
        assert(rest(a)[0] == a.input[a.position as int]);
        assert(rest(b)[0] == b.input[b.position as int]);
    }
}

proof fn lemma_same_rest_advanced(a: LexState, b: LexState)
    requires
        same_rest(a, b),
        a.position < a.input.len(),
    ensures
        same_rest(advanced(a), advanced(b)),
        moved_alike(a, advanced(a), b, advanced(b)),
{
    lemma_same_rest_chars(a, b, 0);
    assert(rest(b).len() == b.input.len() - b.position);
    assert(rest(advanced(a)) =~= rest(a).drop_first());
    assert(rest(advanced(b)) =~= rest(b).drop_first());
}

proof fn lemma_same_rest_subrange(a: LexState, a2: LexState, b: LexState, b2: LexState)
    requires
        same_rest(a, b),
        moved_alike(a, a2, b, b2),
    ensures
        a.input.subrange(a.position as int, a2.position as int) == b.input.subrange(
            b.position as int,
            b2.position as int,
        ),
{
    let n = a2.position - a.position;
    assert(a.input.subrange(a.position as int, a2.position as int) =~= rest(a).take(n));
    assert(b.input.subrange(b.position as int, b2.position as int) =~= rest(b).take(n));
}

proof fn lemma_same_rest_whitespace(a: LexState, b: LexState)
    requires
        same_rest(a, b),
    ensures
        moved_alike(a, after_whitespace(a), b, after_whitespace(b)),
    decreases a.input.len() - a.position,
{
    lemma_same_rest_chars(a, b, 0);
    if let Some(c) = current_char(a) {
        if is_white_space(c) {
            lemma_same_rest_advanced(a, b);
            lemma_same_rest_whitespace(advanced(a), advanced(b));
        }
    }
}

proof fn lemma_same_rest_digits(a: LexState, b: LexState)
    requires
        same_rest(a, b),
    ensures
        moved_alike(a, after_digits(a), b, after_digits(b)),
    decreases a.input.len() - a.position,
{
    lemma_same_rest_chars(a, b, 0);
    if let Some(c) = current_char(a) {
        if is_ascii_digit_char(c) {
            lemma_same_rest_advanced(a, b);
            lemma_same_rest_digits(advanced(a), advanced(b));
        }
    }
}

proof fn lemma_same_rest_alphanumeric(a: LexState, b: LexState)
    requires
        same_rest(a, b),
    ensures
        moved_alike(a, after_alphanumeric(a), b, after_alphanumeric(b)),
    decreases a.input.len() - a.position,
{
    lemma_same_rest_chars(a, b, 0);
    if let Some(c) = current_char(a) {
        if is_alphanumeric_char(c) {
            lemma_same_rest_advanced(a, b);
            lemma_same_rest_alphanumeric(advanced(a), advanced(b));
        }
    }
}

proof fn lemma_same_rest_string_scan(a: LexState, b: LexState, prev: char)
    requires
        same_rest(a, b),
    ensures
        string_scan(a, prev).0 == string_scan(b, prev).0,
        moved_alike(a, string_scan(a, prev).1, b, string_scan(b, prev).1),
    decreases a.input.len() - a.position,
{
    lemma_same_rest_chars(a, b, 0);
    if let Some(c) = current_char(a) {
        if !(prev != '\\' && c == '"') {
            lemma_same_rest_advanced(a, b);
            lemma_same_rest_string_scan(advanced(a), advanced(b), c);
        }
    }
}

/// The kind of the next token depends only on the input left to read.
pub proof fn lemma_same_rest_kind(a: LexState, b: LexState)
    requires
        same_rest(a, b),
    ensures
        lex_token(a).0.kind == lex_token(b).0.kind,
{
    lemma_same_rest_whitespace(a, b);
    let a0 = after_whitespace(a);
    let b0 = after_whitespace(b);
    lemma_same_rest_chars(a0, b0, 0);
    lemma_same_rest_chars(a0, b0, 1);
    if let Some(c) = current_char(a0) {
        lemma_same_rest_advanced(a0, b0);
        let a1 = advanced(a0);
        let b1 = advanced(b0);
        if c == '"' {
            lemma_same_rest_string_scan(a1, b1, '"');
            lemma_same_rest_subrange(a1, string_scan(a1, '"').1, b1, string_scan(b1, '"').1);
        }
        lemma_same_rest_digits(a0, b0);
        lemma_same_rest_subrange(a0, after_digits(a0), b0, after_digits(b0));
        lemma_same_rest_chars(after_digits(a0), after_digits(b0), 0);
        lemma_same_rest_alphanumeric(a1, b1);
        assert(moved_alike(a0, after_alphanumeric(a1), b0, after_alphanumeric(b1)));
        lemma_same_rest_subrange(a0, after_alphanumeric(a1), b0, after_alphanumeric(b1));
    }
}

proof fn lemma_whitespace_prefix(a: LexState, b: LexState, w: Seq<char>)
    requires
        a.position <= a.input.len(),
        b.position <= b.input.len(),
        rest(a) == w + rest(b),
        forall|i: int| 0 <= i < w.len() ==> is_white_space(#[trigger] w[i]),
    ensures
        same_rest(after_whitespace(a), after_whitespace(b)),
    decreases w.len(),
{
    if w.len() == 0 {
        assert(w + rest(b) =~= rest(b));
        lemma_same_rest_whitespace(a, b);
    } else {
        assert(rest(a).len() == a.input.len() - a.position);
        assert(rest(a)[0] == a.input[a.position as int]);
        assert(rest(a)[0] == w[0]);
        let a1 = advanced(a);
        assert(rest(a1) =~= rest(a).drop_first());
        assert(rest(a1) =~= w.drop_first() + rest(b));
        assert forall|i: int| 0 <= i < w.drop_first().len() implies is_white_space(
            #[trigger] w.drop_first()[i],
        ) by {
            assert(w.drop_first()[i] == w[i + 1]);
        }
        lemma_whitespace_prefix(a1, b, w.drop_first());
    }
}

/// Whitespace before a text does not change the kind of its first token.
pub proof fn law_leading_whitespace(w: Seq<char>, s: Seq<char>, isfile: bool, file_id: u16)
    requires
        forall|i: int| 0 <= i < w.len() ==> is_white_space(#[trigger] w[i]),
    ensures
        lex_token(initial_state(w + s, isfile, file_id)).0.kind == lex_token(
            initial_state(s, isfile, file_id),
        ).0.kind,
{
    let a = initial_state(w + s, isfile, file_id);
    let b = initial_state(s, isfile, file_id);
    assert(rest(a) =~= w + rest(b));
    lemma_whitespace_prefix(a, b, w);
    let a0 = after_whitespace(a);
    let b0 = after_whitespace(b);
    lemma_same_rest_kind(a0, b0);
    lemma_after_whitespace_idempotent(a);
    lemma_after_whitespace_idempotent(b);
}

proof fn lemma_after_whitespace_idempotent(st: LexState)
    ensures
        after_whitespace(after_whitespace(st)) == after_whitespace(st),
        lex_token(after_whitespace(st)) == lex_token(st),
    decreases st.input.len() - st.position,
{
    if let Some(c) = current_char(st) {
        if is_white_space(c) {
            lemma_after_whitespace_idempotent(advanced(st));
        }
    }
}

// ---------------------------------------------------------------------------
// Lexing a registered file
// ---------------------------------------------------------------------------

/// The state with another source file recorded.
pub open spec fn relabeled(st: LexState, isfile: bool, file_id: u16) -> LexState {
    LexState { isfile, file_id, ..st }
}

/// The token with another source file recorded.
pub open spec fn relabeled_token(t: TokenView, isfile: bool, file_id: u16) -> TokenView {
    TokenView { isfile, file_id, ..t }
}

proof fn lemma_relabel_steps(st: LexState, isfile: bool, file_id: u16)
    ensures
        after_whitespace(relabeled(st, isfile, file_id)) == relabeled(after_whitespace(st), isfile, file_id),
        after_digits(relabeled(st, isfile, file_id)) == relabeled(after_digits(st), isfile, file_id),
        after_alphanumeric(relabeled(st, isfile, file_id)) == relabeled(after_alphanumeric(st), isfile, file_id),
    decreases st.input.len() - st.position,
{
    let r = relabeled(st, isfile, file_id);
    assert(advanced(r) == relabeled(advanced(st), isfile, file_id));
    if current_char(st) is Some {
        lemma_relabel_steps(advanced(st), isfile, file_id);
    }
}

proof fn lemma_relabel_string_scan(st: LexState, prev: char, isfile: bool, file_id: u16)
    ensures
        string_scan(relabeled(st, isfile, file_id), prev) == (
            string_scan(st, prev).0,
            relabeled(string_scan(st, prev).1, isfile, file_id),
        ),
    decreases st.input.len() - st.position,
{
    let r = relabeled(st, isfile, file_id);
    assert(advanced(r) == relabeled(advanced(st), isfile, file_id));
    if let Some(c) = current_char(st) {
        lemma_relabel_string_scan(advanced(st), c, isfile, file_id);
    }
}

proof fn lemma_relabel_token(st: LexState, isfile: bool, file_id: u16)
    ensures
        lex_token(relabeled(st, isfile, file_id)) == (
            relabeled_token(lex_token(st).0, isfile, file_id),
            relabeled(lex_token(st).1, isfile, file_id),
        ),
{
    lemma_relabel_steps(st, isfile, file_id);
    let s0 = after_whitespace(st);
    let r0 = relabeled(s0, isfile, file_id);
    assert(advanced(r0) == relabeled(advanced(s0), isfile, file_id));
    assert(advanced(advanced(r0)) == relabeled(advanced(advanced(s0)), isfile, file_id));
    lemma_relabel_steps(s0, isfile, file_id);
    lemma_relabel_steps(advanced(s0), isfile, file_id);
    lemma_relabel_string_scan(advanced(s0), '"', isfile, file_id);
    let sc = string_scan(advanced(s0), '"').1;
    assert(advanced(relabeled(sc, isfile, file_id)) == relabeled(advanced(sc), isfile, file_id));
}

/// Lexing a text as a registered file gives the tokens of the same text
/// lexed on its own, each marked with the file.
pub proof fn law_file_tokens(st: LexState, isfile: bool, file_id: u16)
    ensures
        lex_all(relabeled(st, isfile, file_id)) == lex_all(st).map_values(
            |t: TokenView| relabeled_token(t, isfile, file_id),
        ),
    decreases 2 * (st.input.len() - st.position) + if st.reached_eof { 0int } else { 1int },
{
    let r = relabeled(st, isfile, file_id);
    if !(st.reached_eof || st.position > st.input.len()) {
        lemma_relabel_token(st, isfile, file_id);
        let (t, st2) = lex_token(st);
        if !st2.reached_eof && st2.input == st.input && st.position < st2.position
            <= st.input.len() {
            law_file_tokens(st2, isfile, file_id);
            assert(lex_all(r) =~= lex_all(st).map_values(
                |t: TokenView| relabeled_token(t, isfile, file_id),
            ));
        } else {
            assert(lex_all(r) =~= lex_all(st).map_values(
                |t: TokenView| relabeled_token(t, isfile, file_id),
            ));
        }
    } else {
        assert(lex_all(r) =~= lex_all(st).map_values(
            |t: TokenView| relabeled_token(t, isfile, file_id),
        ));
    }
}

/// A fresh lexer over a registered file is the fresh lexer over its text,
/// marked with the file.
pub proof fn law_file_lexer_is_relabeled(s: Seq<char>, file_id: u16)
    ensures
        initial_state(s, true, file_id) == relabeled(initial_state(s, false, 0), true, file_id),
        lex_all(initial_state(s, true, file_id)) == lex_all(initial_state(s, false, 0)).map_values(
            |t: TokenView| relabeled_token(t, true, file_id),
        ),
{
    law_file_tokens(initial_state(s, false, 0), true, file_id);
}

// ---------------------------------------------------------------------------
// The lexer
// ---------------------------------------------------------------------------

/// Turns source text into tokens, one at a time.
pub struct Lexer<'a> {
    compiler: &'a Compiler,
    input: Vec<char>,
    position: usize,
    line_no: usize,
    col_no: usize,
    isfile: bool,
    file_id: u16,
    reached_eof: bool,
}

impl<'a> View for Lexer<'a> {
    type V = LexState;

    closed spec fn view(&self) -> LexState {
        LexState {
            input: self.input@,
            position: self.position as nat,
            line_no: self.line_no as nat,
            col_no: self.col_no as nat,
            isfile: self.isfile,
            file_id: self.file_id,
            reached_eof: self.reached_eof,
        }
    }
}

/// A copy of `v[start..end]`.
fn copy_range(v: &Vec<char>, start: usize, end: usize) -> (r: Vec<char>)
    requires
        start <= end <= v@.len(),
    ensures
        r@ == v@.subrange(start as int, end as int),
{
    let mut out: Vec<char> = Vec::new();
    let mut i = start;
    while i < end
        invariant
            start <= i <= end <= v@.len(),
            out@ == v@.subrange(start as int, i as int),
        decreases end - i,
    {
        out.push(v[i]);
        i = i + 1;
    }
    out
}

/// Monotonicity of the value of a digit string in its prefixes.
proof fn lemma_digits_value_prefix(s: Seq<char>, i: int)
    requires
        all_digits(s),
        0 <= i <= s.len(),
    ensures
        digits_value(s.take(i)) <= digits_value(s),
    decreases s.len(),
{
    if i < s.len() {
        let d = s.drop_last();
        assert(s.take(i) =~= d.take(i));
        assert(all_digits(d)) by {
            assert forall|k: int| 0 <= k < d.len() implies is_ascii_digit_char(#[trigger] d[k]) by {
                assert(d[k] == s[k]);
            }
        }
        lemma_digits_value_prefix(d, i);
    } else {
        assert(s.take(i) =~= s);
    }
}

/// `str::parse::<i64>` on the digits `v[start..end]`.
fn parse_digits(v: &Vec<char>, start: usize, end: usize) -> (r: Option<i64>)
    requires
        start <= end <= v@.len(),
        all_digits(v@.subrange(start as int, end as int)),
    ensures
        r == decimal_i64(v@.subrange(start as int, end as int)),
{
    let ghost s = v@.subrange(start as int, end as int);
    if start == end {
        return None;
    }
    let mut acc: i64 = 0;
    let mut i = start;
    while i < end
        invariant
            start <= i <= end <= v@.len(),
            s == v@.subrange(start as int, end as int),
            all_digits(s),
            acc as int == digits_value(s.take(i - start)),
        decreases end - i,
    {
        let c = v[i];
        assert(s[i - start] == c);
        let d: i64 = ((c as u32) - 48u32) as i64;
        assert(s.take(i - start + 1).drop_last() =~= s.take(i - start));
        let next = match acc.checked_mul(10) {
            Some(m) => m.checked_add(d),
            None => None,
        };
        match next {
            Some(n) => {
                acc = n;
            },
            None => {
                proof {
                    lemma_digits_value_prefix(s, i - start + 1);
                }
                return None;
            },
        }
        i = i + 1;
    }
    assert(s.take(end - start) =~= s);
    Some(acc)
}

impl<'a> Lexer<'a> {
    /// The lexer is in a state it can be in (see `lex_wf`).
    pub open spec fn wf(&self) -> bool {
        lex_wf(self@)
    }

    /// A lexer over `input`, not tied to a file.
    pub fn new(compiler: &'a Compiler, input: &str) -> (r: Self)
        requires
            input@.len() < usize::MAX,
        ensures
            r.wf(),
            r@ == initial_state(input@, false, 0),
    {
        let chars = chars_of(input);
        let line_no: usize = if chars.len() == 0 { 0 } else { 1 };
        Lexer {
            compiler,
            input: chars,
            position: 0,
            line_no,
            col_no: line_no,
            isfile: false,
            file_id: 0,
            reached_eof: false,
        }
    }

    /// A lexer over the text of the registered file `file_id`; `None` when
    /// no file with that id is registered.
    pub fn from_file_contents(compiler: &'a Compiler, file_id: u16, contents: &str) -> (r: Option<
        Self,
    >)
        requires
            contents@.len() < usize::MAX,
        ensures
            r is Some <==> has_file_id(compiler.source_files@, file_id),
            r matches Some(lx) ==> lx.wf() && lx@ == initial_state(contents@, true, file_id),
    {
        if compiler.is_file_present(file_id) == false {
            return None;
        }
        let chars = chars_of(contents);
        let line_no: usize = if chars.len() == 0 { 0 } else { 1 };
        Some(
            Lexer {
                compiler,
                input: chars,
                position: 0,
                line_no,
                col_no: line_no,
                isfile: true,
                file_id,
                reached_eof: false,
            },
        )
    }

    fn current(&self) -> (r: Option<char>)
        requires
            self.wf(),
        ensures
            r == current_char(self@),
    {
        if self.position < self.input.len() {
            Some(self.input[self.position])
        } else {
            None
        }
    }

    fn peek(&self) -> (r: Option<char>)
        requires
            self.wf(),
        ensures
            r == char_at(self@, self@.position + 1int),
    {
        if self.position + 1 < self.input.len() {
            Some(self.input[self.position + 1])
        } else {
            None
        }
    }

    fn advance(&mut self)
        requires
            old(self).wf(),
            old(self)@.position < old(self)@.input.len(),
        ensures
            final(self).wf(),
            final(self)@ == advanced(old(self)@),
    {
        proof {
            lemma_advanced_wf(self@);
            lemma_line_col_bounds(self@.input, self@.position as int);
        }
        let c = self.input[self.position];
        if c == '\n' {
            self.line_no = self.line_no + 1;
            if self.position + 1 < self.input.len() {
                self.col_no = 1;
            } else {
                self.col_no = 0;
            }
        } else {
            self.col_no = self.col_no + 1;
        }
        self.position = self.position + 1;
    }

    fn expect_char(&mut self, ept_char: char) -> (r: bool)
        requires
            old(self).wf(),
        ensures
            final(self).wf(),
            r == (current_char(old(self)@) == Some(ept_char)),
            final(self)@ == if r {
                advanced(old(self)@)
            } else {
                old(self)@
            },
    {
        if let Some(c) = self.current() {
            if c == ept_char {
                self.advance();
                return true;
            }
        }
        return false;
    }

    fn skip_whitespace(&mut self)
        requires
            old(self).wf(),
        ensures
            final(self).wf(),
            final(self)@ == after_whitespace(old(self)@),
    {
        loop
            invariant
                self.wf(),
                after_whitespace(self@) == after_whitespace(old(self)@),
            ensures
                self.wf(),
                self@ == after_whitespace(old(self)@),
            decreases self@.input.len() - self@.position,
        {
            match self.current() {
                Some(character) => {
                    if char_is_whitespace(character) {
                        self.advance();
                    } else {
                        break;
                    }
                },
                None => {
                    break;
                },
            }
        }
    }

    fn read_number(&mut self) -> (r: Option<i64>)
        requires
            old(self).wf(),
        ensures
            final(self).wf(),
            (r, final(self)@) == lex_number(old(self)@),
    {
        let start = self.position;
        loop
            invariant
                self.wf(),
                self@.input == old(self)@.input,
                old(self)@.position == start,
                start <= self@.position,
                after_digits(self@) == after_digits(old(self)@),
                all_digits(self@.input.subrange(start as int, self@.position as int)),
            ensures
                self.wf(),
                self@ == after_digits(old(self)@),
                start <= self@.position,
                all_digits(self@.input.subrange(start as int, self@.position as int)),
            decreases self@.input.len() - self@.position,
        {
            match self.current() {
                Some(character) => {
                    if !(character >= '0' && character <= '9') {
                        break;
                    }
                    let ghost before = self@;
                    self.advance();
                    proof {
                        let a = before.input.subrange(start as int, before.position as int);
                        let b = self@.input.subrange(start as int, self@.position as int);
                        assert(b =~= a.push(character));
                        assert forall|k: int| 0 <= k < b.len() implies is_ascii_digit_char(
                            #[trigger] b[k],
                        ) by {
                            if k < a.len() {
                                assert(b[k] == a[k]);
                            }
                        }
                    }
                },
                None => {
                    break;
                },
            }
        }
        if let Some(character) = self.current() {
            if char_is_alphabetic(character) {
                return None;
            }
        }
        let end = self.position;
        parse_digits(&self.input, start, end)
    }

    fn read_string(&mut self) -> (r: Option<String>)
        requires
            old(self).wf(),
        ensures
            final(self).wf(),
            (
            match r {
                Some(s) => Some(s@),
                None => None,
            },
            final(self)@,
            ) == lex_string(old(self)@),
    {
        if self.expect_char('"') == false {
            return None;
        }
        let ghost st1 = self@;
        let start = self.position;
        let mut prev_character = '"';
        let mut found_ending_quote = false;
        loop
            invariant_except_break
                !found_ending_quote,
                string_scan(self@, prev_character) == string_scan(st1, '"'),
            invariant
                self.wf(),
                self@.input == st1.input,
                st1.position == start,
                start <= self@.position,
            ensures
                self.wf(),
                self@.input == st1.input,
                start <= self@.position,
                string_scan(st1, '"') == (found_ending_quote, self@),
                found_ending_quote ==> self@.position < self@.input.len(),
            decreases self@.input.len() - self@.position,
        {
            match self.current() {
                Some(character) => {
                    if prev_character != '\\' && character == '"' {
                        found_ending_quote = true;
                        break;
                    }
                    self.advance();
                    prev_character = character;
                },
                None => {
                    break;
                },
            }
        }
        if found_ending_quote == false {
            return None;
        }
        let end = self.position;
        self.advance();
        let text = copy_range(&self.input, start, end);
        Some(string_from_chars(text.as_slice()))
    }

    fn read_identifier(&mut self) -> (r: Option<Vec<char>>)
        requires
            old(self).wf(),
        ensures
            final(self).wf(),
            (
            match r {
                Some(s) => Some(s@),
                None => None,
            },
            final(self)@,
            ) == lex_identifier(old(self)@),
    {
        let start = self.position;
        if let Some(character) = self.current() {
            if !char_is_alphabetic(character) {
                return None;
            }
            self.advance();
        } else {
            return Some(Vec::new());
        }
        let ghost st1 = self@;
        loop
            invariant
                self.wf(),
                self@.input == st1.input,
                start < self@.position,
                after_alphanumeric(self@) == after_alphanumeric(st1),
            ensures
                self.wf(),
                start < self@.position,
                self@ == after_alphanumeric(st1),
            decreases self@.input.len() - self@.position,
        {
            match self.current() {
                Some(character) => {
                    if !char_is_alphanumeric(character) {
                        break;
                    }
                    self.advance();
                },
                None => {
                    break;
                },
            }
        }
        let end = self.position;
        Some(copy_range(&self.input, start, end))
    }

    fn single_char_token(c: char) -> (r: Option<TokenKind>)
        ensures
            match r {
                Some(k) => single_char_kind(c) == Some(k@),
                None => single_char_kind(c) is None,
            },
    {
        if c == '+' {
            Some(TokenKind::Plus)
        } else if c == '-' {
            Some(TokenKind::Minus)
        } else if c == '*' {
            Some(TokenKind::Star)
        } else if c == '/' {
            Some(TokenKind::Slash)
        } else if c == '%' {
            Some(TokenKind::Percent)
        } else if c == '(' {
            Some(TokenKind::LParen)
        } else if c == ')' {
            Some(TokenKind::RParen)
        } else if c == '{' {
            Some(TokenKind::LBrace)
        } else if c == '}' {
            Some(TokenKind::RBrace)
        } else if c == '<' {
            Some(TokenKind::Less)
        } else if c == '>' {
            Some(TokenKind::Greater)
        } else if c == ';' {
            Some(TokenKind::Semicolon)
        } else if c == ',' {
            Some(TokenKind::Comma)
        } else {
            None
        }
    }

    /// Reads the next token. The token carries the line and column where the
    /// lexer stands after it; at the end of the input it is `EOF`.
    pub fn next_token(&mut self) -> (tok: Token)
        requires
            old(self).wf(),
        ensures
            final(self).wf(),
            (tok@, final(self)@) == lex_token(old(self)@),
    {
        self.skip_whitespace();
        let ghost st0 = self@;
        let c = match self.current() {
            None => {
                self.reached_eof = true;
                return Token {
                    kind: TokenKind::EOF,
                    line_no: self.line_no,
                    col_no: self.col_no,
                    isfile: self.isfile,
                    file_id: self.file_id,
                };
            },
            Some(character) => character,
        };
        let kind: TokenKind;
        if let Some(k) = Self::single_char_token(c) {
            kind = k;
            self.advance();
        } else if c == '=' {
            match self.peek() {
                Some(n) => {
                    if n == '=' {
                        kind = TokenKind::EqualEqual;
                        self.advance();
                    } else {
                        kind = TokenKind::Equal;
                    }
                },
                None => {
                    kind = TokenKind::Equal;
                },
            }
            self.advance();
        } else if c == '!' {
            match self.peek() {
                Some(n) => {
                    if n == '=' {
                        kind = TokenKind::NotEqual;
                        self.advance();
                    } else {
                        kind = TokenKind::Not;
                    }
                },
                None => {
                    kind = TokenKind::Not;
                },
            }
            self.advance();
        } else if c == '"' {
            match self.read_string() {
                Some(string) => {
                    kind = TokenKind::String(string);
                },
                None => {
                    kind = TokenKind::ILLEGAL;
                },
            }
        } else if c >= '0' && c <= '9' {
            match self.read_number() {
                Some(num) => {
                    kind = TokenKind::Integer(num);
                },
                None => {
                    kind = TokenKind::ILLEGAL;
                },
            }
        } else if (c >= 'A' && c <= 'Z') || (c >= 'a' && c <= 'z') {
            match self.read_identifier() {
                Some(ident) => {
                    kind = Self::identifier_to_token(&ident);
                },
                None => {
                    kind = TokenKind::ILLEGAL;
                    self.advance();
                },
            }
        } else {
            kind = TokenKind::ILLEGAL;
            self.advance();
        }
        Token {
            kind,
            line_no: self.line_no,
            col_no: self.col_no,
            isfile: self.isfile,
            file_id: self.file_id,
        }
    }

    /// The token `next_token` would give, without moving the lexer.
    pub fn peek_token(&mut self) -> (tok: Token)
        requires
            old(self).wf(),
        ensures
            final(self)@ == old(self)@,
            final(self).wf(),
            tok@ == lex_token(old(self)@).0,
    {
        let position = self.position;
        let line_no = self.line_no;
        let col_no = self.col_no;
        let reached_eof = self.reached_eof;
        proof {
            lemma_lex_token_progress(self@);
        }
        let tok = self.next_token();
        self.position = position;
        self.line_no = line_no;
        self.col_no = col_no;
        self.reached_eof = reached_eof;
        return tok;
    }

    /// The lexer as an iterator: the next token, up to `EOF`, then nothing.
    pub fn next(&mut self) -> (r: Option<Token>)
        requires
            old(self).wf(),
        ensures
            final(self).wf(),
            old(self)@.reached_eof ==> r is None && final(self)@ == old(self)@,
            !old(self)@.reached_eof ==> r is Some && (r->0@, final(self)@) == lex_token(
                old(self)@,
            ),
    {
        if self.reached_eof == true {
            return None;
        }
        Some(self.next_token())
    }

    /// All the tokens the iterator yields, `EOF` last.
    pub fn tokenize(&mut self) -> (r: Vec<Token>)
        requires
            old(self).wf(),
        ensures
            final(self).wf(),
            final(self)@ == lex_all_state(old(self)@),
            token_views(r@) == lex_all(old(self)@),
    {
        let mut out: Vec<Token> = Vec::new();
        loop
            invariant
                self.wf(),
                lex_all(old(self)@) == token_views(out@) + lex_all(self@),
                lex_all_state(old(self)@) == lex_all_state(self@),
            decreases 2 * (self@.input.len() - self@.position) + if self@.reached_eof {
                0int
            } else {
                1int
            },
        {
            if self.reached_eof {
                assert(token_views(out@) + Seq::<TokenView>::empty() =~= token_views(out@));
                return out;
            }
            let ghost st = self@;
            let tok = self.next_token();
            let ghost t = tok@;
            let ghost prev_out = out@;
            out.push(tok);
            proof {
                lemma_lex_token_progress(st);
                assert(token_views(out@) =~= token_views(prev_out).push(t));
                if !self@.reached_eof {
                    assert(token_views(prev_out) + (seq![t] + lex_all(self@)) =~= token_views(out@)
                        + lex_all(self@));
                } else {
                    assert(token_views(prev_out) + seq![t] =~= token_views(out@) + Seq::<
                        TokenView,
                    >::empty());
                }
            }
        }
    }

    fn identifier_to_token(identifier: &Vec<char>) -> (r: TokenKind)
        ensures
            r@ == keyword_kind(identifier@),
    {
        let w = identifier;
        let n = w.len();
        if n == 3 && w[0] == 'l' && w[1] == 'e' && w[2] == 't' {
            assert(w@ =~= seq!['l', 'e', 't']);
            TokenKind::Let
        } else if n == 3 && w[0] == 'm' && w[1] == 'u' && w[2] == 't' {
            assert(w@ =~= seq!['m', 'u', 't']);
            TokenKind::Mut
        } else if n == 2 && w[0] == 'i' && w[1] == 'f' {
            assert(w@ =~= seq!['i', 'f']);
            TokenKind::If
        } else if n == 4 && w[0] == 'e' && w[1] == 'l' && w[2] == 's' && w[3] == 'e' {
            assert(w@ =~= seq!['e', 'l', 's', 'e']);
            TokenKind::Else
        } else if n == 4 && w[0] == 'e' && w[1] == 'l' && w[2] == 'i' && w[3] == 'f' {
            assert(w@ =~= seq!['e', 'l', 'i', 'f']);
            TokenKind::Elif
        } else if n == 5 && w[0] == 'w' && w[1] == 'h' && w[2] == 'i' && w[3] == 'l' && w[4]
            == 'e' {
            assert(w@ =~= seq!['w', 'h', 'i', 'l', 'e']);
            TokenKind::While
        } else if n == 5 && w[0] == 'p' && w[1] == 'r' && w[2] == 'i' && w[3] == 'n' && w[4]
            == 't' {
            assert(w@ =~= seq!['p', 'r', 'i', 'n', 't']);
            TokenKind::Print
        } else {
            TokenKind::Identifier(string_from_chars(w.as_slice()))
        }
    }
}

} // verus!
