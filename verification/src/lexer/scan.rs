//! The scanner: Aipo source text to tokens and lexical diagnostics.
//!
//! The token grammar is stated over the source's characters: `scan` reads one token from a
//! character position, and `lex_from` reads every token up to the end of the text. Spans are
//! byte offsets of the UTF-8 text. String literal contents are stored in Unicode
//! Normalization Form C; the spans keep pointing at what the author wrote.
use vstd::prelude::*;

use crate::lexer::{StringPrefix, TokenKind};
use crate::number::{all_radix_digits, digits_value, is_radix_digit, well_formed_spec};
use crate::package::order::text_equal;
use crate::text::{chars_of, push_char};
use crate::number::number_is_well_formed;
use unicode_normalization::UnicodeNormalization;
use vstd::string::*;

verus! {

/// A half-open range of byte offsets into the source text.
#[derive(Debug, Clone, Copy, PartialEq, Eq, Hash)]
pub struct SourceSpan {
    /// First byte of the span.
    pub start: usize,
    /// Byte after the span.
    pub end: usize,
}

impl SourceSpan {
    /// The span `start..end`.
    pub fn new(start: usize, end: usize) -> (span: SourceSpan)
        ensures
            span.start == start,
            span.end == end,
    {
        SourceSpan { start, end }
    }

    /// The empty span at `at`.
    pub fn empty(at: usize) -> (span: SourceSpan)
        ensures
            span.start == at,
            span.end == at,
    {
        SourceSpan { start: at, end: at }
    }
}

/// One token: its kind and where it stands in the source.
#[derive(Debug, Clone, PartialEq, Eq)]
pub struct Token {
    /// What the token is.
    pub kind: TokenKind,
    /// Where the token stands.
    pub span: SourceSpan,
}

impl Token {
    /// A token of `kind` at `span`.
    pub fn new(kind: TokenKind, span: SourceSpan) -> (token: Token)
        ensures
            token.kind == kind,
            token.span == span,
    {
        Token { kind, span }
    }
}

/// What a lexical diagnostic reports.
#[derive(Debug, Clone, Copy, PartialEq, Eq, Hash)]
pub enum LexErrorCode {
    /// A character that starts no token.
    UnexpectedCharacter,
    /// A numeric literal that is not well formed.
    InvalidNumber,
    /// A string literal that does not end.
    UnterminatedString,
    /// A `\u{..}` escape that names no Unicode scalar value.
    InvalidUnicodeEscape,
    /// A backslash escape that is not defined.
    UnknownEscape,
}

/// A lexical diagnostic: what, why, and where.
#[derive(Debug, Clone, PartialEq, Eq)]
pub struct LexDiagnostic {
    /// What is reported.
    pub code: LexErrorCode,
    /// Human-readable message.
    pub message: String,
    /// The span from the token's start to where the problem was seen.
    pub span: SourceSpan,
}

/// The reading of a token kind: a kind without text, or a kind and its text.
pub ghost enum Lexeme {
    /// A keyword, operator, delimiter or control token.
    Plain(TokenKind),
    /// An identifier.
    Identifier(Seq<char>),
    /// An integer literal, as written.
    IntLiteral(Seq<char>),
    /// A floating-point literal, as written (the exponent marker lowercased).
    FloatLiteral(Seq<char>),
    /// A string literal: decoded content, prefix, and whether it is triple-quoted.
    StringLiteral(Seq<char>, StringPrefix, bool),
    /// A comment's text after `#`.
    Comment(Seq<char>),
    /// An error token and its text.
    Error(Seq<char>),
}

impl View for TokenKind {
    type V = Lexeme;

    open spec fn view(&self) -> Lexeme {
        match self {
            TokenKind::Identifier(name) => Lexeme::Identifier(name@),
            TokenKind::IntLiteral(raw) => Lexeme::IntLiteral(raw@),
            TokenKind::FloatLiteral(raw) => Lexeme::FloatLiteral(raw@),
            TokenKind::StringLiteral { content, prefix, is_multiline } => Lexeme::StringLiteral(content@, *prefix, *is_multiline),
            TokenKind::Comment(text) => Lexeme::Comment(text@),
            TokenKind::Error(text) => Lexeme::Error(text@),
            _ => Lexeme::Plain(*self),
        }
    }
}

/// Whether `char::is_alphabetic` holds of a character (the Unicode `Alphabetic` property).
pub uninterp spec fn alphabetic(c: char) -> bool;

/// `char::is_alphabetic`; the contract names its result.
#[verifier::external_body]
fn char_is_alphabetic(c: char) -> (b: bool)
    ensures
        b == alphabetic(c),
{
    c.is_alphabetic()
}

/// Whether `char::is_alphanumeric` holds of a character (`Alphabetic` or `Numeric`).
pub uninterp spec fn alphanumeric(c: char) -> bool;

/// `char::is_alphanumeric`; the contract names its result.
#[verifier::external_body]
fn char_is_alphanumeric(c: char) -> (b: bool)
    ensures
        b == alphanumeric(c),
{
    c.is_alphanumeric()
}

/// The Unicode Normalization Form C of a text.
pub uninterp spec fn nfc(text: Seq<char>) -> Seq<char>;

/// `unicode_normalization::UnicodeNormalization::nfc` on a string, collected; the contract
/// names its result.
#[verifier::external_body]
fn nfc_string(text: &str) -> (normalized: String)
    ensures
        normalized@ == nfc(text@),
{
    text.nfc().collect()
}

/// Whether `code` is a Unicode scalar value.
pub open spec fn is_scalar(code: u32) -> bool {
    code < 0xD800 || (0xDFFF < code && code <= 0x10FFFF)
}

/// `char::from_u32`: the character with code `code`, exactly when it is a Unicode scalar
/// value.
#[verifier::external_body]
fn char_from_code(code: u32) -> (c: Option<char>)
    ensures
        match c {
            Some(ch) => is_scalar(code) && ch as u32 == code && ch == code as char,
            None => !is_scalar(code),
        },
{
    char::from_u32(code)
}

/// The number of UTF-8 bytes of a character.
pub open spec fn char_width(c: char) -> nat {
    let u = c as u32;
    if u < 0x80 {
        1
    } else if u < 0x800 {
        2
    } else if u < 0x10000 {
        3
    } else {
        4
    }
}

/// The number of UTF-8 bytes of a text.
pub open spec fn byte_len(s: Seq<char>) -> nat
    decreases s.len(),
{
    if s.len() == 0 {
        0
    } else {
        byte_len(s.drop_last()) + char_width(s.last())
    }
}

/// The byte offset of character position `i`.
pub open spec fn byte_offset(cs: Seq<char>, i: int) -> nat {
    byte_len(cs.take(i))
}

/// The character at `i`, if any.
pub open spec fn at(cs: Seq<char>, i: int) -> Option<char> {
    if 0 <= i < cs.len() {
        Some(cs[i])
    } else {
        None
    }
}

/// A class of characters that a run of the scanner consumes.
#[derive(Clone, Copy)]
pub enum CharClass {
    /// Space, tab, carriage return.
    HorizontalSpace,
    /// Line feed.
    LineFeed,
    /// Anything but a line feed.
    NotLineFeed,
    /// `_` or an alphanumeric character.
    IdentContinue,
    /// An ASCII hexadecimal digit or `_`.
    HexOrUnderscore,
    /// An ASCII decimal digit or `_`.
    DigitOrUnderscore,
    /// Anything but `}`.
    NotCloseBrace,
}

/// `[0-9]`.
pub open spec fn is_digit(c: char) -> bool {
    '0' <= c && c <= '9'
}

/// `[0-9A-Fa-f]`.
pub open spec fn is_hex_digit(c: char) -> bool {
    ('0' <= c && c <= '9') || ('a' <= c && c <= 'f') || ('A' <= c && c <= 'F')
}

/// Whether `c` belongs to `class`.
pub open spec fn in_class(c: char, class: CharClass) -> bool {
    match class {
        CharClass::HorizontalSpace => c == ' ' || c == '\t' || c == '\r',
        CharClass::LineFeed => c == '\n',
        CharClass::NotLineFeed => c != '\n',
        CharClass::IdentContinue => c == '_' || alphanumeric(c),
        CharClass::HexOrUnderscore => is_hex_digit(c) || c == '_',
        CharClass::DigitOrUnderscore => is_digit(c) || c == '_',
        CharClass::NotCloseBrace => c != '}',
    }
}

/// The end of the run of `class` characters that starts at `i`.
pub open spec fn skip_class(cs: Seq<char>, i: int, class: CharClass) -> int
    decreases cs.len() - i,
{
    if 0 <= i < cs.len() && in_class(cs[i], class) {
        skip_class(cs, i + 1, class)
    } else {
        i
    }
}

/// A run starts at `i`, ends inside the text, and stops at a character outside its class.
pub proof fn lemma_skip_bounds(cs: Seq<char>, i: int, class: CharClass)
    requires
        0 <= i,
    ensures
        i <= skip_class(cs, i, class),
        i <= cs.len() ==> skip_class(cs, i, class) <= cs.len(),
        skip_class(cs, i, class) < cs.len() ==> !in_class(cs[skip_class(cs, i, class)], class),
        forall|k: int| i <= k < skip_class(cs, i, class) ==> in_class(#[trigger] cs[k], class),
    decreases cs.len() - i,
{
    if 0 <= i < cs.len() && in_class(cs[i], class) {
        lemma_skip_bounds(cs, i + 1, class);
    }
}

/// A diagnostic as the scan reports it: code, message, and the character positions its
/// span runs between.
pub ghost struct Note {
    /// What is reported.
    pub code: LexErrorCode,
    /// The message.
    pub message: Seq<char>,
    /// Start position.
    pub start: int,
    /// End position.
    pub end: int,
}

/// One scanned token: its reading, the character positions it spans, and the diagnostics
/// reported while reading it.
pub ghost struct Scanned {
    /// What the token reads as.
    pub lexeme: Lexeme,
    /// First character of the token.
    pub start: int,
    /// Character after the token.
    pub end: int,
    /// Diagnostics, in the order they were reported.
    pub notes: Seq<Note>,
}

/// A token with no diagnostics.
pub open spec fn clean(lexeme: Lexeme, start: int, end: int) -> Scanned {
    Scanned { lexeme, start, end, notes: Seq::empty() }
}

/// A keyword's token kind.
pub open spec fn keyword(name: Seq<char>) -> Option<TokenKind> {
    if name == "let"@ { Some(TokenKind::Let) }
    else if name == "var"@ { Some(TokenKind::Var) }
    else if name == "fixed"@ { Some(TokenKind::Fixed) }
    else if name == "fn"@ { Some(TokenKind::Fn) }
    else if name == "async"@ { Some(TokenKind::Async) }
    else if name == "await"@ { Some(TokenKind::Await) }
    else if name == "struct"@ { Some(TokenKind::Struct) }
    else if name == "impl"@ { Some(TokenKind::Impl) }
    else if name == "interface"@ { Some(TokenKind::Interface) }
    else if name == "satisfy"@ { Some(TokenKind::Satisfy) }
    else if name == "init"@ { Some(TokenKind::Init) }
    else if name == "invariant"@ { Some(TokenKind::Invariant) }
    else if name == "if"@ { Some(TokenKind::If) }
    else if name == "elif"@ { Some(TokenKind::Elif) }
    else if name == "else"@ { Some(TokenKind::Else) }
    else if name == "then"@ { Some(TokenKind::Then) }
    else if name == "end"@ { Some(TokenKind::End) }
    else if name == "match"@ { Some(TokenKind::Match) }
    else if name == "when"@ { Some(TokenKind::When) }
    else if name == "loop"@ { Some(TokenKind::Loop) }
    else if name == "while"@ { Some(TokenKind::While) }
    else if name == "repeat"@ { Some(TokenKind::Repeat) }
    else if name == "as"@ { Some(TokenKind::As) }
    else if name == "each"@ { Some(TokenKind::Each) }
    else if name == "in"@ { Some(TokenKind::In) }
    else if name == "break"@ { Some(TokenKind::Break) }
    else if name == "continue"@ { Some(TokenKind::Continue) }
    else if name == "return"@ { Some(TokenKind::Return) }
    else if name == "fail"@ { Some(TokenKind::Fail) }
    else if name == "or_else"@ { Some(TokenKind::OrElse) }
    else if name == "attempt"@ { Some(TokenKind::Attempt) }
    else if name == "failed"@ { Some(TokenKind::Failed) }
    else if name == "import"@ { Some(TokenKind::Import) }
    else if name == "export"@ { Some(TokenKind::Export) }
    else if name == "is"@ { Some(TokenKind::Is) }
    else if name == "not"@ { Some(TokenKind::Not) }
    else if name == "and"@ { Some(TokenKind::And) }
    else if name == "or"@ { Some(TokenKind::Or) }
    else if name == "true"@ { Some(TokenKind::True) }
    else if name == "false"@ { Some(TokenKind::False) }
    else if name == "none"@ { Some(TokenKind::NoneValue) }
    else if name == "self"@ { Some(TokenKind::SelfVal) }
    else if name == "do"@ { Some(TokenKind::Do) }
    else if name == "div"@ { Some(TokenKind::Div) }
    else { None }
}

/// An identifier, keyword or `_` starting at `j`: `self!` and `div=` read as one token.
pub open spec fn scan_word(cs: Seq<char>, j: int) -> Scanned {
    let e = skip_class(cs, j + 1, CharClass::IdentContinue);
    let name = cs.subrange(j, e);
    if name == "self"@ && at(cs, e) == Some('!') {
        clean(Lexeme::Plain(TokenKind::SelfMut), j, e + 1)
    } else if name == "div"@ && at(cs, e) == Some('=') {
        clean(Lexeme::Plain(TokenKind::DivEq), j, e + 1)
    } else if name == "_"@ {
        clean(Lexeme::Plain(TokenKind::Discard), j, e)
    } else {
        match keyword(name) {
            Some(kind) => clean(Lexeme::Plain(kind), j, e),
            None => clean(Lexeme::Identifier(name), j, e),
        }
    }
}

/// The diagnostic of a malformed numeric literal.
pub open spec fn number_notes(raw: Seq<char>, j: int, e: int) -> Seq<Note> {
    if well_formed_spec(raw) {
        Seq::empty()
    } else {
        seq![Note { code: LexErrorCode::InvalidNumber, message: "malformed numeric literal '"@ + raw + "'"@, start: j, end: e }]
    }
}

/// Whether `c` is a base marker after a leading `0`.
pub open spec fn is_base_marker(c: char) -> bool {
    c == 'x' || c == 'X' || c == 'b' || c == 'B' || c == 'o' || c == 'O'
}

/// Whether a character after `.` continues a decimal literal: a digit, or a `_`, `e` or `E`
/// that makes the literal malformed rather than leaving a plausible integer behind.
pub open spec fn fraction_start(c: char) -> bool {
    is_digit(c) || c == '_' || c == 'e' || c == 'E'
}

/// A numeric literal starting with the digit at `j`. A based literal takes every hex digit
/// and `_` after its marker; a decimal one takes digits and `_`, a fraction when a digit (or
/// `_`, `e`, `E`) follows the `.`, and an exponent (written with `e`) with its optional sign.
pub open spec fn scan_number(cs: Seq<char>, j: int) -> Scanned {
    if cs[j] == '0' && (at(cs, j + 1) matches Some(b) && is_base_marker(b)) {
        let e = skip_class(cs, j + 2, CharClass::HexOrUnderscore);
        let raw = cs.subrange(j, e);
        Scanned { lexeme: Lexeme::IntLiteral(raw), start: j, end: e, notes: number_notes(raw, j, e) }
    } else {
        let d = skip_class(cs, j + 1, CharClass::DigitOrUnderscore);
        let fraction = at(cs, d) == Some('.') && (at(cs, d + 1) matches Some(c) && fraction_start(c));
        let f = if fraction { skip_class(cs, d + 1, CharClass::DigitOrUnderscore) } else { d };
        let exponent = at(cs, f) == Some('e') || at(cs, f) == Some('E');
        let s = if at(cs, f + 1) == Some('+') || at(cs, f + 1) == Some('-') { f + 2 } else { f + 1 };
        let g = if exponent { skip_class(cs, s, CharClass::DigitOrUnderscore) } else { f };
        let raw = if exponent { cs.subrange(j, f) + seq!['e'] + cs.subrange(f + 1, g) } else { cs.subrange(j, f) };
        let lexeme = if fraction || exponent { Lexeme::FloatLiteral(raw) } else { Lexeme::IntLiteral(raw) };
        Scanned { lexeme, start: j, end: g, notes: number_notes(raw, j, g) }
    }
}

/// What `u32::from_str_radix(text, 16)` gives: an optional `+`, then at least one
/// hexadecimal digit, with the value inside the `u32` range.
pub open spec fn hex_u32(text: Seq<char>) -> Option<u32> {
    let digits = if text.len() > 0 && text[0] == '+' { text.drop_first() } else { text };
    if digits.len() == 0 || !all_radix_digits(digits, 16) || digits_value(digits, 16) > u32::MAX {
        None
    } else {
        Some(digits_value(digits, 16) as u32)
    }
}

/// The character a `\u{..}` escape names, when its hexadecimal text names a Unicode scalar
/// value.
pub open spec fn escape_scalar(text: Seq<char>) -> Option<char> {
    match hex_u32(text) {
        Some(code) => if is_scalar(code) { Some(code as char) } else { None },
        None => None,
    }
}

/// The character a one-character escape stands for.
pub open spec fn simple_escape(c: char) -> Option<char> {
    if c == 'n' { Some('\n') }
    else if c == 'r' { Some('\r') }
    else if c == 't' { Some('\t') }
    else if c == '\\' { Some('\\') }
    else if c == '"' { Some('"') }
    else if c == '0' { Some('\0') }
    else { None }
}

/// The one-character escapes are the standard ones: `n`, `r`, `t` and `0` stand for the
/// line feed (10), carriage return (13), tab (9) and NUL (0) characters, `\\` and `"` for
/// themselves, and no other character starts one.
pub proof fn law_simple_escapes(c: char)
    ensures
        simple_escape(c) is Some <==> (c == 'n' || c == 'r' || c == 't' || c == '0' || c == '\\' || c == '"'),
        simple_escape(c) matches Some(d) ==> (d as int) == (if c == 'n' {
            10
        } else if c == 'r' {
            13
        } else if c == 't' {
            9
        } else if c == '0' {
            0
        } else {
            c as int
        }),
{
}

/// Every outcome of a string body starts where the literal does.
pub proof fn lemma_body_start(cs: Seq<char>, start: int, p: int, prefix: StringPrefix, multiline: bool, content: Seq<char>, notes: Seq<Note>)
    ensures
        string_body(cs, start, p, prefix, multiline, content, notes).start == start,
    decreases cs.len() - p,
{
    if 0 <= p < cs.len() {
        if cs[p] == '"' {
            lemma_body_start(cs, start, p + 1, prefix, multiline, content.push('"'), notes);
        } else if cs[p] == '\\' && !(prefix == StringPrefix::Raw || prefix == StringPrefix::FormatRaw) {
            if p + 1 < cs.len() {
                let c = cs[p + 1];
                match simple_escape(c) {
                    Some(d) => lemma_body_start(cs, start, p + 2, prefix, multiline, content.push(d), notes),
                    None => if c == 'u' && at(cs, p + 2) == Some('{') {
                        let h = skip_class(cs, p + 3, CharClass::NotCloseBrace);
                        lemma_skip_bounds(cs, p + 3, CharClass::NotCloseBrace);
                        let hex = cs.subrange(p + 3, h);
                        if h >= cs.len() {
                            let note = Note {
                                code: LexErrorCode::UnexpectedCharacter,
                                message: "unterminated unicode escape sequence"@,
                                start,
                                end: h,
                            };
                            lemma_body_start(cs, start, h, prefix, multiline, content, notes.push(note));
                        } else {
                            match escape_scalar(hex) {
                                Some(d) => lemma_body_start(cs, start, h + 1, prefix, multiline, content.push(d), notes),
                                None => {
                                    let note = Note {
                                        code: LexErrorCode::InvalidUnicodeEscape,
                                        message: "invalid unicode escape '\\u{"@ + hex + "}'"@,
                                        start,
                                        end: h + 1,
                                    };
                                    lemma_body_start(cs, start, h + 1, prefix, multiline, content, notes.push(note));
                                },
                            }
                        }
                    } else {
                        let note = Note {
                            code: LexErrorCode::UnknownEscape,
                            message: "unknown escape sequence '\\"@ + seq![c] + "'"@,
                            start,
                            end: p + 2,
                        };
                        lemma_body_start(cs, start, p + 2, prefix, multiline, content.push(c), notes.push(note));
                    },
                }
            }
        } else if !(cs[p] == '\n' && !multiline) {
            lemma_body_start(cs, start, p + 1, prefix, multiline, content.push(cs[p]), notes);
        }
    }
}

/// An unterminated string: an error token up to `p`, and its diagnostic.
pub open spec fn unterminated(start: int, p: int, notes: Seq<Note>, message: Seq<char>) -> Scanned {
    Scanned {
        lexeme: Lexeme::Error("unterminated string"@),
        start,
        end: p,
        notes: notes.push(Note { code: LexErrorCode::UnterminatedString, message, start, end: p }),
    }
}

/// The body of a string literal from position `p`, with `content` decoded and `notes`
/// reported so far.
pub open spec fn string_body(cs: Seq<char>, start: int, p: int, prefix: StringPrefix, multiline: bool, content: Seq<char>, notes: Seq<Note>) -> Scanned
    decreases cs.len() - p,
{
    let raw = prefix == StringPrefix::Raw || prefix == StringPrefix::FormatRaw;
    if p < 0 || p >= cs.len() {
        unterminated(start, p, notes, "unterminated string literal before EOF"@)
    } else if cs[p] == '"' {
        if !multiline {
            Scanned { lexeme: Lexeme::StringLiteral(nfc(content), prefix, false), start, end: p + 1, notes }
        } else if at(cs, p + 1) == Some('"') && at(cs, p + 2) == Some('"') {
            Scanned { lexeme: Lexeme::StringLiteral(nfc(content), prefix, true), start, end: p + 3, notes }
        } else {
            string_body(cs, start, p + 1, prefix, multiline, content.push('"'), notes)
        }
    } else if cs[p] == '\\' && !raw {
        if p + 1 >= cs.len() {
            unterminated(start, p + 1, notes, "unterminated string literal"@)
        } else {
            let c = cs[p + 1];
            match simple_escape(c) {
                Some(d) => string_body(cs, start, p + 2, prefix, multiline, content.push(d), notes),
                None => if c == 'u' && at(cs, p + 2) == Some('{') {
                    let h = skip_class(cs, p + 3, CharClass::NotCloseBrace);
                    proof {
                        lemma_skip_bounds(cs, p + 3, CharClass::NotCloseBrace);
                    }
                    if h >= cs.len() {
                        let note = Note {
                            code: LexErrorCode::UnexpectedCharacter,
                            message: "unterminated unicode escape sequence"@,
                            start,
                            end: h,
                        };
                        string_body(cs, start, h, prefix, multiline, content, notes.push(note))
                    } else {
                        let hex = cs.subrange(p + 3, h);
                        match escape_scalar(hex) {
                            Some(d) => string_body(cs, start, h + 1, prefix, multiline, content.push(d), notes),
                            None => {
                                let note = Note {
                                    code: LexErrorCode::InvalidUnicodeEscape,
                                    message: "invalid unicode escape '\\u{"@ + hex + "}'"@,
                                    start,
                                    end: h + 1,
                                };
                                string_body(cs, start, h + 1, prefix, multiline, content, notes.push(note))
                            },
                        }
                    }
                } else {
                    let note = Note {
                        code: LexErrorCode::UnknownEscape,
                        message: "unknown escape sequence '\\"@ + seq![c] + "'"@,
                        start,
                        end: p + 2,
                    };
                    string_body(cs, start, p + 2, prefix, multiline, content.push(c), notes.push(note))
                },
            }
        }
    } else if cs[p] == '\n' && !multiline {
        unterminated(start, p + 1, notes, "single-line string literal cannot span across newlines"@)
    } else {
        string_body(cs, start, p + 1, prefix, multiline, content.push(cs[p]), notes)
    }
}

/// A string literal whose opening quote ends before `c`: `"""` opens a multi-line one.
pub open spec fn scan_string(cs: Seq<char>, start: int, c: int, prefix: StringPrefix) -> Scanned {
    let multiline = at(cs, c) == Some('"') && at(cs, c + 1) == Some('"');
    let body = if multiline { c + 2 } else { c };
    string_body(cs, start, body, prefix, multiline, Seq::empty(), Seq::empty())
}

/// The prefix of a string literal that starts with `f` or `r` at `k - 1`, and the position
/// after its opening quote, when one starts there.
pub open spec fn string_prefix(cs: Seq<char>, ch: char, k: int) -> Option<(StringPrefix, int)> {
    if at(cs, k) == Some('"') {
        if ch == 'f' { Some((StringPrefix::Format, k + 1)) } else { Some((StringPrefix::Raw, k + 1)) }
    } else if at(cs, k + 1) == Some('"') && ((ch == 'f' && at(cs, k) == Some('r')) || (ch == 'r' && at(cs, k) == Some('f'))) {
        Some((StringPrefix::FormatRaw, k + 2))
    } else {
        None
    }
}

/// An operator, delimiter, or a character that starts no token, at `j`.
pub open spec fn scan_symbol(cs: Seq<char>, j: int) -> Scanned {
    let ch = cs[j];
    let n1 = at(cs, j + 1);
    let n2 = at(cs, j + 2);
    if ch == '+' { if n1 == Some('=') { clean(Lexeme::Plain(TokenKind::PlusEq), j, j + 2) } else { clean(Lexeme::Plain(TokenKind::Plus), j, j + 1) } }
    else if ch == '-' { if n1 == Some('=') { clean(Lexeme::Plain(TokenKind::MinusEq), j, j + 2) } else { clean(Lexeme::Plain(TokenKind::Minus), j, j + 1) } }
    else if ch == '*' { if n1 == Some('=') { clean(Lexeme::Plain(TokenKind::StarEq), j, j + 2) } else { clean(Lexeme::Plain(TokenKind::Star), j, j + 1) } }
    else if ch == '/' {
        if n1 == Some('/') {
            if n2 == Some('=') { clean(Lexeme::Plain(TokenKind::SlashSlashEq), j, j + 3) } else { clean(Lexeme::Plain(TokenKind::SlashSlash), j, j + 2) }
        } else if n1 == Some('=') { clean(Lexeme::Plain(TokenKind::SlashEq), j, j + 2) } else { clean(Lexeme::Plain(TokenKind::Slash), j, j + 1) }
    }
    else if ch == '%' { if n1 == Some('=') { clean(Lexeme::Plain(TokenKind::PercentEq), j, j + 2) } else { clean(Lexeme::Plain(TokenKind::Percent), j, j + 1) } }
    else if ch == '=' { if n1 == Some('=') { clean(Lexeme::Plain(TokenKind::EqualEqual), j, j + 2) } else { clean(Lexeme::Plain(TokenKind::Equal), j, j + 1) } }
    else if ch == '!' { if n1 == Some('=') { clean(Lexeme::Plain(TokenKind::BangEqual), j, j + 2) } else { clean(Lexeme::Plain(TokenKind::Bang), j, j + 1) } }
    else if ch == '<' { if n1 == Some('=') { clean(Lexeme::Plain(TokenKind::LessEqual), j, j + 2) } else { clean(Lexeme::Plain(TokenKind::Less), j, j + 1) } }
    else if ch == '>' { if n1 == Some('=') { clean(Lexeme::Plain(TokenKind::GreaterEqual), j, j + 2) } else { clean(Lexeme::Plain(TokenKind::Greater), j, j + 1) } }
    else if ch == '|' {
        if n1 == Some('>') {
            clean(Lexeme::Plain(TokenKind::Pipeline), j, j + 2)
        } else {
            Scanned {
                lexeme: Lexeme::Error(seq![ch]),
                start: j,
                end: j + 1,
                notes: seq![Note { code: LexErrorCode::UnexpectedCharacter, message: "unexpected character '|', did you mean '|>'?"@, start: j, end: j + 1 }],
            }
        }
    }
    else if ch == '.' { if n1 == Some('.') { clean(Lexeme::Plain(TokenKind::DotDot), j, j + 2) } else { clean(Lexeme::Plain(TokenKind::Dot), j, j + 1) } }
    else if ch == '?' { if n1 == Some('.') { clean(Lexeme::Plain(TokenKind::QuestionDot), j, j + 2) } else { clean(Lexeme::Plain(TokenKind::Question), j, j + 1) } }
    else if ch == ':' { clean(Lexeme::Plain(TokenKind::Colon), j, j + 1) }
    else if ch == ',' { clean(Lexeme::Plain(TokenKind::Comma), j, j + 1) }
    else if ch == '(' { clean(Lexeme::Plain(TokenKind::LParen), j, j + 1) }
    else if ch == ')' { clean(Lexeme::Plain(TokenKind::RParen), j, j + 1) }
    else if ch == '[' { clean(Lexeme::Plain(TokenKind::LBracket), j, j + 1) }
    else if ch == ']' { clean(Lexeme::Plain(TokenKind::RBracket), j, j + 1) }
    else if ch == '{' { clean(Lexeme::Plain(TokenKind::LBrace), j, j + 1) }
    else if ch == '}' { clean(Lexeme::Plain(TokenKind::RBrace), j, j + 1) }
    else {
        Scanned {
            lexeme: Lexeme::Error(seq![ch]),
            start: j,
            end: j + 1,
            notes: seq![Note { code: LexErrorCode::UnexpectedCharacter, message: "unexpected character '"@ + seq![ch] + "'"@, start: j, end: j + 1 }],
        }
    }
}

/// The token read from position `i`: horizontal space is skipped, then the first character
/// decides.
pub open spec fn scan(cs: Seq<char>, i: int) -> Scanned {
    let j = skip_class(cs, i, CharClass::HorizontalSpace);
    if j < 0 || j >= cs.len() {
        clean(Lexeme::Plain(TokenKind::Eof), j, j)
    } else {
        let ch = cs[j];
        if ch == '\n' {
            clean(Lexeme::Plain(TokenKind::Newline), j, skip_class(cs, j + 1, CharClass::LineFeed))
        } else if ch == '#' {
            let e = skip_class(cs, j + 1, CharClass::NotLineFeed);
            clean(Lexeme::Comment(cs.subrange(j + 1, e)), j, e)
        } else if ch == '"' {
            scan_string(cs, j, j + 1, StringPrefix::Normal)
        } else if (ch == 'f' || ch == 'r') && string_prefix(cs, ch, j + 1) is Some {
            let (prefix, body) = string_prefix(cs, ch, j + 1)->0;
            scan_string(cs, j, body, prefix)
        } else if is_digit(ch) {
            scan_number(cs, j)
        } else if ch == '_' || alphabetic(ch) {
            scan_word(cs, j)
        } else {
            scan_symbol(cs, j)
        }
    }
}

/// Every token read from position `i` to the end of the text, the end-of-file token last,
/// and every diagnostic in the order reported.
pub open spec fn lex_from(cs: Seq<char>, i: int) -> (Seq<Scanned>, Seq<Note>)
    decreases cs.len() - i,
{
    let s = scan(cs, i);
    if s.lexeme == Lexeme::Plain(TokenKind::Eof) || s.end <= i || s.end > cs.len() {
        (seq![s], s.notes)
    } else {
        let rest = lex_from(cs, s.end);
        (seq![s] + rest.0, s.notes + rest.1)
    }
}

/// A diagnostic waiting for its byte offsets: code, message, character positions.
struct Pending {
    code: LexErrorCode,
    message: String,
    start: usize,
    end: usize,
}

/// The reading of a waiting diagnostic.
spec fn pending_note(p: Pending) -> Note {
    Note { code: p.code, message: p.message@, start: p.start as int, end: p.end as int }
}

/// The readings of waiting diagnostics.
spec fn pending_notes(ps: Seq<Pending>) -> Seq<Note> {
    ps.map_values(|p: Pending| pending_note(p))
}

/// Records a diagnostic.
fn report(notes: &mut Vec<Pending>, code: LexErrorCode, message: String, start: usize, end: usize)
    ensures
        pending_notes(final(notes)@) == pending_notes(old(notes)@).push(Note { code, message: message@, start: start as int, end: end as int }),
{
    notes.push(Pending { code, message, start, end });
    assert(pending_notes(notes@) =~= pending_notes(old(notes)@).push(Note { code, message: message@, start: start as int, end: end as int }));
}

/// Whether the character at `i` is `c`.
fn char_is(cs: &Vec<char>, i: usize, c: char) -> (b: bool)
    ensures
        b == (at(cs@, i as int) == Some(c)),
{
    i < cs.len() && cs[i] == c
}

/// Whether `c` belongs to `class`.
fn char_in_class(c: char, class: CharClass) -> (b: bool)
    ensures
        b == in_class(c, class),
{
    match class {
        CharClass::HorizontalSpace => c == ' ' || c == '\t' || c == '\r',
        CharClass::LineFeed => c == '\n',
        CharClass::NotLineFeed => c != '\n',
        CharClass::IdentContinue => c == '_' || char_is_alphanumeric(c),
        CharClass::HexOrUnderscore => ('0' <= c && c <= '9') || ('a' <= c && c <= 'f') || ('A' <= c && c <= 'F') || c == '_',
        CharClass::DigitOrUnderscore => ('0' <= c && c <= '9') || c == '_',
        CharClass::NotCloseBrace => c != '}',
    }
}

/// The end of the run of `class` characters that starts at `i`.
fn skip(cs: &Vec<char>, i: usize, class: CharClass) -> (e: usize)
    requires
        i <= cs@.len(),
    ensures
        e as int == skip_class(cs@, i as int, class),
        i <= e <= cs@.len(),
{
    let mut e = i;
    while e < cs.len() && char_in_class(cs[e], class)
        invariant
            i <= e <= cs@.len(),
            skip_class(cs@, e as int, class) == skip_class(cs@, i as int, class),
        decreases cs.len() - e,
    {
        e = e + 1;
    }
    e
}

/// The characters from `from` to `to`, as a string.
fn text_of(cs: &Vec<char>, from: usize, to: usize) -> (text: String)
    requires
        from <= to <= cs@.len(),
    ensures
        text@ == cs@.subrange(from as int, to as int),
{
    let mut text = String::new();
    let mut k = from;
    while k < to
        invariant
            from <= k <= to <= cs@.len(),
            text@ == cs@.subrange(from as int, k as int),
        decreases to - k,
    {
        push_char(&mut text, cs[k]);
        assert(cs@.subrange(from as int, k + 1) =~= cs@.subrange(from as int, k as int).push(cs@[k as int]));
        k = k + 1;
    }
    text
}

/// `text` followed by one character and a closing text.
fn with_char(text: &str, c: char, close: &str) -> (out: String)
    ensures
        out@ == text@ + seq![c] + close@,
{
    let mut out = String::from_str(text);
    push_char(&mut out, c);
    let out = out.concat(close);
    assert(out@ =~= text@ + seq![c] + close@);
    out
}

/// The keyword spelled `name`, if any.
fn keyword_of(name: &str) -> (kind: Option<TokenKind>)
    ensures
        kind == keyword(name@),
{
    if text_equal(name, "let") { Some(TokenKind::Let) }
    else if text_equal(name, "var") { Some(TokenKind::Var) }
    else if text_equal(name, "fixed") { Some(TokenKind::Fixed) }
    else if text_equal(name, "fn") { Some(TokenKind::Fn) }
    else if text_equal(name, "async") { Some(TokenKind::Async) }
    else if text_equal(name, "await") { Some(TokenKind::Await) }
    else if text_equal(name, "struct") { Some(TokenKind::Struct) }
    else if text_equal(name, "impl") { Some(TokenKind::Impl) }
    else if text_equal(name, "interface") { Some(TokenKind::Interface) }
    else if text_equal(name, "satisfy") { Some(TokenKind::Satisfy) }
    else if text_equal(name, "init") { Some(TokenKind::Init) }
    else if text_equal(name, "invariant") { Some(TokenKind::Invariant) }
    else if text_equal(name, "if") { Some(TokenKind::If) }
    else if text_equal(name, "elif") { Some(TokenKind::Elif) }
    else if text_equal(name, "else") { Some(TokenKind::Else) }
    else if text_equal(name, "then") { Some(TokenKind::Then) }
    else if text_equal(name, "end") { Some(TokenKind::End) }
    else if text_equal(name, "match") { Some(TokenKind::Match) }
    else if text_equal(name, "when") { Some(TokenKind::When) }
    else if text_equal(name, "loop") { Some(TokenKind::Loop) }
    else if text_equal(name, "while") { Some(TokenKind::While) }
    else if text_equal(name, "repeat") { Some(TokenKind::Repeat) }
    else if text_equal(name, "as") { Some(TokenKind::As) }
    else if text_equal(name, "each") { Some(TokenKind::Each) }
    else if text_equal(name, "in") { Some(TokenKind::In) }
    else if text_equal(name, "break") { Some(TokenKind::Break) }
    else if text_equal(name, "continue") { Some(TokenKind::Continue) }
    else if text_equal(name, "return") { Some(TokenKind::Return) }
    else if text_equal(name, "fail") { Some(TokenKind::Fail) }
    else if text_equal(name, "or_else") { Some(TokenKind::OrElse) }
    else if text_equal(name, "attempt") { Some(TokenKind::Attempt) }
    else if text_equal(name, "failed") { Some(TokenKind::Failed) }
    else if text_equal(name, "import") { Some(TokenKind::Import) }
    else if text_equal(name, "export") { Some(TokenKind::Export) }
    else if text_equal(name, "is") { Some(TokenKind::Is) }
    else if text_equal(name, "not") { Some(TokenKind::Not) }
    else if text_equal(name, "and") { Some(TokenKind::And) }
    else if text_equal(name, "or") { Some(TokenKind::Or) }
    else if text_equal(name, "true") { Some(TokenKind::True) }
    else if text_equal(name, "false") { Some(TokenKind::False) }
    else if text_equal(name, "none") { Some(TokenKind::NoneValue) }
    else if text_equal(name, "self") { Some(TokenKind::SelfVal) }
    else if text_equal(name, "do") { Some(TokenKind::Do) }
    else if text_equal(name, "div") { Some(TokenKind::Div) }
    else { None }
}

/// Reads the identifier, keyword or `_` that starts at `j`.
fn read_word(cs: &Vec<char>, j: usize) -> (out: (TokenKind, usize))
    requires
        j < cs@.len(),
    ensures
        out.0@ == scan_word(cs@, j as int).lexeme,
        out.1 as int == scan_word(cs@, j as int).end,
        scan_word(cs@, j as int).notes.len() == 0,
        scan_word(cs@, j as int).start == j,
        j < out.1 <= cs@.len(),
{
    let n = cs.len();
    let e = skip(cs, j + 1, CharClass::IdentContinue);
    let name = text_of(cs, j, e);
    if text_equal(name.as_str(), "self") && char_is(cs, e, '!') {
        return (TokenKind::SelfMut, e + 1);
    }
    if text_equal(name.as_str(), "div") && char_is(cs, e, '=') {
        return (TokenKind::DivEq, e + 1);
    }
    if text_equal(name.as_str(), "_") {
        return (TokenKind::Discard, e);
    }
    match keyword_of(name.as_str()) {
        Some(kind) => (kind, e),
        None => (TokenKind::Identifier(name), e),
    }
}

/// Records a malformed-number diagnostic when `raw` is not well formed.
fn check_number(raw: &String, j: usize, e: usize, notes: &mut Vec<Pending>)
    ensures
        pending_notes(final(notes)@) == pending_notes(old(notes)@) + number_notes(raw@, j as int, e as int),
{
    if number_is_well_formed(raw.as_str()) {
        assert(pending_notes(notes@) =~= pending_notes(old(notes)@) + number_notes(raw@, j as int, e as int));
    } else {
        let message = String::from_str("malformed numeric literal '").concat(raw.as_str()).concat("'");
        report(notes, LexErrorCode::InvalidNumber, message, j, e);
        assert(pending_notes(notes@) =~= pending_notes(old(notes)@) + number_notes(raw@, j as int, e as int));
    }
}

/// Reads the numeric literal that starts with the digit at `j`.
fn read_number(cs: &Vec<char>, j: usize, notes: &mut Vec<Pending>) -> (out: (TokenKind, usize))
    requires
        j < cs@.len(),
        is_digit(cs@[j as int]),
        notes_within(old(notes)@, cs@.len() as int),
    ensures
        notes_within(final(notes)@, cs@.len() as int),
        out.0@ == scan_number(cs@, j as int).lexeme,
        out.1 as int == scan_number(cs@, j as int).end,
        pending_notes(final(notes)@) == pending_notes(old(notes)@) + scan_number(cs@, j as int).notes,
        scan_number(cs@, j as int).start == j,
        j < out.1 <= cs@.len(),
{
    let n = cs.len();
    if cs[j] == '0' && j + 1 < n && (cs[j + 1] == 'x' || cs[j + 1] == 'X' || cs[j + 1] == 'b' || cs[j + 1] == 'B' || cs[j + 1] == 'o' || cs[j + 1] == 'O') {
        let e = skip(cs, j + 2, CharClass::HexOrUnderscore);
        let raw = text_of(cs, j, e);
        check_number(&raw, j, e, notes);
        proof {
            lemma_within_extend(old(notes)@, notes@, number_notes(raw@, j as int, e as int), cs@.len() as int);
        }
        return (TokenKind::IntLiteral(raw), e);
    }
    let d = skip(cs, j + 1, CharClass::DigitOrUnderscore);
    let fraction = char_is(cs, d, '.') && d + 1 < n
        && (('0' <= cs[d + 1] && cs[d + 1] <= '9') || cs[d + 1] == '_' || cs[d + 1] == 'e' || cs[d + 1] == 'E');
    let f = if fraction { skip(cs, d + 1, CharClass::DigitOrUnderscore) } else { d };
    let exponent = char_is(cs, f, 'e') || char_is(cs, f, 'E');
    let (raw, g) = if exponent {
        let s = if char_is(cs, f + 1, '+') || char_is(cs, f + 1, '-') { f + 2 } else { f + 1 };
        let g = skip(cs, s, CharClass::DigitOrUnderscore);
        let head = text_of(cs, j, f);
        let mut raw = head;
        push_char(&mut raw, 'e');
        let tail = text_of(cs, f + 1, g);
        let raw = raw.concat(tail.as_str());
        assert(raw@ =~= cs@.subrange(j as int, f as int) + seq!['e'] + cs@.subrange(f + 1, g as int));
        (raw, g)
    } else {
        (text_of(cs, j, f), f)
    };
    check_number(&raw, j, g, notes);
    proof {
        lemma_within_extend(old(notes)@, notes@, number_notes(raw@, j as int, g as int), cs@.len() as int);
    }
    if fraction || exponent {
        (TokenKind::FloatLiteral(raw), g)
    } else {
        (TokenKind::IntLiteral(raw), g)
    }
}

/// An error token for a character that starts no token, and its diagnostic.
fn unexpected(ch: char, j: usize, message: String, notes: &mut Vec<Pending>) -> (out: (TokenKind, usize))
    requires
        j < usize::MAX,
    ensures
        out.0@ == Lexeme::Error(seq![ch]),
        out.1 == j + 1,
        pending_notes(final(notes)@) == pending_notes(old(notes)@).push(Note { code: LexErrorCode::UnexpectedCharacter, message: message@, start: j as int, end: j + 1 }),
{
    let mut text = String::new();
    push_char(&mut text, ch);
    report(notes, LexErrorCode::UnexpectedCharacter, message, j, j + 1);
    (TokenKind::Error(text), j + 1)
}

/// Reads the operator or delimiter at `j`, or reports a character that starts no token.
fn read_symbol(cs: &Vec<char>, j: usize, notes: &mut Vec<Pending>) -> (out: (TokenKind, usize))
    requires
        j < cs@.len(),
        notes_within(old(notes)@, cs@.len() as int),
    ensures
        notes_within(final(notes)@, cs@.len() as int),
        out.0@ == scan_symbol(cs@, j as int).lexeme,
        out.1 as int == scan_symbol(cs@, j as int).end,
        pending_notes(final(notes)@) == pending_notes(old(notes)@) + scan_symbol(cs@, j as int).notes,
        scan_symbol(cs@, j as int).start == j,
        j < out.1 <= cs@.len(),
{
    let n = cs.len();
    let ch = cs[j];
    let eq = char_is(cs, j + 1, '=');
    let start_notes = Ghost(pending_notes(notes@));
    let out = if ch == '+' { if eq { (TokenKind::PlusEq, j + 2) } else { (TokenKind::Plus, j + 1) } }
    else if ch == '-' { if eq { (TokenKind::MinusEq, j + 2) } else { (TokenKind::Minus, j + 1) } }
    else if ch == '*' { if eq { (TokenKind::StarEq, j + 2) } else { (TokenKind::Star, j + 1) } }
    else if ch == '/' {
        if char_is(cs, j + 1, '/') {
            if char_is(cs, j + 2, '=') { (TokenKind::SlashSlashEq, j + 3) } else { (TokenKind::SlashSlash, j + 2) }
        } else if eq { (TokenKind::SlashEq, j + 2) } else { (TokenKind::Slash, j + 1) }
    }
    else if ch == '%' { if eq { (TokenKind::PercentEq, j + 2) } else { (TokenKind::Percent, j + 1) } }
    else if ch == '=' { if eq { (TokenKind::EqualEqual, j + 2) } else { (TokenKind::Equal, j + 1) } }
    else if ch == '!' { if eq { (TokenKind::BangEqual, j + 2) } else { (TokenKind::Bang, j + 1) } }
    else if ch == '<' { if eq { (TokenKind::LessEqual, j + 2) } else { (TokenKind::Less, j + 1) } }
    else if ch == '>' { if eq { (TokenKind::GreaterEqual, j + 2) } else { (TokenKind::Greater, j + 1) } }
    else if ch == '|' {
        if char_is(cs, j + 1, '>') {
            (TokenKind::Pipeline, j + 2)
        } else {
            let out = unexpected(ch, j, String::from_str("unexpected character '|', did you mean '|>'?"), notes);
            assert(pending_notes(notes@) =~= start_notes@ + scan_symbol(cs@, j as int).notes);
            out
        }
    }
    else if ch == '.' { if char_is(cs, j + 1, '.') { (TokenKind::DotDot, j + 2) } else { (TokenKind::Dot, j + 1) } }
    else if ch == '?' { if char_is(cs, j + 1, '.') { (TokenKind::QuestionDot, j + 2) } else { (TokenKind::Question, j + 1) } }
    else if ch == ':' { (TokenKind::Colon, j + 1) }
    else if ch == ',' { (TokenKind::Comma, j + 1) }
    else if ch == '(' { (TokenKind::LParen, j + 1) }
    else if ch == ')' { (TokenKind::RParen, j + 1) }
    else if ch == '[' { (TokenKind::LBracket, j + 1) }
    else if ch == ']' { (TokenKind::RBracket, j + 1) }
    else if ch == '{' { (TokenKind::LBrace, j + 1) }
    else if ch == '}' { (TokenKind::RBrace, j + 1) }
    else {
        let message = with_char("unexpected character '", ch, "'");
        let out = unexpected(ch, j, message, notes);
        assert(pending_notes(notes@) =~= start_notes@ + scan_symbol(cs@, j as int).notes);
        out
    };
    assert(pending_notes(notes@) =~= start_notes@ + scan_symbol(cs@, j as int).notes);
    proof {
        lemma_within_extend(old(notes)@, notes@, scan_symbol(cs@, j as int).notes, cs@.len() as int);
    }
    out
}

/// A digit string's value does not fall as digits are added.
proof fn lemma_value_grows(s: Seq<char>, m: int)
    requires
        all_radix_digits(s, 16),
        0 <= m <= s.len(),
    ensures
        0 <= digits_value(s.take(m), 16) <= digits_value(s, 16),
    decreases s.len() - m,
{
    if m < s.len() {
        lemma_value_grows(s, m + 1);
        assert(s.take(m + 1).drop_last() =~= s.take(m));
        assert(is_radix_digit(s[m], 16));
    } else {
        assert(s.take(m) =~= s);
        lemma_value_nonnegative(s);
    }
}

/// A digit string's value is not negative.
proof fn lemma_value_nonnegative(s: Seq<char>)
    requires
        all_radix_digits(s, 16),
    ensures
        digits_value(s, 16) >= 0,
    decreases s.len(),
{
    if s.len() > 0 {
        assert(all_radix_digits(s.drop_last(), 16)) by {
            assert forall|i: int| 0 <= i < s.drop_last().len() implies is_radix_digit(#[trigger] s.drop_last()[i], 16) by {
                assert(s.drop_last()[i] == s[i]);
            }
        }
        lemma_value_nonnegative(s.drop_last());
        assert(is_radix_digit(s[s.len() - 1], 16));
    }
}

/// The character a `\u{..}` escape's hexadecimal text names, if any.
fn escape_char(hex: &String) -> (c: Option<char>)
    ensures
        c == escape_scalar(hex@),
{
    let chars = chars_of(hex.as_str());
    let n = chars.len();
    let first: usize = if n > 0 && chars[0] == '+' { 1 } else { 0 };
    let ghost digits = if hex@.len() > 0 && hex@[0] == '+' { hex@.drop_first() } else { hex@ };
    assert(digits =~= hex@.skip(first as int));
    if first == n {
        assert(digits.len() == 0);
        assert(hex_u32(hex@) is None);
        return None;
    }
    let mut value: u64 = 0;
    let mut k = first;
    assert(digits.take(0) =~= Seq::<char>::empty());
    while k < n
        invariant
            chars@ == hex@,
            n == chars@.len(),
            first <= k <= n,
            digits == hex@.skip(first as int),
            digits == (if hex@.len() > 0 && hex@[0] == '+' { hex@.drop_first() } else { hex@ }),
            value as int == digits_value(digits.take(k - first), 16),
            value <= 0xFFFF_FFFF,
            all_radix_digits(digits.take(k - first), 16),
        decreases n - k,
    {
        let c = chars[k];
        assert(digits[k - first] == c);
        let d: u64 = if '0' <= c && c <= '9' {
            (c as u32 - '0' as u32) as u64
        } else if 'a' <= c && c <= 'f' {
            (c as u32 - 'a' as u32 + 10) as u64
        } else if 'A' <= c && c <= 'F' {
            (c as u32 - 'A' as u32 + 10) as u64
        } else {
            assert(!is_radix_digit(digits[k - first], 16));
            assert(!all_radix_digits(digits, 16));
            assert(hex_u32(hex@) is None);
            return None;
        };
        assert(digits.take(k - first + 1).drop_last() =~= digits.take(k - first));
        assert(digits.take(k - first + 1).last() == c);
        let next = value * 16 + d;
        assert(all_radix_digits(digits.take(k - first + 1), 16)) by {
            assert forall|i: int| 0 <= i < k - first + 1 implies is_radix_digit(#[trigger] digits.take(k - first + 1)[i], 16) by {
                if i < k - first {
                    assert(digits.take(k - first + 1)[i] == digits.take(k - first)[i]);
                }
            }
        }
        assert(next as int == digits_value(digits.take(k - first + 1), 16));
        if next > 0xFFFF_FFFF {
            proof {
                if all_radix_digits(digits, 16) {
                    lemma_value_grows(digits, k - first + 1);
                }
                assert(hex_u32(hex@) is None);
            }
            return None;
        }
        value = next;
        k = k + 1;
    }
    assert(digits.take(k - first) =~= digits);
    assert(hex_u32(hex@) == Some(value as u32));
    let code = value as u32;
    match char_from_code(code) {
        Some(ch) => {
            assert(ch == code as char);
            Some(ch)
        },
        None => None,
    }
}

/// The character a one-character escape stands for.
fn simple_escape_of(c: char) -> (d: Option<char>)
    ensures
        d == simple_escape(c),
{
    if c == 'n' { Some('\n') }
    else if c == 'r' { Some('\r') }
    else if c == 't' { Some('\t') }
    else if c == '\\' { Some('\\') }
    else if c == '"' { Some('"') }
    else if c == '0' { Some('\0') }
    else { None }
}

/// Every waiting diagnostic lies within the text.
spec fn notes_within(ps: Seq<Pending>, n: int) -> bool {
    forall|k: int| 0 <= k < ps.len() ==> (#[trigger] pending_notes(ps)[k]).start <= n && pending_notes(ps)[k].end <= n
}

/// Appending diagnostics that lie within the text keeps every diagnostic within it.
proof fn lemma_within_extend(before: Seq<Pending>, after: Seq<Pending>, extra: Seq<Note>, n: int)
    requires
        pending_notes(after) == pending_notes(before) + extra,
        notes_within(before, n),
        forall|k: int| 0 <= k < extra.len() ==> (#[trigger] extra[k]).start <= n && extra[k].end <= n,
    ensures
        notes_within(after, n),
{
    assert forall|k: int| 0 <= k < after.len() implies (#[trigger] pending_notes(after)[k]).start <= n && pending_notes(after)[k].end <= n by {
        assert(pending_notes(after).len() == after.len());
        if k < before.len() {
            assert(pending_notes(after)[k] == pending_notes(before)[k]);
        } else {
            assert(pending_notes(after)[k] == extra[k - before.len()]);
        }
    }
}

/// Reads a string literal whose opening quote ends before `c`.
fn read_string(cs: &Vec<char>, start: usize, c: usize, prefix: StringPrefix, notes: &mut Vec<Pending>) -> (out: (TokenKind, usize))
    requires
        start < c <= cs@.len(),
        notes_within(old(notes)@, cs@.len() as int),
    ensures
        out.0@ == scan_string(cs@, start as int, c as int, prefix).lexeme,
        out.1 as int == scan_string(cs@, start as int, c as int, prefix).end,
        pending_notes(final(notes)@) == pending_notes(old(notes)@) + scan_string(cs@, start as int, c as int, prefix).notes,
        scan_string(cs@, start as int, c as int, prefix).start == start,
        start < out.1 <= cs@.len(),
        notes_within(final(notes)@, cs@.len() as int),
{
    let n = cs.len();
    let multiline = char_is(cs, c, '"') && char_is(cs, c + 1, '"');
    let mut p = if multiline { c + 2 } else { c };
    let raw = match prefix {
        StringPrefix::Raw => true,
        StringPrefix::FormatRaw => true,
        _ => false,
    };
    let mut content = String::new();
    let ghost target = scan_string(cs@, start as int, c as int, prefix);
    let ghost base = pending_notes(notes@);
    let ghost mut local: Seq<Note> = Seq::empty();
    assert(pending_notes(notes@) =~= base + local);
    assert(content@ =~= Seq::<char>::empty());
    proof {
        lemma_body_start(cs@, start as int, p as int, prefix, multiline, content@, local);
    }
    loop
        invariant
            n == cs@.len(),
            start < c <= p <= n,
            raw == (prefix == StringPrefix::Raw || prefix == StringPrefix::FormatRaw),
            target == scan_string(cs@, start as int, c as int, prefix),
            base == pending_notes(old(notes)@),
            multiline == (at(cs@, c as int) == Some('"') && at(cs@, c + 1) == Some('"')),
            string_body(cs@, start as int, p as int, prefix, multiline, content@, local) == target,
            target.start == start,
            pending_notes(notes@) == base + local,
            notes_within(notes@, n as int),
        decreases n - p,
    {
        if p >= n {
            report(notes, LexErrorCode::UnterminatedString, String::from_str("unterminated string literal before EOF"), start, p);
            assert(pending_notes(notes@) =~= base + target.notes);
            return (TokenKind::Error(String::from_str("unterminated string")), p);
        }
        let ch = cs[p];
        if ch == '"' {
            if !multiline {
                let text = nfc_string(content.as_str());
                return (TokenKind::StringLiteral { content: text, prefix, is_multiline: false }, p + 1);
            }
            if char_is(cs, p + 1, '"') && char_is(cs, p + 2, '"') {
                let text = nfc_string(content.as_str());
                return (TokenKind::StringLiteral { content: text, prefix, is_multiline: true }, p + 3);
            }
            push_char(&mut content, '"');
            p = p + 1;
        } else if ch == '\\' && !raw {
            if p + 1 >= n {
                report(notes, LexErrorCode::UnterminatedString, String::from_str("unterminated string literal"), start, p + 1);
                assert(pending_notes(notes@) =~= base + target.notes);
                return (TokenKind::Error(String::from_str("unterminated string")), p + 1);
            }
            let e = cs[p + 1];
            match simple_escape_of(e) {
                Some(d) => {
                    push_char(&mut content, d);
                    p = p + 2;
                },
                None => {
                    if e == 'u' && char_is(cs, p + 2, '{') {
                        let h = skip(cs, p + 3, CharClass::NotCloseBrace);
                        if h >= n {
                            let ghost note = Note {
                                code: LexErrorCode::UnexpectedCharacter,
                                message: "unterminated unicode escape sequence"@,
                                start: start as int,
                                end: h as int,
                            };
                            report(notes, LexErrorCode::UnexpectedCharacter, String::from_str("unterminated unicode escape sequence"), start, h);
                            proof {
                                local = local.push(note);
                            }
                            assert(pending_notes(notes@) =~= base + local);
                            p = h;
                        } else {
                            let hex = text_of(cs, p + 3, h);
                            match escape_char(&hex) {
                                Some(d) => {
                                    push_char(&mut content, d);
                                    p = h + 1;
                                },
                                None => {
                                    let message = String::from_str("invalid unicode escape '\\u{").concat(hex.as_str()).concat("}'");
                                    let ghost note = Note {
                                        code: LexErrorCode::InvalidUnicodeEscape,
                                        message: message@,
                                        start: start as int,
                                        end: h + 1,
                                    };
                                    report(notes, LexErrorCode::InvalidUnicodeEscape, message, start, h + 1);
                                    proof {
                                        local = local.push(note);
                                    }
                                    assert(pending_notes(notes@) =~= base + local);
                                    p = h + 1;
                                },
                            }
                        }
                    } else {
                        let message = with_char("unknown escape sequence '\\", e, "'");
                        let ghost note = Note {
                            code: LexErrorCode::UnknownEscape,
                            message: message@,
                            start: start as int,
                            end: p + 2,
                        };
                        report(notes, LexErrorCode::UnknownEscape, message, start, p + 2);
                        proof {
                            local = local.push(note);
                        }
                        assert(pending_notes(notes@) =~= base + local);
                        push_char(&mut content, e);
                        p = p + 2;
                    }
                },
            }
        } else if ch == '\n' && !multiline {
            report(notes, LexErrorCode::UnterminatedString, String::from_str("single-line string literal cannot span across newlines"), start, p + 1);
            assert(pending_notes(notes@) =~= base + target.notes);
            return (TokenKind::Error(String::from_str("unterminated string")), p + 1);
        } else {
            push_char(&mut content, ch);
            p = p + 1;
        }
    }
}

/// The prefix of a string literal that starts with `ch` (an `f` or `r`) before `k`, and
/// where its body starts.
fn prefix_at(cs: &Vec<char>, ch: char, k: usize) -> (found: Option<(StringPrefix, usize)>)
    requires
        1 <= k <= cs@.len(),
    ensures
        match (found, string_prefix(cs@, ch, k as int)) {
            (Some((p, b)), Some((q, c))) => p == q && b as int == c && k < b <= cs@.len(),
            (None, None) => true,
            _ => false,
        },
{
    let n = cs.len();
    if char_is(cs, k, '"') {
        if ch == 'f' {
            Some((StringPrefix::Format, k + 1))
        } else {
            Some((StringPrefix::Raw, k + 1))
        }
    } else if k < n && char_is(cs, k + 1, '"') && ((ch == 'f' && char_is(cs, k, 'r')) || (ch == 'r' && char_is(cs, k, 'f'))) {
        Some((StringPrefix::FormatRaw, k + 2))
    } else {
        None
    }
}

/// Reads the token at position `i`.
fn read_token(cs: &Vec<char>, i: usize, notes: &mut Vec<Pending>) -> (out: (TokenKind, usize, usize))
    requires
        i <= cs@.len(),
        notes_within(old(notes)@, cs@.len() as int),
    ensures
        out.0@ == scan(cs@, i as int).lexeme,
        out.1 as int == scan(cs@, i as int).start,
        out.2 as int == scan(cs@, i as int).end,
        pending_notes(final(notes)@) == pending_notes(old(notes)@) + scan(cs@, i as int).notes,
        notes_within(final(notes)@, cs@.len() as int),
        i <= out.1 <= out.2 <= cs@.len(),
        out.0@ == Lexeme::Plain(TokenKind::Eof) || i < out.2,
{
    let n = cs.len();
    let j = skip(cs, i, CharClass::HorizontalSpace);
    if j >= n {
        assert(pending_notes(notes@) =~= pending_notes(old(notes)@) + scan(cs@, i as int).notes);
        return (TokenKind::Eof, j, j);
    }
    let ch = cs[j];
    if ch == '\n' {
        let e = skip(cs, j + 1, CharClass::LineFeed);
        assert(pending_notes(notes@) =~= pending_notes(old(notes)@) + scan(cs@, i as int).notes);
        return (TokenKind::Newline, j, e);
    }
    if ch == '#' {
        let e = skip(cs, j + 1, CharClass::NotLineFeed);
        assert(pending_notes(notes@) =~= pending_notes(old(notes)@) + scan(cs@, i as int).notes);
        return (TokenKind::Comment(text_of(cs, j + 1, e)), j, e);
    }
    if ch == '"' {
        let (kind, end) = read_string(cs, j, j + 1, StringPrefix::Normal, notes);
        return (kind, j, end);
    }
    if ch == 'f' || ch == 'r' {
        match prefix_at(cs, ch, j + 1) {
            Some((prefix, body)) => {
                let (kind, end) = read_string(cs, j, body, prefix, notes);
                return (kind, j, end);
            },
            None => {},
        }
    }
    if '0' <= ch && ch <= '9' {
        let (kind, end) = read_number(cs, j, notes);
        return (kind, j, end);
    }
    if ch == '_' || char_is_alphabetic(ch) {
        let (kind, end) = read_word(cs, j);
        assert(pending_notes(notes@) =~= pending_notes(old(notes)@) + scan(cs@, i as int).notes);
        return (kind, j, end);
    }
    let (kind, end) = read_symbol(cs, j, notes);
    (kind, j, end)
}

/// A token reads as a scanned token: the reading of its kind, and the byte offsets of the
/// scanned character positions.
pub open spec fn token_reads(cs: Seq<char>, t: Token, s: Scanned) -> bool {
    &&& t.kind@ == s.lexeme
    &&& t.span.start == byte_offset(cs, s.start)
    &&& t.span.end == byte_offset(cs, s.end)
}

/// A diagnostic reads as a note: same code and message, and the byte offsets of the note's
/// character positions.
pub open spec fn diagnostic_reads(cs: Seq<char>, d: LexDiagnostic, n: Note) -> bool {
    &&& d.code == n.code
    &&& d.message@ == n.message
    &&& d.span.start == byte_offset(cs, n.start)
    &&& d.span.end == byte_offset(cs, n.end)
}

/// `tokens` and `diagnostics` are what lexing `cs` gives.
pub open spec fn lexed(cs: Seq<char>, tokens: Seq<Token>, diagnostics: Seq<LexDiagnostic>) -> bool {
    let (scanned, notes) = lex_from(cs, 0);
    &&& tokens.len() == scanned.len()
    &&& forall|k: int| 0 <= k < tokens.len() ==> token_reads(cs, #[trigger] tokens[k], scanned[k])
    &&& diagnostics.len() == notes.len()
    &&& forall|k: int| 0 <= k < diagnostics.len() ==> diagnostic_reads(cs, #[trigger] diagnostics[k], notes[k])
}

/// The UTF-8 width of a character.
fn width_of(c: char) -> (w: usize)
    ensures
        w == char_width(c),
{
    let u = c as u32;
    if u < 0x80 {
        1
    } else if u < 0x800 {
        2
    } else if u < 0x10000 {
        3
    } else {
        4
    }
}

/// The bytes of a prefix grow by the width of the next character.
proof fn lemma_byte_len_step(cs: Seq<char>, i: int)
    requires
        0 <= i < cs.len(),
    ensures
        byte_len(cs.take(i + 1)) == byte_len(cs.take(i)) + char_width(cs[i]),
{
    assert(cs.take(i + 1).drop_last() =~= cs.take(i));
}

/// A prefix has no more bytes than the whole text.
proof fn lemma_byte_len_prefix(cs: Seq<char>, i: int)
    requires
        0 <= i <= cs.len(),
    ensures
        byte_len(cs.take(i)) <= byte_len(cs),
    decreases cs.len() - i,
{
    if i < cs.len() {
        lemma_byte_len_step(cs, i);
        lemma_byte_len_prefix(cs, i + 1);
    } else {
        assert(cs.take(i) =~= cs);
    }
}

/// Lexer state: the source's characters and the byte offset of every character position.
pub struct Lexer {
    chars: Vec<char>,
    offsets: Vec<usize>,
}

/// `offsets` holds the byte offset of every character position of `cs`.
spec fn offsets_of(cs: Seq<char>, offsets: Seq<usize>) -> bool {
    &&& offsets.len() == cs.len() + 1
    &&& forall|i: int| 0 <= i <= cs.len() ==> #[trigger] offsets[i] == byte_offset(cs, i)
}

/// Converts waiting diagnostics to diagnostics with byte offsets.
fn settle(pending: Vec<Pending>, offsets: &Vec<usize>, cs: Ghost<Seq<char>>) -> (diagnostics: Vec<LexDiagnostic>)
    requires
        offsets_of(cs@, offsets@),
        notes_within(pending@, cs@.len() as int),
    ensures
        diagnostics@.len() == pending@.len(),
        forall|k: int| 0 <= k < diagnostics@.len() ==> diagnostic_reads(cs@, #[trigger] diagnostics@[k], pending_notes(pending@)[k]),
{
    let mut diagnostics: Vec<LexDiagnostic> = Vec::new();
    let total = pending.len();
    let mut rest = pending;
    let ghost all = rest@;
    let mut k: usize = 0;
    while rest.len() > 0
        invariant
            all.len() == total,
            offsets_of(cs@, offsets@),
            notes_within(all, cs@.len() as int),
            k + rest@.len() == all.len(),
            forall|q: int| 0 <= q < rest@.len() ==> #[trigger] rest@[q] == all[k + q],
            diagnostics@.len() == k,
            forall|q: int| 0 <= q < k ==> diagnostic_reads(cs@, #[trigger] diagnostics@[q], pending_notes(all)[q]),
        decreases rest.len(),
    {
        assert(rest@[0] == all[k as int]);
        let ghost rest_before = rest@;
        let p = rest.remove(0);
        assert forall|q: int| 0 <= q < rest@.len() implies #[trigger] rest@[q] == all[k + 1 + q] by {
            assert(rest@[q] == rest_before[q + 1]);
        }
        assert(pending_notes(all)[k as int] == pending_note(all[k as int]));
        let span = SourceSpan { start: offsets[p.start], end: offsets[p.end] };
        diagnostics.push(LexDiagnostic { code: p.code, message: p.message, span });
        k = k + 1;
    }
    diagnostics
}

impl Lexer {
    #[verifier::type_invariant]
    spec fn offsets_match(self) -> bool {
        offsets_of(self.chars@, self.offsets@)
    }

    /// The source text.
    pub closed spec fn text(&self) -> Seq<char> {
        self.chars@
    }

    /// Creates a lexer for `source`.
    pub fn new(source: &str) -> (lexer: Lexer)
        requires
            byte_len(source@) <= usize::MAX,
        ensures
            lexer.text() == source@,
    {
        let chars = chars_of(source);
        let n = chars.len();
        let mut offsets: Vec<usize> = Vec::new();
        offsets.push(0);
        assert(chars@.take(0) =~= Seq::<char>::empty());
        let mut i: usize = 0;
        while i < n
            invariant
                chars@ == source@,
                n == chars@.len(),
                byte_len(chars@) <= usize::MAX,
                i <= n,
                offsets@.len() == i + 1,
                forall|q: int| 0 <= q <= i ==> #[trigger] offsets@[q] == byte_offset(chars@, q),
            decreases n - i,
        {
            proof {
                lemma_byte_len_step(chars@, i as int);
                lemma_byte_len_prefix(chars@, i + 1);
            }
            let next = offsets[i] + width_of(chars[i]);
            offsets.push(next);
            i = i + 1;
        }
        Lexer { chars, offsets }
    }

    /// Tokenizes the entire source: every token, the end-of-file token last, and every
    /// diagnostic.
    pub fn tokenize(self) -> (out: (Vec<Token>, Vec<LexDiagnostic>))
        ensures
            lexed(self.text(), out.0@, out.1@),
    {
        proof {
            use_type_invariant(&self);
        }
        let ghost cs = self.chars@;
        assert(self.text() == cs);
        let chars = &self.chars;
        let offsets = &self.offsets;
        let n = chars.len();
        let ghost all = lex_from(cs, 0);
        let mut tokens: Vec<Token> = Vec::new();
        let mut pending: Vec<Pending> = Vec::new();
        let mut i: usize = 0;
        let ghost mut done: Seq<Scanned> = Seq::empty();
        assert(done + lex_from(cs, 0).0 =~= all.0);
        assert(pending_notes(pending@) + lex_from(cs, 0).1 =~= all.1);
        loop
            invariant
                chars@ == cs,
                self.text() == cs,
                n == cs.len(),
                offsets_of(cs, offsets@),
                all == lex_from(cs, 0),
                i <= n,
                done + lex_from(cs, i as int).0 == all.0,
                pending_notes(pending@) + lex_from(cs, i as int).1 == all.1,
                tokens@.len() == done.len(),
                forall|k: int| 0 <= k < done.len() ==> token_reads(cs, #[trigger] tokens@[k], done[k]),
                notes_within(pending@, n as int),
            decreases n - i,
        {
            let ghost before = pending_notes(pending@);
            let ghost s = scan(cs, i as int);
            let (kind, start, end) = read_token(chars, i, &mut pending);
            let is_eof = match &kind {
                TokenKind::Eof => true,
                _ => false,
            };
            let token = Token { kind, span: SourceSpan { start: offsets[start], end: offsets[end] } };
            let ghost done_before = done;
            let ghost tokens_before = tokens@;
            tokens.push(token);
            proof {
                done = done.push(s);
                assert forall|k: int| 0 <= k < done.len() implies token_reads(cs, #[trigger] tokens@[k], done[k]) by {
                    if k < done_before.len() {
                        assert(tokens@[k] == tokens_before[k]);
                    }
                }
            }
            if is_eof {
                assert(s.lexeme == Lexeme::Plain(TokenKind::Eof));
                assert(done =~= all.0);
                assert(pending_notes(pending@) =~= all.1);
                let diagnostics = settle(pending, offsets, Ghost(cs));
                assert(tokens@.len() == all.0.len());
                assert(forall|k: int| 0 <= k < tokens@.len() ==> token_reads(cs, #[trigger] tokens@[k], all.0[k]));
                assert(diagnostics@.len() == all.1.len());
                assert(forall|k: int| 0 <= k < diagnostics@.len() ==> diagnostic_reads(cs, #[trigger] diagnostics@[k], all.1[k]));
                return (tokens, diagnostics);
            }
            assert(s.lexeme != Lexeme::Plain(TokenKind::Eof));
            assert(done_before.push(s) + lex_from(cs, end as int).0 =~= done_before + (seq![s] + lex_from(cs, end as int).0));
            assert(pending_notes(pending@) + lex_from(cs, end as int).1 =~= before + (s.notes + lex_from(cs, end as int).1));
            i = end;
        }
    }
}

/// A string body read from `p` ends between `p` and the end of the text, and is no
/// end-of-file token.
proof fn lemma_body_bounds(cs: Seq<char>, start: int, p: int, prefix: StringPrefix, multiline: bool, content: Seq<char>, notes: Seq<Note>)
    requires
        0 <= p <= cs.len(),
    ensures
        p <= string_body(cs, start, p, prefix, multiline, content, notes).end <= cs.len(),
        string_body(cs, start, p, prefix, multiline, content, notes).lexeme != Lexeme::Plain(TokenKind::Eof),
    decreases cs.len() - p,
{
    if p < cs.len() {
        if cs[p] == '"' {
            if multiline && !(at(cs, p + 1) == Some('"') && at(cs, p + 2) == Some('"')) {
                lemma_body_bounds(cs, start, p + 1, prefix, multiline, content.push('"'), notes);
            }
        } else if cs[p] == '\\' && !(prefix == StringPrefix::Raw || prefix == StringPrefix::FormatRaw) {
            if p + 1 < cs.len() {
                let c = cs[p + 1];
                match simple_escape(c) {
                    Some(d) => lemma_body_bounds(cs, start, p + 2, prefix, multiline, content.push(d), notes),
                    None => if c == 'u' && at(cs, p + 2) == Some('{') {
                        let h = skip_class(cs, p + 3, CharClass::NotCloseBrace);
                        lemma_skip_bounds(cs, p + 3, CharClass::NotCloseBrace);
                        let hex = cs.subrange(p + 3, h);
                        if h >= cs.len() {
                            let note = Note {
                                code: LexErrorCode::UnexpectedCharacter,
                                message: "unterminated unicode escape sequence"@,
                                start,
                                end: h,
                            };
                            lemma_body_bounds(cs, start, h, prefix, multiline, content, notes.push(note));
                        } else {
                            match escape_scalar(hex) {
                                Some(d) => lemma_body_bounds(cs, start, h + 1, prefix, multiline, content.push(d), notes),
                                None => {
                                    let note = Note {
                                        code: LexErrorCode::InvalidUnicodeEscape,
                                        message: "invalid unicode escape '\\u{"@ + hex + "}'"@,
                                        start,
                                        end: h + 1,
                                    };
                                    lemma_body_bounds(cs, start, h + 1, prefix, multiline, content, notes.push(note));
                                },
                            }
                        }
                    } else {
                        let note = Note {
                            code: LexErrorCode::UnknownEscape,
                            message: "unknown escape sequence '\\"@ + seq![c] + "'"@,
                            start,
                            end: p + 2,
                        };
                        lemma_body_bounds(cs, start, p + 2, prefix, multiline, content.push(c), notes.push(note));
                    },
                }
            }
        } else if !(cs[p] == '\n' && !multiline) {
            lemma_body_bounds(cs, start, p + 1, prefix, multiline, content.push(cs[p]), notes);
        }
    }
}

/// A token read from `i` starts at or after `i` and ends inside the text; the end-of-file
/// token is empty and sits at the end of the text, and any other token holds at least one
/// character.
pub proof fn lemma_scan_bounds(cs: Seq<char>, i: int)
    requires
        0 <= i <= cs.len(),
    ensures
        i <= scan(cs, i).start <= scan(cs, i).end <= cs.len(),
        scan(cs, i).lexeme == Lexeme::Plain(TokenKind::Eof) ==> scan(cs, i).start == cs.len() && scan(cs, i).end == cs.len(),
        scan(cs, i).lexeme != Lexeme::Plain(TokenKind::Eof) ==> scan(cs, i).start < scan(cs, i).end,
{
    let j = skip_class(cs, i, CharClass::HorizontalSpace);
    lemma_skip_bounds(cs, i, CharClass::HorizontalSpace);
    if j < cs.len() {
        let ch = cs[j];
        if ch == '\n' {
            lemma_skip_bounds(cs, j + 1, CharClass::LineFeed);
        } else if ch == '#' {
            lemma_skip_bounds(cs, j + 1, CharClass::NotLineFeed);
        } else if ch == '"' {
            lemma_body_start(cs, j, j + 1, StringPrefix::Normal, false, Seq::empty(), Seq::empty());
            lemma_body_start(cs, j, j + 3, StringPrefix::Normal, true, Seq::empty(), Seq::empty());
            if at(cs, j + 1) == Some('"') && at(cs, j + 2) == Some('"') {
                lemma_body_bounds(cs, j, j + 3, StringPrefix::Normal, true, Seq::empty(), Seq::empty());
            } else {
                lemma_body_bounds(cs, j, j + 1, StringPrefix::Normal, false, Seq::empty(), Seq::empty());
            }
        } else if (ch == 'f' || ch == 'r') && string_prefix(cs, ch, j + 1) is Some {
            let (prefix, body) = string_prefix(cs, ch, j + 1)->0;
            if at(cs, body) == Some('"') && at(cs, body + 1) == Some('"') {
                lemma_body_start(cs, j, body + 2, prefix, true, Seq::empty(), Seq::empty());
                lemma_body_bounds(cs, j, body + 2, prefix, true, Seq::empty(), Seq::empty());
            } else {
                lemma_body_start(cs, j, body, prefix, false, Seq::empty(), Seq::empty());
                lemma_body_bounds(cs, j, body, prefix, false, Seq::empty(), Seq::empty());
            }
        } else if is_digit(ch) {
            lemma_skip_bounds(cs, j + 1, CharClass::DigitOrUnderscore);
            lemma_skip_bounds(cs, j + 2, CharClass::HexOrUnderscore);
            let d = skip_class(cs, j + 1, CharClass::DigitOrUnderscore);
            lemma_skip_bounds(cs, d + 1, CharClass::DigitOrUnderscore);
            let fraction = at(cs, d) == Some('.') && (at(cs, d + 1) matches Some(c) && fraction_start(c));
            let f = if fraction { skip_class(cs, d + 1, CharClass::DigitOrUnderscore) } else { d };
            if at(cs, f) == Some('e') || at(cs, f) == Some('E') {
                lemma_skip_bounds(cs, f + 1, CharClass::DigitOrUnderscore);
                if f + 2 <= cs.len() {
                    lemma_skip_bounds(cs, f + 2, CharClass::DigitOrUnderscore);
                }
            }
        } else if ch == '_' || alphabetic(ch) {
            lemma_skip_bounds(cs, j + 1, CharClass::IdentContinue);
        }
    }
}

/// Reading every token from `i` gives a non-empty list whose only end-of-file token is the
/// last, at the end of the text; every token lies within the text, from `i` on, and none
/// starts before the previous one ends.
pub proof fn lemma_lex_from_shape(cs: Seq<char>, i: int)
    requires
        0 <= i <= cs.len(),
    ensures
        lex_from(cs, i).0.len() >= 1,
        lex_from(cs, i).0.last().lexeme == Lexeme::Plain(TokenKind::Eof),
        lex_from(cs, i).0.last().start == cs.len(),
        lex_from(cs, i).0.last().end == cs.len(),
        forall|k: int| 0 <= k < lex_from(cs, i).0.len() - 1 ==> (#[trigger] lex_from(cs, i).0[k]).lexeme != Lexeme::Plain(TokenKind::Eof),
        forall|k: int| 0 <= k < lex_from(cs, i).0.len() ==> i <= (#[trigger] lex_from(cs, i).0[k]).start <= lex_from(cs, i).0[k].end <= cs.len(),
        forall|k: int| 0 <= k < lex_from(cs, i).0.len() - 1 ==> (#[trigger] lex_from(cs, i).0[k]).end <= lex_from(cs, i).0[k + 1].start,
    decreases cs.len() - i,
{
    let s = scan(cs, i);
    lemma_scan_bounds(cs, i);
    if s.lexeme == Lexeme::Plain(TokenKind::Eof) || s.end <= i || s.end > cs.len() {
        if s.lexeme != Lexeme::Plain(TokenKind::Eof) {
            assert(s.start < s.end);
        }
    } else {
        lemma_lex_from_shape(cs, s.end);
        let rest = lex_from(cs, s.end).0;
        let all = lex_from(cs, i).0;
        assert(all == seq![s] + rest);
        assert forall|k: int| 0 <= k < all.len() implies i <= (#[trigger] all[k]).start <= all[k].end <= cs.len() by {
            if k > 0 {
                assert(all[k] == rest[k - 1]);
            }
        }
        assert forall|k: int| 0 <= k < all.len() - 1 implies (#[trigger] all[k]).lexeme != Lexeme::Plain(TokenKind::Eof) by {
            if k > 0 {
                assert(all[k] == rest[k - 1]);
            }
        }
        assert forall|k: int| 0 <= k < all.len() - 1 implies (#[trigger] all[k]).end <= all[k + 1].start by {
            assert(all[k + 1] == rest[k]);
            if k > 0 {
                assert(all[k] == rest[k - 1]);
            }
        }
    }
}

/// Byte offsets grow with character positions.
pub proof fn lemma_offset_monotone(cs: Seq<char>, a: int, b: int)
    requires
        0 <= a <= b <= cs.len(),
    ensures
        byte_offset(cs, a) <= byte_offset(cs, b),
    decreases b - a,
{
    if a < b {
        lemma_byte_len_step(cs, b - 1);
        lemma_offset_monotone(cs, a, b - 1);
    }
}

/// Lexing keeps every token span inside the source, emits spans in order (no token starts
/// before the previous one ends), and ends the stream with exactly one end-of-file token,
/// empty and at the end of the text.
pub proof fn law_spans_in_order(source: Seq<char>, tokens: Seq<Token>, diagnostics: Seq<LexDiagnostic>)
    requires
        lexed(source, tokens, diagnostics),
    ensures
        tokens.len() >= 1,
        tokens.last().kind == TokenKind::Eof,
        tokens.last().span.start == byte_len(source),
        tokens.last().span.end == byte_len(source),
        forall|k: int| 0 <= k < tokens.len() - 1 ==> (#[trigger] tokens[k]).kind != TokenKind::Eof,
        forall|k: int| 0 <= k < tokens.len() ==> (#[trigger] tokens[k]).span.start <= tokens[k].span.end <= byte_len(source),
        forall|k: int| 0 <= k < tokens.len() - 1 ==> (#[trigger] tokens[k]).span.end <= tokens[k + 1].span.start,
{
    lemma_lex_from_shape(source, 0);
    let ts = lex_from(source, 0).0;
    assert(source.take(source.len() as int) =~= source);
    assert(token_reads(source, tokens[tokens.len() - 1], ts[ts.len() - 1]));
    assert forall|k: int| 0 <= k < tokens.len() - 1 implies (#[trigger] tokens[k]).kind != TokenKind::Eof by {
        assert(token_reads(source, tokens[k], ts[k]));
    }
    assert forall|k: int| 0 <= k < tokens.len() implies (#[trigger] tokens[k]).span.start <= tokens[k].span.end <= byte_len(source) by {
        assert(token_reads(source, tokens[k], ts[k]));
        lemma_offset_monotone(source, ts[k].start, ts[k].end);
        lemma_offset_monotone(source, ts[k].end, source.len() as int);
    }
    assert forall|k: int| 0 <= k < tokens.len() - 1 implies (#[trigger] tokens[k]).span.end <= tokens[k + 1].span.start by {
        assert(token_reads(source, tokens[k], ts[k]));
        assert(token_reads(source, tokens[k + 1], ts[k + 1]));
        lemma_offset_monotone(source, ts[k].end, ts[k + 1].start);
    }
}

} // verus!
