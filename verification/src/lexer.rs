//! Token classification for Aipo source text.
use vstd::prelude::*;

pub mod scan;

pub use scan::{LexDiagnostic, LexErrorCode, Lexer, SourceSpan, Token};

verus! {

/// Prefix variant for string literals.
#[derive(Debug, Clone, Copy, PartialEq, Eq, Hash)]
pub enum StringPrefix {
    /// Standard string `"..."`
    Normal,
    /// Format string `f"..."`
    Format,
    /// Raw string `r"..."`
    Raw,
    /// Format raw string `fr"..."`
    FormatRaw,
}

impl Default for StringPrefix {
    fn default() -> (prefix: StringPrefix)
        ensures
            prefix == StringPrefix::Normal,
    {
        StringPrefix::Normal
    }
}

/// Token classification covering the entire Aipo surface.
#[derive(Debug, Clone, PartialEq, Eq, Hash)]
pub enum TokenKind {
    /// `let`
    Let,
    /// `var`
    Var,
    /// `fixed`
    Fixed,
    /// `fn`
    Fn,
    /// `async`
    Async,
    /// `await`
    Await,
    /// `struct`
    Struct,
    /// `impl`
    Impl,
    /// `interface`
    Interface,
    /// `satisfy`
    Satisfy,
    /// `init`
    Init,
    /// `invariant`
    Invariant,
    /// `if`
    If,
    /// `elif`
    Elif,
    /// `else`
    Else,
    /// `then`
    Then,
    /// `end`
    End,
    /// `match`
    Match,
    /// `when`
    When,
    /// `loop`
    Loop,
    /// `while`
    While,
    /// `repeat`
    Repeat,
    /// `as`
    As,
    /// `each`
    Each,
    /// `in`
    In,
    /// `break`
    Break,
    /// `continue`
    Continue,
    /// `return`
    Return,
    /// `fail`
    Fail,
    /// `or_else`
    OrElse,
    /// `attempt`
    Attempt,
    /// `failed`
    Failed,
    /// `import`
    Import,
    /// `export`
    Export,
    /// `is`
    Is,
    /// `not`
    Not,
    /// `and`
    And,
    /// `or`
    Or,
    /// `true`
    True,
    /// `false`
    False,
    /// `none`
    NoneValue,
    /// `self`
    SelfVal,
    /// `self!`
    SelfMut,
    /// `do`
    Do,
    /// Identifier with name (NFC normalized)
    Identifier(String),
    /// Wildcard / discard marker `_`
    Discard,
    /// Integer literal string representation
    IntLiteral(String),
    /// Floating point literal string representation
    FloatLiteral(String),
    /// String literal token with prefix and multiline status
    StringLiteral {
        /// Content inside the quotes (with escapes processed if applicable)
        content: String,
        /// String prefix (`Normal`, `Format`, `Raw`, `FormatRaw`)
        prefix: StringPrefix,
        /// True if enclosed in triple quotes `"""..."""`
        is_multiline: bool,
    },
    /// `+`
    Plus,
    /// `-`
    Minus,
    /// `*`
    Star,
    /// `/`
    Slash,
    /// `div`
    Div,
    /// `%`
    Percent,
    /// `+=`
    PlusEq,
    /// `-=`
    MinusEq,
    /// `*=`
    StarEq,
    /// `/=`
    SlashEq,
    /// `//` (integer division)
    SlashSlash,
    /// `//=`
    SlashSlashEq,
    /// `div=`
    DivEq,
    /// `%=`
    PercentEq,
    /// `==`
    EqualEqual,
    /// `!=`
    BangEqual,
    /// `<`
    Less,
    /// `<=`
    LessEqual,
    /// `>`
    Greater,
    /// `>=`
    GreaterEqual,
    /// `=`
    Equal,
    /// `|>` (pipeline)
    Pipeline,
    /// `..` (range)
    DotDot,
    /// `.`
    Dot,
    /// `?.`
    QuestionDot,
    /// `!`
    Bang,
    /// `?`
    Question,
    /// `:`
    Colon,
    /// `,`
    Comma,
    /// `(`
    LParen,
    /// `)`
    RParen,
    /// `[`
    LBracket,
    /// `]`
    RBracket,
    /// `{`
    LBrace,
    /// `}`
    RBrace,
    /// Significant newline terminating statements
    Newline,
    /// Comment `# ...`
    Comment(String),
    /// End of file
    Eof,
    /// Lexical error token with description
    Error(String),
}

} // verus!
