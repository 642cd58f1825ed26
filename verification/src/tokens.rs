//! Token and error types produced by the scanner, together with their
//! mathematical views.

use vstd::prelude::*;
use vstd::string::StringExecFns;

verus! {

/// The lexical category of a token.
///
/// Number tokens carry no numeric payload here: the numeric value of a number
/// token is fully determined by its lexeme, which the token keeps verbatim.
#[allow(non_camel_case_types)]
#[derive(Debug, Clone, Copy, PartialEq, Eq)]
pub enum TokenType {
    // Single-character tokens
    LEFT_PAREN,
    RIGHT_PAREN,
    LEFT_BRACE,
    RIGHT_BRACE,
    COMMA,
    DOT,
    MINUS,
    PLUS,
    SEMICOLON,
    SLASH,
    STAR,
    // One or two character tokens
    BANG,
    BANG_EQUAL,
    EQUAL,
    EQUAL_EQUAL,
    GREATER,
    GREATER_EQUAL,
    LESS,
    LESS_EQUAL,
    // Literals
    IDENTIFIER,
    STRING,
    NUMBER,
    // Keywords
    AND,
    CLASS,
    ELSE,
    FALSE,
    FUN,
    FOR,
    IF,
    NIL,
    OR,
    PRINT,
    RETURN,
    SUPER,
    THIS,
    TRUE,
    VAR,
    WHILE,
    EOF,
}

/// The keyword table: the kind reserved for a given spelling, if any.
pub open spec fn keyword_kind(lex: Seq<char>) -> Option<TokenType> {
    if lex == "and"@ {
        Some(TokenType::AND)
    } else if lex == "class"@ {
        Some(TokenType::CLASS)
    } else if lex == "else"@ {
        Some(TokenType::ELSE)
    } else if lex == "false"@ {
        Some(TokenType::FALSE)
    } else if lex == "fun"@ {
        Some(TokenType::FUN)
    } else if lex == "for"@ {
        Some(TokenType::FOR)
    } else if lex == "if"@ {
        Some(TokenType::IF)
    } else if lex == "nil"@ {
        Some(TokenType::NIL)
    } else if lex == "or"@ {
        Some(TokenType::OR)
    } else if lex == "print"@ {
        Some(TokenType::PRINT)
    } else if lex == "return"@ {
        Some(TokenType::RETURN)
    } else if lex == "super"@ {
        Some(TokenType::SUPER)
    } else if lex == "this"@ {
        Some(TokenType::THIS)
    } else if lex == "true"@ {
        Some(TokenType::TRUE)
    } else if lex == "var"@ {
        Some(TokenType::VAR)
    } else if lex == "while"@ {
        Some(TokenType::WHILE)
    } else {
        None
    }
}

/// The kind an identifier-shaped lexeme scans to: its reserved keyword kind
/// when the spelling is in the keyword table, a plain identifier otherwise.
pub open spec fn identifier_kind(lex: Seq<char>) -> TokenType {
    match keyword_kind(lex) {
        Some(t) => t,
        None => TokenType::IDENTIFIER,
    }
}

impl TokenType {
    /// Exact-match lookup in the keyword table.
    pub(crate) fn to_keyword(s: &str) -> (t: Option<TokenType>)
        ensures
            t == keyword_kind(s@),
    {
        let lex = String::from_str(s);
        if lex == String::from_str("and") {
            Some(TokenType::AND)
        } else if lex == String::from_str("class") {
            Some(TokenType::CLASS)
        } else if lex == String::from_str("else") {
            Some(TokenType::ELSE)
        } else if lex == String::from_str("false") {
            Some(TokenType::FALSE)
        } else if lex == String::from_str("fun") {
            Some(TokenType::FUN)
        } else if lex == String::from_str("for") {
            Some(TokenType::FOR)
        } else if lex == String::from_str("if") {
            Some(TokenType::IF)
        } else if lex == String::from_str("nil") {
            Some(TokenType::NIL)
        } else if lex == String::from_str("or") {
            Some(TokenType::OR)
        } else if lex == String::from_str("print") {
            Some(TokenType::PRINT)
        } else if lex == String::from_str("return") {
            Some(TokenType::RETURN)
        } else if lex == String::from_str("super") {
            Some(TokenType::SUPER)
        } else if lex == String::from_str("this") {
            Some(TokenType::THIS)
        } else if lex == String::from_str("true") {
            Some(TokenType::TRUE)
        } else if lex == String::from_str("var") {
            Some(TokenType::VAR)
        } else if lex == String::from_str("while") {
            Some(TokenType::WHILE)
        } else {
            None
        }
    }
}

/// The mathematical value of a token: its kind, the source characters of its
/// lexeme, and the 1-based line on which it was finalized.
pub ghost struct SpecToken {
    pub kind: TokenType,
    pub lexeme: Seq<char>,
    pub line: nat,
}

/// A classified, line-tagged unit of lexical output.
#[derive(Debug)]
pub struct Token {
    pub token_type: TokenType,
    pub lexeme: String,
    pub line: usize,
}

impl View for Token {
    type V = SpecToken;

    open spec fn view(&self) -> SpecToken {
        SpecToken { kind: self.token_type, lexeme: self.lexeme@, line: self.line as nat }
    }
}

/// The mathematical value of a lexical error: the 1-based line at the point
/// of detection and the diagnostic message.
pub ghost struct SpecLexError {
    pub line: nat,
    pub message: Seq<char>,
}

/// A fatal lexical error; the scan stops at the first one.
#[derive(Debug)]
pub enum LoxError {
    ParseError { line: usize, message: String },
}

impl View for LoxError {
    type V = SpecLexError;

    open spec fn view(&self) -> SpecLexError {
        match self {
            LoxError::ParseError { line, message } => SpecLexError {
                line: *line as nat,
                message: message@,
            },
        }
    }
}

/// The diagnostic for a character that begins no token.
pub open spec fn unexpected_character_message() -> Seq<char> {
    "Unexpected character."@
}

/// The diagnostic for a string literal whose closing quote never comes.
pub open spec fn unterminated_string_message() -> Seq<char> {
    "Unterminated string."@
}

} // verus!
