//! The mathematical model of scanning: a recursive specification that maps a
//! source text to its token sequence or to its first lexical error.

use vstd::prelude::*;

use crate::tokens::identifier_kind;
use crate::tokens::unexpected_character_message;
use crate::tokens::unterminated_string_message;
use crate::tokens::SpecLexError;
use crate::tokens::SpecToken;
use crate::tokens::TokenType;

verus! {

/// An ASCII decimal digit.
pub open spec fn is_digit(c: char) -> bool {
    '0' <= c && c <= '9'
}

/// An ASCII letter or underscore: a character that may begin an identifier.
pub open spec fn is_alpha(c: char) -> bool {
    ('a' <= c && c <= 'z') || ('A' <= c && c <= 'Z') || c == '_'
}

/// A character that may continue an identifier.
pub open spec fn is_alnum(c: char) -> bool {
    is_alpha(c) || is_digit(c)
}

/// Insignificant whitespace other than a newline.
pub open spec fn is_blank(c: char) -> bool {
    c == ' ' || c == '\r' || c == '\t'
}

/// The kind of a token made of exactly one fixed character, if any.
/// A slash is not here: it is dispatched separately, since two of them in a
/// row open a line comment.
pub open spec fn single_char_kind(c: char) -> Option<TokenType> {
    if c == '(' {
        Some(TokenType::LEFT_PAREN)
    } else if c == ')' {
        Some(TokenType::RIGHT_PAREN)
    } else if c == '{' {
        Some(TokenType::LEFT_BRACE)
    } else if c == '}' {
        Some(TokenType::RIGHT_BRACE)
    } else if c == ',' {
        Some(TokenType::COMMA)
    } else if c == '.' {
        Some(TokenType::DOT)
    } else if c == '-' {
        Some(TokenType::MINUS)
    } else if c == '+' {
        Some(TokenType::PLUS)
    } else if c == ';' {
        Some(TokenType::SEMICOLON)
    } else if c == '*' {
        Some(TokenType::STAR)
    } else {
        None
    }
}

/// For an operator that may pair with a following `=`: its one-character kind
/// and its two-character kind.
pub open spec fn operator_kinds(c: char) -> Option<(TokenType, TokenType)> {
    if c == '!' {
        Some((TokenType::BANG, TokenType::BANG_EQUAL))
    } else if c == '=' {
        Some((TokenType::EQUAL, TokenType::EQUAL_EQUAL))
    } else if c == '<' {
        Some((TokenType::LESS, TokenType::LESS_EQUAL))
    } else if c == '>' {
        Some((TokenType::GREATER, TokenType::GREATER_EQUAL))
    } else {
        None
    }
}

/// The first position at or after `i` whose character fails `p`, or the end
/// of the text. Positions outside the text are returned unchanged.
pub open spec fn run_end(s: Seq<char>, i: int, p: spec_fn(char) -> bool) -> int
    decreases s.len() - i,
{
    if 0 <= i && i < s.len() && p(s[i]) {
        run_end(s, i + 1, p)
    } else {
        i
    }
}

/// The number of newline characters of `s` in the index range `[i, j)`.
pub open spec fn newlines(s: Seq<char>, i: int, j: int) -> nat
    decreases j - i,
{
    if i < j {
        (if 0 <= i && i < s.len() && s[i] == '\n' {
            1nat
        } else {
            0nat
        }) + newlines(s, i + 1, j)
    } else {
        0
    }
}

/// The end-of-input token: empty lexeme, tagged with the final line.
pub open spec fn eof_token(line: nat) -> SpecToken {
    SpecToken { kind: TokenType::EOF, lexeme: Seq::empty(), line }
}

/// Prefixes tokens onto the outcome of the rest of a scan; an error in the
/// rest is the error of the whole.
pub open spec fn prepend_all(
    ts: Seq<SpecToken>,
    r: Result<Seq<SpecToken>, SpecLexError>,
) -> Result<Seq<SpecToken>, SpecLexError> {
    match r {
        Ok(rest) => Ok(ts + rest),
        Err(e) => Err(e),
    }
}

/// What scanning `s` from position `i` on line `line` produces: the token
/// sequence of the remaining text, terminated by the end-of-input token, or
/// the first lexical error. Each step consumes a maximal lexeme (longest
/// match), so the definition recurses at the position just past it.
pub open spec fn scan_from(s: Seq<char>, i: int, line: nat) -> Result<
    Seq<SpecToken>,
    SpecLexError,
>
    decreases s.len() - i,
    via scan_from_decreases
{
    if i < 0 || i >= s.len() {
        Ok(seq![eof_token(line)])
    } else {
        let c = s[i];
        match single_char_kind(c) {
            Some(k) => prepend_all(
                seq![SpecToken { kind: k, lexeme: s.subrange(i, i + 1), line }],
                scan_from(s, i + 1, line),
            ),
            None => match operator_kinds(c) {
                Some((k1, k2)) => {
                    if i + 1 < s.len() && s[i + 1] == '=' {
                        prepend_all(
                            seq![SpecToken { kind: k2, lexeme: s.subrange(i, i + 2), line }],
                            scan_from(s, i + 2, line),
                        )
                    } else {
                        prepend_all(
                            seq![SpecToken { kind: k1, lexeme: s.subrange(i, i + 1), line }],
                            scan_from(s, i + 1, line),
                        )
                    }
                },
                None => {
                    if c == '/' {
                        if i + 1 < s.len() && s[i + 1] == '/' {
                            // A line comment: skip to the newline (or the end)
                            // without consuming it, and emit nothing.
                            scan_from(s, comment_end(s, i + 2), line)
                        } else {
                            prepend_all(
                                seq![
                                    SpecToken {
                                        kind: TokenType::SLASH,
                                        lexeme: s.subrange(i, i + 1),
                                        line,
                                    },
                                ],
                                scan_from(s, i + 1, line),
                            )
                        }
                    } else if is_blank(c) {
                        scan_from(s, i + 1, line)
                    } else if c == '\n' {
                        scan_from(s, i + 1, line + 1)
                    } else if c == '"' {
                        let q = string_body_end(s, i + 1);
                        let nl = newlines(s, i + 1, q);
                        if q >= s.len() {
                            Err(
                                SpecLexError {
                                    line: line + nl,
                                    message: unterminated_string_message(),
                                },
                            )
                        } else {
                            prepend_all(
                                seq![
                                    SpecToken {
                                        kind: TokenType::STRING,
                                        lexeme: s.subrange(i + 1, q),
                                        line: line + nl,
                                    },
                                ],
                                scan_from(s, q + 1, line + nl),
                            )
                        }
                    } else if is_digit(c) {
                        let e1 = digit_run_end(s, i);
                        if e1 + 1 < s.len() && s[e1] == '.' && is_digit(s[e1 + 1]) {
                            let e2 = digit_run_end(s, e1 + 1);
                            prepend_all(
                                seq![
                                    SpecToken {
                                        kind: TokenType::NUMBER,
                                        lexeme: s.subrange(i, e2),
                                        line,
                                    },
                                ],
                                scan_from(s, e2, line),
                            )
                        } else {
                            prepend_all(
                                seq![
                                    SpecToken {
                                        kind: TokenType::NUMBER,
                                        lexeme: s.subrange(i, e1),
                                        line,
                                    },
                                ],
                                scan_from(s, e1, line),
                            )
                        }
                    } else if is_alpha(c) {
                        let e = alnum_run_end(s, i);
                        prepend_all(
                            seq![
                                SpecToken {
                                    kind: identifier_kind(s.subrange(i, e)),
                                    lexeme: s.subrange(i, e),
                                    line,
                                },
                            ],
                            scan_from(s, e, line),
                        )
                    } else {
                        Err(SpecLexError { line, message: unexpected_character_message() })
                    }
                },
            },
        }
    }
}

/// The digit predicate, as a single named value so that every statement
/// about digit runs speaks of one and the same function.
pub open spec fn digit_pred() -> spec_fn(char) -> bool {
    |c: char| is_digit(c)
}

/// The identifier-character predicate as a single named value.
pub open spec fn alnum_pred() -> spec_fn(char) -> bool {
    |c: char| is_alnum(c)
}

/// The predicate keeping a line comment open as a single named value.
pub open spec fn not_newline_pred() -> spec_fn(char) -> bool {
    |c: char| c != '\n'
}

/// The predicate keeping a string body open as a single named value.
pub open spec fn not_quote_pred() -> spec_fn(char) -> bool {
    |c: char| c != '"'
}

/// The end of the maximal digit run starting at `i`.
pub open spec fn digit_run_end(s: Seq<char>, i: int) -> int {
    run_end(s, i, digit_pred())
}

/// The end of the maximal identifier-character run starting at `i`.
pub open spec fn alnum_run_end(s: Seq<char>, i: int) -> int {
    run_end(s, i, alnum_pred())
}

/// The position of the newline ending a line comment, or the end of the text.
pub open spec fn comment_end(s: Seq<char>, i: int) -> int {
    run_end(s, i, not_newline_pred())
}

/// The position of the closing quote of a string body begun at `i`, or the
/// end of the text when the string is unterminated.
pub open spec fn string_body_end(s: Seq<char>, i: int) -> int {
    run_end(s, i, not_quote_pred())
}

#[via_fn]
proof fn scan_from_decreases(s: Seq<char>, i: int, line: nat) {
    if 0 <= i && i < s.len() {
        lemma_run_end_bounds(s, i + 2, not_newline_pred());
        lemma_run_end_bounds(s, i + 1, not_quote_pred());
        lemma_run_end_bounds(s, i, digit_pred());
        lemma_run_end_bounds(s, i + 1, digit_pred());
        lemma_run_end_bounds(s, digit_run_end(s, i) + 1, digit_pred());
        lemma_run_end_bounds(s, i, alnum_pred());
        lemma_run_end_bounds(s, i + 1, alnum_pred());
    }
}

/// Each run predicate means what its name says, applied to any character.
pub proof fn lemma_pred_defs(c: char)
    ensures
        digit_pred()(c) == is_digit(c),
        alnum_pred()(c) == is_alnum(c),
        not_newline_pred()(c) == (c != '\n'),
        not_quote_pred()(c) == (c != '"'),
{
}

/// Decides `is_digit`.
pub(crate) fn digit_char(c: char) -> (b: bool)
    ensures
        b == is_digit(c),
{
    '0' <= c && c <= '9'
}

/// Decides `is_alpha`.
pub(crate) fn alpha_char(c: char) -> (b: bool)
    ensures
        b == is_alpha(c),
{
    ('a' <= c && c <= 'z') || ('A' <= c && c <= 'Z') || c == '_'
}

/// Decides `is_alnum`.
pub(crate) fn alnum_char(c: char) -> (b: bool)
    ensures
        b == is_alnum(c),
{
    alpha_char(c) || digit_char(c)
}

/// A maximal run neither moves backwards nor runs past the end of the text.
pub proof fn lemma_run_end_bounds(s: Seq<char>, i: int, p: spec_fn(char) -> bool)
    ensures
        i <= run_end(s, i, p),
        i <= s.len() ==> run_end(s, i, p) <= s.len(),
    decreases s.len() - i,
{
    if 0 <= i && i < s.len() && p(s[i]) {
        lemma_run_end_bounds(s, i + 1, p);
    }
}

/// Every character inside a maximal run satisfies the run's predicate, and
/// the character just past it, if any, does not.
pub proof fn lemma_run_end_chars(s: Seq<char>, i: int, p: spec_fn(char) -> bool)
    requires
        0 <= i <= s.len(),
    ensures
        forall|j: int| i <= j < run_end(s, i, p) ==> p(#[trigger] s[j]),
        run_end(s, i, p) < s.len() ==> !p(s[run_end(s, i, p)]),
    decreases s.len() - i,
{
    if 0 <= i && i < s.len() && p(s[i]) {
        lemma_run_end_chars(s, i + 1, p);
    }
}

/// Newline counting splits at any midpoint.
pub proof fn lemma_newlines_split(s: Seq<char>, i: int, j: int, k: int)
    requires
        i <= j <= k,
    ensures
        newlines(s, i, k) == newlines(s, i, j) + newlines(s, j, k),
    decreases j - i,
{
    if i < j {
        lemma_newlines_split(s, i + 1, j, k);
    }
}

/// A range without newline characters counts no newlines.
pub proof fn lemma_newlines_none(s: Seq<char>, i: int, j: int)
    requires
        forall|m: int| i <= m < j ==> s[m] != '\n',
    ensures
        newlines(s, i, j) == 0,
    decreases j - i,
{
    if i < j {
        lemma_newlines_none(s, i + 1, j);
    }
}

/// Prefixing no tokens changes nothing.
pub proof fn lemma_prepend_all_empty(r: Result<Seq<SpecToken>, SpecLexError>)
    ensures
        prepend_all(Seq::empty(), r) == r,
{
    match r {
        Ok(rest) => {
            assert(Seq::<SpecToken>::empty() + rest =~= rest);
        },
        Err(_) => {},
    }
}

/// Prefixing token runs one after the other is prefixing their concatenation.
pub proof fn lemma_prepend_all_assoc(
    a: Seq<SpecToken>,
    b: Seq<SpecToken>,
    r: Result<Seq<SpecToken>, SpecLexError>,
)
    ensures
        prepend_all(a, prepend_all(b, r)) == prepend_all(a + b, r),
{
    match r {
        Ok(rest) => {
            assert(a + (b + rest) =~= (a + b) + rest);
        },
        Err(_) => {},
    }
}

} // verus!
