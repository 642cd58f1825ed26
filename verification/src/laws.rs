//! General laws of the scanning model, stated and proved once and for all.

use vstd::prelude::*;

use crate::model::alnum_pred;
use crate::model::alnum_run_end;
use crate::model::comment_end;
use crate::model::digit_pred;
use crate::model::digit_run_end;
use crate::model::eof_token;
use crate::model::is_alnum;
use crate::model::is_alpha;
use crate::model::is_blank;
use crate::model::is_digit;
use crate::model::lemma_newlines_none;
use crate::model::lemma_newlines_split;
use crate::model::lemma_pred_defs;
use crate::model::lemma_run_end_bounds;
use crate::model::lemma_run_end_chars;
use crate::model::newlines;
use crate::model::not_newline_pred;
use crate::model::not_quote_pred;
use crate::model::operator_kinds;
use crate::model::prepend_all;
use crate::model::scan_from;
use crate::model::single_char_kind;
use crate::model::string_body_end;
use crate::tokens::identifier_kind;
use crate::tokens::keyword_kind;
use crate::tokens::SpecLexError;
use crate::tokens::SpecToken;
use crate::tokens::TokenType;

verus! {

/// Text from `i` on that holds nothing significant: blanks, newlines and
/// line comments only.
pub open spec fn insignificant_from(s: Seq<char>, i: int) -> bool
    decreases s.len() - i,
    via insignificant_from_decreases
{
    if i < 0 || i >= s.len() {
        true
    } else if is_blank(s[i]) || s[i] == '\n' {
        insignificant_from(s, i + 1)
    } else if s[i] == '/' && i + 1 < s.len() && s[i + 1] == '/' {
        insignificant_from(s, comment_end(s, i + 2))
    } else {
        false
    }
}

#[via_fn]
proof fn insignificant_from_decreases(s: Seq<char>, i: int) {
    if 0 <= i && i < s.len() {
        lemma_run_end_bounds(s, i + 2, not_newline_pred());
    }
}

/// Law: scanning a source of nothing but whitespace and comments yields
/// exactly one token — the end-of-input token — on the final line of the
/// text: the starting line plus every newline of the text.
pub proof fn lemma_insignificant_scan(s: Seq<char>, i: int, line: nat)
    requires
        0 <= i <= s.len(),
        insignificant_from(s, i),
    ensures
        scan_from(s, i, line) == Ok::<Seq<SpecToken>, SpecLexError>(
            seq![eof_token((line + newlines(s, i, s.len() as int)) as nat)],
        ),
    decreases s.len() - i,
{
    let len = s.len() as int;
    if i >= len {
        assert(newlines(s, i, len) == 0);
    } else if is_blank(s[i]) {
        lemma_insignificant_scan(s, i + 1, line);
        assert(scan_from(s, i, line) == scan_from(s, i + 1, line));
    } else if s[i] == '\n' {
        lemma_insignificant_scan(s, i + 1, line + 1);
        assert(scan_from(s, i, line) == scan_from(s, i + 1, line + 1));
    } else {
        let e = comment_end(s, i + 2);
        lemma_run_end_bounds(s, i + 2, not_newline_pred());
        lemma_run_end_chars(s, i + 2, not_newline_pred());
        lemma_insignificant_scan(s, e, line);
        assert forall|m: int| i <= m < e implies s[m] != '\n' by {
            lemma_pred_defs(s[m]);
        };
        lemma_newlines_none(s, i, e);
        lemma_newlines_split(s, i, e, len);
        assert(scan_from(s, i, line) == scan_from(s, e, line));
    }
}

/// Law: a source that is only whitespace and comments scans, from its first
/// line, to the single end-of-input token on its final line.
pub proof fn lemma_insignificant_source(s: Seq<char>)
    requires
        insignificant_from(s, 0),
    ensures
        scan_from(s, 0, 1) == Ok::<Seq<SpecToken>, SpecLexError>(
            seq![eof_token((1 + newlines(s, 0, s.len() as int)) as nat)],
        ),
{
    lemma_insignificant_scan(s, 0, 1);
}

/// Law: whenever an operator's second character is present and is `=`, the
/// scan emits the single two-character operator token — never the
/// one-character token followed by an equals token.
pub proof fn lemma_two_char_operator(
    s: Seq<char>,
    i: int,
    line: nat,
    k1: TokenType,
    k2: TokenType,
)
    requires
        0 <= i,
        i + 1 < s.len(),
        operator_kinds(s[i]) == Some((k1, k2)),
        s[i + 1] == '=',
    ensures
        scan_from(s, i, line) == prepend_all(
            seq![SpecToken { kind: k2, lexeme: s.subrange(i, i + 2), line }],
            scan_from(s, i + 2, line),
        ),
{
}

/// Law (round trip): a source that is exactly one identifier outside the
/// keyword table scans to the identifier token whose lexeme is the whole
/// input text, followed only by the end-of-input token.
pub proof fn lemma_identifier_round_trip(s: Seq<char>)
    requires
        s.len() > 0,
        is_alpha(s[0]),
        forall|j: int| 0 <= j < s.len() ==> is_alnum(#[trigger] s[j]),
        keyword_kind(s) is None,
    ensures
        scan_from(s, 0, 1) == Ok::<Seq<SpecToken>, SpecLexError>(
            seq![SpecToken { kind: TokenType::IDENTIFIER, lexeme: s, line: 1 }, eof_token(1)],
        ),
{
    let len = s.len() as int;
    lemma_run_end_bounds(s, 0, alnum_pred());
    lemma_run_end_chars(s, 0, alnum_pred());
    let e = alnum_run_end(s, 0);
    if e < len {
        lemma_pred_defs(s[e]);
        assert(false);
    }
    assert(s.subrange(0, len) =~= s);
    let idt = SpecToken { kind: TokenType::IDENTIFIER, lexeme: s, line: 1 };
    assert(scan_from(s, len, 1) == Ok::<Seq<SpecToken>, SpecLexError>(seq![eof_token(1)]));
    assert(seq![idt] + seq![eof_token(1)] =~= seq![idt, eof_token(1)]);
}

/// Law (keyword precedence): wherever identifier scanning applies, a maximal
/// lexeme that spells a keyword is emitted with that keyword's kind — never
/// as an identifier — whatever surrounds it.
pub proof fn lemma_keyword_precedence(s: Seq<char>, i: int, line: nat, t: TokenType)
    requires
        0 <= i < s.len(),
        is_alpha(s[i]),
        keyword_kind(s.subrange(i, alnum_run_end(s, i))) == Some(t),
    ensures
        t != TokenType::IDENTIFIER,
        scan_from(s, i, line) == prepend_all(
            seq![SpecToken { kind: t, lexeme: s.subrange(i, alnum_run_end(s, i)), line }],
            scan_from(s, alnum_run_end(s, i), line),
        ),
{
}

/// One scanning step that emits one token and continues: the whole result's
/// line numbers are bounded and ordered as the law of line tracking states.
proof fn lemma_lines_step(
    s: Seq<char>,
    i: int,
    line: nat,
    toks: Seq<SpecToken>,
    tok: SpecToken,
    i2: int,
    line2: nat,
)
    requires
        0 <= i2 <= s.len(),
        scan_from(s, i, line) == prepend_all(seq![tok], scan_from(s, i2, line2)),
        scan_from(s, i, line) == Ok::<Seq<SpecToken>, SpecLexError>(toks),
        line <= tok.line,
        tok.line <= line2,
        line + newlines(s, i, s.len() as int) == line2 + newlines(s, i2, s.len() as int),
    ensures
        toks.len() >= 1,
        toks[toks.len() - 1] == eof_token((line + newlines(s, i, s.len() as int)) as nat),
        forall|j: int| 0 <= j < toks.len() ==> line <= #[trigger] toks[j].line,
        forall|j: int, k: int|
            #![trigger toks[j], toks[k]]
            0 <= j <= k < toks.len() ==> toks[j].line <= toks[k].line,
    decreases s.len() - i2, 1int,
{
    match scan_from(s, i2, line2) {
        Ok(rest) => {
            assert(toks == seq![tok] + rest);
            lemma_line_tracking(s, i2, line2, rest);
            assert(toks[toks.len() - 1] == rest[rest.len() - 1]);
            assert forall|j: int| 0 <= j < toks.len() implies line <= #[trigger] toks[j].line by {
                if j > 0 {
                    assert(toks[j] == rest[j - 1]);
                }
            };
            assert forall|j: int, k: int|
                #![trigger toks[j], toks[k]]
                0 <= j <= k < toks.len() implies toks[j].line <= toks[k].line by {
                if j > 0 {
                    assert(toks[j] == rest[j - 1]);
                    assert(toks[k] == rest[k - 1]);
                } else if k > 0 {
                    assert(toks[k] == rest[k - 1]);
                    assert(line2 <= rest[k - 1].line);
                }
            };
        },
        Err(_) => {
            assert(false);
        },
    }
}

/// One scanning step that emits nothing and continues: the law of line
/// tracking carries over unchanged.
proof fn lemma_lines_skip(s: Seq<char>, i: int, line: nat, toks: Seq<SpecToken>, i2: int, line2: nat)
    requires
        0 <= i2 <= s.len(),
        scan_from(s, i, line) == scan_from(s, i2, line2),
        scan_from(s, i, line) == Ok::<Seq<SpecToken>, SpecLexError>(toks),
        line <= line2,
        line + newlines(s, i, s.len() as int) == line2 + newlines(s, i2, s.len() as int),
    ensures
        toks.len() >= 1,
        toks[toks.len() - 1] == eof_token((line + newlines(s, i, s.len() as int)) as nat),
        forall|j: int| 0 <= j < toks.len() ==> line <= #[trigger] toks[j].line,
        forall|j: int, k: int|
            #![trigger toks[j], toks[k]]
            0 <= j <= k < toks.len() ==> toks[j].line <= toks[k].line,
    decreases s.len() - i2, 1int,
{
    lemma_line_tracking(s, i2, line2, toks);
}

/// Law (line tracking): on a successful scan the token line numbers are
/// monotonically non-decreasing, never below the starting line, and the last
/// token is the end-of-input token on the starting line plus the number of
/// newline characters of the scanned text.
pub proof fn lemma_line_tracking(s: Seq<char>, i: int, line: nat, toks: Seq<SpecToken>)
    requires
        0 <= i <= s.len(),
        scan_from(s, i, line) == Ok::<Seq<SpecToken>, SpecLexError>(toks),
    ensures
        toks.len() >= 1,
        toks[toks.len() - 1] == eof_token((line + newlines(s, i, s.len() as int)) as nat),
        forall|j: int| 0 <= j < toks.len() ==> line <= #[trigger] toks[j].line,
        forall|j: int, k: int|
            #![trigger toks[j], toks[k]]
            0 <= j <= k < toks.len() ==> toks[j].line <= toks[k].line,
    decreases s.len() - i, 0int,
{
    let len = s.len() as int;
    if i >= len {
        assert(newlines(s, i, len) == 0);
        assert(toks == seq![eof_token(line)]);
    } else {
        let c = s[i];
        match single_char_kind(c) {
            Some(k) => {
                let tok = SpecToken { kind: k, lexeme: s.subrange(i, i + 1), line };
                lemma_lines_step(s, i, line, toks, tok, i + 1, line);
            },
            None => match operator_kinds(c) {
                Some((k1, k2)) => {
                    if i + 1 < len && s[i + 1] == '=' {
                        let tok = SpecToken { kind: k2, lexeme: s.subrange(i, i + 2), line };
                        lemma_lines_step(s, i, line, toks, tok, i + 2, line);
                    } else {
                        let tok = SpecToken { kind: k1, lexeme: s.subrange(i, i + 1), line };
                        lemma_lines_step(s, i, line, toks, tok, i + 1, line);
                    }
                },
                None => {
                    if c == '/' {
                        if i + 1 < len && s[i + 1] == '/' {
                            let e = comment_end(s, i + 2);
                            lemma_run_end_bounds(s, i + 2, not_newline_pred());
                            lemma_run_end_chars(s, i + 2, not_newline_pred());
                            assert forall|m: int| i <= m < e implies s[m] != '\n' by {
                                lemma_pred_defs(s[m]);
                            };
                            lemma_newlines_none(s, i, e);
                            lemma_newlines_split(s, i, e, len);
                            lemma_lines_skip(s, i, line, toks, e, line);
                        } else {
                            let tok = SpecToken {
                                kind: TokenType::SLASH,
                                lexeme: s.subrange(i, i + 1),
                                line,
                            };
                            lemma_lines_step(s, i, line, toks, tok, i + 1, line);
                        }
                    } else if is_blank(c) {
                        lemma_lines_skip(s, i, line, toks, i + 1, line);
                    } else if c == '\n' {
                        lemma_lines_skip(s, i, line, toks, i + 1, line + 1);
                    } else if c == '"' {
                        let q = string_body_end(s, i + 1);
                        lemma_run_end_bounds(s, i + 1, not_quote_pred());
                        lemma_run_end_chars(s, i + 1, not_quote_pred());
                        let nl = newlines(s, i + 1, q);
                        assert(q < len);
                        lemma_pred_defs(s[q]);
                        assert(s[q] == '"');
                        lemma_newlines_split(s, i + 1, q, len);
                        let tok = SpecToken {
                            kind: TokenType::STRING,
                            lexeme: s.subrange(i + 1, q),
                            line: line + nl,
                        };
                        assert(newlines(s, i, len) == newlines(s, i + 1, len));
                        assert(newlines(s, q, len) == newlines(s, q + 1, len));
                        lemma_lines_step(s, i, line, toks, tok, q + 1, line + nl);
                    } else if is_digit(c) {
                        let e1 = digit_run_end(s, i);
                        lemma_run_end_bounds(s, i, digit_pred());
                        lemma_run_end_chars(s, i, digit_pred());
                        if e1 + 1 < len && s[e1] == '.' && is_digit(s[e1 + 1]) {
                            let e2 = digit_run_end(s, e1 + 1);
                            lemma_run_end_bounds(s, e1 + 1, digit_pred());
                            lemma_run_end_chars(s, e1 + 1, digit_pred());
                            assert forall|m: int| i <= m < e2 implies s[m] != '\n' by {
                                lemma_pred_defs(s[m]);
                            };
                            lemma_newlines_none(s, i, e2);
                            lemma_newlines_split(s, i, e2, len);
                            let tok = SpecToken {
                                kind: TokenType::NUMBER,
                                lexeme: s.subrange(i, e2),
                                line,
                            };
                            lemma_lines_step(s, i, line, toks, tok, e2, line);
                        } else {
                            assert forall|m: int| i <= m < e1 implies s[m] != '\n' by {
                                lemma_pred_defs(s[m]);
                            };
                            lemma_newlines_none(s, i, e1);
                            lemma_newlines_split(s, i, e1, len);
                            let tok = SpecToken {
                                kind: TokenType::NUMBER,
                                lexeme: s.subrange(i, e1),
                                line,
                            };
                            lemma_lines_step(s, i, line, toks, tok, e1, line);
                        }
                    } else if is_alpha(c) {
                        let e = alnum_run_end(s, i);
                        lemma_run_end_bounds(s, i, alnum_pred());
                        lemma_run_end_chars(s, i, alnum_pred());
                        assert forall|m: int| i <= m < e implies s[m] != '\n' by {
                            lemma_pred_defs(s[m]);
                        };
                        lemma_newlines_none(s, i, e);
                        lemma_newlines_split(s, i, e, len);
                        let tok = SpecToken {
                            kind: identifier_kind(s.subrange(i, e)),
                            lexeme: s.subrange(i, e),
                            line,
                        };
                        lemma_lines_step(s, i, line, toks, tok, e, line);
                    } else {
                        assert(false);
                    }
                },
            },
        }
    }
}

} // verus!
