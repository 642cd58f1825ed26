//! The scanner: a single stateful cursor that walks the source text once and
//! classifies runs of characters into tokens, proved to agree with the
//! mathematical model in `model`.

use vstd::prelude::*;
use vstd::std_specs::iter::IteratorSpec;
use vstd::string::StrSliceExecFns;
use vstd::string::StringExecFns;

use crate::model::alnum_char;
use crate::model::alnum_pred;
use crate::model::alpha_char;
use crate::model::comment_end;
use crate::model::digit_char;
use crate::model::digit_pred;
use crate::model::eof_token;
use crate::model::is_alpha;
use crate::model::is_blank;
use crate::model::is_digit;
use crate::model::lemma_newlines_split;
use crate::model::lemma_pred_defs;
use crate::model::lemma_prepend_all_assoc;
use crate::model::lemma_prepend_all_empty;
use crate::model::newlines;
use crate::model::not_newline_pred;
use crate::model::not_quote_pred;
use crate::model::operator_kinds;
use crate::model::prepend_all;
use crate::model::run_end;
use crate::model::scan_from;
use crate::model::single_char_kind;
use crate::tokens::LoxError;
use crate::tokens::SpecLexError;
use crate::tokens::SpecToken;
use crate::tokens::Token;
use crate::tokens::TokenType;
use crate::tokens::identifier_kind;
use crate::tokens::unexpected_character_message;
use crate::tokens::unterminated_string_message;

verus! {

broadcast use vstd::string::group_string_axioms;

/// The views of a token sequence, in order.
pub open spec fn token_views(ts: Seq<Token>) -> Seq<SpecToken> {
    ts.map_values(|t: Token| t@)
}

proof fn lemma_token_views_push(ts: Seq<Token>, t: Token)
    ensures
        token_views(ts.push(t)) == token_views(ts).push(t@),
{
    assert(token_views(ts.push(t)) =~= token_views(ts).push(t@));
}

/// The characters of a text, in order, as an indexable vector.
fn chars_of(text: &str) -> (v: Vec<char>)
    ensures
        v@ == text@,
{
    let mut it = text.chars();
    let mut v: Vec<char> = Vec::new();
    proof {
        assert(Seq::<char>::empty() + text@ =~= text@);
    }
    loop
        invariant
            v@ + it.remaining() == text@,
            it.obeys_prophetic_iter_laws(),
            it.decrease() is Some,
        decreases it.decrease()->0,
    {
        let ghost prev = it.remaining();
        let ghost vs = v@;
        match it.next() {
            Some(c) => {
                v.push(c);
                proof {
                    assert(v@ + it.remaining() =~= vs + prev);
                }
            },
            None => {
                proof {
                    assert(v@ + it.remaining() =~= v@);
                }
                return v;
            },
        }
    }
}

/// The single-pass cursor over one source text.
pub struct Scanner {
    text: String,
    chars: Vec<char>,
    tokens: Vec<Token>,
    start: usize,
    current: usize,
    line: usize,
}

impl Scanner {
    /// The source text being scanned.
    pub closed spec fn src(&self) -> Seq<char> {
        self.chars@
    }

    /// The views of the tokens emitted so far.
    pub closed spec fn toks(&self) -> Seq<SpecToken> {
        token_views(self.tokens@)
    }

    /// The cursor's internal invariant: the indexed characters are the
    /// characters of the text, the cursor is inside the text, and the line
    /// counter never outruns the consumed characters.
    pub closed spec fn wf(&self) -> bool {
        &&& self.text@ == self.chars@
        &&& self.chars@.len() < usize::MAX as nat
        &&& self.current as int <= self.chars@.len()
        &&& self.start <= self.current
        &&& 1 <= self.line
        &&& self.line as int <= 1 + self.current as int
    }

    /// A scanner that has not consumed anything nor emitted any token.
    pub closed spec fn fresh(&self) -> bool {
        &&& self.wf()
        &&& self.current == 0
        &&& self.line == 1
        &&& self.tokens@.len() == 0
    }

    /// Creates a scanner over `source`. The length bound is a machine limit:
    /// the final line number, at most one more than the number of characters,
    /// must fit in `usize`.
    pub fn new(source: &str) -> (s: Scanner)
        requires
            source@.len() < usize::MAX as nat,
        ensures
            s.fresh(),
            s.src() == source@,
    {
        Scanner {
            text: String::from_str(source),
            chars: chars_of(source),
            tokens: Vec::new(),
            start: 0,
            current: 0,
            line: 1,
        }
    }

    fn is_at_end(&self) -> (b: bool)
        requires
            self.current as int <= self.src().len(),
        ensures
            b == (self.current as int == self.src().len()),
    {
        self.current >= self.chars.len()
    }

    /// Consumes and returns the next character.
    fn advance(&mut self) -> (c: char)
        requires
            old(self).wf(),
            (old(self).current as int) < old(self).src().len(),
        ensures
            final(self).wf(),
            c == old(self).src()[old(self).current as int],
            final(self).current == old(self).current + 1,
            final(self).src() == old(self).src(),
            final(self).text@ == old(self).text@,
            final(self).toks() == old(self).toks(),
            final(self).start == old(self).start,
            final(self).line == old(self).line,
    {
        let c = self.chars[self.current];
        self.current = self.current + 1;
        c
    }

    /// Consumes the next character exactly when it is `expected`.
    fn match_char(&mut self, expected: char) -> (b: bool)
        requires
            old(self).wf(),
        ensures
            final(self).wf(),
            final(self).src() == old(self).src(),
            final(self).text@ == old(self).text@,
            final(self).toks() == old(self).toks(),
            final(self).start == old(self).start,
            final(self).line == old(self).line,
            b == ((old(self).current as int) < old(self).src().len() && old(self).src()[old(
                self,
            ).current as int] == expected),
            final(self).current as int == if b {
                old(self).current + 1
            } else {
                old(self).current as int
            },
    {
        if self.is_at_end() {
            return false;
        }
        if self.chars[self.current] == expected {
            self.current = self.current + 1;
            true
        } else {
            false
        }
    }

    /// Emits a token whose lexeme is the characters in `[lo, hi)`, tagged
    /// with the current line.
    fn add_token_span(&mut self, token_type: TokenType, lo: usize, hi: usize)
        requires
            old(self).wf(),
            lo <= hi,
            hi as int <= old(self).src().len(),
        ensures
            final(self).wf(),
            final(self).src() == old(self).src(),
            final(self).text@ == old(self).text@,
            final(self).start == old(self).start,
            final(self).current == old(self).current,
            final(self).line == old(self).line,
            final(self).toks() == old(self).toks().push(
                SpecToken {
                    kind: token_type,
                    lexeme: old(self).src().subrange(lo as int, hi as int),
                    line: old(self).line as nat,
                },
            ),
    {
        let lexeme = String::from_str(self.text.as_str().substring_char(lo, hi));
        let line = self.line;
        let ghost ts = self.tokens@;
        let t = Token { token_type, lexeme, line };
        self.tokens.push(t);
        proof {
            lemma_token_views_push(ts, t);
        }
    }

    /// Emits a token for the lexeme accumulated since the last boundary.
    fn add_token(&mut self, token_type: TokenType)
        requires
            old(self).wf(),
        ensures
            final(self).wf(),
            final(self).src() == old(self).src(),
            final(self).text@ == old(self).text@,
            final(self).start == old(self).start,
            final(self).current == old(self).current,
            final(self).line == old(self).line,
            final(self).toks() == old(self).toks().push(
                SpecToken {
                    kind: token_type,
                    lexeme: old(self).src().subrange(
                        old(self).start as int,
                        old(self).current as int,
                    ),
                    line: old(self).line as nat,
                },
            ),
    {
        let lo = self.start;
        let hi = self.current;
        self.add_token_span(token_type, lo, hi);
    }

    /// Scans a string literal; the opening quote has been consumed. Newlines
    /// inside the literal advance the line counter; a literal that input ends
    /// before closing is the "Unterminated string." error.
    fn string(&mut self) -> (r: Result<(), LoxError>)
        requires
            old(self).wf(),
            old(self).start as int + 1 == old(self).current as int,
            old(self).current as int <= old(self).src().len(),
            old(self).src()[old(self).start as int] == '"',
        ensures
            final(self).wf(),
            final(self).src() == old(self).src(),
            final(self).text@ == old(self).text@,
            match r {
                Ok(()) => {
                    &&& (old(self).start as int) < final(self).current as int
                    &&& final(self).current as int <= final(self).src().len()
                    &&& final(self).toks().len() >= old(self).toks().len()
                    &&& final(self).toks().subrange(0, old(self).toks().len() as int) == old(
                        self,
                    ).toks()
                    &&& scan_from(old(self).src(), old(self).start as int, old(self).line as nat)
                        == prepend_all(
                        final(self).toks().subrange(
                            old(self).toks().len() as int,
                            final(self).toks().len() as int,
                        ),
                        scan_from(
                            final(self).src(),
                            final(self).current as int,
                            final(self).line as nat,
                        ),
                    )
                },
                Err(e) => scan_from(old(self).src(), old(self).start as int, old(self).line as nat)
                    == Err::<Seq<SpecToken>, SpecLexError>(e@),
            },
    {
        let ghost s = self.src();
        let ghost i = self.start as int;
        let ghost l0 = self.line;
        let ghost t0 = self.toks();
        let ghost st = self.start;
        while self.current < self.chars.len() && self.chars[self.current] != '"'
            invariant
                self.wf(),
                self.src() == s,
                self.text@ == s,
                self.toks() == t0,
                self.start == st,
                st as int == i,
                0 <= i,
                i + 1 <= self.current as int <= s.len(),
                s[i] == '"',
                self.line as int == l0 as int + newlines(s, i + 1, self.current as int),
                run_end(s, i + 1, not_quote_pred()) == run_end(
                    s,
                    self.current as int,
                    not_quote_pred(),
                ),
            decreases s.len() - self.current as int,
        {
            let ghost cur = self.current as int;
            if self.chars[self.current] == '\n' {
                self.line = self.line + 1;
            }
            self.current = self.current + 1;
            proof {
                lemma_pred_defs(s[cur]);
                lemma_newlines_split(s, i + 1, cur, cur + 1);
                assert(newlines(s, cur + 1, cur + 1) == 0);
                assert(newlines(s, cur, cur + 1) == (if s[cur] == '\n' {
                    1nat
                } else {
                    0nat
                }));
            }
        }
        proof {
            if (self.current as int) < s.len() {
                lemma_pred_defs(s[self.current as int]);
            }
            assert(run_end(s, self.current as int, not_quote_pred()) == self.current as int);
        }
        if self.is_at_end() {
            let line = self.line;
            let message = String::from_str("Unterminated string.");
            proof {
                assert(scan_from(s, i, l0 as nat) == Err::<Seq<SpecToken>, SpecLexError>(
                    SpecLexError {
                        line: (l0 as nat + newlines(s, i + 1, s.len() as int)),
                        message: unterminated_string_message(),
                    },
                ));
            }
            return Err(LoxError::ParseError { line, message });
        }
        let ghost q = self.current as int;
        self.advance();
        let lo = self.start + 1;
        let hi = self.current - 1;
        self.add_token_span(TokenType::STRING, lo, hi);
        proof {
            let nl = newlines(s, i + 1, q);
            let tok = SpecToken {
                kind: TokenType::STRING,
                lexeme: s.subrange(i + 1, q),
                line: (l0 as nat + nl),
            };
            lemma_suffix_after_push(t0, self.toks(), tok);
            assert(scan_from(s, i, l0 as nat) == prepend_all(
                seq![tok],
                scan_from(s, q + 1, (l0 as nat + nl)),
            ));
        }
        Ok(())
    }

    /// Scans a number literal; the first digit has been consumed. A decimal
    /// point is consumed only when a digit follows it.
    fn number(&mut self) -> (r: Result<(), LoxError>)
        requires
            old(self).wf(),
            old(self).start as int + 1 == old(self).current as int,
            old(self).current as int <= old(self).src().len(),
            is_digit(old(self).src()[old(self).start as int]),
        ensures
            final(self).wf(),
            final(self).src() == old(self).src(),
            final(self).text@ == old(self).text@,
            r is Ok,
            (old(self).start as int) < final(self).current as int,
            final(self).current as int <= final(self).src().len(),
            final(self).toks().len() >= old(self).toks().len(),
            final(self).toks().subrange(0, old(self).toks().len() as int) == old(self).toks(),
            scan_from(old(self).src(), old(self).start as int, old(self).line as nat)
                == prepend_all(
                final(self).toks().subrange(
                    old(self).toks().len() as int,
                    final(self).toks().len() as int,
                ),
                scan_from(final(self).src(), final(self).current as int, final(self).line as nat),
            ),
    {
        let ghost s = self.src();
        let ghost i = self.start as int;
        let ghost l0 = self.line;
        let ghost t0 = self.toks();
        let ghost st = self.start;
        proof {
            lemma_pred_defs(s[i]);
        }
        while self.current < self.chars.len() && digit_char(self.chars[self.current])
            invariant
                self.wf(),
                self.src() == s,
                self.text@ == s,
                self.toks() == t0,
                self.start == st,
                self.line == l0,
                st as int == i,
                0 <= i,
                i + 1 <= self.current as int <= s.len(),
                is_digit(s[i]),
                run_end(s, i, digit_pred()) == run_end(s, self.current as int, digit_pred()),
            decreases s.len() - self.current as int,
        {
            let ghost cur = self.current as int;
            self.current = self.current + 1;
            proof {
                lemma_pred_defs(s[cur]);
            }
        }
        proof {
            if (self.current as int) < s.len() {
                lemma_pred_defs(s[self.current as int]);
            }
            assert(run_end(s, self.current as int, digit_pred()) == self.current as int);
        }
        let ghost e1 = self.current as int;
        if self.current + 1 < self.chars.len() && self.chars[self.current] == '.' && digit_char(
            self.chars[self.current + 1],
        ) {
            // Consume the decimal point, then the fractional digits.
            self.current = self.current + 1;
            while self.current < self.chars.len() && digit_char(self.chars[self.current])
                invariant
                    self.wf(),
                    self.src() == s,
                    self.text@ == s,
                    self.toks() == t0,
                    self.start == st,
                    self.line == l0,
                    st as int == i,
                    0 <= i,
                    e1 + 1 <= self.current as int <= s.len(),
                    run_end(s, e1 + 1, digit_pred()) == run_end(
                        s,
                        self.current as int,
                        digit_pred(),
                    ),
                decreases s.len() - self.current as int,
            {
                let ghost cur = self.current as int;
                self.current = self.current + 1;
                proof {
                    lemma_pred_defs(s[cur]);
                }
            }
            proof {
                if (self.current as int) < s.len() {
                    lemma_pred_defs(s[self.current as int]);
                }
                assert(run_end(s, self.current as int, digit_pred()) == self.current as int);
            }
            let ghost e2 = self.current as int;
            self.add_token(TokenType::NUMBER);
            proof {
                let tok = SpecToken {
                    kind: TokenType::NUMBER,
                    lexeme: s.subrange(i, e2),
                    line: l0 as nat,
                };
                lemma_suffix_after_push(t0, self.toks(), tok);
                assert(scan_from(s, i, l0 as nat) == prepend_all(
                    seq![tok],
                    scan_from(s, e2, l0 as nat),
                ));
            }
        } else {
            self.add_token(TokenType::NUMBER);
            proof {
                let tok = SpecToken {
                    kind: TokenType::NUMBER,
                    lexeme: s.subrange(i, e1),
                    line: l0 as nat,
                };
                lemma_suffix_after_push(t0, self.toks(), tok);
                assert(scan_from(s, i, l0 as nat) == prepend_all(
                    seq![tok],
                    scan_from(s, e1, l0 as nat),
                ));
            }
        }
        Ok(())
    }

    /// Scans an identifier or keyword; the first character has been consumed.
    /// The full lexeme decides: a keyword spelling yields its keyword kind.
    fn identifier(&mut self) -> (r: Result<(), LoxError>)
        requires
            old(self).wf(),
            old(self).start as int + 1 == old(self).current as int,
            old(self).current as int <= old(self).src().len(),
            is_alpha(old(self).src()[old(self).start as int]),
        ensures
            final(self).wf(),
            final(self).src() == old(self).src(),
            final(self).text@ == old(self).text@,
            r is Ok,
            (old(self).start as int) < final(self).current as int,
            final(self).current as int <= final(self).src().len(),
            final(self).toks().len() >= old(self).toks().len(),
            final(self).toks().subrange(0, old(self).toks().len() as int) == old(self).toks(),
            scan_from(old(self).src(), old(self).start as int, old(self).line as nat)
                == prepend_all(
                final(self).toks().subrange(
                    old(self).toks().len() as int,
                    final(self).toks().len() as int,
                ),
                scan_from(final(self).src(), final(self).current as int, final(self).line as nat),
            ),
    {
        let ghost s = self.src();
        let ghost i = self.start as int;
        let ghost l0 = self.line;
        let ghost t0 = self.toks();
        let ghost st = self.start;
        proof {
            lemma_pred_defs(s[i]);
        }
        while self.current < self.chars.len() && alnum_char(self.chars[self.current])
            invariant
                self.wf(),
                self.src() == s,
                self.text@ == s,
                self.toks() == t0,
                self.start == st,
                self.line == l0,
                st as int == i,
                0 <= i,
                i + 1 <= self.current as int <= s.len(),
                is_alpha(s[i]),
                run_end(s, i, alnum_pred()) == run_end(s, self.current as int, alnum_pred()),
            decreases s.len() - self.current as int,
        {
            let ghost cur = self.current as int;
            self.current = self.current + 1;
            proof {
                lemma_pred_defs(s[cur]);
            }
        }
        proof {
            if (self.current as int) < s.len() {
                lemma_pred_defs(s[self.current as int]);
            }
            assert(run_end(s, self.current as int, alnum_pred()) == self.current as int);
        }
        let ghost e = self.current as int;
        let kw = TokenType::to_keyword(self.text.as_str().substring_char(self.start, self.current));
        let kind = match kw {
            Some(t) => t,
            None => TokenType::IDENTIFIER,
        };
        self.add_token(kind);
        proof {
            let tok = SpecToken {
                kind: identifier_kind(s.subrange(i, e)),
                lexeme: s.subrange(i, e),
                line: l0 as nat,
            };
            lemma_suffix_after_push(t0, self.toks(), tok);
            assert(scan_from(s, i, l0 as nat) == prepend_all(
                seq![tok],
                scan_from(s, e, l0 as nat),
            ));
        }
        Ok(())
    }

    /// Consumes one maximal lexeme: emits at most one token, or skips
    /// insignificant text, or stops with the first lexical error.
    fn scan_token(&mut self) -> (r: Result<(), LoxError>)
        requires
            old(self).wf(),
            old(self).start == old(self).current,
            (old(self).current as int) < old(self).src().len(),
        ensures
            final(self).wf(),
            final(self).src() == old(self).src(),
            final(self).text@ == old(self).text@,
            match r {
                Ok(()) => {
                    &&& (old(self).current as int) < final(self).current as int
                    &&& final(self).current as int <= final(self).src().len()
                    &&& final(self).toks().len() >= old(self).toks().len()
                    &&& final(self).toks().subrange(0, old(self).toks().len() as int) == old(
                        self,
                    ).toks()
                    &&& scan_from(old(self).src(), old(self).current as int, old(self).line as nat)
                        == prepend_all(
                        final(self).toks().subrange(
                            old(self).toks().len() as int,
                            final(self).toks().len() as int,
                        ),
                        scan_from(
                            final(self).src(),
                            final(self).current as int,
                            final(self).line as nat,
                        ),
                    )
                },
                Err(e) => scan_from(old(self).src(), old(self).current as int, old(self).line as nat)
                    == Err::<Seq<SpecToken>, SpecLexError>(e@),
            },
    {
        let ghost s = self.src();
        let ghost i = self.current as int;
        let ghost l0 = self.line;
        let ghost t0 = self.toks();
        let c = self.advance();
        match c {
            '(' => {
                self.add_token(TokenType::LEFT_PAREN);
                proof {
                    lemma_single_emitted(s, i, l0 as nat, TokenType::LEFT_PAREN, t0, self.toks());
                }
                Ok(())
            },
            ')' => {
                self.add_token(TokenType::RIGHT_PAREN);
                proof {
                    lemma_single_emitted(s, i, l0 as nat, TokenType::RIGHT_PAREN, t0, self.toks());
                }
                Ok(())
            },
            '{' => {
                self.add_token(TokenType::LEFT_BRACE);
                proof {
                    lemma_single_emitted(s, i, l0 as nat, TokenType::LEFT_BRACE, t0, self.toks());
                }
                Ok(())
            },
            '}' => {
                self.add_token(TokenType::RIGHT_BRACE);
                proof {
                    lemma_single_emitted(s, i, l0 as nat, TokenType::RIGHT_BRACE, t0, self.toks());
                }
                Ok(())
            },
            ',' => {
                self.add_token(TokenType::COMMA);
                proof {
                    lemma_single_emitted(s, i, l0 as nat, TokenType::COMMA, t0, self.toks());
                }
                Ok(())
            },
            '.' => {
                self.add_token(TokenType::DOT);
                proof {
                    lemma_single_emitted(s, i, l0 as nat, TokenType::DOT, t0, self.toks());
                }
                Ok(())
            },
            '-' => {
                self.add_token(TokenType::MINUS);
                proof {
                    lemma_single_emitted(s, i, l0 as nat, TokenType::MINUS, t0, self.toks());
                }
                Ok(())
            },
            '+' => {
                self.add_token(TokenType::PLUS);
                proof {
                    lemma_single_emitted(s, i, l0 as nat, TokenType::PLUS, t0, self.toks());
                }
                Ok(())
            },
            ';' => {
                self.add_token(TokenType::SEMICOLON);
                proof {
                    lemma_single_emitted(s, i, l0 as nat, TokenType::SEMICOLON, t0, self.toks());
                }
                Ok(())
            },
            '*' => {
                self.add_token(TokenType::STAR);
                proof {
                    lemma_single_emitted(s, i, l0 as nat, TokenType::STAR, t0, self.toks());
                }
                Ok(())
            },
            '!' => {
                let matched = self.match_char('=');
                let t = if matched {
                    TokenType::BANG_EQUAL
                } else {
                    TokenType::BANG
                };
                self.add_token(t);
                proof {
                    lemma_operator_emitted(
                        s,
                        i,
                        l0 as nat,
                        TokenType::BANG,
                        TokenType::BANG_EQUAL,
                        matched,
                        t0,
                        self.toks(),
                    );
                }
                Ok(())
            },
            '=' => {
                let matched = self.match_char('=');
                let t = if matched {
                    TokenType::EQUAL_EQUAL
                } else {
                    TokenType::EQUAL
                };
                self.add_token(t);
                proof {
                    lemma_operator_emitted(
                        s,
                        i,
                        l0 as nat,
                        TokenType::EQUAL,
                        TokenType::EQUAL_EQUAL,
                        matched,
                        t0,
                        self.toks(),
                    );
                }
                Ok(())
            },
            '<' => {
                let matched = self.match_char('=');
                let t = if matched {
                    TokenType::LESS_EQUAL
                } else {
                    TokenType::LESS
                };
                self.add_token(t);
                proof {
                    lemma_operator_emitted(
                        s,
                        i,
                        l0 as nat,
                        TokenType::LESS,
                        TokenType::LESS_EQUAL,
                        matched,
                        t0,
                        self.toks(),
                    );
                }
                Ok(())
            },
            '>' => {
                let matched = self.match_char('=');
                let t = if matched {
                    TokenType::GREATER_EQUAL
                } else {
                    TokenType::GREATER
                };
                self.add_token(t);
                proof {
                    lemma_operator_emitted(
                        s,
                        i,
                        l0 as nat,
                        TokenType::GREATER,
                        TokenType::GREATER_EQUAL,
                        matched,
                        t0,
                        self.toks(),
                    );
                }
                Ok(())
            },
            '/' => {
                if self.match_char('/') {
                    // A comment goes until the end of the line; it is
                    // discarded, and its newline is left for the next step.
                    while self.current < self.chars.len() && self.chars[self.current] != '\n'
                        invariant
                            self.wf(),
                            self.src() == s,
                            self.text@ == s,
                            self.toks() == t0,
                            self.line == l0,
                            0 <= i,
                            i + 2 <= self.current as int <= s.len(),
                            run_end(s, i + 2, not_newline_pred()) == run_end(
                                s,
                                self.current as int,
                                not_newline_pred(),
                            ),
                        decreases s.len() - self.current as int,
                    {
                        let ghost cur = self.current as int;
                        self.current = self.current + 1;
                        proof {
                            lemma_pred_defs(s[cur]);
                        }
                    }
                    proof {
                        if (self.current as int) < s.len() {
                            lemma_pred_defs(s[self.current as int]);
                        }
                        assert(run_end(s, self.current as int, not_newline_pred())
                            == self.current as int);
                        assert(self.toks().subrange(t0.len() as int, self.toks().len() as int)
                            =~= Seq::<SpecToken>::empty());
                        lemma_prepend_all_empty(
                            scan_from(s, self.current as int, self.line as nat),
                        );
                        assert(scan_from(s, i, l0 as nat) == scan_from(
                            s,
                            comment_end(s, i + 2),
                            l0 as nat,
                        ));
                    }
                    Ok(())
                } else {
                    self.add_token(TokenType::SLASH);
                    proof {
                        let tok = SpecToken {
                            kind: TokenType::SLASH,
                            lexeme: s.subrange(i, i + 1),
                            line: l0 as nat,
                        };
                        lemma_suffix_after_push(t0, self.toks(), tok);
                        assert(scan_from(s, i, l0 as nat) == prepend_all(
                            seq![tok],
                            scan_from(s, i + 1, l0 as nat),
                        ));
                    }
                    Ok(())
                }
            },
            ' ' | '\r' | '\t' => {
                proof {
                    lemma_skipped_one(s, i, l0 as nat, t0, self.toks());
                }
                Ok(())
            },
            '\n' => {
                self.line = self.line + 1;
                proof {
                    assert(self.toks().subrange(t0.len() as int, self.toks().len() as int)
                        =~= Seq::<SpecToken>::empty());
                    lemma_prepend_all_empty(scan_from(s, i + 1, (l0 + 1) as nat));
                    assert(scan_from(s, i, l0 as nat) == scan_from(s, i + 1, (l0 + 1) as nat));
                }
                Ok(())
            },
            '"' => self.string(),
            _ => {
                if digit_char(c) {
                    let r = self.number();
                    proof {
                        assert(r is Ok);
                    }
                    r
                } else if alpha_char(c) {
                    let r = self.identifier();
                    proof {
                        assert(r is Ok);
                    }
                    r
                } else {
                    let line = self.line;
                    proof {
                        assert(scan_from(s, i, l0 as nat) == Err::<Seq<SpecToken>, SpecLexError>(
                            SpecLexError { line: l0 as nat, message: unexpected_character_message() },
                        ));
                    }
                    Err(
                        LoxError::ParseError {
                            line,
                            message: String::from_str("Unexpected character."),
                        },
                    )
                }
            },
        }
    }

    /// Scans the whole source: the complete token sequence, ending in exactly
    /// one end-of-input token, or the first lexical error — whichever the
    /// scanning model assigns to this text.
    pub fn scan_tokens(self) -> (r: Result<Vec<Token>, LoxError>)
        requires
            self.fresh(),
        ensures
            match r {
                Ok(toks) => scan_from(self.src(), 0, 1) == Ok::<Seq<SpecToken>, SpecLexError>(
                    token_views(toks@),
                ),
                Err(e) => scan_from(self.src(), 0, 1) == Err::<Seq<SpecToken>, SpecLexError>(e@),
            },
    {
        let ghost s = self.src();
        let mut sc = self;
        proof {
            assert(sc.toks() =~= Seq::<SpecToken>::empty());
            lemma_prepend_all_empty(scan_from(s, 0, 1));
        }
        while !sc.is_at_end()
            invariant
                sc.wf(),
                sc.src() == s,
                self.src() == s,
                prepend_all(sc.toks(), scan_from(s, sc.current as int, sc.line as nat))
                    == scan_from(s, 0, 1),
            decreases s.len() - sc.current as int,
        {
            sc.start = sc.current;
            let ghost ta = sc.toks();
            let ghost ca = sc.current;
            let ghost la = sc.line;
            match sc.scan_token() {
                Ok(()) => {
                    proof {
                        let delta = sc.toks().subrange(ta.len() as int, sc.toks().len() as int);
                        lemma_prepend_all_assoc(
                            ta,
                            delta,
                            scan_from(s, sc.current as int, sc.line as nat),
                        );
                        assert(ta + delta =~= sc.toks());
                    }
                },
                Err(e) => {
                    proof {
                        assert(scan_from(s, ca as int, la as nat) == Err::<
                            Seq<SpecToken>,
                            SpecLexError,
                        >(e@));
                        assert(prepend_all(ta, scan_from(s, ca as int, la as nat)) == Err::<
                            Seq<SpecToken>,
                            SpecLexError,
                        >(e@));
                        assert(scan_from(s, 0, 1) == Err::<Seq<SpecToken>, SpecLexError>(e@));
                    }
                    return Err(e);
                },
            }
        }
        proof {
            assert(scan_from(s, sc.current as int, sc.line as nat)
                == Ok::<Seq<SpecToken>, SpecLexError>(seq![eof_token(sc.line as nat)]));
        }
        let line = sc.line;
        let ghost te = sc.tokens@;
        let t = Token { token_type: TokenType::EOF, lexeme: String::new(), line };
        sc.tokens.push(t);
        proof {
            lemma_token_views_push(te, t);
            assert(t@ == eof_token(line as nat));
            assert(token_views(te) + seq![eof_token(line as nat)] =~= token_views(sc.tokens@));
        }
        Ok(sc.tokens)
    }
}

/// A recognised single-character token emitted at `i` continues the scan
/// right after it.
proof fn lemma_single_emitted(
    s: Seq<char>,
    i: int,
    l0: nat,
    k: TokenType,
    t0: Seq<SpecToken>,
    t1: Seq<SpecToken>,
)
    requires
        0 <= i < s.len(),
        single_char_kind(s[i]) == Some(k),
        t1 == t0.push(SpecToken { kind: k, lexeme: s.subrange(i, i + 1), line: l0 }),
    ensures
        t1.len() == t0.len() + 1,
        t1.subrange(0, t0.len() as int) == t0,
        scan_from(s, i, l0) == prepend_all(
            t1.subrange(t0.len() as int, t1.len() as int),
            scan_from(s, i + 1, l0),
        ),
{
    let tok = SpecToken { kind: k, lexeme: s.subrange(i, i + 1), line: l0 };
    lemma_suffix_after_push(t0, t1, tok);
    assert(scan_from(s, i, l0) == prepend_all(seq![tok], scan_from(s, i + 1, l0)));
}

/// An operator at `i` emits its two-character kind exactly when `=` follows,
/// and its one-character kind otherwise.
proof fn lemma_operator_emitted(
    s: Seq<char>,
    i: int,
    l0: nat,
    k1: TokenType,
    k2: TokenType,
    matched: bool,
    t0: Seq<SpecToken>,
    t1: Seq<SpecToken>,
)
    requires
        0 <= i < s.len(),
        operator_kinds(s[i]) == Some((k1, k2)),
        matched == (i + 1 < s.len() && s[i + 1] == '='),
        t1 == t0.push(
            if matched {
                SpecToken { kind: k2, lexeme: s.subrange(i, i + 2), line: l0 }
            } else {
                SpecToken { kind: k1, lexeme: s.subrange(i, i + 1), line: l0 }
            },
        ),
    ensures
        t1.len() == t0.len() + 1,
        t1.subrange(0, t0.len() as int) == t0,
        scan_from(s, i, l0) == prepend_all(
            t1.subrange(t0.len() as int, t1.len() as int),
            scan_from(s, if matched { i + 2 } else { i + 1 }, l0),
        ),
{
    if matched {
        let tok = SpecToken { kind: k2, lexeme: s.subrange(i, i + 2), line: l0 };
        lemma_suffix_after_push(t0, t1, tok);
        assert(scan_from(s, i, l0) == prepend_all(seq![tok], scan_from(s, i + 2, l0)));
    } else {
        let tok = SpecToken { kind: k1, lexeme: s.subrange(i, i + 1), line: l0 };
        lemma_suffix_after_push(t0, t1, tok);
        assert(scan_from(s, i, l0) == prepend_all(seq![tok], scan_from(s, i + 1, l0)));
    }
}

/// A blank character at `i` emits nothing: the scan simply continues after it.
proof fn lemma_skipped_one(s: Seq<char>, i: int, l0: nat, t0: Seq<SpecToken>, t1: Seq<SpecToken>)
    requires
        0 <= i < s.len(),
        is_blank(s[i]),
        t1 == t0,
    ensures
        t1.subrange(0, t0.len() as int) == t0,
        scan_from(s, i, l0) == prepend_all(
            t1.subrange(t0.len() as int, t1.len() as int),
            scan_from(s, i + 1, l0),
        ),
{
    assert(t1.subrange(0, t0.len() as int) =~= t0);
    assert(t1.subrange(t0.len() as int, t1.len() as int) =~= Seq::<SpecToken>::empty());
    lemma_prepend_all_empty(scan_from(s, i + 1, l0));
    assert(scan_from(s, i, l0) == scan_from(s, i + 1, l0));
}

/// After pushing one token, the old tokens are an unchanged prefix and the
/// new token is the whole suffix.
proof fn lemma_suffix_after_push(t0: Seq<SpecToken>, t1: Seq<SpecToken>, tok: SpecToken)
    requires
        t1 == t0.push(tok),
    ensures
        t1.len() == t0.len() + 1,
        t1.subrange(0, t0.len() as int) == t0,
        t1.subrange(t0.len() as int, t1.len() as int) == seq![tok],
{
    assert(t1.subrange(0, t0.len() as int) =~= t0);
    assert(t1.subrange(t0.len() as int, t1.len() as int) =~= seq![tok]);
}

} // verus!
