//! The lexical analyzer: skip the longest whitespace match at the cursor,
//! then try the non-reserved token patterns in declaration order; the first
//! match at the cursor wins, and a reserved pattern that matches the whole
//! lexeme retags it (this resolves the keyword-versus-identifier overlap).
//!
//! Pattern matching itself is done by the `regex` crate behind trusted
//! wrappers. Whether a pattern compiles, and what it matches, are functions
//! of the pattern and haystack alone; the wrappers name those functions
//! (`regex_ok`, `regex_find`), and the lexer's contracts say exactly which
//! lexemes come back and when tokenization fails, in terms of those names.

use vstd::prelude::*;
use vstd::slice::{slice_subrange, slice_to_vec};
use crate::Sym;

verus! {

#[verifier::external_type_specification]
#[verifier::external_body]
pub struct ExRegex(regex::bytes::Regex);

/// The pattern compiles under the regex crate's syntax and size limits.
pub uninterp spec fn regex_ok(pat: Seq<char>) -> bool;

/// The leftmost match of the pattern in the haystack beginning at or after
/// the position, as its start and end offsets.
pub uninterp spec fn regex_find(pat: Seq<char>, hay: Seq<u8>, pos: int) -> Option<(int, int)>;

/// A compiled regex paired with the text it was compiled from. The fields
/// are private: values arise only through [`compile`], so the regex always
/// corresponds to the pattern text.
pub struct CompiledPattern {
    re: regex::bytes::Regex,
    pat: String,
}

impl CompiledPattern {
    /// The pattern text this regex was compiled from.
    pub closed spec fn pattern(&self) -> Seq<char> {
        self.pat@
    }

}

/// Relies on regex::bytes::Regex::new: whether the pattern compiles is a
/// function of the pattern text alone; syntax and size-limit errors are
/// mapped to `None`, and the call does not panic.
#[verifier::external_body]
fn compile(pat: &str) -> (r: Option<CompiledPattern>)
    ensures
        r is Some <==> regex_ok(pat@),
        r matches Some(c) ==> c.pattern() == pat@,
{
    match regex::bytes::Regex::new(pat) {
        Ok(re) => Some(CompiledPattern { re, pat: pat.to_owned() }),
        Err(_) => None,
    }
}

/// Relies on regex::bytes::Regex::find_at: the leftmost match beginning at
/// or after `pos` is a function of the pattern, haystack and position
/// alone, and its offsets lie within the haystack; `find_at` panics when
/// `pos` exceeds the haystack length, so that is required away.
#[verifier::external_body]
fn find_at(c: &CompiledPattern, hay: &Vec<u8>, pos: usize) -> (r: Option<(usize, usize)>)
    requires
        pos <= hay@.len(),
    ensures
        r matches Some(m) ==> pos <= m.0 <= m.1 <= hay@.len(),
        match r {
            Some(m) => regex_find(c.pattern(), hay@, pos as int) == Some((m.0 as int, m.1 as int)),
            None => regex_find(c.pattern(), hay@, pos as int) is None,
        },
{
    match c.re.find_at(hay, pos) {
        Some(m) => Some((m.start(), m.end())),
        None => None,
    }
}

/// One token pattern: the terminal it produces, its compiled pattern, and
/// whether it is a reserved word tried against whole lexemes only.
pub struct TokenRule {
    pub sym: Sym,
    pub reserved: bool,
    pub re: CompiledPattern,
}

/// The compiled lexer: the whitespace pattern and the token patterns in
/// declaration order.
pub struct Lexer {
    pub whitespace: CompiledPattern,
    pub rules: Vec<TokenRule>,
}

/// A matched token: its terminal, its lexeme, and the byte offset where the
/// lexeme starts.
pub struct Token {
    pub sym: Sym,
    pub lexeme: Vec<u8>,
    pub pos: usize,
}

/// The lexer cannot be built: a pattern does not compile, or the whitespace
/// pattern does not match the empty string.
#[derive(Debug, PartialEq, Eq, Clone, Copy)]
pub enum LexBuildError {
    BadPattern,
    WhitespaceMustMatchEmpty,
}

/// The lexer cannot advance at the given byte offset.
#[derive(Debug, PartialEq, Eq, Clone, Copy)]
pub struct TokenizeError {
    pub pos: usize,
}

/// The rule yields a usable lexeme at `pos`: its leftmost match starts
/// exactly there and is non-empty.
pub open spec fn good_match(rule: TokenRule, input: Seq<u8>, pos: int) -> bool {
    regex_find(rule.re.pattern(), input, pos) matches Some(m) && m.0 == pos && m.1 > pos
}

/// Where the cursor stands after the whitespace skip at `pos`: the end of
/// the whitespace match starting exactly at `pos`, if any.
pub open spec fn skip_to(ws: CompiledPattern, input: Seq<u8>, pos: int) -> int {
    match regex_find(ws.pattern(), input, pos) {
        Some(m) => if m.0 == pos {
            m.1
        } else {
            pos
        },
        None => pos,
    }
}

/// The tokens partition increasing, non-overlapping, non-empty slices of
/// the input, each labelled with its position.
pub open spec fn tokens_ok(toks: Seq<Token>, input: Seq<u8>) -> bool {
    &&& forall|i: int|
        0 <= i < toks.len() ==> {
            let tk = #[trigger] toks[i];
            &&& tk.lexeme@.len() > 0
            &&& tk.pos + tk.lexeme@.len() <= input.len()
            &&& tk.lexeme@ == input.subrange(tk.pos as int, tk.pos + tk.lexeme@.len())
        }
    &&& forall|i: int|
        0 <= i && i + 1 < toks.len() ==> (#[trigger] toks[i]).pos + toks[i].lexeme@.len() <= toks[
            i + 1].pos
}

/// Every token's terminal comes from one of the lexer's rules.
pub open spec fn tokens_from_rules(toks: Seq<Token>, rules: Seq<TokenRule>) -> bool {
    forall|i: int|
        0 <= i < toks.len() ==> exists|k: int|
            0 <= k < rules.len() && (#[trigger] rules[k]).sym == (#[trigger] toks[i]).sym
}

/// Each token is carved out by a non-reserved rule: its lexeme runs from
/// its position to the end of that rule's leftmost match there.
pub open spec fn tokens_matched(toks: Seq<Token>, rules: Seq<TokenRule>, input: Seq<u8>) -> bool {
    forall|i: int|
        0 <= i < toks.len() ==> exists|k: int|
            0 <= k < rules.len() && !(#[trigger] rules[k]).reserved && regex_find(
                rules[k].re.pattern(),
                input,
                (#[trigger] toks[i]).pos as int,
            ) == Some((toks[i].pos as int, toks[i].pos + toks[i].lexeme@.len()))
}

/// The tokens leave no gap: each begins where the whitespace skip from the
/// previous token's end lands, and the skip from the last end (or from the
/// start, for no tokens) exhausts the input.
pub open spec fn tokens_gapless(toks: Seq<Token>, ws: CompiledPattern, input: Seq<u8>) -> bool {
    &&& (toks.len() == 0 ==> skip_to(ws, input, 0) == input.len())
    &&& (toks.len() > 0 ==> {
        &&& toks[0].pos == skip_to(ws, input, 0)
        &&& skip_to(ws, input, toks.last().pos + toks.last().lexeme@.len()) == input.len()
    })
    &&& forall|i: int|
        0 <= i && i + 1 < toks.len() ==> (#[trigger] toks[i + 1]).pos == skip_to(
            ws,
            input,
            toks[i].pos + toks[i].lexeme@.len(),
        )
}

/// No non-reserved rule yields a lexeme at `pos`: the lexer is stuck.
pub open spec fn lexer_stuck(rules: Seq<TokenRule>, input: Seq<u8>, pos: int) -> bool {
    forall|k: int|
        0 <= k < rules.len() && !(#[trigger] rules[k]).reserved ==> !good_match(
            rules[k],
            input,
            pos,
        )
}

/// The rule's leftmost match covers the whole lexeme: a keyword hit.
pub open spec fn whole_match(rule: TokenRule, lexeme: Seq<u8>) -> bool {
    regex_find(rule.re.pattern(), lexeme, 0) == Some((0int, lexeme.len() as int))
}

/// The first reserved rule from `k` on whose leftmost match covers the
/// whole lexeme, if any: the keyword retag.
pub open spec fn retag_from(rules: Seq<TokenRule>, lexeme: Seq<u8>, k: int) -> Option<Sym>
    decreases rules.len() - k,
{
    if k < 0 || k >= rules.len() {
        None
    } else if rules[k].reserved && whole_match(rules[k], lexeme) {
        Some(rules[k].sym)
    } else {
        retag_from(rules, lexeme, k + 1)
    }
}

/// The token is carved out by the first non-reserved rule matching a
/// non-empty lexeme at its position, and tagged with that rule's terminal,
/// retagged by the first reserved rule matching the entire lexeme.
pub open spec fn token_lexed(tk: Token, rules: Seq<TokenRule>, input: Seq<u8>) -> bool {
    exists|k: int|
        {
            &&& 0 <= k < rules.len()
            &&& !(#[trigger] rules[k]).reserved
            &&& regex_find(rules[k].re.pattern(), input, tk.pos as int) == Some(
                (tk.pos as int, tk.pos + tk.lexeme@.len()),
            )
            &&& forall|k3: int|
                0 <= k3 < k && !(#[trigger] rules[k3]).reserved ==> !good_match(
                    rules[k3],
                    input,
                    tk.pos as int,
                )
            &&& tk.sym == (match retag_from(rules, tk.lexeme@, 0) {
                Some(s) => s,
                None => rules[k].sym,
            })
        }
}

/// Every token obeys the declaration-order and keyword-retag discipline.
pub open spec fn tokens_lexed(toks: Seq<Token>, rules: Seq<TokenRule>, input: Seq<u8>) -> bool {
    forall|i: int| 0 <= i < toks.len() ==> token_lexed(#[trigger] toks[i], rules, input)
}

/// The peek window behind a tokenize error: up to 30 bytes of the input
/// from the failing offset, for rendering the error.
pub fn error_window(input: &Vec<u8>, pos: usize) -> (w: Vec<u8>)
    requires
        pos <= input@.len(),
    ensures
        w@ == input@.subrange(
            pos as int,
            if pos + 30 <= input@.len() {
                pos + 30
            } else {
                input@.len() as int
            },
        ),
{
    let end = if input.len() - pos > 30 {
        pos + 30
    } else {
        input.len()
    };
    slice_to_vec(slice_subrange(input.as_slice(), pos, end))
}

impl Lexer {
    /// Compile a lexer from the whitespace pattern and the token patterns
    /// `(terminal, pattern, reserved)` in declaration order. The whitespace
    /// pattern must match the empty string, so that input without leading
    /// whitespace is accepted. Failure is pinned: a bad pattern is one that
    /// does not compile, and the whitespace check fails exactly when the
    /// compiled whitespace pattern finds no match in empty input.
    pub fn new(whitespace: &str, rules: Vec<(Sym, String, bool)>) -> (r: Result<
        Lexer,
        LexBuildError,
    >)
        ensures
            match r {
                Ok(lx) => {
                    &&& lx.rules@.len() == rules@.len()
                    &&& forall|k: int|
                        0 <= k < rules@.len() ==> (#[trigger] lx.rules@[k]).sym == rules@[k].0
                            && lx.rules@[k].reserved == rules@[k].2 && lx.rules@[k].re.pattern()
                            == rules@[k].1@
                    &&& lx.whitespace.pattern() == whitespace@
                    &&& regex_ok(whitespace@)
                    &&& forall|k: int| 0 <= k < rules@.len() ==> regex_ok((#[trigger] rules@[k].1)@)
                },
                Err(LexBuildError::BadPattern) => !regex_ok(whitespace@) || exists|k: int|
                    0 <= k < rules@.len() && !regex_ok((#[trigger] rules@[k].1)@),
                Err(LexBuildError::WhitespaceMustMatchEmpty) => regex_ok(whitespace@) && regex_find(
                    whitespace@,
                    Seq::<u8>::empty(),
                    0,
                ) is None,
            },
    {
        let ws = match compile(whitespace) {
            Some(re) => re,
            None => {
                return Err(LexBuildError::BadPattern);
            },
        };
        // the whitespace pattern must match the empty string: probe it
        let empty: Vec<u8> = Vec::new();
        match find_at(&ws, &empty, 0) {
            Some(_) => {},
            None => {
                proof {
                    assert(empty@ =~= Seq::<u8>::empty());
                }
                return Err(LexBuildError::WhitespaceMustMatchEmpty);
            },
        }
        let mut compiled: Vec<TokenRule> = Vec::new();
        let mut k: usize = 0;
        while k < rules.len()
            invariant
                k <= rules@.len(),
                compiled@.len() == k,
                forall|j: int|
                    0 <= j < k ==> (#[trigger] compiled@[j]).sym == rules@[j].0 && compiled@[
                        j].reserved == rules@[j].2 && compiled@[j].re.pattern() == rules@[j].1@,
                forall|j: int| 0 <= j < k ==> regex_ok((#[trigger] rules@[j].1)@),
            decreases rules@.len() - k,
        {
            let re = match compile(rules[k].1.as_str()) {
                Some(re) => re,
                None => {
                    proof {
                        assert(!regex_ok((rules@[k as int].1)@));
                    }
                    return Err(LexBuildError::BadPattern);
                },
            };
            compiled.push(TokenRule { sym: rules[k].0, reserved: rules[k].2, re });
            k += 1;
        }
        Ok(Lexer { whitespace: ws, rules: compiled })
    }

    /// Advance past the whitespace match starting exactly at `pos`.
    fn skip(&self, input: &Vec<u8>, pos: usize) -> (p: usize)
        requires
            pos <= input@.len(),
        ensures
            pos <= p <= input@.len(),
            p as int == skip_to(self.whitespace, input@, pos as int),
    {
        match find_at(&self.whitespace, input, pos) {
            Some((s, e)) => {
                if s == pos {
                    e
                } else {
                    pos
                }
            },
            None => pos,
        }
    }

    /// Greedy token match at `pos`: the first non-reserved pattern whose
    /// leftmost match is a non-empty lexeme starting exactly at `pos`, then
    /// retagged by the first reserved pattern matching the entire lexeme.
    fn find_token(&self, input: &Vec<u8>, pos: usize) -> (r: Option<Token>)
        requires
            pos < input@.len(),
        ensures
            match r {
                Some(tk) => {
                    &&& tk.pos == pos
                    &&& tk.lexeme@.len() > 0
                    &&& pos + tk.lexeme@.len() <= input@.len()
                    &&& tk.lexeme@ == input@.subrange(pos as int, pos + tk.lexeme@.len())
                    &&& exists|k: int|
                        0 <= k < self.rules@.len() && (#[trigger] self.rules@[k]).sym == tk.sym
                    &&& exists|k: int|
                        0 <= k < self.rules@.len() && !(#[trigger] self.rules@[k]).reserved
                            && regex_find(self.rules@[k].re.pattern(), input@, pos as int) == Some(
                            (pos as int, pos + tk.lexeme@.len()),
                        )
                    &&& token_lexed(tk, self.rules@, input@)
                },
                None => lexer_stuck(self.rules@, input@, pos as int),
            },
    {
        let mut k: usize = 0;
        while k < self.rules.len()
            invariant
                pos < input@.len(),
                k <= self.rules@.len(),
                forall|k2: int|
                    0 <= k2 < k && !(#[trigger] self.rules@[k2]).reserved ==> !good_match(
                        self.rules@[k2],
                        input@,
                        pos as int,
                    ),
            decreases self.rules@.len() - k,
        {
            if !self.rules[k].reserved {
                match find_at(&self.rules[k].re, input, pos) {
                    Some((s, e)) => {
                        if s == pos && e > pos {
                            proof {
                                assert(regex_find(
                                    self.rules@[k as int].re.pattern(),
                                    input@,
                                    pos as int,
                                ) == Some((pos as int, e as int)));
                            }
                            let lexeme = slice_to_vec(slice_subrange(input.as_slice(), s, e));
                            let ghost base_sym = self.rules@[k as int].sym;
                            let mut sym = self.rules[k].sym;
                            proof {
                                assert(self.rules@[k as int].sym == sym);
                            }
                            // reserved retag: the first reserved rule whose
                            // leftmost match covers the whole lexeme wins
                            let mut k2: usize = 0;
                            let mut done = false;
                            while k2 < self.rules.len()
                                invariant
                                    exists|j: int|
                                        0 <= j < self.rules@.len() && (#[trigger] self.rules@[
                                        j]).sym == sym,
                                    lexeme@.len() == e - s,
                                    k2 <= self.rules@.len(),
                                    !done ==> sym == base_sym,
                                    !done ==> retag_from(self.rules@, lexeme@, 0) == retag_from(
                                        self.rules@,
                                        lexeme@,
                                        k2 as int,
                                    ),
                                    done ==> retag_from(self.rules@, lexeme@, 0) == Some(sym),
                                decreases self.rules@.len() - k2,
                            {
                                if !done && self.rules[k2].reserved {
                                    match find_at(&self.rules[k2].re, &lexeme, 0) {
                                        Some((rs, re2)) => {
                                            if rs == 0 && re2 == lexeme.len() {
                                                sym = self.rules[k2].sym;
                                                done = true;
                                                proof {
                                                    assert(self.rules@[k2 as int].sym == sym);
                                                    assert(whole_match(
                                                        self.rules@[k2 as int],
                                                        lexeme@,
                                                    ));
                                                    assert(retag_from(
                                                        self.rules@,
                                                        lexeme@,
                                                        k2 as int,
                                                    ) == Some(sym));
                                                }
                                            } else {
                                                proof {
                                                    assert(!whole_match(
                                                        self.rules@[k2 as int],
                                                        lexeme@,
                                                    ));
                                                }
                                            }
                                        },
                                        None => {
                                            proof {
                                                assert(!whole_match(
                                                    self.rules@[k2 as int],
                                                    lexeme@,
                                                ));
                                            }
                                        },
                                    }
                                }
                                k2 += 1;
                            }
                            let tk = Token { sym, lexeme, pos };
                            proof {
                                assert(token_lexed(tk, self.rules@, input@)) by {
                                    if !done {
                                        assert(retag_from(self.rules@, lexeme@, 0) == retag_from(
                                            self.rules@,
                                            lexeme@,
                                            self.rules@.len() as int,
                                        ));
                                        assert(retag_from(self.rules@, lexeme@, 0) is None);
                                    }
                                    assert(tk.lexeme@ == lexeme@);
                                    assert(0 <= k < self.rules@.len() && !self.rules@[
                                        k as int].reserved && regex_find(
                                        self.rules@[k as int].re.pattern(),
                                        input@,
                                        tk.pos as int,
                                    ) == Some((tk.pos as int, tk.pos + tk.lexeme@.len())));
                                };
                            }
                            return Some(tk);
                        } else {
                            proof {
                                assert(!good_match(self.rules@[k as int], input@, pos as int));
                            }
                        }
                    },
                    None => {
                        proof {
                            assert(!good_match(self.rules@[k as int], input@, pos as int));
                        }
                    },
                }
            }
            k += 1;
        }
        None
    }

    /// Tokenize the whole input: whitespace skip, then greedy token match,
    /// until the input is exhausted. The tokens carve non-empty,
    /// non-overlapping slices out of the input at increasing positions, each
    /// the leftmost match of a non-reserved rule, with nothing but skipped
    /// whitespace between them; failure happens exactly at a position where
    /// no non-reserved rule matches.
    pub fn tokenize(&self, input: &Vec<u8>) -> (r: Result<Vec<Token>, TokenizeError>)
        ensures
            match r {
                Ok(toks) => {
                    &&& tokens_ok(toks@, input@)
                    &&& tokens_from_rules(toks@, self.rules@)
                    &&& tokens_matched(toks@, self.rules@, input@)
                    &&& tokens_lexed(toks@, self.rules@, input@)
                    &&& tokens_gapless(toks@, self.whitespace, input@)
                },
                Err(e) => {
                    &&& e.pos < input@.len()
                    &&& lexer_stuck(self.rules@, input@, e.pos as int)
                },
            },
    {
        let mut ret: Vec<Token> = Vec::new();
        let mut pos: usize = self.skip(input, 0);
        while pos < input.len()
            invariant
                pos <= input@.len(),
                tokens_ok(ret@, input@),
                tokens_from_rules(ret@, self.rules@),
                tokens_matched(ret@, self.rules@, input@),
                tokens_lexed(ret@, self.rules@, input@),
                ret@.len() == 0 ==> pos as int == skip_to(self.whitespace, input@, 0),
                ret@.len() > 0 ==> {
                    &&& ret@[0].pos == skip_to(self.whitespace, input@, 0)
                    &&& ret@.last().pos + ret@.last().lexeme@.len() <= pos
                    &&& pos as int == skip_to(
                        self.whitespace,
                        input@,
                        ret@.last().pos + ret@.last().lexeme@.len(),
                    )
                },
                forall|i: int|
                    0 <= i && i + 1 < ret@.len() ==> (#[trigger] ret@[i + 1]).pos == skip_to(
                        self.whitespace,
                        input@,
                        ret@[i].pos + ret@[i].lexeme@.len(),
                    ),
            decreases input@.len() - pos,
        {
            let tk = match self.find_token(input, pos) {
                Some(tk) => tk,
                None => {
                    return Err(TokenizeError { pos });
                },
            };
            let ghost ret_prev = ret@;
            let ghost tkg = tk;
            let end = tk.pos + tk.lexeme.len();
            ret.push(tk);
            proof {
                assert(ret@.last() == tkg);
                assert(forall|i: int| 0 <= i < ret_prev.len() ==> #[trigger] ret@[i] == ret_prev[i]);
                assert forall|i: int|
                    0 <= i && i + 1 < ret@.len() implies (#[trigger] ret@[i]).pos
                    + ret@[i].lexeme@.len() <= ret@[i + 1].pos by {
                    if i + 1 < ret_prev.len() {
                        assert(ret@[i] == ret_prev[i]);
                    } else {
                        assert(ret@[i] == ret_prev[ret_prev.len() - 1]);
                        assert(ret@[i + 1] == tkg);
                    }
                };
                assert forall|i: int|
                    0 <= i && i + 1 < ret@.len() implies (#[trigger] ret@[i + 1]).pos == skip_to(
                    self.whitespace,
                    input@,
                    ret@[i].pos + ret@[i].lexeme@.len(),
                ) by {
                    if i + 1 < ret_prev.len() {
                        assert(ret@[i] == ret_prev[i] && ret@[i + 1] == ret_prev[i + 1]);
                    } else if ret_prev.len() > 0 {
                        assert(ret@[i] == ret_prev[ret_prev.len() - 1]);
                        assert(ret@[i + 1] == tkg);
                    }
                };
            }
            pos = self.skip(input, end);
        }
        Ok(ret)
    }
}

} // verus!
