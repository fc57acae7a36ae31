//! The tokenizer: a four-mode state machine over the characters of a query,
//! producing bare words, `key:value` parameters (with optional quoting), and
//! parenthesized sub-queries that are tokenized recursively.

use vstd::prelude::*;
use vstd::string::StrSliceExecFns;
use crate::parse::ParseError;
use crate::text::push_char;

verus! {

/// One token of a query.
#[derive(Debug, PartialEq)]
pub enum Token {
    /// A bare word, destined for the fuzzy search term.
    Word(String),
    /// A single `key:value` assertion; the value may have come from a quoted
    /// literal.
    Param(String, String),
    /// A parenthesized sub-query bound to a key, tokenized recursively.
    SuperParam(String, Vec<Token>),
}

/// Mathematical model of a [`Token`].
pub ghost enum TokenV {
    Word(Seq<char>),
    Param(Seq<char>, Seq<char>),
    SuperParam(Seq<char>, Seq<TokenV>),
}

/// Model of a token list, elementwise.
pub open spec fn tokens_view(ts: Seq<Token>) -> Seq<TokenV>
    decreases ts,
{
    if ts.len() == 0 {
        Seq::empty()
    } else {
        tokens_view(ts.subrange(0, ts.len() - 1)).push(token_view(ts[ts.len() - 1]))
    }
}

/// Model of a single token.
pub open spec fn token_view(t: Token) -> TokenV
    decreases t,
    via token_view_decreases
{
    match t {
        Token::Word(w) => TokenV::Word(w@),
        Token::Param(k, v) => TokenV::Param(k@, v@),
        Token::SuperParam(k, ts) => TokenV::SuperParam(k@, tokens_view(ts@)),
    }
}

#[via_fn]
proof fn token_view_decreases(t: Token) {
    match t {
        Token::SuperParam(k, ts) => {
            assert(decreases_to!(t => ts@));
        },
        _ => {},
    }
}

pub broadcast proof fn lemma_tokens_view_push(ts: Seq<Token>, t: Token)
    ensures
        #[trigger] tokens_view(ts.push(t)) == tokens_view(ts).push(token_view(t)),
{
    assert(ts.push(t).subrange(0, ts.push(t).len() - 1) =~= ts);
}

pub proof fn lemma_tokens_view_len(ts: Seq<Token>)
    ensures
        tokens_view(ts).len() == ts.len(),
        forall|i: int| 0 <= i < ts.len() ==> tokens_view(ts)[i] == token_view(ts[i]),
    decreases ts.len(),
{
    if ts.len() > 0 {
        lemma_tokens_view_len(ts.subrange(0, ts.len() - 1));
    }
}

/// The tokenizer's state between two characters.
pub ghost enum LexState {
    /// Accumulating a bare word.
    Word { buf: Seq<char> },
    /// Accumulating the value of `key:`.
    Param { key: Seq<char>, buf: Seq<char> },
    /// Inside a quoted value for `key`.
    Quoted { key: Seq<char>, buf: Seq<char> },
    /// Inside a parenthesized sub-query for `key`, at the given nesting
    /// depth.
    Sub { key: Seq<char>, buf: Seq<char>, depth: nat },
}

/// How many buffered characters may still be re-tokenized (only a sub-query
/// buffer is): part of the termination measure of [`spec_lex`].
pub open spec fn sub_load(st: LexState) -> nat {
    match st {
        LexState::Sub { buf, .. } => buf.len(),
        _ => 0,
    }
}

/// Is `c` a word separator? Every separator closes the word being
/// accumulated, even an empty one, and the end of the input acts as one
/// more separator: the last word or parameter always flushes, and the empty
/// query yields a single empty word.
pub open spec fn is_separator(c: char) -> bool {
    c == ' ' || c == '\n'
}

/// Does `c` switch a word into a parameter key, keeping `c` as the first
/// character of the value? This is how comparisons written without a colon,
/// such as a word followed by `>` and a number, become parameters.
pub open spec fn is_comparator(c: char) -> bool {
    c == '<' || c == '>' || c == '=' || c == '!'
}

/// The tokens produced by consuming `input` starting in state `st`.
///
/// Unterminated quotes and sub-queries consume silently to the end of the
/// input and emit nothing: a documented limitation, not an error.
pub open spec fn spec_lex(input: Seq<char>, st: LexState) -> Seq<TokenV>
    decreases sub_load(st) + input.len(), input.len(),
{
    if input.len() == 0 {
        match st {
            LexState::Word { buf } => seq![TokenV::Word(buf)],
            LexState::Param { key, buf } => seq![TokenV::Param(key, buf)],
            LexState::Quoted { .. } => Seq::empty(),
            LexState::Sub { .. } => Seq::empty(),
        }
    } else {
        let c = input[0];
        let rest = input.drop_first();
        match st {
            LexState::Word { buf } => {
                if is_separator(c) {
                    seq![TokenV::Word(buf)] + spec_lex(rest, LexState::Word { buf: Seq::empty() })
                } else if c == ':' {
                    spec_lex(rest, LexState::Param { key: buf, buf: Seq::empty() })
                } else if is_comparator(c) {
                    spec_lex(rest, LexState::Param { key: buf, buf: seq![c] })
                } else {
                    spec_lex(rest, LexState::Word { buf: buf.push(c) })
                }
            },
            LexState::Param { key, buf } => {
                if is_separator(c) {
                    seq![TokenV::Param(key, buf)] + spec_lex(
                        rest,
                        LexState::Word { buf: Seq::empty() },
                    )
                } else if c == '"' && buf.len() == 0 {
                    spec_lex(rest, LexState::Quoted { key, buf: Seq::empty() })
                } else if c == '(' && buf.len() == 0 {
                    spec_lex(rest, LexState::Sub { key, buf: Seq::empty(), depth: 0 })
                } else {
                    spec_lex(rest, LexState::Param { key, buf: buf.push(c) })
                }
            },
            LexState::Quoted { key, buf } => {
                if c == '"' {
                    seq![TokenV::Param(key, buf)] + spec_lex(
                        rest,
                        LexState::Word { buf: Seq::empty() },
                    )
                } else {
                    spec_lex(rest, LexState::Quoted { key, buf: buf.push(c) })
                }
            },
            LexState::Sub { key, buf, depth } => {
                if c == ')' && depth == 0 {
                    seq![
                        TokenV::SuperParam(key, spec_lex(buf, LexState::Word { buf: Seq::empty() })),
                    ] + spec_lex(rest, LexState::Word { buf: Seq::empty() })
                } else if c == '(' {
                    spec_lex(rest, LexState::Sub { key, buf: buf.push(c), depth: depth + 1 })
                } else if c == ')' {
                    spec_lex(
                        rest,
                        LexState::Sub { key, buf: buf.push(c), depth: (depth - 1) as nat },
                    )
                } else {
                    spec_lex(rest, LexState::Sub { key, buf: buf.push(c), depth })
                }
            },
        }
    }
}

/// The token sequence of a whole query.
pub open spec fn spec_tokenize(q: Seq<char>) -> Seq<TokenV> {
    spec_lex(q, LexState::Word { buf: Seq::empty() })
}

#[derive(Clone, Copy)]
enum LexMode {
    Word,
    Param,
    Quoted,
    Sub,
}

spec fn state_of(mode: LexMode, key: Seq<char>, buf: Seq<char>, depth: nat) -> LexState {
    match mode {
        LexMode::Word => LexState::Word { buf },
        LexMode::Param => LexState::Param { key, buf },
        LexMode::Quoted => LexState::Quoted { key, buf },
        LexMode::Sub => LexState::Sub { key, buf, depth },
    }
}

proof fn lemma_skip_step(q: Seq<char>, i: int)
    requires
        0 <= i < q.len(),
    ensures
        q.skip(i).len() == q.len() - i,
        q.skip(i)[0] == q[i],
        q.skip(i).drop_first() == q.skip(i + 1),
{
    assert(q.skip(i).drop_first() =~= q.skip(i + 1));
}

spec fn lex_inv(q: Seq<char>, tks: Seq<Token>, i: int, st: LexState) -> bool {
    tokens_view(tks) + spec_lex(q.skip(i), st) == spec_tokenize(q)
}

fn tokenize_inner(q: &str) -> (ts: Vec<Token>)
    ensures
        tokens_view(ts@) == spec_tokenize(q@),
    decreases q@.len(),
{
    broadcast use lemma_tokens_view_push;

    let n = q.unicode_len();
    let mut tokens: Vec<Token> = Vec::new();
    let mut mode = LexMode::Word;
    let mut key = String::new();
    let mut buf = String::new();
    let mut depth: usize = 0;
    let mut i: usize = 0;
    proof {
        assert(q@.skip(0) =~= q@);
        assert(Seq::<TokenV>::empty() + spec_tokenize(q@) =~= spec_tokenize(q@));
    }
    while i < n
        invariant
            n == q@.len(),
            i <= n,
            !(matches!(mode, LexMode::Word)) ==> 1 <= i,
            matches!(mode, LexMode::Sub) ==> depth <= i && buf@.len() + 2 <= i,
            lex_inv(q@, tokens@, i as int, state_of(mode, key@, buf@, depth as nat)),
        decreases n - i,
    {
        let ghost tokens0 = tokens@;
        let ghost st0 = state_of(mode, key@, buf@, depth as nat);
        let ghost rest = q@.skip(i + 1);
        let c = q.get_char(i);
        proof {
            lemma_skip_step(q@, i as int);
        }
        match mode {
            LexMode::Word => {
                if c == ' ' || c == '\n' {
                    let t = Token::Word(buf);
                    let ghost tv = token_view(t);
                    let ghost gt = t;
                    buf = String::new();
                    tokens.push(t);
                    proof {
                        let after = spec_lex(rest, LexState::Word { buf: Seq::empty() });
                        assert(spec_lex(q@.skip(i as int), st0) == seq![tv] + after);
                        assert(tokens_view(tokens0) + (seq![tv] + after) =~= tokens_view(
                            tokens0,
                        ).push(tv) + after);
                        lemma_tokens_view_push(tokens0, gt);
                        assert(lex_inv(q@, tokens@, i + 1, state_of(mode, key@, buf@, depth as nat)));
                    }
                } else if c == ':' {
                    key = buf;
                    buf = String::new();
                    mode = LexMode::Param;
                    proof {
                        assert(lex_inv(q@, tokens@, i + 1, state_of(mode, key@, buf@, depth as nat)));
                    }
                } else if c == '<' || c == '>' || c == '=' || c == '!' {
                    key = buf;
                    buf = String::new();
                    push_char(&mut buf, c);
                    mode = LexMode::Param;
                    proof {
                        assert(Seq::<char>::empty().push(c) =~= seq![c]);
                        assert(lex_inv(q@, tokens@, i + 1, state_of(mode, key@, buf@, depth as nat)));
                    }
                } else {
                    push_char(&mut buf, c);
                    proof {
                        assert(lex_inv(q@, tokens@, i + 1, state_of(mode, key@, buf@, depth as nat)));
                    }
                }
            },
            LexMode::Param => {
                if c == ' ' || c == '\n' {
                    let t = Token::Param(key, buf);
                    let ghost tv = token_view(t);
                    let ghost gt = t;
                    key = String::new();
                    buf = String::new();
                    tokens.push(t);
                    mode = LexMode::Word;
                    proof {
                        let after = spec_lex(rest, LexState::Word { buf: Seq::empty() });
                        assert(spec_lex(q@.skip(i as int), st0) == seq![tv] + after);
                        assert(tokens_view(tokens0) + (seq![tv] + after) =~= tokens_view(
                            tokens0,
                        ).push(tv) + after);
                        lemma_tokens_view_push(tokens0, gt);
                        assert(lex_inv(q@, tokens@, i + 1, state_of(mode, key@, buf@, depth as nat)));
                    }
                } else if c == '"' && buf.as_str().is_empty() {
                    mode = LexMode::Quoted;
                    proof {
                        assert(buf@ =~= Seq::<char>::empty());
                        assert(lex_inv(q@, tokens@, i + 1, state_of(mode, key@, buf@, depth as nat)));
                    }
                } else if c == '(' && buf.as_str().is_empty() {
                    mode = LexMode::Sub;
                    depth = 0;
                    proof {
                        assert(buf@ =~= Seq::<char>::empty());
                        assert(lex_inv(q@, tokens@, i + 1, state_of(mode, key@, buf@, depth as nat)));
                    }
                } else {
                    push_char(&mut buf, c);
                    proof {
                        assert(lex_inv(q@, tokens@, i + 1, state_of(mode, key@, buf@, depth as nat)));
                    }
                }
            },
            LexMode::Quoted => {
                if c == '"' {
                    let t = Token::Param(key, buf);
                    let ghost tv = token_view(t);
                    let ghost gt = t;
                    key = String::new();
                    buf = String::new();
                    tokens.push(t);
                    mode = LexMode::Word;
                    proof {
                        let after = spec_lex(rest, LexState::Word { buf: Seq::empty() });
                        assert(spec_lex(q@.skip(i as int), st0) == seq![tv] + after);
                        assert(tokens_view(tokens0) + (seq![tv] + after) =~= tokens_view(
                            tokens0,
                        ).push(tv) + after);
                        lemma_tokens_view_push(tokens0, gt);
                        assert(lex_inv(q@, tokens@, i + 1, state_of(mode, key@, buf@, depth as nat)));
                    }
                } else {
                    push_char(&mut buf, c);
                    proof {
                        assert(lex_inv(q@, tokens@, i + 1, state_of(mode, key@, buf@, depth as nat)));
                    }
                }
            },
            LexMode::Sub => {
                if c == ')' && depth == 0 {
                    let sub_tokens = tokenize_inner(buf.as_str());
                    let t = Token::SuperParam(key, sub_tokens);
                    let ghost tv = token_view(t);
                    let ghost gt = t;
                    key = String::new();
                    buf = String::new();
                    tokens.push(t);
                    mode = LexMode::Word;
                    proof {
                        let after = spec_lex(rest, LexState::Word { buf: Seq::empty() });
                        assert(spec_lex(q@.skip(i as int), st0) == seq![tv] + after);
                        assert(tokens_view(tokens0) + (seq![tv] + after) =~= tokens_view(
                            tokens0,
                        ).push(tv) + after);
                        lemma_tokens_view_push(tokens0, gt);
                        assert(lex_inv(q@, tokens@, i + 1, state_of(mode, key@, buf@, depth as nat)));
                    }
                } else if c == '(' {
                    depth += 1;
                    push_char(&mut buf, c);
                    proof {
                        assert(lex_inv(q@, tokens@, i + 1, state_of(mode, key@, buf@, depth as nat)));
                    }
                } else if c == ')' {
                    depth -= 1;
                    push_char(&mut buf, c);
                    proof {
                        assert(lex_inv(q@, tokens@, i + 1, state_of(mode, key@, buf@, depth as nat)));
                    }
                } else {
                    push_char(&mut buf, c);
                    proof {
                        assert(lex_inv(q@, tokens@, i + 1, state_of(mode, key@, buf@, depth as nat)));
                    }
                }
            },
        }
        i += 1;
    }
    proof {
        assert(q@.skip(n as int) =~= Seq::<char>::empty());
    }
    let ghost tokens0 = tokens@;
    let ghost st0 = state_of(mode, key@, buf@, depth as nat);
    match mode {
        LexMode::Word => {
            let t = Token::Word(buf);
            let ghost tv = token_view(t);
            let ghost gt = t;
            tokens.push(t);
            proof {
                assert(spec_lex(Seq::<char>::empty(), st0) == seq![tv]);
                assert(tokens_view(tokens0) + seq![tv] =~= tokens_view(tokens0).push(tv));
                lemma_tokens_view_push(tokens0, gt);
            }
        },
        LexMode::Param => {
            let t = Token::Param(key, buf);
            let ghost tv = token_view(t);
            let ghost gt = t;
            tokens.push(t);
            proof {
                assert(spec_lex(Seq::<char>::empty(), st0) == seq![tv]);
                assert(tokens_view(tokens0) + seq![tv] =~= tokens_view(tokens0).push(tv));
                lemma_tokens_view_push(tokens0, gt);
            }
        },
        LexMode::Quoted => {
            proof {
                assert(tokens_view(tokens@) + Seq::<TokenV>::empty() =~= tokens_view(tokens@));
            }
        },
        LexMode::Sub => {
            proof {
                assert(tokens_view(tokens@) + Seq::<TokenV>::empty() =~= tokens_view(tokens@));
            }
        },
    }
    tokens
}

/// Tokenize a raw query.
///
/// Tokenization itself never fails: unterminated quotes and sub-queries
/// consume to the end of the input, and every input yields `Ok`. The
/// `Result` shape is the tokenizer's contract with its caller, which treats
/// any failure of the pipeline uniformly.
pub fn tokenize(q: &str) -> (r: Result<Vec<Token>, ParseError>)
    ensures
        r is Ok,
        tokens_view(r->Ok_0@) == spec_tokenize(q@),
{
    Ok(tokenize_inner(q))
}

} // verus!
