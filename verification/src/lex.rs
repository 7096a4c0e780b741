//! Tokenization of source text into the intermediate representation.
//!
//! The lexer scans the source characters left to right, turning each
//! recognized character into a unit-magnitude operation.  Loop brackets are
//! resolved into matched `LoopStart(id)` / `LoopEnd(id)` pairs by a stack of
//! currently open loop ids; ids are assigned in source order of `[` and never
//! reused.  Unrecognized characters are skipped.

use vstd::prelude::*;

verus! {

/// One operation of the intermediate representation.
///
/// The four magnitude-bearing kinds carry an unsigned run length; the two
/// loop kinds carry the id of their matched pair; `PutChar` and `GetChar`
/// carry nothing.
#[derive(Debug, Clone, Copy, PartialEq, Eq, Structural)]
pub enum Token {
    PtrAdd(usize),
    PtrSub(usize),
    Add(usize),
    Sub(usize),
    LoopStart(usize),
    LoopEnd(usize),
    PutChar,
    GetChar,
}

/// The ways lexing can fail: a `]` with no open loop, or a `[` left open at
/// the end of the input.
#[derive(Debug, Clone, Copy, PartialEq, Eq, Structural)]
pub enum LexError {
    UnmatchedLoopEnd,
    UnmatchedLoopStart,
}

/// What lexing the remaining characters `s` produces, starting from an
/// already-emitted token sequence, the next free loop id, and the stack of
/// open loop ids.
pub open spec fn spec_lex_from(
    s: Seq<char>,
    tokens: Seq<Token>,
    counter: usize,
    stack: Seq<usize>,
) -> Result<Seq<Token>, LexError>
    decreases s.len(),
{
    if s.len() == 0 {
        if stack.len() == 0 {
            Ok(tokens)
        } else {
            Err(LexError::UnmatchedLoopStart)
        }
    } else {
        let c = s[0];
        let rest = s.skip(1);
        if c == '>' {
            spec_lex_from(rest, tokens.push(Token::PtrAdd(1)), counter, stack)
        } else if c == '<' {
            spec_lex_from(rest, tokens.push(Token::PtrSub(1)), counter, stack)
        } else if c == '+' {
            spec_lex_from(rest, tokens.push(Token::Add(1)), counter, stack)
        } else if c == '-' {
            spec_lex_from(rest, tokens.push(Token::Sub(1)), counter, stack)
        } else if c == '[' {
            spec_lex_from(
                rest,
                tokens.push(Token::LoopStart(counter)),
                (counter + 1) as usize,
                stack.push(counter),
            )
        } else if c == ']' {
            if stack.len() == 0 {
                Err(LexError::UnmatchedLoopEnd)
            } else {
                spec_lex_from(rest, tokens.push(Token::LoopEnd(stack.last())), counter, stack.drop_last())
            }
        } else if c == '.' {
            spec_lex_from(rest, tokens.push(Token::PutChar), counter, stack)
        } else if c == ',' {
            spec_lex_from(rest, tokens.push(Token::GetChar), counter, stack)
        } else {
            spec_lex_from(rest, tokens, counter, stack)
        }
    }
}

/// The token sequence (or error) that lexing a whole source text produces.
pub open spec fn spec_lex(s: Seq<char>) -> Result<Seq<Token>, LexError> {
    spec_lex_from(s, Seq::empty(), 0, Seq::empty())
}

/// Convert source text into the IR token sequence.
///
/// Total over all inputs except malformed bracket nesting: a `]` with no
/// open loop fails with `UnmatchedLoopEnd`, and input that ends inside an
/// open loop fails with `UnmatchedLoopStart`.
pub fn lex(contents: &str) -> (r: Result<Vec<Token>, LexError>)
    ensures
        match r {
            Ok(v) => spec_lex(contents@) == Ok::<Seq<Token>, LexError>(v@),
            Err(e) => spec_lex(contents@) == Err::<Seq<Token>, LexError>(e),
        },
{
    let n = contents.unicode_len();
    let mut tokens: Vec<Token> = Vec::new();
    let mut loop_counter: usize = 0;
    let mut active_loops: Vec<usize> = Vec::new();
    let mut i: usize = 0;

    proof {
        assert(contents@.skip(0) =~= contents@);
    }
    while i < n
        invariant
            n == contents@.len(),
            i <= n,
            loop_counter <= i,
            spec_lex(contents@) == spec_lex_from(
                contents@.skip(i as int),
                tokens@,
                loop_counter,
                active_loops@,
            ),
        decreases n - i,
    {
        let c = contents.get_char(i);
        proof {
            assert(contents@.skip(i as int)[0] == contents@[i as int]);
            assert(contents@.skip(i as int).skip(1) =~= contents@.skip(i as int + 1));
        }
        match c {
            '>' => tokens.push(Token::PtrAdd(1)),
            '<' => tokens.push(Token::PtrSub(1)),
            '+' => tokens.push(Token::Add(1)),
            '-' => tokens.push(Token::Sub(1)),
            '[' => {
                tokens.push(Token::LoopStart(loop_counter));
                active_loops.push(loop_counter);
                loop_counter = loop_counter + 1;
            },
            ']' => {
                let popped = active_loops.pop();
                match popped {
                    Some(t) => {
                        tokens.push(Token::LoopEnd(t));
                    },
                    None => {
                        return Err(LexError::UnmatchedLoopEnd);
                    },
                }
            },
            '.' => tokens.push(Token::PutChar),
            ',' => tokens.push(Token::GetChar),
            _ => {},
        }
        i = i + 1;
    }

    if active_loops.len() == 0 {
        Ok(tokens)
    } else {
        Err(LexError::UnmatchedLoopStart)
    }
}

/// Whether the loop markers of `ts` close properly over a stack of open
/// loop ids: each `LoopEnd` carries the id of the innermost open
/// `LoopStart` and closes it, and nothing stays open at the end.
pub open spec fn closes_ok(ts: Seq<Token>, stack: Seq<usize>) -> bool
    decreases ts.len(),
{
    if ts.len() == 0 {
        stack.len() == 0
    } else {
        match ts[0] {
            Token::LoopStart(i) => closes_ok(ts.skip(1), stack.push(i)),
            Token::LoopEnd(i) => stack.len() > 0 && stack.last() == i && closes_ok(
                ts.skip(1),
                stack.drop_last(),
            ),
            _ => closes_ok(ts.skip(1), stack),
        }
    }
}

/// How a lexed sequence grows: the part already emitted stays a prefix, and
/// the new suffix starts with the token just pushed.
proof fn lemma_prefix_step(v: Seq<Token>, tokens: Seq<Token>, t: Token)
    requires
        v.len() >= tokens.len() + 1,
        v.take(tokens.len() as int + 1) == tokens.push(t),
    ensures
        v.take(tokens.len() as int) == tokens,
        v.skip(tokens.len() as int).len() > 0,
        v.skip(tokens.len() as int)[0] == t,
        v.skip(tokens.len() as int).skip(1) == v.skip(tokens.len() as int + 1),
{
    let n = tokens.len() as int;
    assert(v.take(n) =~= tokens) by {
        assert(forall|k: int| 0 <= k < n ==> v.take(n + 1)[k] == #[trigger] v[k]);
    }
    assert(v.take(n + 1)[n] == v[n]);
    assert(v.skip(n)[0] == v[n]);
    assert(v.skip(n).skip(1) =~= v.skip(n + 1));
}

/// Whatever was emitted so far stays a prefix of an `Ok` result, and the
/// rest of the result closes properly over the current stack of open ids.
proof fn lemma_lex_from_closes(s: Seq<char>, tokens: Seq<Token>, counter: usize, stack: Seq<usize>)
    ensures
        spec_lex_from(s, tokens, counter, stack) matches Ok(v) ==> v.len() >= tokens.len()
            && v.take(tokens.len() as int) == tokens && closes_ok(
            v.skip(tokens.len() as int),
            stack,
        ),
    decreases s.len(),
{
    let n = tokens.len() as int;
    if s.len() == 0 {
        if stack.len() == 0 {
            let v = tokens;
            assert(v.take(n) =~= tokens);
            assert(v.skip(n) =~= Seq::<Token>::empty());
        }
    } else {
        let c = s[0];
        let rest = s.skip(1);
        if c == '>' {
            lemma_lex_from_closes(rest, tokens.push(Token::PtrAdd(1)), counter, stack);
            match spec_lex_from(s, tokens, counter, stack) {
                Ok(v) => {
                    lemma_prefix_step(v, tokens, Token::PtrAdd(1));
                },
                _ => {},
            }
        } else if c == '<' {
            lemma_lex_from_closes(rest, tokens.push(Token::PtrSub(1)), counter, stack);
            match spec_lex_from(s, tokens, counter, stack) {
                Ok(v) => {
                    lemma_prefix_step(v, tokens, Token::PtrSub(1));
                },
                _ => {},
            }
        } else if c == '+' {
            lemma_lex_from_closes(rest, tokens.push(Token::Add(1)), counter, stack);
            match spec_lex_from(s, tokens, counter, stack) {
                Ok(v) => {
                    lemma_prefix_step(v, tokens, Token::Add(1));
                },
                _ => {},
            }
        } else if c == '-' {
            lemma_lex_from_closes(rest, tokens.push(Token::Sub(1)), counter, stack);
            match spec_lex_from(s, tokens, counter, stack) {
                Ok(v) => {
                    lemma_prefix_step(v, tokens, Token::Sub(1));
                },
                _ => {},
            }
        } else if c == '[' {
            lemma_lex_from_closes(
                rest,
                tokens.push(Token::LoopStart(counter)),
                (counter + 1) as usize,
                stack.push(counter),
            );
            match spec_lex_from(s, tokens, counter, stack) {
                Ok(v) => {
                    lemma_prefix_step(v, tokens, Token::LoopStart(counter));
                },
                _ => {},
            }
        } else if c == ']' {
            if stack.len() > 0 {
                lemma_lex_from_closes(
                    rest,
                    tokens.push(Token::LoopEnd(stack.last())),
                    counter,
                    stack.drop_last(),
                );
                match spec_lex_from(s, tokens, counter, stack) {
                    Ok(v) => {
                        lemma_prefix_step(v, tokens, Token::LoopEnd(stack.last()));
                    },
                    _ => {},
                }
            }
        } else if c == '.' {
            lemma_lex_from_closes(rest, tokens.push(Token::PutChar), counter, stack);
            match spec_lex_from(s, tokens, counter, stack) {
                Ok(v) => {
                    lemma_prefix_step(v, tokens, Token::PutChar);
                },
                _ => {},
            }
        } else if c == ',' {
            lemma_lex_from_closes(rest, tokens.push(Token::GetChar), counter, stack);
            match spec_lex_from(s, tokens, counter, stack) {
                Ok(v) => {
                    lemma_prefix_step(v, tokens, Token::GetChar);
                },
                _ => {},
            }
        } else {
            lemma_lex_from_closes(rest, tokens, counter, stack);
        }
    }
}

/// Law: a successfully lexed program has properly nested loop markers.
/// Every `LoopEnd` closes the innermost loop open at that point and carries
/// its id, and no loop is left open at the end of the sequence.
pub proof fn lemma_lex_closes(s: Seq<char>, v: Seq<Token>)
    requires
        spec_lex(s) == Ok::<Seq<Token>, LexError>(v),
    ensures
        closes_ok(v, Seq::empty()),
{
    lemma_lex_from_closes(s, Seq::empty(), 0, Seq::empty());
    assert(v.skip(0) =~= v);
}

} // verus!
