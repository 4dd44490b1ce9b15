//! The instruction executor: semicolon-delimited blocks of one or two
//! tokens, dispatched against a single mutable stack of `i32` values.
//! Arithmetic wraps on overflow.

use crate::text::{
    split_seq, split_str, strip_newlines, strip_newlines_str, trim_str, trimmed, word_views,
};
use crate::token::{identify_token, token_of, Error, SpecError, Token};
use vstd::prelude::*;
use vstd::wrapping::i32_specs;

verus! {

/// The tokens of a list of words, in order, or the first word that
/// resolves to no token.
pub open spec fn tokens_of(words: Seq<Seq<char>>) -> Result<Seq<Token>, Seq<char>>
    decreases words.len(),
{
    if words.len() == 0 {
        Ok(Seq::empty())
    } else {
        match tokens_of(words.drop_last()) {
            Err(w) => Err(w),
            Ok(ts) => match token_of(words.last()) {
                Some(t) => Ok(ts.push(t)),
                None => Err(words.last()),
            },
        }
    }
}

/// Once a prefix of the words fails to tokenize, the whole list fails
/// with the same word.
pub proof fn lemma_tokens_of_err_extends(words: Seq<Seq<char>>, i: int)
    requires
        0 <= i <= words.len(),
        tokens_of(words.take(i)) is Err,
    ensures
        tokens_of(words) == tokens_of(words.take(i)),
    decreases words.len() - i,
{
    if i < words.len() {
        assert(words.take(i + 1).drop_last() =~= words.take(i));
        lemma_tokens_of_err_extends(words, i + 1);
    } else {
        assert(words.take(i) =~= words);
    }
}

/// The effect of one tokenized instruction block on the stack: the new
/// stack and the values emitted as output, or the failure.
///
/// The top of the stack is the last element of the sequence. `sub` pops
/// `x` then `y` and pushes `y - x`, so the value pushed earlier is the
/// minuend. A block of more than two tokens, a one-token block whose
/// token is no operation, and a two-token block other than
/// `push <number>` are syntax failures; popping or peeking an empty
/// stack is an underflow.
pub open spec fn step_tokens(ts: Seq<Token>, stack: Seq<i32>) -> Result<
    (Seq<i32>, Seq<i32>),
    SpecError,
> {
    if ts.len() > 2 {
        Err(SpecError::TooManyTokens)
    } else if ts.len() == 1 {
        match ts[0] {
            Token::Increment => if stack.len() < 1 {
                Err(SpecError::Underflow)
            } else {
                Ok((stack.drop_last().push(i32_specs::wrapping_add(stack.last(), 1)), Seq::empty()))
            },
            Token::Decrement => if stack.len() < 1 {
                Err(SpecError::Underflow)
            } else {
                Ok((stack.drop_last().push(i32_specs::wrapping_sub(stack.last(), 1)), Seq::empty()))
            },
            Token::Minus => if stack.len() < 2 {
                Err(SpecError::Underflow)
            } else {
                let x = stack.last();
                let y = stack[stack.len() - 2];
                Ok(
                    (
                        stack.drop_last().drop_last().push(i32_specs::wrapping_sub(y, x)),
                        Seq::empty(),
                    ),
                )
            },
            Token::Plus => if stack.len() < 2 {
                Err(SpecError::Underflow)
            } else {
                let x = stack.last();
                let y = stack[stack.len() - 2];
                Ok(
                    (
                        stack.drop_last().drop_last().push(i32_specs::wrapping_add(x, y)),
                        Seq::empty(),
                    ),
                )
            },
            Token::Square => if stack.len() < 1 {
                Err(SpecError::Underflow)
            } else {
                Ok(
                    (
                        stack.drop_last().push(
                            i32_specs::wrapping_mul(stack.last(), stack.last()),
                        ),
                        Seq::empty(),
                    ),
                )
            },
            Token::Dump => if stack.len() < 1 {
                Err(SpecError::Underflow)
            } else {
                Ok((stack.drop_last(), seq![stack.last()]))
            },
            Token::Out => if stack.len() < 1 {
                Err(SpecError::Underflow)
            } else {
                Ok((stack, seq![stack.last()]))
            },
            t => Err(SpecError::UnexpectedSingle { token: t }),
        }
    } else if ts.len() == 2 {
        match (ts[0], ts[1]) {
            (Token::Push, Token::Number(x)) => Ok((stack.push(x), Seq::empty())),
            _ => Err(SpecError::BadPair),
        }
    } else {
        Ok((stack, Seq::empty()))
    }
}

/// The effect of one raw instruction block: trim it, split it on single
/// spaces, tokenize every word, then dispatch.
pub open spec fn block_step(block: Seq<char>, stack: Seq<i32>) -> Result<
    (Seq<i32>, Seq<i32>),
    SpecError,
> {
    match tokens_of(split_seq(trimmed(block), ' ')) {
        Err(w) => Err(SpecError::Tokenize { word: w }),
        Ok(ts) => step_tokens(ts, stack),
    }
}

/// Run the blocks in order, threading the stack and accumulating output;
/// the first failure stops the run with the stack and output reached so
/// far.
pub open spec fn run_blocks(blocks: Seq<Seq<char>>, stack: Seq<i32>, out: Seq<i32>) -> (
    Seq<i32>,
    Seq<i32>,
    Option<SpecError>,
)
    decreases blocks.len(),
{
    if blocks.len() == 0 {
        (stack, out, None)
    } else {
        match block_step(blocks[0], stack) {
            Err(e) => (stack, out, Some(e)),
            Ok(p) => run_blocks(blocks.skip(1), p.0, out + p.1),
        }
    }
}

/// The instruction blocks of a program text: newlines removed, the rest
/// split on `;`, and the final fragment dropped. A program is expected to
/// end with `;`; when it does not, its last instruction is silently
/// dropped.
pub open spec fn program_blocks(src: Seq<char>) -> Seq<Seq<char>> {
    split_seq(strip_newlines(src), ';').drop_last()
}

/// The complete outcome of running a program from an empty stack: the
/// final stack, the output in emission order, and the failure that ended
/// the run, if any.
pub open spec fn program_outcome(src: Seq<char>) -> (Seq<i32>, Seq<i32>, Option<SpecError>) {
    run_blocks(program_blocks(src), Seq::empty(), Seq::empty())
}

/// Running the same program twice yields the same outcome: the outcome
/// is a function of the program text alone, so no hidden state carries
/// over from one run to the next.
pub proof fn lemma_runs_agree(first_run: Seq<char>, second_run: Seq<char>)
    requires
        first_run == second_run,
    ensures
        program_outcome(first_run) == program_outcome(second_run),
{
}

/// Tokenize every word of a block, or report the first word that
/// resolves to no token.
fn tokenize_words(words: &Vec<String>) -> (r: Result<Vec<Token>, Error>)
    ensures
        ({
            match tokens_of(word_views(words@)) {
                Ok(ts) => r matches Ok(v) && v@ == ts,
                Err(w) => r matches Err(e) && e@ == (SpecError::Tokenize { word: w }),
            }
        }),
{
    let ghost ws = word_views(words@);
    let mut toks: Vec<Token> = Vec::new();
    let mut i: usize = 0;
    proof {
        assert(ws.take(0) =~= Seq::<Seq<char>>::empty());
    }
    while i < words.len()
        invariant
            i <= words.len(),
            ws == word_views(words@),
            ws.len() == words@.len(),
            tokens_of(ws.take(i as int)) == Ok::<Seq<Token>, Seq<char>>(toks@),
        decreases words.len() - i,
    {
        let w = &words[i];
        proof {
            assert(ws.take(i + 1).drop_last() =~= ws.take(i as int));
            assert(ws.take(i + 1).last() == words@[i as int]@);
        }
        match identify_token(w.as_str()) {
            Ok(t) => {
                toks.push(t);
            },
            Err(e) => {
                proof {
                    lemma_tokens_of_err_extends(ws, i + 1);
                }
                return Err(e);
            },
        }
        i = i + 1;
    }
    proof {
        assert(ws.take(words@.len() as int) =~= ws);
    }
    Ok(toks)
}

/// Dispatch one tokenized block against the stack. On failure the stack
/// and the output are left unchanged.
fn step_exec(toks: &Vec<Token>, state: &mut Vec<i32>, output: &mut Vec<i32>) -> (r: Result<
    (),
    Error,
>)
    ensures
        ({
            match step_tokens(toks@, old(state)@) {
                Ok(p) => r is Ok && final(state)@ == p.0 && final(output)@ == old(output)@ + p.1,
                Err(se) => (r matches Err(e) && e@ == se) && final(state)@ == old(state)@
                    && final(output)@ == old(output)@,
            }
        }),
{
    let ghost out0 = output@;
    if toks.len() > 2 {
        proof {
            assert(out0 =~= out0 + Seq::<i32>::empty());
        }
        return Err(Error::TooManyTokens);
    }
    if toks.len() == 1 {
        let r = match toks[0] {
            Token::Increment => {
                if state.len() == 0 {
                    return Err(Error::Underflow);
                }
                let v = state.pop().unwrap();
                state.push(v.wrapping_add(1));
                Ok(())
            },
            Token::Decrement => {
                if state.len() == 0 {
                    return Err(Error::Underflow);
                }
                let v = state.pop().unwrap();
                state.push(v.wrapping_sub(1));
                Ok(())
            },
            Token::Minus => {
                if state.len() < 2 {
                    return Err(Error::Underflow);
                }
                let x = state.pop().unwrap();
                let y = state.pop().unwrap();
                state.push(y.wrapping_sub(x));
                Ok(())
            },
            Token::Plus => {
                if state.len() < 2 {
                    return Err(Error::Underflow);
                }
                let x = state.pop().unwrap();
                let y = state.pop().unwrap();
                state.push(x.wrapping_add(y));
                Ok(())
            },
            Token::Square => {
                if state.len() == 0 {
                    return Err(Error::Underflow);
                }
                let v = state.pop().unwrap();
                state.push(v.wrapping_mul(v));
                Ok(())
            },
            Token::Dump => {
                if state.len() == 0 {
                    return Err(Error::Underflow);
                }
                let v = state.pop().unwrap();
                output.push(v);
                Ok(())
            },
            Token::Out => {
                if state.len() == 0 {
                    return Err(Error::Underflow);
                }
                let v = state[state.len() - 1];
                output.push(v);
                Ok(())
            },
            t => Err(Error::UnexpectedSingle { token: t }),
        };
        proof {
            match step_tokens(toks@, old(state)@) {
                Ok(p) => {
                    assert(output@ =~= out0 + p.1);
                    assert(state@ =~= p.0);
                },
                Err(_) => {
                    assert(output@ =~= out0);
                },
            }
        }
        r
    } else if toks.len() == 2 {
        proof {
            assert(out0 =~= out0 + Seq::<i32>::empty());
        }
        match (toks[0], toks[1]) {
            (Token::Push, Token::Number(x)) => {
                state.push(x);
                Ok(())
            },
            _ => Err(Error::BadPair),
        }
    } else {
        proof {
            assert(out0 =~= out0 + Seq::<i32>::empty());
        }
        Ok(())
    }
}

/// Execute one instruction block against the stack, appending any output
/// it emits. On failure the stack and the output are left unchanged and
/// the failure is returned.
pub fn parse_instruction(instruction: &str, state: &mut Vec<i32>, output: &mut Vec<i32>) -> (r:
    Result<(), Error>)
    ensures
        ({
            match block_step(instruction@, old(state)@) {
                Ok(p) => r is Ok && final(state)@ == p.0 && final(output)@ == old(output)@ + p.1,
                Err(se) => (r matches Err(e) && e@ == se) && final(state)@ == old(state)@
                    && final(output)@ == old(output)@,
            }
        }),
{
    let t = trim_str(instruction);
    let words = split_str(t, ' ');
    match tokenize_words(&words) {
        Ok(toks) => step_exec(&toks, state, output),
        Err(e) => Err(e),
    }
}

/// What one run of a program leaves behind: the final stack, the output
/// in emission order, and the failure that ended the run, if any.
pub struct RunOutcome {
    pub stack: Vec<i32>,
    pub output: Vec<i32>,
    pub error: Option<Error>,
}

/// Run a whole program text from an empty stack: strip newlines, split
/// the rest on `;`, drop the final fragment, and execute the blocks in
/// order until the end or the first failure.
pub fn run_source(source: &str) -> (r: RunOutcome)
    ensures
        ({
            let o = program_outcome(source@);
            r.stack@ == o.0 && r.output@ == o.1 && match r.error {
                Some(e) => o.2 == Some(e@),
                None => o.2 is None,
            }
        }),
{
    let ghost pb = program_blocks(source@);
    let stripped = strip_newlines_str(source);
    let mut blocks = split_str(stripped.as_str(), ';');
    proof {
        crate::text::lemma_split_seq_len(stripped@, ';');
        assert(word_views(blocks@).len() == blocks@.len());
    }
    let ghost whole = blocks@;
    let _ = blocks.pop();
    proof {
        assert(word_views(blocks@) =~~= word_views(whole).drop_last());
        assert(word_views(blocks@) == pb);
    }
    let mut stack: Vec<i32> = Vec::new();
    let mut output: Vec<i32> = Vec::new();
    let mut i: usize = 0;
    proof {
        assert(pb.skip(0) =~= pb);
    }
    while i < blocks.len()
        invariant
            i <= blocks.len(),
            pb == program_blocks(source@),
            pb == word_views(blocks@),
            pb.len() == blocks@.len(),
            run_blocks(pb, Seq::empty(), Seq::empty()) == run_blocks(
                pb.skip(i as int),
                stack@,
                output@,
            ),
        decreases blocks.len() - i,
    {
        let block = &blocks[i];
        proof {
            assert(pb.skip(i as int)[0] == block@);
            assert(pb.skip(i as int).skip(1) =~= pb.skip(i + 1));
        }
        let ghost st0 = stack@;
        let ghost out0 = output@;
        match parse_instruction(block.as_str(), &mut stack, &mut output) {
            Ok(()) => {},
            Err(e) => {
                proof {
                    assert(run_blocks(pb.skip(i as int), st0, out0) == (
                        st0,
                        out0,
                        Some(e@),
                    ));
                }
                return RunOutcome { stack, output, error: Some(e) };
            },
        }
        i = i + 1;
    }
    proof {
        assert(pb.skip(blocks@.len() as int) =~= Seq::<Seq<char>>::empty());
    }
    RunOutcome { stack, output, error: None }
}

} // verus!
