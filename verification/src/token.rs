//! Tokens of the stack-machine language, and the tokenizer.
//!
//! A word is either one of the eight fixed keywords (matched exactly and
//! case-sensitively) or a base-10 signed integer literal: an optional
//! leading `-`, then one or more decimal digits, with the value in range
//! for `i32`. No leading `+`, no other bases, no fractions.

use vstd::prelude::*;

verus! {

/// The typed result of recognizing one source word.
#[derive(Clone, Copy, Debug, PartialEq, Eq, Structural)]
pub enum Token {
    Number(i32),
    Increment,
    Decrement,
    Square,
    Plus,
    Minus,
    Push,
    Dump,
    Out,
}

/// A fatal failure of tokenizing or of executing one instruction block.
#[derive(Debug)]
pub enum Error {
    /// A word matched no keyword and was no integer literal.
    Tokenize { word: String },
    /// An instruction block held more than two tokens.
    TooManyTokens,
    /// A one-token block whose token names no operation.
    UnexpectedSingle { token: Token },
    /// A two-token block other than `push` followed by a number.
    BadPair,
    /// A pop or peek was attempted on an empty stack.
    Underflow,
}

/// The mathematical shape of an [`Error`]: the offending word as a
/// sequence of characters.
pub enum SpecError {
    Tokenize { word: Seq<char> },
    TooManyTokens,
    UnexpectedSingle { token: Token },
    BadPair,
    Underflow,
}

impl View for Error {
    type V = SpecError;

    open spec fn view(&self) -> SpecError {
        match self {
            Error::Tokenize { word } => SpecError::Tokenize { word: word@ },
            Error::TooManyTokens => SpecError::TooManyTokens,
            Error::UnexpectedSingle { token } => SpecError::UnexpectedSingle { token: *token },
            Error::BadPair => SpecError::BadPair,
            Error::Underflow => SpecError::Underflow,
        }
    }
}

/// A decimal digit `'0'` through `'9'`.
pub open spec fn is_digit_char(c: char) -> bool {
    '0' as int <= c as int <= '9' as int
}

/// The numeric value of one decimal digit.
pub open spec fn digit_val(c: char) -> int {
    c as int - '0' as int
}

/// Every character of `s` is a decimal digit.
pub open spec fn all_digits(s: Seq<char>) -> bool {
    forall|i: int| 0 <= i < s.len() ==> is_digit_char(#[trigger] s[i])
}

/// The value of a digit string read in base 10; the empty string reads as 0.
pub open spec fn digits_value(s: Seq<char>) -> int
    decreases s.len(),
{
    if s.len() == 0 {
        0
    } else {
        digits_value(s.drop_last()) * 10 + digit_val(s.last())
    }
}

/// `s` is a well-formed signed decimal integer: an optional leading `-`,
/// then one or more digits.
pub open spec fn is_int_literal(s: Seq<char>) -> bool {
    if s.len() > 0 && s[0] == '-' {
        s.len() > 1 && all_digits(s.skip(1))
    } else {
        s.len() > 0 && all_digits(s)
    }
}

/// The value denoted by a well-formed signed decimal integer.
pub open spec fn int_literal_value(s: Seq<char>) -> int {
    if s.len() > 0 && s[0] == '-' {
        -digits_value(s.skip(1))
    } else {
        digits_value(s)
    }
}

/// `s` denotes an integer that fits in an `i32`.
pub open spec fn is_i32_literal(s: Seq<char>) -> bool {
    is_int_literal(s) && i32::MIN <= int_literal_value(s) <= i32::MAX
}

/// The keyword token that `s` names exactly, if any.
pub open spec fn keyword_token(s: Seq<char>) -> Option<Token> {
    if s == "push"@ {
        Some(Token::Push)
    } else if s == "inc"@ {
        Some(Token::Increment)
    } else if s == "dec"@ {
        Some(Token::Decrement)
    } else if s == "sqr"@ {
        Some(Token::Square)
    } else if s == "add"@ {
        Some(Token::Plus)
    } else if s == "sub"@ {
        Some(Token::Minus)
    } else if s == "dump"@ {
        Some(Token::Dump)
    } else if s == "out"@ {
        Some(Token::Out)
    } else {
        None
    }
}

/// The token that the word `s` resolves to: a keyword if it matches one
/// exactly, else a number if it is an `i32` literal, else nothing.
pub open spec fn token_of(s: Seq<char>) -> Option<Token> {
    if keyword_token(s) is Some {
        keyword_token(s)
    } else if is_i32_literal(s) {
        Some(Token::Number(int_literal_value(s) as i32))
    } else {
        None
    }
}

/// A digit string never reads as a negative value.
pub proof fn lemma_digits_value_nonneg(s: Seq<char>)
    requires
        all_digits(s),
    ensures
        digits_value(s) >= 0,
    decreases s.len(),
{
    if s.len() > 0 {
        assert(all_digits(s.drop_last()));
        lemma_digits_value_nonneg(s.drop_last());
    }
}

/// Reading more digits never shrinks the value: the value of a prefix is a
/// lower bound for the value of the whole digit string.
pub proof fn lemma_digits_value_take_le(s: Seq<char>, i: int)
    requires
        all_digits(s),
        0 <= i <= s.len(),
    ensures
        digits_value(s.take(i)) <= digits_value(s),
    decreases s.len() - i,
{
    if i < s.len() {
        let t = s.take(i + 1);
        assert(t.drop_last() =~= s.take(i));
        lemma_digits_value_nonneg(s.take(i));
        assert(all_digits(t)) by {
            assert(forall|j: int| 0 <= j < t.len() ==> t[j] == s[j]);
        }
        lemma_digits_value_take_le(s, i + 1);
    } else {
        assert(s.take(i) =~= s);
    }
}

/// Every keyword word tokenizes to exactly its keyword token, and the
/// match is case-sensitive: an upper-cased keyword is no token at all.
pub proof fn lemma_keyword_tokens()
    ensures
        token_of("push"@) == Some(Token::Push),
        token_of("inc"@) == Some(Token::Increment),
        token_of("dec"@) == Some(Token::Decrement),
        token_of("sqr"@) == Some(Token::Square),
        token_of("add"@) == Some(Token::Plus),
        token_of("sub"@) == Some(Token::Minus),
        token_of("dump"@) == Some(Token::Dump),
        token_of("out"@) == Some(Token::Out),
        token_of("PUSH"@) is None,
{
    reveal_strlit("push");
    reveal_strlit("inc");
    reveal_strlit("dec");
    reveal_strlit("sqr");
    reveal_strlit("add");
    reveal_strlit("sub");
    reveal_strlit("dump");
    reveal_strlit("out");
    reveal_strlit("PUSH");
    assert("push"@.len() == 4 && "dump"@.len() == 4 && "PUSH"@.len() == 4);
    assert("inc"@.len() == 3 && "dec"@.len() == 3 && "sqr"@.len() == 3);
    assert("add"@.len() == 3 && "sub"@.len() == 3 && "out"@.len() == 3);
    assert("dump"@ != "push"@) by {
        assert("dump"@[0] == 'd' && "push"@[0] == 'p');
    }
    assert("dec"@ != "inc"@ && "sqr"@ != "inc"@ && "add"@ != "inc"@ && "sub"@ != "inc"@ && "out"@
        != "inc"@) by {
        assert("inc"@[0] == 'i' && "dec"@[0] == 'd' && "sqr"@[0] == 's' && "add"@[0] == 'a'
            && "sub"@[0] == 's' && "out"@[0] == 'o');
    }
    assert("sqr"@ != "dec"@ && "add"@ != "dec"@ && "sub"@ != "dec"@ && "out"@ != "dec"@) by {
        assert("dec"@[0] == 'd');
    }
    assert("add"@ != "sqr"@ && "sub"@ != "sqr"@ && "out"@ != "sqr"@) by {
        assert("sqr"@[1] == 'q' && "add"@[1] == 'd' && "sub"@[1] == 'u' && "out"@[1] == 'u');
        assert("sub"@[0] == 's' && "out"@[0] == 'o' && "sqr"@[0] == 's');
        assert("sub"@[2] == 'b' && "sqr"@[2] == 'r');
    }
    assert("sub"@ != "add"@ && "out"@ != "add"@) by {
        assert("add"@[0] == 'a');
    }
    assert("out"@ != "sub"@) by {
        assert("out"@[0] == 'o' && "sub"@[0] == 's');
    }
    assert("PUSH"@ != "push"@ && "PUSH"@ != "dump"@) by {
        assert("PUSH"@[0] == 'P');
    }
    assert(!is_digit_char("PUSH"@[0]) && "PUSH"@[0] != '-');
}

/// A word that spells an in-range signed decimal integer tokenizes to the
/// number it denotes; a word that equals no keyword and spells no such
/// integer tokenizes to nothing.
pub proof fn lemma_number_tokens(s: Seq<char>)
    ensures
        is_i32_literal(s) ==> token_of(s) == Some(Token::Number(int_literal_value(s) as i32)),
        keyword_token(s) is None && !is_i32_literal(s) ==> token_of(s) is None,
{
    if is_i32_literal(s) {
        reveal_strlit("push");
        reveal_strlit("inc");
        reveal_strlit("dec");
        reveal_strlit("sqr");
        reveal_strlit("add");
        reveal_strlit("sub");
        reveal_strlit("dump");
        reveal_strlit("out");
        assert(s[0] == '-' || is_digit_char(s[0]));
        assert(keyword_token(s) is None);
    }
}

/// Character-by-character string equality.
fn str_eq(a: &str, b: &str) -> (r: bool)
    ensures
        r == (a@ == b@),
{
    let la = a.unicode_len();
    let lb = b.unicode_len();
    if la != lb {
        return false;
    }
    let mut i: usize = 0;
    while i < la
        invariant
            i <= la,
            la == a@.len(),
            lb == b@.len(),
            la == lb,
            forall|j: int| 0 <= j < i ==> a@[j] == b@[j],
        decreases la - i,
    {
        if a.get_char(i) != b.get_char(i) {
            return false;
        }
        i = i + 1;
    }
    proof {
        assert(a@ =~= b@);
    }
    true
}

/// Parse `s` as a base-10 signed `i32` literal: an optional leading `-`,
/// then one or more decimal digits, value in range. Returns `None` on any
/// other input, including a leading `+`, an empty string, or overflow.
pub fn parse_i32(s: &str) -> (r: Option<i32>)
    ensures
        is_i32_literal(s@) ==> r == Some(int_literal_value(s@) as i32),
        !is_i32_literal(s@) ==> r is None,
{
    let len = s.unicode_len();
    if len == 0 {
        return None;
    }
    let neg = s.get_char(0) == '-';
    let ds: usize = if neg { 1 } else { 0 };
    if neg && len == 1 {
        return None;
    }
    let ghost dpart = if neg { s@.skip(1) } else { s@ };
    proof {
        assert(dpart =~= s@.subrange(ds as int, len as int));
    }
    let mut acc: i64 = 0;
    let mut i: usize = ds;
    proof {
        assert(s@.subrange(ds as int, ds as int) =~= Seq::<char>::empty());
    }
    while i < len
        invariant
            ds <= i <= len,
            len == s@.len(),
            ds == if neg { 1int } else { 0int },
            ds < len,
            neg == (s@[0] == '-'),
            dpart == s@.subrange(ds as int, len as int),
            all_digits(s@.subrange(ds as int, i as int)),
            acc == digits_value(s@.subrange(ds as int, i as int)),
            0 <= acc <= 0x8000_0000i64,
        decreases len - i,
    {
        let c = s.get_char(i);
        let u = c as u32;
        if u < 48 || u > 57 {
            proof {
                assert(dpart[i - ds] == s@[i as int]);
                assert(!is_digit_char(s@[i as int]));
                assert(!all_digits(dpart));
            }
            return None;
        }
        let d: i64 = (u - 48) as i64;
        let new_acc: i64 = acc * 10 + d;
        proof {
            let t = s@.subrange(ds as int, i + 1);
            assert(t.drop_last() =~= s@.subrange(ds as int, i as int));
            assert(t.last() == s@[i as int]);
            assert(digit_val(s@[i as int]) == d);
            assert(digits_value(t) == new_acc);
        }
        if new_acc > 0x8000_0000i64 {
            proof {
                if is_int_literal(s@) {
                    assert(all_digits(dpart));
                    assert(dpart.take(i + 1 - ds) =~= s@.subrange(ds as int, i + 1));
                    lemma_digits_value_take_le(dpart, i + 1 - ds);
                    assert(digits_value(dpart) > 0x8000_0000);
                    if neg {
                        assert(dpart == s@.skip(1));
                        assert(int_literal_value(s@) == -digits_value(dpart));
                        assert(int_literal_value(s@) < i32::MIN);
                    } else {
                        assert(dpart =~= s@);
                        assert(int_literal_value(s@) == digits_value(dpart));
                        assert(int_literal_value(s@) > i32::MAX);
                    }
                }
                assert(!is_i32_literal(s@));
            }
            return None;
        }
        acc = new_acc;
        i = i + 1;
    }
    proof {
        assert(s@.subrange(ds as int, len as int) =~= dpart);
    }
    if neg {
        proof {
            assert(is_int_literal(s@));
            assert(int_literal_value(s@) == -acc);
        }
        Some((-acc) as i32)
    } else if acc > 0x7fff_ffffi64 {
        proof {
            assert(int_literal_value(s@) == acc);
        }
        None
    } else {
        proof {
            assert(is_int_literal(s@));
            assert(int_literal_value(s@) == acc);
        }
        Some(acc as i32)
    }
}

/// Resolve one whitespace-free word to its token: the exact keyword it
/// equals, else the `i32` literal it spells, else a tokenize error
/// carrying the word.
pub fn identify_token(input: &str) -> (r: Result<Token, Error>)
    ensures
        ({
            match token_of(input@) {
                Some(t) => r == Ok::<Token, Error>(t),
                None => r matches Err(e) && e@ == (SpecError::Tokenize { word: input@ }),
            }
        }),
{
    if str_eq(input, "push") {
        Ok(Token::Push)
    } else if str_eq(input, "inc") {
        Ok(Token::Increment)
    } else if str_eq(input, "dec") {
        Ok(Token::Decrement)
    } else if str_eq(input, "sqr") {
        Ok(Token::Square)
    } else if str_eq(input, "add") {
        Ok(Token::Plus)
    } else if str_eq(input, "sub") {
        Ok(Token::Minus)
    } else if str_eq(input, "dump") {
        Ok(Token::Dump)
    } else if str_eq(input, "out") {
        Ok(Token::Out)
    } else {
        match parse_i32(input) {
            Some(v) => Ok(Token::Number(v)),
            None => Err(Error::Tokenize { word: input.to_owned() }),
        }
    }
}

} // verus!
