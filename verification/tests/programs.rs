use dirtycat::machine::{parse_instruction, run_source};
use dirtycat::token::{Error, Token};

#[test]
fn push_then_out_prints_the_value() {
    let r = run_source("push 5; out;");
    assert!(r.error.is_none());
    assert_eq!(r.output, vec![5]);
    assert_eq!(r.stack, vec![5]);
}

#[test]
fn add_sums_the_two_top_values() {
    let r = run_source("push 5; push 3; add; out;");
    assert!(r.error.is_none());
    assert_eq!(r.output, vec![8]);
    assert_eq!(r.stack, vec![8]);
}

#[test]
fn dec_twice_subtracts_two() {
    let r = run_source("push 10; dec; dec; out;");
    assert!(r.error.is_none());
    assert_eq!(r.output, vec![8]);
}

#[test]
fn sqr_then_dump_leaves_the_stack_empty() {
    let r = run_source("push 4; sqr; dump;");
    assert!(r.error.is_none());
    assert_eq!(r.output, vec![16]);
    assert!(r.stack.is_empty());
}

#[test]
fn sub_subtracts_the_later_push_from_the_earlier() {
    let r = run_source("push 10; push 3; sub; out;");
    assert!(r.error.is_none());
    assert_eq!(r.output, vec![7]);
}

#[test]
fn dump_on_empty_stack_underflows_with_no_output() {
    let r = run_source("dump;");
    assert!(matches!(r.error, Some(Error::Underflow)));
    assert!(r.output.is_empty());
    assert!(r.stack.is_empty());
}

#[test]
fn push_with_two_trailing_words_is_rejected() {
    let r = run_source("push 5 3;");
    assert!(matches!(r.error, Some(Error::TooManyTokens)));
    assert!(r.output.is_empty());
}

#[test]
fn same_program_twice_gives_the_same_output() {
    let program = "push 2; push 3; add; sqr; out; dump;";
    let first = run_source(program);
    let second = run_source(program);
    assert_eq!(first.output, second.output);
    assert_eq!(first.stack, second.stack);
    assert!(first.error.is_none() && second.error.is_none());
}

#[test]
fn missing_trailing_semicolon_drops_the_last_instruction() {
    let r = run_source("push 5; out");
    assert!(r.error.is_none());
    assert!(r.output.is_empty());
    assert_eq!(r.stack, vec![5]);
}

#[test]
fn newlines_are_stripped_before_parsing() {
    let r = run_source("push 1;\nout;\n");
    assert!(r.error.is_none());
    assert_eq!(r.output, vec![1]);
    let glued = run_source("pu\nsh 1;out;");
    assert!(glued.error.is_none());
    assert_eq!(glued.output, vec![1]);
}

#[test]
fn empty_block_fails_tokenizing_the_empty_word() {
    let r = run_source("push 1;;out;");
    match r.error {
        Some(Error::Tokenize { word }) => assert_eq!(word, ""),
        other => panic!("expected a tokenize error, got {:?}", other),
    }
    assert!(r.output.is_empty());
    assert_eq!(r.stack, vec![1]);
}

#[test]
fn consecutive_spaces_fail_tokenizing_the_empty_word() {
    let r = run_source("push  5;");
    assert!(matches!(r.error, Some(Error::Tokenize { .. })));
}

#[test]
fn unrecognized_word_reports_the_word() {
    let r = run_source("push 5; pop;");
    match r.error {
        Some(Error::Tokenize { word }) => assert_eq!(word, "pop"),
        other => panic!("expected a tokenize error, got {:?}", other),
    }
}

#[test]
fn bare_number_is_a_syntax_error() {
    let r = run_source("5;");
    assert!(matches!(
        r.error,
        Some(Error::UnexpectedSingle { token: Token::Number(5) })
    ));
}

#[test]
fn bare_push_is_a_syntax_error() {
    let r = run_source("push;");
    assert!(matches!(
        r.error,
        Some(Error::UnexpectedSingle { token: Token::Push })
    ));
}

#[test]
fn bad_two_token_blocks_are_rejected() {
    assert!(matches!(run_source("push push;").error, Some(Error::BadPair)));
    assert!(matches!(run_source("out 5;").error, Some(Error::BadPair)));
    assert!(matches!(run_source("5 5;").error, Some(Error::BadPair)));
}

#[test]
fn increment_wraps_on_overflow() {
    let r = run_source("push 2147483647; inc; out;");
    assert!(r.error.is_none());
    assert_eq!(r.output, vec![-2147483648]);
}

#[test]
fn square_wraps_on_overflow() {
    let r = run_source("push 65536; sqr; out;");
    assert!(r.error.is_none());
    assert_eq!(r.output, vec![0]);
}

#[test]
fn out_peeks_without_popping() {
    let r = run_source("push 2; out; out;");
    assert!(r.error.is_none());
    assert_eq!(r.output, vec![2, 2]);
    assert_eq!(r.stack, vec![2]);
}

#[test]
fn output_before_a_failure_is_kept() {
    let r = run_source("push 5; out; dump; dump;");
    assert_eq!(r.output, vec![5, 5]);
    assert!(matches!(r.error, Some(Error::Underflow)));
}

#[test]
fn whitespace_around_a_block_is_trimmed() {
    let r = run_source("push 3; \t out ;");
    assert!(r.error.is_none());
    assert_eq!(r.output, vec![3]);
}

#[test]
fn parse_instruction_applies_one_block() {
    let mut stack = vec![10, 3];
    let mut output = Vec::new();
    assert!(parse_instruction("sub", &mut stack, &mut output).is_ok());
    assert_eq!(stack, vec![7]);
    assert!(output.is_empty());
}

#[test]
fn failed_instruction_leaves_stack_and_output_unchanged() {
    let mut stack = vec![1];
    let mut output = vec![9];
    let r = parse_instruction("sub", &mut stack, &mut output);
    assert!(matches!(r, Err(Error::Underflow)));
    assert_eq!(stack, vec![1]);
    assert_eq!(output, vec![9]);
}
