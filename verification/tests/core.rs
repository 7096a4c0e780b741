use bfc::lex::{lex, LexError, Token};
use bfc::optimise::{cancel_out, group_tokens, optimise_tokens, optimise_tokens_inner};

fn lex_ok(src: &str) -> Vec<Token> {
    lex(src).expect("lexing should succeed")
}

#[test]
fn empty_program_lexes_to_empty() {
    assert_eq!(lex_ok(""), Vec::<Token>::new());
}

#[test]
fn empty_program_optimises_to_empty() {
    let out = optimise_tokens(Vec::new());
    assert_eq!(out, Vec::<Token>::new());
}

#[test]
fn single_characters_lex_to_unit_tokens() {
    assert_eq!(
        lex_ok("><+-.,"),
        vec![
            Token::PtrAdd(1),
            Token::PtrSub(1),
            Token::Add(1),
            Token::Sub(1),
            Token::PutChar,
            Token::GetChar,
        ]
    );
}

#[test]
fn unrecognized_characters_are_skipped() {
    assert_eq!(lex_ok("a+ b\n+c"), vec![Token::Add(1), Token::Add(1)]);
}

#[test]
fn fusion_of_increments() {
    let out = optimise_tokens(lex_ok("+++"));
    assert_eq!(out, vec![Token::Add(3)]);
}

#[test]
fn fusion_of_pointer_retreats() {
    let out = optimise_tokens(lex_ok("<<<"));
    assert_eq!(out, vec![Token::PtrSub(3)]);
}

#[test]
fn cancellation_to_nothing() {
    let out = optimise_tokens(lex_ok("><"));
    assert_eq!(out, Vec::<Token>::new());
}

#[test]
fn cancellation_leaves_surplus() {
    let out = optimise_tokens(lex_ok(">>><"));
    assert_eq!(out, vec![Token::PtrAdd(2)]);
}

#[test]
fn cancellation_across_sign_changes() {
    let out = optimise_tokens(lex_ok("+-+"));
    assert_eq!(out, vec![Token::Add(1)]);
}

#[test]
fn boundaries_are_not_merged_across() {
    let out = optimise_tokens(lex_ok("+.+"));
    assert_eq!(out, vec![Token::Add(1), Token::PutChar, Token::Add(1)]);
}

#[test]
fn loop_ids_pair_by_nesting() {
    assert_eq!(
        lex_ok("[[-]]"),
        vec![
            Token::LoopStart(0),
            Token::LoopStart(1),
            Token::Sub(1),
            Token::LoopEnd(1),
            Token::LoopEnd(0),
        ]
    );
}

#[test]
fn sibling_loops_get_fresh_ids() {
    assert_eq!(
        lex_ok("[][]"),
        vec![
            Token::LoopStart(0),
            Token::LoopEnd(0),
            Token::LoopStart(1),
            Token::LoopEnd(1),
        ]
    );
}

#[test]
fn unmatched_loop_end_is_an_error() {
    assert_eq!(lex("]"), Err(LexError::UnmatchedLoopEnd));
}

#[test]
fn unmatched_loop_start_is_an_error() {
    assert_eq!(lex("["), Err(LexError::UnmatchedLoopStart));
}

#[test]
fn unmatched_end_after_matched_pair() {
    assert_eq!(lex("[]]"), Err(LexError::UnmatchedLoopEnd));
}

#[test]
fn optimisation_is_idempotent_on_a_sample() {
    let once = optimise_tokens(lex_ok("+->><<[->+<],."));
    let twice = optimise_tokens(once.clone());
    assert_eq!(twice, once);
}

#[test]
fn rounds_rerun_until_stable() {
    // One round over `+<>+` cancels the pointer moves but leaves two
    // increments apart; only the next round can fuse them.
    let once = optimise_tokens_inner(&lex_ok("+<>+"));
    assert_eq!(once, vec![Token::Add(1), Token::Add(1)]);
    let out = optimise_tokens(lex_ok("+<>+"));
    assert_eq!(out, vec![Token::Add(2)]);
}

#[test]
fn group_tokens_merges_runs_only() {
    let grouped = group_tokens(&vec![
        Token::Add(1),
        Token::Add(2),
        Token::Sub(1),
        Token::PutChar,
        Token::Add(4),
    ]);
    assert_eq!(
        grouped,
        vec![Token::Add(3), Token::Sub(1), Token::PutChar, Token::Add(4)]
    );
}

#[test]
fn cancel_out_compares_magnitudes() {
    let cancelled = cancel_out(&vec![Token::PtrAdd(5), Token::PtrSub(2)]);
    assert_eq!(cancelled, vec![Token::PtrAdd(3)]);
    let cancelled = cancel_out(&vec![Token::PtrAdd(2), Token::PtrSub(5)]);
    assert_eq!(cancelled, vec![Token::PtrSub(3)]);
    let cancelled = cancel_out(&vec![Token::PtrAdd(2), Token::PtrSub(2)]);
    assert_eq!(cancelled, Vec::<Token>::new());
}

#[test]
fn one_round_applies_fusion_then_cancellation() {
    let out = optimise_tokens_inner(&vec![Token::Add(1), Token::Add(1), Token::Sub(2)]);
    assert_eq!(out, Vec::<Token>::new());
}

#[test]
fn loops_survive_optimisation_in_order() {
    let out = optimise_tokens(lex_ok("+[+-]-"));
    assert_eq!(
        out,
        vec![
            Token::Add(1),
            Token::LoopStart(0),
            Token::LoopEnd(0),
            Token::Sub(1),
        ]
    );
}
