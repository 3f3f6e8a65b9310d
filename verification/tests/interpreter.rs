use pairlang::exec;
use pairlang::run;
use pairlang::Error;
use pairlang::FnTable;
use pairlang::InputFeed;
use pairlang::PairingMap;
use pairlang::Tape;
use pairlang::cell_round;

#[test]
fn plus_three_outputs_byte_three() {
    assert_eq!(exec("+++.", vec![]), Ok(vec![3]));
}

#[test]
fn countdown_loop_outputs_two_one_zero() {
    assert_eq!(exec("+++[-.]", vec![]), Ok(vec![2, 1, 0]));
}

#[test]
fn single_unmatched_closer_fails_construction() {
    assert_eq!(exec("]", vec![]), Err(Error::MismatchedBrackets(0)));
}

#[test]
fn defined_function_body_runs_on_invocation() {
    assert_eq!(exec("a++aa.", vec![]), Ok(vec![2]));
}

#[test]
fn defined_function_leaves_active_cell_two() {
    let chars: Vec<char> = "a++aa".chars().collect();
    let table = PairingMap::build(&chars).unwrap();
    let mut tape = Tape::new();
    let mut printed: Vec<u8> = Vec::new();
    let mut fnt = FnTable::new();
    let mut feed = InputFeed::new(vec![]);
    let r = run(
        chars,
        "a++aa",
        table,
        &mut tape,
        &mut printed,
        &mut fnt,
        &mut feed,
        1_000_000,
    );
    assert_eq!(r, Ok(()));
    assert_eq!(tape.get(), 2);
    assert!(printed.is_empty());
}

#[test]
fn function_body_with_loop_uses_offset_pairs() {
    assert_eq!(exec("f[.-]f+ff", vec![]), Ok(vec![1]));
}

#[test]
fn copy_assignment_aliases_a_function() {
    assert_eq!(exec("b+bc=bc.", vec![]), Ok(vec![1]));
}

#[test]
fn round_to_five_maps_representative_values() {
    for (n, want) in [
        (0u8, 0u8),
        (1, 0),
        (2, 0),
        (3, 5),
        (4, 5),
        (5, 5),
        (6, 5),
        (7, 5),
        (8, 10),
        (9, 10),
        (10, 10),
        (11, 10),
        (12, 10),
        (253, 255),
        (254, 255),
        (255, 255),
    ] {
        assert_eq!(cell_round(n), want, "rounding {}", n);
    }
}

#[test]
fn round_command_rounds_the_active_cell() {
    assert_eq!(exec("+++5.", vec![]), Ok(vec![5]));
    assert_eq!(exec("++++++++5.", vec![]), Ok(vec![10]));
}

#[test]
fn restricted_mode_skips_non_basic_commands() {
    assert_eq!(exec("+++_5_.", vec![]), Ok(vec![3]));
}

#[test]
fn input_bytes_are_read_one_at_a_time() {
    assert_eq!(exec(",.,.", vec![65, 66]), Ok(vec![65, 66]));
}

#[test]
fn exhausted_input_reads_zero() {
    assert_eq!(exec(",.", vec![]), Ok(vec![0]));
}

#[test]
fn input_feed_yields_bytes_then_zero() {
    let mut f = InputFeed::new(vec![1, 2]);
    assert_eq!(f.take_byte(), 1);
    assert_eq!(f.take_byte(), 2);
    assert_eq!(f.take_byte(), 0);
    assert_eq!(f.take_byte(), 0);
}

#[test]
fn echo_command_emits_the_source_text() {
    assert_eq!(exec(";", vec![]), Ok(b";".to_vec()));
}

#[test]
fn quine_command_executes_the_output_buffer() {
    let mut program = "+".repeat(43);
    program.push_str(".'.");
    assert_eq!(exec(&program, vec![]), Ok(vec![43, 44]));
}

#[test]
fn quine_on_invalid_bytes_fails() {
    assert_eq!(exec("-.'", vec![]), Err(Error::InvalidOutputBytes));
}

#[test]
fn self_feeding_quine_hits_the_recursion_limit() {
    assert_eq!(exec(";'", vec![]), Err(Error::RecursionLimitExceeded));
}

#[test]
fn unimplemented_commands_fail_loudly() {
    assert_eq!(exec("1", vec![]), Err(Error::Unimplemented('1')));
    assert_eq!(exec("7", vec![]), Err(Error::Unimplemented('7')));
    assert_eq!(exec("=", vec![]), Err(Error::Unimplemented('=')));
}

#[test]
fn unclosed_quote_is_an_unresolved_pair() {
    assert_eq!(exec("\"ab", vec![]), Err(Error::UnresolvedPair(0)));
}

#[test]
fn step_budget_bounds_an_endless_loop() {
    let chars: Vec<char> = "+[]".chars().collect();
    let table = PairingMap::build(&chars).unwrap();
    let mut tape = Tape::new();
    let mut printed: Vec<u8> = Vec::new();
    let mut fnt = FnTable::new();
    let mut feed = InputFeed::new(vec![]);
    let r = run(
        chars,
        "+[]",
        table,
        &mut tape,
        &mut printed,
        &mut fnt,
        &mut feed,
        1000,
    );
    assert_eq!(r, Err(Error::StepLimitExceeded));
}

#[test]
fn nice_mode_prints_its_line_until_terminated() {
    assert_eq!(exec("6a9.", vec![]), Ok(b"Nice.\n\x00".to_vec()));
}

#[test]
fn comment_jump_skips_the_comment_body() {
    assert_eq!(exec("^+++^.", vec![]), Ok(vec![0]));
}

#[test]
fn zero_pair_jumps_unconditionally() {
    assert_eq!(exec("0++0.", vec![]), Ok(vec![0]));
}

#[test]
fn conditional_pair_jumps_on_zero_from_the_opener() {
    assert_eq!(exec("%++%.", vec![]), Ok(vec![0]));
    assert_eq!(exec("+%-%.", vec![]), Ok(vec![0]));
}

#[test]
fn string_literal_writes_bytes_onto_the_tape() {
    assert_eq!(exec("\"AB\".<.", vec![]), Ok(vec![66, 65]));
}

#[test]
fn multiply_and_divide_use_the_lookahead_cell() {
    assert_eq!(exec("++:*.", vec![]), Ok(vec![4]));
    assert_eq!(exec("+++/.", vec![]), Ok(vec![255]));
}

#[test]
fn logical_not_only_touches_zero_and_one() {
    assert_eq!(exec("!.", vec![]), Ok(vec![1]));
    assert_eq!(exec("+!.", vec![]), Ok(vec![0]));
    assert_eq!(exec("++!.", vec![]), Ok(vec![2]));
}

#[test]
fn shifts_move_the_active_cell_by_one_bit() {
    assert_eq!(exec("+++`.", vec![]), Ok(vec![6]));
    assert_eq!(exec("+++~.", vec![]), Ok(vec![1]));
}

#[test]
fn skip_if_cells_differ() {
    assert_eq!(exec("+:#.", vec![]), Ok(vec![1]));
    assert_eq!(exec("+#..", vec![]), Ok(vec![1]));
}

#[test]
fn break_scans_to_the_next_paired_closer() {
    assert_eq!(exec("+[\\.]", vec![]), Ok(vec![]));
}

#[test]
fn terminate_command_stops_the_run() {
    assert_eq!(exec("+.@+.", vec![]), Ok(vec![1]));
}

#[test]
fn restart_command_rewinds_to_the_buffer_start() {
    assert_eq!(exec("+[.@]|", vec![]), Ok(vec![1]));
}

#[test]
fn eight_command_paints_eights_leftwards() {
    assert_eq!(exec("8<.", vec![]), Ok(vec![8]));
}

#[test]
fn deletes_and_inserts_on_empty_sides_are_safe() {
    assert_eq!(exec("{}().", vec![]), Ok(vec![0]));
}

#[test]
fn random_commands_produce_one_output_byte() {
    let r = exec("?4$.", vec![]).unwrap();
    assert_eq!(r.len(), 1);
}

#[test]
fn whitespace_is_a_no_op() {
    assert_eq!(exec(" \n\t+.", vec![]), Ok(vec![1]));
}
