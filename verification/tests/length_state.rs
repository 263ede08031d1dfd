use brotli::error::BrotliError;
use brotli::length_state::{LengthState, RUN_CAP};

#[test]
fn a_new_state() {
    let state = LengthState::new();
    assert_eq!(state.symbol(), 0);
    assert_eq!(state.space(), 32768);
    assert_eq!(state.repeat_cmd(), 0);
    assert_eq!(state.repeat_count(), 0);
    assert_eq!(state.code_lengths(), &[0u8; 256]);
}

#[test]
fn lengths_pay_for_their_space() {
    let mut state = LengthState::new();
    assert_eq!(state.push_length(1), Ok(()));
    assert_eq!(state.space(), 16384);
    assert_eq!(state.push_length(0), Ok(()));
    assert_eq!(state.space(), 16384);
    assert_eq!(state.push_length(15), Ok(()));
    assert_eq!(state.space(), 16383);
    assert_eq!(state.push_length(3), Ok(()));
    assert_eq!(state.space(), 12287);
    assert_eq!(state.symbol(), 4);
    assert_eq!(&state.code_lengths()[..5], &[1, 0, 15, 3, 0]);
}

#[test]
fn two_repeats_of_one_kind_merge() {
    // Values 5 and then 4, with three extra bits each: (5 - 2) * 8 + 4.
    let mut state = LengthState::new();
    assert_eq!(state.push_repeat(17, 2), Ok(()));
    assert_eq!(state.repeat_cmd(), 17);
    assert_eq!(state.repeat_count(), 5);
    assert_eq!(state.push_repeat(17, 1), Ok(()));
    assert_eq!(state.repeat_count(), 28);
    assert_eq!(state.symbol(), 0);
    assert_eq!(state.flush_repeat(), Ok(()));
    assert_eq!(state.symbol(), 28);
    assert_eq!(state.space(), 32768);
    assert_eq!(state.repeat_cmd(), 0);
    assert_eq!(state.repeat_count(), 0);

    // The same values with two extra bits each: (5 - 2) * 4 + 4.
    let mut state = LengthState::new();
    assert_eq!(state.push_repeat(16, 2), Ok(()));
    assert_eq!(state.repeat_count(), 5);
    assert_eq!(state.push_repeat(16, 1), Ok(()));
    assert_eq!(state.repeat_count(), 16);
    assert_eq!(state.flush_repeat(), Ok(()));
    assert_eq!(state.symbol(), 16);
    assert_eq!(state.space(), 32768 - 16 * 128);
    assert_eq!(&state.code_lengths()[..17], &[8, 8, 8, 8, 8, 8, 8, 8, 8, 8, 8, 8, 8, 8, 8, 8, 0]);
}

#[test]
fn repeats_of_different_kinds_do_not_merge() {
    let mut state = LengthState::new();
    assert_eq!(state.push_length(4), Ok(()));
    assert_eq!(state.push_repeat(16, 0), Ok(()));
    assert_eq!(state.symbol(), 1);
    assert_eq!(state.push_repeat(17, 3), Ok(()));
    assert_eq!(state.symbol(), 4);
    assert_eq!(state.space(), 32768 - 4 * 2048);
    assert_eq!(state.repeat_cmd(), 17);
    assert_eq!(state.repeat_count(), 6);
    assert_eq!(state.push_repeat(16, 3), Ok(()));
    assert_eq!(state.symbol(), 10);
    assert_eq!(state.space(), 32768 - 4 * 2048);
    assert_eq!(state.repeat_count(), 6);
    assert_eq!(state.push_length(0), Ok(()));
    assert_eq!(state.symbol(), 17);
    assert_eq!(state.space(), 32768 - 10 * 2048);
    assert_eq!(
        &state.code_lengths()[..18],
        &[4, 4, 4, 4, 0, 0, 0, 0, 0, 0, 4, 4, 4, 4, 4, 4, 0, 0]
    );
}

#[test]
fn a_zero_length_keeps_the_previous_length() {
    let mut state = LengthState::new();
    assert_eq!(state.push_length(5), Ok(()));
    assert_eq!(state.push_length(0), Ok(()));
    assert_eq!(state.push_repeat(16, 0), Ok(()));
    assert_eq!(state.flush_repeat(), Ok(()));
    assert_eq!(&state.code_lengths()[..6], &[5, 0, 5, 5, 5, 0]);
    assert_eq!(state.space(), 32768 - 4 * 1024);
}

#[test]
fn flushing_nothing_changes_nothing() {
    let mut state = LengthState::new();
    assert_eq!(state.push_length(2), Ok(()));
    assert_eq!(state.flush_repeat(), Ok(()));
    assert_eq!(state.symbol(), 1);
    assert_eq!(state.space(), 24576);
}

#[test]
fn a_run_to_the_last_symbol_fits() {
    let mut state = LengthState::new();
    // 3, then (3 - 2) * 8 + 10 = 18, then (18 - 2) * 8 + 10 = 138,
    // then a switch and 3, then (3 - 2) * 4 + 3 = 7, ...
    assert_eq!(state.push_repeat(17, 0), Ok(()));
    assert_eq!(state.push_repeat(17, 7), Ok(()));
    assert_eq!(state.push_repeat(17, 7), Ok(()));
    assert_eq!(state.repeat_count(), 138);
    assert_eq!(state.push_repeat(16, 3), Ok(()));
    assert_eq!(state.symbol(), 138);
    assert_eq!(state.push_repeat(16, 3), Ok(()));
    assert_eq!(state.push_repeat(16, 3), Ok(()));
    assert_eq!(state.push_repeat(16, 0), Ok(()));
    // 6, 22, 86, then (86 - 2) * 4 + 3 = 339: too long from symbol 138.
    assert_eq!(state.repeat_count(), 339);
    assert_eq!(state.flush_repeat(), Err(BrotliError::CorruptHistogram));
    assert_eq!(state.symbol(), 138);
    assert_eq!(state.repeat_count(), 339);
    assert_eq!(state.push_length(1), Err(BrotliError::CorruptHistogram));
    assert_eq!(state.push_repeat(17, 0), Err(BrotliError::CorruptHistogram));
    assert_eq!(state.symbol(), 138);

    let mut state = LengthState::new();
    assert_eq!(state.push_repeat(17, 0), Ok(()));
    assert_eq!(state.push_repeat(17, 7), Ok(()));
    assert_eq!(state.push_repeat(17, 7), Ok(()));
    assert_eq!(state.push_length(1), Ok(()));
    assert_eq!(state.symbol(), 139);
    assert_eq!(state.push_repeat(17, 7), Ok(()));
    assert_eq!(state.push_repeat(17, 2), Ok(()));
    // (10 - 2) * 8 + 5 = 69 symbols from 139 on would end at 208.
    assert_eq!(state.push_repeat(17, 2), Ok(()));
    // (69 - 2) * 8 + 5 = 541
    assert_eq!(state.repeat_count(), 541);
    assert_eq!(state.flush_repeat(), Err(BrotliError::CorruptHistogram));
}

#[test]
fn a_run_that_ends_with_the_alphabet() {
    let mut state = LengthState::new();
    assert_eq!(state.push_repeat(16, 2), Ok(()));
    assert_eq!(state.push_repeat(16, 2), Ok(()));
    assert_eq!(state.push_repeat(16, 2), Ok(()));
    assert_eq!(state.push_repeat(16, 1), Ok(()));
    assert_eq!(state.repeat_count(), 256);
    assert_eq!(state.flush_repeat(), Ok(()));
    assert_eq!(state.symbol(), 256);
    assert_eq!(state.space(), 0);
    assert_eq!(state.code_lengths(), &[8u8; 256]);
    assert_eq!(state.push_length(0), Err(BrotliError::CorruptHistogram));
    assert_eq!(state.symbol(), 256);
}

#[test]
fn very_long_runs_are_held_at_the_cap() {
    let mut state = LengthState::new();
    for _ in 0..40 {
        assert_eq!(state.push_repeat(17, 7), Ok(()));
    }
    assert_eq!(state.repeat_count(), RUN_CAP);
    assert_eq!(state.flush_repeat(), Err(BrotliError::CorruptHistogram));
    assert_eq!(state.symbol(), 0);
}

#[test]
fn costly_runs_drive_the_space_below_zero() {
    let mut state = LengthState::new();
    assert_eq!(state.push_length(1), Ok(()));
    assert_eq!(state.push_repeat(16, 3), Ok(()));
    assert_eq!(state.push_repeat(16, 3), Ok(()));
    assert_eq!(state.push_repeat(16, 3), Ok(()));
    // 6, 22, 86 symbols of length 1.
    assert_eq!(state.flush_repeat(), Ok(()));
    assert_eq!(state.symbol(), 87);
    assert_eq!(state.space(), 32768 - 87 * 16384);
}
