use bf_interpreter::{Tape, Token};

#[test]
fn new_tape_has_one_zero_cell() {
    let tape = Tape::new();
    assert_eq!(tape.cells(), &vec![0u8]);
    assert_eq!(tape.pointer(), 0);
    assert_eq!(tape.get(), 0);
}

#[test]
fn increment_wraps_from_255_to_0() {
    let mut tape = Tape::new();
    tape.set(254);
    tape.increment();
    assert_eq!(tape.get(), 255);
    tape.increment();
    assert_eq!(tape.get(), 0);
    tape.increment();
    assert_eq!(tape.get(), 1);
}

#[test]
fn decrement_wraps_from_0_to_255() {
    let mut tape = Tape::new();
    tape.set(1);
    tape.decrement();
    assert_eq!(tape.get(), 0);
    tape.decrement();
    assert_eq!(tape.get(), 255);
    tape.decrement();
    assert_eq!(tape.get(), 254);
}

#[test]
fn increment_256_times_comes_back() {
    for start in [0u8, 1, 77, 128, 255] {
        let mut tape = Tape::new();
        tape.set(start);
        for _ in 0..256 {
            tape.apply(Token::Increment);
        }
        assert_eq!(tape.get(), start);
        assert_eq!(tape.cells(), &vec![start]);
    }
}

#[test]
fn decrement_256_times_comes_back() {
    for start in [0u8, 1, 77, 128, 255] {
        let mut tape = Tape::new();
        tape.set(start);
        for _ in 0..256 {
            tape.apply(Token::Decrement);
        }
        assert_eq!(tape.get(), start);
        assert_eq!(tape.cells(), &vec![start]);
    }
}

#[test]
fn shift_right_appends_only_at_the_end() {
    let mut tape = Tape::new();
    tape.set(5);
    tape.shift_right();
    assert_eq!(tape.cells(), &vec![5u8, 0]);
    assert_eq!(tape.pointer(), 1);
    tape.set(6);
    tape.shift_left();
    assert_eq!(tape.pointer(), 0);
    tape.shift_right();
    assert_eq!(tape.cells(), &vec![5u8, 6]);
    assert_eq!(tape.pointer(), 1);
    tape.shift_right();
    assert_eq!(tape.cells(), &vec![5u8, 6, 0]);
    assert_eq!(tape.pointer(), 2);
}

#[test]
fn shift_left_at_the_first_cell_grows_the_tape() {
    let mut tape = Tape::new();
    tape.set(7);
    tape.shift_left();
    assert_eq!(tape.pointer(), 0);
    assert_eq!(tape.get(), 0);
    assert_eq!(tape.cells(), &vec![0u8, 7]);
    tape.shift_left();
    assert_eq!(tape.pointer(), 0);
    assert_eq!(tape.cells(), &vec![0u8, 0, 7]);
}

#[test]
fn shift_left_elsewhere_only_moves() {
    let mut tape = Tape::new();
    tape.shift_right();
    tape.set(9);
    tape.shift_left();
    assert_eq!(tape.pointer(), 0);
    assert_eq!(tape.cells(), &vec![0u8, 9]);
}

#[test]
fn apply_leaves_the_tape_alone_for_the_other_instructions() {
    let mut tape = Tape::new();
    tape.set(3);
    for token in [Token::Input, Token::Output, Token::BeginLoop, Token::EndLoop] {
        tape.apply(token);
        assert_eq!(tape.cells(), &vec![3u8]);
        assert_eq!(tape.pointer(), 0);
    }
}
