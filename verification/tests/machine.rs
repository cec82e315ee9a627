use bf_interpreter::{parse, run, Action, Error, State, SyntaxItem, Token};

/// Runs a program to its end, with the given lines as its input, and gives
/// what it wrote and the state it ended in.
fn run_to_end(source: &str, lines: &[&str]) -> (String, State) {
    let tree = parse(&source.to_string()).expect("every loop is closed");
    let mut state = State::new(tree);
    let mut written = String::new();
    let mut read = 0;
    loop {
        match run(&mut state, 1_000_000) {
            Action::Continue => panic!("the program did not end"),
            Action::Halt => return (written, state),
            Action::Output(c) => written.push(c),
            Action::Input => {
                state.input(lines[read]).expect("a line that stands for a byte");
                read += 1;
            }
        }
    }
}

#[test]
fn new_state_starts_on_a_blank_tape() {
    let state = State::new(vec![SyntaxItem::Single(Token::Increment)]);
    assert_eq!(state.tape().cells(), &vec![0u8]);
    assert_eq!(state.tape().pointer(), 0);
    assert_eq!(state.commands(), &vec![SyntaxItem::Single(Token::Increment)]);
}

#[test]
fn three_increments_write_code_point_3() {
    let (written, state) = run_to_end("+++.", &[]);
    assert_eq!(written, "\u{3}");
    assert_eq!(state.tape().cells(), &vec![3u8]);
}

#[test]
fn clearing_loop_ends_with_a_zero_cell() {
    let (written, state) = run_to_end("+[-]", &[]);
    assert_eq!(written, "");
    assert_eq!(state.tape().get(), 0);
    assert_eq!(state.tape().cells(), &vec![0u8]);
}

#[test]
fn clearing_loop_runs_its_body_once() {
    let tree = parse(&"+[-]".to_string()).expect("every loop is closed");
    let mut state = State::new(tree);
    // +, enter the loop, -, end of the body, leave the loop, end of the program
    let mut steps = 0;
    while state.step() != Action::Halt {
        steps += 1;
        assert!(steps < 100);
    }
    assert_eq!(steps, 5);
    assert_eq!(state.tape().get(), 0);
}

#[test]
fn loop_on_a_zero_cell_does_nothing() {
    let (written, state) = run_to_end("[-]", &[]);
    assert_eq!(written, "");
    assert_eq!(state.tape().cells(), &vec![0u8]);
    assert_eq!(state.tape().pointer(), 0);
}

#[test]
fn loop_on_a_zero_cell_is_passed_in_one_step() {
    let tree = parse(&"[+>.,<]".to_string()).expect("every loop is closed");
    let mut state = State::new(tree);
    assert_eq!(state.step(), Action::Continue);
    assert_eq!(state.tape().cells(), &vec![0u8]);
    assert_eq!(state.tape().pointer(), 0);
    assert_eq!(state.step(), Action::Halt);
    assert_eq!(state.step(), Action::Halt);
    assert_eq!(state.tape().cells(), &vec![0u8]);
}

#[test]
fn five_times_five_writes_code_point_25() {
    let (written, state) = run_to_end("+++++[>+++++<-]>.", &[]);
    assert_eq!(written, "\u{19}");
    assert_eq!(state.tape().cells(), &vec![0u8, 25]);
    assert_eq!(state.tape().pointer(), 1);
}

#[test]
fn nested_loops_multiply() {
    let (written, state) = run_to_end("++[>+++[>++++<-]<-]>>.", &[]);
    assert_eq!(written, "\u{18}");
    assert_eq!(state.tape().cells(), &vec![0u8, 0, 24]);
}

#[test]
fn hello_world() {
    let source = "++++++++[>++++[>++>+++>+++>+<<<<-]>+>+>->>+[<]<-]>>.>---.+++++++..+++.>>.<-.<.+++.------.--------.>>+.>++.";
    let (written, _) = run_to_end(source, &[]);
    assert_eq!(written, "Hello World!\n");
}

#[test]
fn pointer_left_at_the_first_cell_in_a_program() {
    let (_, state) = run_to_end("+++<", &[]);
    assert_eq!(state.tape().pointer(), 0);
    assert_eq!(state.tape().cells(), &vec![0u8, 3]);
}

#[test]
fn increments_wrap_in_a_program() {
    let source = "+".repeat(256) + "." + "-" + ".";
    let (written, _) = run_to_end(&source, &[]);
    assert_eq!(written, "\u{0}\u{ff}");
}

#[test]
fn output_is_the_character_with_the_cells_code_point() {
    let source = "+".repeat(200) + ".";
    let (written, _) = run_to_end(&source, &[]);
    assert_eq!(written, "\u{c8}");
}

#[test]
fn step_asks_for_input_and_input_stores_it() {
    let tree = parse(&",.".to_string()).expect("no loops");
    let mut state = State::new(tree);
    assert_eq!(state.step(), Action::Input);
    assert_eq!(state.input("A\n"), Ok(()));
    assert_eq!(state.tape().get(), 65);
    assert_eq!(state.step(), Action::Output('A'));
    assert_eq!(state.step(), Action::Halt);
}

#[test]
fn input_reads_numbers_and_characters() {
    let (written, state) = run_to_end(",>,>,<<.>.>.", &["72", "i", " 33 "]);
    assert_eq!(written, "Hi!");
    assert_eq!(state.tape().cells(), &vec![72u8, 105, 33]);
}

#[test]
fn input_fails_on_an_empty_line_and_changes_nothing() {
    let tree = parse(&"+++,.".to_string()).expect("no loops");
    let mut state = State::new(tree);
    assert_eq!(run(&mut state, 100), Action::Input);
    assert_eq!(state.input("\n"), Err(Error::InputParseError));
    assert_eq!(state.tape().cells(), &vec![3u8]);
    assert_eq!(state.tape().pointer(), 0);
}

#[test]
fn echo_until_zero() {
    let (written, _) = run_to_end(",[.,]", &["a", "b", "c", "0"]);
    assert_eq!(written, "abc");
}

#[test]
fn run_stops_when_the_budget_is_used_up() {
    let tree = parse(&"+[]".to_string()).expect("every loop is closed");
    let mut state = State::new(tree);
    assert_eq!(run(&mut state, 1000), Action::Continue);
    assert_eq!(run(&mut state, 1000), Action::Continue);
    assert_eq!(state.tape().cells(), &vec![1u8]);
    assert_eq!(run(&mut state, 0), Action::Continue);
}

#[test]
fn run_counts_its_steps() {
    let tree = parse(&"++".to_string()).expect("no loops");
    let mut state = State::new(tree);
    assert_eq!(run(&mut state, 1), Action::Continue);
    assert_eq!(state.tape().get(), 1);
    assert_eq!(run(&mut state, 1), Action::Continue);
    assert_eq!(state.tape().get(), 2);
    assert_eq!(run(&mut state, 1), Action::Halt);
}

#[test]
fn bracket_leaves_do_nothing() {
    let mut state = State::new(vec![
        SyntaxItem::Single(Token::BeginLoop),
        SyntaxItem::Single(Token::Increment),
        SyntaxItem::Single(Token::EndLoop),
    ]);
    assert_eq!(run(&mut state, 100), Action::Halt);
    assert_eq!(state.tape().cells(), &vec![1u8]);
}

#[test]
fn empty_program_halts_at_once() {
    let mut state = State::new(vec![]);
    assert_eq!(state.step(), Action::Halt);
    assert_eq!(state.tape().cells(), &vec![0u8]);
}

#[test]
fn clone_copies_the_machine_as_it_stands() {
    let tree = parse(&"++[>+<-]".to_string()).expect("every loop is closed");
    let mut state = State::new(tree);
    assert_eq!(run(&mut state, 6), Action::Continue);
    let mut copy = state.clone();
    assert_eq!(copy.tape().cells(), state.tape().cells());
    assert_eq!(copy.tape().pointer(), state.tape().pointer());
    assert_eq!(copy.commands(), state.commands());
    assert_eq!(run(&mut state, 1000), Action::Halt);
    assert_eq!(run(&mut copy, 1000), Action::Halt);
    assert_eq!(copy.tape().cells(), &vec![0u8, 2]);
    assert_eq!(copy.tape().cells(), state.tape().cells());
}
