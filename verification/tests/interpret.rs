use bf_interpreter::{interpret, lex, Ending, Error};

fn lines(input: &[&str]) -> Vec<String> {
    input.iter().map(|line| line.to_string()).collect()
}

fn text(output: &Vec<char>) -> String {
    output.iter().collect()
}

#[test]
fn interpret_three_increments_and_a_write() {
    let (state, report) = interpret(&"+++.".to_string(), &vec![], 100).expect("no loops");
    assert_eq!(report.output, vec!['\u{3}']);
    assert_eq!(report.ending, Ending::Halted);
    assert_eq!(state.tape().cells(), &vec![3u8]);
}

#[test]
fn interpret_a_clearing_loop() {
    let (state, report) = interpret(&"+[-]".to_string(), &vec![], 100).expect("closed loop");
    assert_eq!(report.output, Vec::<char>::new());
    assert_eq!(report.ending, Ending::Halted);
    assert_eq!(state.tape().get(), 0);
}

#[test]
fn interpret_a_loop_on_a_blank_tape() {
    let (state, report) = interpret(&"[-]".to_string(), &vec![], 100).expect("closed loop");
    assert_eq!(report.output, Vec::<char>::new());
    assert_eq!(report.ending, Ending::Halted);
    assert_eq!(state.tape().cells(), &vec![0u8]);
    assert_eq!(state.tape().pointer(), 0);
}

#[test]
fn interpret_five_times_five() {
    let source = "+++++[>+++++<-]>.".to_string();
    let (state, report) = interpret(&source, &vec![], 1000).expect("closed loop");
    assert_eq!(report.output, vec!['\u{19}']);
    assert_eq!(report.ending, Ending::Halted);
    assert_eq!(state.tape().cells(), &vec![0u8, 25]);
}

#[test]
fn interpret_fails_on_an_unclosed_loop() {
    assert_eq!(interpret(&"[".to_string(), &vec![], 100).err(), Some(Error::MismatchedBrackets));
    assert_eq!(interpret(&"+.[.".to_string(), &vec![], 100).err(), Some(Error::MismatchedBrackets));
}

#[test]
fn interpret_passes_over_a_stray_closing_bracket() {
    let (_, report) = interpret(&"+]+.".to_string(), &vec![], 100).expect("nothing is opened");
    assert_eq!(report.output, vec!['\u{2}']);
    assert_eq!(report.ending, Ending::Halted);
}

#[test]
fn interpret_reads_white_space_and_comments_as_nothing() {
    let plain = "++[>+++<-]>.".to_string();
    let spread = "add two: + +\n[ > +++ < - ]\tmove > and write .\n".to_string();
    assert_eq!(lex(&spread), lex(&plain));
    let stripped: String = spread.chars().filter(|c| !c.is_whitespace()).collect();
    assert_eq!(lex(&stripped), lex(&plain));
    let (_, first) = interpret(&plain, &vec![], 1000).expect("closed loop");
    let (_, second) = interpret(&spread, &vec![], 1000).expect("closed loop");
    assert_eq!(first.output, vec!['\u{6}']);
    assert_eq!(second.output, first.output);
}

#[test]
fn interpret_with_input() {
    let source = ",>,<[->+<]>.".to_string();
    let (_, report) = interpret(&source, &lines(&["40", "2"]), 1000).expect("closed loop");
    assert_eq!(text(&report.output), "*");
    assert_eq!(report.lines_read, 2);
    assert_eq!(report.ending, Ending::Halted);
}

#[test]
fn interpret_a_failed_read() {
    let source = "+.,.".to_string();
    let (state, report) = interpret(&source, &vec![], 1000).expect("no loops");
    assert_eq!(report.output, vec!['\u{1}']);
    assert_eq!(report.lines_read, 0);
    assert_eq!(report.ending, Ending::Failed(Error::InputParseError));
    assert_eq!(state.tape().cells(), &vec![1u8]);
}

#[test]
fn interpret_a_program_that_never_ends() {
    let (state, report) = interpret(&"+[>+<]".to_string(), &vec![], 1000).expect("closed loop");
    assert_eq!(report.ending, Ending::OutOfBudget);
    assert_eq!(state.tape().cells()[0], 1);
}
