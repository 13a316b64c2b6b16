use bf::{
    optimize, parse, run, tokenize, Action, BFEvalError, Buffer, Expression, Machine, TAPE_LENGTH,
};

const LIMIT: u64 = 1_000_000;

fn tree(source: &str) -> Vec<Expression> {
    parse(&tokenize(&source.chars().collect())).unwrap()
}

fn execute(source: &str, input: &[u8]) -> Result<(Buffer<u32>, Vec<u8>), BFEvalError> {
    run(&optimize(&tree(source)), &input.to_vec(), LIMIT)
}

fn fault(source: &str, input: &[u8]) -> BFEvalError {
    match execute(source, input) {
        Ok(_) => panic!("the program ended"),
        Err(error) => error,
    }
}

#[test]
fn run_loop_clears_the_cell() {
    let (tape, output) = execute("+++[-]", &[]).unwrap();
    assert_eq!(tape.ptr(), 0);
    assert_eq!(tape.read(), 0);
    assert!(output.is_empty());
}

#[test]
fn run_writes_one_byte() {
    let (tape, output) = execute("+++.", &[]).unwrap();
    assert_eq!(output, vec![3u8]);
    assert_eq!(tape.read(), 3);
}

#[test]
fn run_hello_world() {
    let source = "++++++++++++++[>+++++>+++++++>++++++++>++>++++++<<<<<-]\
                  >++.>+++.>----..+++.>++++.>+++.<<.+++.------.<-.>>+.>>++++++++++.";
    let (_, output) = execute(source, &[]).unwrap();
    assert_eq!(output, b"Hello World!\n".to_vec());
}

#[test]
fn run_hello_world_with_nested_loops() {
    let source = "++++++++[>++++[>++>+++>+++>+<<<<-]>+>+>->>+[<]<-]>>.>---.+++++++..+++.\
                  >>.<-.<.+++.------.--------.>>+.>++.";
    let (_, output) = execute(source, &[]).unwrap();
    assert_eq!(output, b"Hello World!\n".to_vec());
}

#[test]
fn run_gives_the_same_result_without_optimizing() {
    let source = "++++++++[>++++[>++>+++>+++>+<<<<-]>+>+>->>+[<]<-]>>.>---.+++++++..+++.";
    let plain = run(&tree(source), &vec![], LIMIT).unwrap();
    let folded = run(&optimize(&tree(source)), &vec![], LIMIT).unwrap();
    assert_eq!(plain.1, folded.1);
    assert_eq!(plain.0.buf(), folded.0.buf());
    assert_eq!(plain.0.ptr(), folded.0.ptr());
}

#[test]
fn run_starts_on_a_fresh_tape() {
    let (tape, output) = execute("", &[]).unwrap();
    assert_eq!(tape.buf().len(), TAPE_LENGTH);
    assert_eq!(TAPE_LENGTH, 30000);
    assert!(tape.buf().iter().all(|cell| *cell == 0));
    assert_eq!(tape.ptr(), 0);
    assert!(output.is_empty());
}

#[test]
fn run_reads_input_byte_by_byte() {
    let (tape, output) = execute(",.>,.", &[65, 66, 67]).unwrap();
    assert_eq!(output, vec![65u8, 66]);
    assert_eq!(&tape.buf()[..3], &[65u32, 66, 0][..]);
    assert_eq!(tape.ptr(), 1);
}

#[test]
fn run_copies_input_until_a_zero_byte() {
    let (_, output) = execute(",[.,]", b"tape\0rest").unwrap();
    assert_eq!(output, b"tape".to_vec());
}

#[test]
fn run_fails_at_the_end_of_input() {
    assert_eq!(fault(",", &[]), BFEvalError::EndOfInput);
    assert_eq!(fault(",.,", &[1]), BFEvalError::EndOfInput);
}

#[test]
fn run_skips_a_loop_on_a_zero_cell() {
    let (tape, output) = execute("[.+]", &[]).unwrap();
    assert!(output.is_empty());
    assert_eq!(tape.read(), 0);
}

#[test]
fn run_cells_wrap_around() {
    let (tape, _) = execute("-", &[]).unwrap();
    assert_eq!(tape.read(), u32::MAX);
    let (tape, _) = execute("-++", &[]).unwrap();
    assert_eq!(tape.read(), 1);
}

#[test]
fn run_output_is_the_low_byte_of_the_cell() {
    let (_, output) = execute("-.", &[]).unwrap();
    assert_eq!(output, vec![255u8]);
    let program = vec![Expression::IncValue(256 + 65), Expression::OutputValue];
    let (tape, output) = run(&program, &vec![], LIMIT).unwrap();
    assert_eq!(output, vec![65u8]);
    assert_eq!(tape.read(), 321);
}

#[test]
fn run_stops_at_the_step_limit() {
    assert_eq!(fault("+[]", &[]), BFEvalError::StepLimit);
    let program = tree("+++");
    assert_eq!(run(&program, &vec![], 3).err(), Some(BFEvalError::StepLimit));
    assert!(run(&program, &vec![], 4).is_ok());
    assert_eq!(run(&vec![], &vec![], 0).err(), Some(BFEvalError::StepLimit));
}

#[test]
fn run_result_does_not_depend_on_a_sufficient_limit() {
    let program = optimize(&tree("++[>+++<-]>."));
    let small = run(&program, &vec![], 100).unwrap();
    let large = run(&program, &vec![], u64::MAX).unwrap();
    assert_eq!(small.1, vec![6u8]);
    assert_eq!(small.1, large.1);
    assert_eq!(small.0.buf(), large.0.buf());
}

#[test]
fn run_faults_below_the_first_cell() {
    assert_eq!(fault("<", &[]), BFEvalError::PointerOverflow);
    assert_eq!(fault(">><<<", &[]), BFEvalError::PointerOverflow);
}

#[test]
fn run_faults_on_access_past_the_last_cell() {
    let program = vec![Expression::MoveForward(TAPE_LENGTH), Expression::IncValue(1)];
    assert_eq!(
        run(&program, &vec![], LIMIT).err(),
        Some(BFEvalError::OutOfRangeAccess(TAPE_LENGTH))
    );
    let program = vec![Expression::MoveForward(TAPE_LENGTH), Expression::MoveBack(1), Expression::IncValue(1)];
    let (tape, _) = run(&program, &vec![], LIMIT).unwrap();
    assert_eq!(tape.ptr(), TAPE_LENGTH - 1);
    assert_eq!(tape.read(), 1);
}

#[test]
fn run_faults_where_the_pointer_cannot_be_held() {
    let program = vec![Expression::MoveForward(usize::MAX), Expression::MoveForward(1)];
    assert_eq!(run(&program, &vec![], LIMIT).err(), Some(BFEvalError::PointerOverflow));
}

#[test]
fn machine_steps_through_a_program() {
    let program = tree("+[-].");
    let mut machine = Machine::new(&program);
    let mut actions = Vec::new();
    loop {
        let action = machine.step().unwrap();
        actions.push(action);
        if action == Action::Halt {
            break;
        }
    }
    assert_eq!(
        actions,
        vec![
            Action::Continue,
            Action::Continue,
            Action::Continue,
            Action::Continue,
            Action::Continue,
            Action::Output(0),
            Action::Halt,
        ]
    );
    assert_eq!(machine.step(), Ok(Action::Halt));
    assert_eq!(machine.tape().read(), 0);
}

#[test]
fn machine_waits_for_input_until_fed() {
    let program = tree(",.");
    let mut machine = Machine::new(&program);
    assert!(machine.awaits_input());
    assert_eq!(machine.step(), Ok(Action::Input));
    assert_eq!(machine.step(), Ok(Action::Input));
    assert!(machine.awaits_input());
    assert_eq!(machine.feed(200), Ok(()));
    assert!(!machine.awaits_input());
    assert_eq!(machine.step(), Ok(Action::Output(200)));
    assert_eq!(machine.step(), Ok(Action::Halt));
    assert_eq!(machine.into_tape().read(), 200);
}

#[test]
fn machine_runs_on_a_given_tape() {
    let program = tree(">[-]<.");
    let mut machine = Machine::with_tape(&program, Buffer::clone(&[321, 2]));
    let mut output = Vec::new();
    loop {
        match machine.step().unwrap() {
            Action::Output(byte) => output.push(byte),
            Action::Halt => break,
            _ => {}
        }
    }
    assert_eq!(output, vec![65u8]);
    assert_eq!(machine.tape().buf(), &[321u32, 0][..]);
}

#[test]
fn machine_fault_leaves_the_state() {
    let program = tree(">+");
    let mut machine = Machine::with_tape(&program, Buffer::new(1));
    assert_eq!(machine.step(), Ok(Action::Continue));
    assert_eq!(machine.step(), Err(BFEvalError::OutOfRangeAccess(1)));
    assert_eq!(machine.step(), Err(BFEvalError::OutOfRangeAccess(1)));
    assert_eq!(machine.tape().ptr(), 1);
    assert_eq!(machine.tape().buf(), &[0u32][..]);
}

#[test]
fn machine_faults_on_each_access_off_the_tape() {
    for source in ["+", "-", ".", "[]"] {
        let program = tree(source);
        let mut machine = Machine::with_tape(&program, Buffer::new(0));
        assert_eq!(machine.step(), Err(BFEvalError::OutOfRangeAccess(0)));
    }
    let program = tree(",");
    let mut machine = Machine::with_tape(&program, Buffer::new(0));
    assert_eq!(machine.step(), Ok(Action::Input));
    assert_eq!(machine.feed(1), Err(BFEvalError::OutOfRangeAccess(0)));
}
