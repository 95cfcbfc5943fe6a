use brainfuck::interpreter::Interpreter;
use brainfuck::interpreter::RunError;
use brainfuck::interpreter::TAPE_LEN;
use brainfuck::parser::Parser;

const FUEL: u64 = u64::MAX;

fn run_source(source: &[u8]) -> Vec<u8> {
    let prog = Parser::new(source.to_vec()).parse().unwrap();
    let mut interp = Interpreter::new(prog);
    interp.run(FUEL).unwrap();
    interp.output().clone()
}

#[test]
fn three_increments_output_three() {
    assert_eq!(run_source(b"+++."), vec![3]);
}

#[test]
fn decrement_fresh_cell_wraps_under() {
    assert_eq!(run_source(b"-."), vec![255]);
}

#[test]
fn increment_wraps_over_at_256() {
    let mut source = vec![b'+'; 256];
    source.push(b'.');
    assert_eq!(run_source(&source), vec![0]);
}

#[test]
fn loop_counts_cell_down_to_zero() {
    let prog = Parser::new(b"+++++[-]".to_vec()).parse().unwrap();
    let mut interp = Interpreter::new(prog);
    interp.run(FUEL).unwrap();
    assert_eq!(interp.current_cell(), 0);
}

#[test]
fn loop_on_zero_cell_runs_body_zero_times() {
    // were the body entered even once, it would write a byte
    assert_eq!(run_source(b"[-.]"), Vec::new());
}

#[test]
fn pointer_wraps_after_full_tape_cycle() {
    let baseline = run_source(b".");
    let mut once_around = vec![b'>'; TAPE_LEN];
    once_around.push(b'.');
    assert_eq!(run_source(&once_around), baseline);
    let mut twice_around = vec![b'>'; 2 * TAPE_LEN];
    twice_around.push(b'.');
    assert_eq!(run_source(&twice_around), baseline);
}

#[test]
fn pointer_wraps_backward() {
    // moving one cell left of the start lands on the last cell
    assert_eq!(run_source(b"<+."), vec![1]);
}

#[test]
fn hello_world() {
    let source = b"++++++++[>++++[>++>+++>+++>+<<<<-]>+>+>->>+[<]<-]>>.>---.+++++++..+++.>>.<-.<.+++.------.--------.>>+.>++.";
    assert_eq!(run_source(source), b"Hello World!\n".to_vec());
}

#[test]
fn input_bytes_are_consumed_in_order() {
    let prog = Parser::new(b",.,.".to_vec()).parse().unwrap();
    let mut interp = Interpreter::new(prog);
    interp.set_input(vec![65, 66]);
    interp.run(FUEL).unwrap();
    assert_eq!(interp.output().clone(), vec![65, 66]);
}

#[test]
fn input_exhaustion_aborts_run() {
    let prog = Parser::new(b".,.".to_vec()).parse().unwrap();
    let mut interp = Interpreter::new(prog);
    let err = interp.run(FUEL).unwrap_err();
    assert_eq!(err, RunError::InputExhausted);
    // output written before the failure stays
    assert_eq!(interp.output().clone(), vec![0]);
}

#[test]
fn spent_budget_reports_out_of_fuel() {
    let prog = Parser::new(b"+[]".to_vec()).parse().unwrap();
    let mut interp = Interpreter::new(prog);
    let err = interp.run(10).unwrap_err();
    assert_eq!(err, RunError::OutOfFuel);
}

#[test]
fn step_pulls_one_instruction_at_a_time() {
    let prog = Parser::new(b"+-".to_vec()).parse().unwrap();
    let mut interp = Interpreter::new(prog);
    assert_eq!(interp.step(FUEL).unwrap(), true);
    assert_eq!(interp.step(FUEL).unwrap(), true);
    assert_eq!(interp.step(FUEL).unwrap(), false);
    assert_eq!(interp.current_cell(), 0);
}

#[test]
fn step_executes_a_whole_loop_as_one_instruction() {
    let prog = Parser::new(b"+++[-]".to_vec()).parse().unwrap();
    let mut interp = Interpreter::new(prog);
    assert_eq!(interp.step(FUEL).unwrap(), true);
    assert_eq!(interp.step(FUEL).unwrap(), true);
    assert_eq!(interp.step(FUEL).unwrap(), true);
    assert_eq!(interp.step(FUEL).unwrap(), true);
    assert_eq!(interp.step(FUEL).unwrap(), false);
    assert_eq!(interp.current_cell(), 0);
}

#[test]
fn run_of_empty_program_writes_nothing() {
    assert_eq!(run_source(b""), Vec::new());
}

#[test]
fn cell_movement_is_independent_per_cell() {
    assert_eq!(run_source(b"++>+++>.<.<."), vec![0, 3, 2]);
}
