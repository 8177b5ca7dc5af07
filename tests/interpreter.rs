use bfwasm::interpreter::{EvalError, Interpreter, MEMORY_SIZE};
use bfwasm::parser::parse;
use bfwasm::program::Instruction;
use bfwasm::tokenizer::tokenize;

fn run(source: &str) -> Interpreter {
    let mut interpreter = Interpreter::new(parse(&tokenize(source)));
    assert_eq!(interpreter.eval(), Ok(()));
    interpreter
}

#[test]
fn test_eval() {
    let mut interpreter = Interpreter::new(vec![Instruction::ValInc(65), Instruction::PutCh]);
    assert_eq!(interpreter.eval(), Ok(()));
    assert_eq!(*interpreter.output(), vec![65]);
}

#[test]
fn write_after_moves_scenario() {
    let interpreter = run("+++>++<.");
    assert_eq!(*interpreter.output(), vec![3]);
    assert_eq!(interpreter.memory()[0..4], [3, 2, 0, 0]);
    assert_eq!(interpreter.cursor(), 0);
}

#[test]
fn transfer_loop_scenario() {
    let interpreter = run("+++[>++<-]");
    assert_eq!(interpreter.memory()[0..3], [0, 6, 0]);
    assert_eq!(interpreter.cursor(), 0);
}

#[test]
fn nested_loop_scenario() {
    let interpreter = run("++[>+[>+<-]<-]");
    assert_eq!(interpreter.memory()[0..4], [0, 0, 2, 0]);
    assert_eq!(interpreter.cursor(), 0);
}

#[test]
fn cell_increment_wraps_to_zero() {
    let mut interpreter = Interpreter::new(vec![Instruction::ValInc(255), Instruction::ValInc(1)]);
    assert_eq!(interpreter.eval(), Ok(()));
    assert_eq!(interpreter.memory()[0], 0);
}

#[test]
fn cell_decrement_wraps_to_255() {
    let interpreter = run("-");
    assert_eq!(interpreter.memory()[0], 255);
}

#[test]
fn cursor_decrement_wraps_to_last_cell() {
    let interpreter = run("<+");
    assert_eq!(interpreter.cursor(), MEMORY_SIZE - 1);
    assert_eq!(interpreter.memory()[MEMORY_SIZE - 1], 1);
    assert_eq!(interpreter.memory().len(), 65536);
}

#[test]
fn cursor_increment_wraps_to_first_cell() {
    let mut interpreter = Interpreter::new(vec![Instruction::PtrInc(65536 + 3), Instruction::ValInc(7)]);
    assert_eq!(interpreter.eval(), Ok(()));
    assert_eq!(interpreter.cursor(), 3);
    assert_eq!(interpreter.memory()[3], 7);
}

#[test]
fn countdown_loop_runs_once_per_unit() {
    let mut interpreter = Interpreter::new(vec![
        Instruction::ValInc(5),
        Instruction::Block(vec![Instruction::PutCh, Instruction::ValDec(1)]),
    ]);
    assert_eq!(interpreter.eval(), Ok(()));
    assert_eq!(*interpreter.output(), vec![5, 4, 3, 2, 1]);
    assert_eq!(interpreter.memory()[0], 0);
}

#[test]
fn loop_subtracting_five_from_five() {
    let mut interpreter = Interpreter::new(vec![
        Instruction::ValInc(5),
        Instruction::Block(vec![Instruction::PutCh, Instruction::ValDec(5)]),
    ]);
    assert_eq!(interpreter.eval(), Ok(()));
    assert_eq!(*interpreter.output(), vec![5]);
    assert_eq!(interpreter.memory()[0], 0);
}

#[test]
fn loop_on_zero_cell_is_skipped() {
    let interpreter = run("[.+]");
    assert_eq!(*interpreter.output(), Vec::<u8>::new());
    assert_eq!(interpreter.memory()[0], 0);
}

#[test]
fn second_run_is_refused() {
    let mut interpreter = run("+.");
    assert_eq!(interpreter.eval(), Err(EvalError::AlreadyRun));
    assert_eq!(*interpreter.output(), vec![1]);
}

#[test]
fn reading_is_refused() {
    let mut interpreter = Interpreter::new(parse(&tokenize("+,")));
    assert_eq!(interpreter.eval(), Err(EvalError::ReadUnsupported));
}

#[test]
fn endless_loop_hits_step_limit() {
    let mut interpreter = Interpreter::with_step_limit(parse(&tokenize("+[]")), 10);
    assert_eq!(interpreter.eval(), Err(EvalError::StepLimit));
}

#[test]
fn step_limit_counts_iterations() {
    let mut exact = Interpreter::with_step_limit(parse(&tokenize("+++[-]")), 3);
    assert_eq!(exact.eval(), Ok(()));
    let mut short = Interpreter::with_step_limit(parse(&tokenize("+++[-]")), 2);
    assert_eq!(short.eval(), Err(EvalError::StepLimit));
}
