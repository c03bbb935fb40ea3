use bf_beavers::bf::{ExecutionContext, ExecutionStatus, LoopReason, Program};
use std::convert::TryFrom;

fn eval(program: &Program, max_steps: usize) -> Option<ExecutionStatus> {
    let mut ctx = ExecutionContext::new(program);
    for _ in 1..max_steps {
        let (_, state) = ctx.step();
        if state != ExecutionStatus::Running {
            return Some(state);
        }
    }
    None
}

fn assert_halting(program: &str) {
    let program = Program::try_from(program).unwrap();
    assert_eq!(eval(&program, 9_999_999).unwrap(), ExecutionStatus::Halted);
}

fn assert_not_halting_loop_if_nonzero(program: &str) {
    let program = Program::try_from(program).unwrap();
    let status = eval(&program, 9_999_999).unwrap();
    let result = matches!(
        status,
        ExecutionStatus::InfiniteLoop(LoopReason::LoopIfNonzero)
    );
    assert!(result, "Actual: {:?}", status);
}

fn assert_not_halting_loop_span(program: &str) {
    let program = Program::try_from(program).unwrap();
    let result = matches!(
        eval(&program, 9_999_999).unwrap(),
        ExecutionStatus::InfiniteLoop(LoopReason::LoopSpan { .. })
    );
    assert!(result);
}

#[test]
fn test_halting() {
    assert_halting("+[-]");
    assert_halting(">+[>++++[-<]>>]");
    assert_halting("+[->++++++[-<]>]");
    assert_halting(">+[>++>+++[-<]>>]");
    assert_halting(">+[>++>+++[-<]>>]+");
    assert_halting("++++++++++++++++++++++++++++++++++++++++++++++++++++++++++++++++++++++++++++++++++++++++++++++++++++++++++++++++++++++++++++++++++++++++++++++++++++++++++++++++++++++++++++++++++++++++++++++++++++++++++++++++++++++++++++++++++++++++++++++++++++++[>+++++++++++++++++++++++++++++++++++++++++++++++++++++++++++++++++++++++++++++++++++++++++++++++++++++++++++++++++++++++++++++++++++++++++++++++++++++++++++++++++++++++++++++++++++++++++++++++++++++++++++++++++++++++++++++++++++++++++++++++++++++++<-]>");
}

#[test]
fn test_non_halting_loop_if_nonzero() {
    assert_not_halting_loop_if_nonzero("+[]");
    assert_not_halting_loop_if_nonzero("+<[]");
    assert_not_halting_loop_if_nonzero("-[]");
    assert_not_halting_loop_if_nonzero("-[-[+]+[]]");
    assert_not_halting_loop_if_nonzero("+[[[]]]");
}

#[test]
fn test_non_halting_loop_span() {
    assert_not_halting_loop_span("+[<]");
    assert_not_halting_loop_span("+[-+]");
    assert_not_halting_loop_span("+[[+]-]");
}
