use rpn_actors::operations::{Add, Command, Div, Exit, Insert, Mul, Outcome, Sub};
use rpn_actors::state::State;
use rpn_actors::tokenize::get_input_tokens;

fn run_line(st: &mut State, line: &str) -> Outcome {
    let tokens = get_input_tokens(line).expect("line should tokenize");
    st.enqueue_tokens(&tokens);
    st.drain_queue()
}

#[test]
fn order_preservation_simple_sum() {
    let mut st = State::new();
    let o = run_line(&mut st, "3 4 +");
    assert_eq!(o, Outcome::Continue);
    assert_eq!(st.stack, vec![7]);
    let printed = st.drain_stack();
    assert_eq!(printed, vec![7]);
}

#[test]
fn chained_expression_single_line() {
    let mut st = State::new();
    let o = run_line(&mut st, "5 1 2 + 4 * + 3 -");
    assert_eq!(o, Outcome::Continue);
    assert_eq!(st.stack, vec![14]);
}

#[test]
fn insufficient_operands_is_silent() {
    let mut st = State::new();
    let o = run_line(&mut st, "+");
    assert_eq!(o, Outcome::Continue);
    assert!(st.stack.is_empty());
    assert!(st.queue.is_empty());
    assert!(st.drain_stack().is_empty());
}

#[test]
fn one_operand_is_kept_on_silent_no_op() {
    let mut st = State::new();
    let o = run_line(&mut st, "5 *");
    assert_eq!(o, Outcome::Continue);
    assert_eq!(st.stack, vec![5]);
}

#[test]
fn division_truncates() {
    let mut st = State::new();
    assert_eq!(run_line(&mut st, "7 2 /"), Outcome::Continue);
    assert_eq!(st.stack, vec![3]);
    st.drain_stack();
    assert_eq!(run_line(&mut st, "-7 2 /"), Outcome::Continue);
    assert_eq!(st.stack, vec![-3]);
}

#[test]
fn zero_divisor_faults_the_worker_only() {
    let mut st = State::new();
    let o = run_line(&mut st, "1 0 /");
    assert_eq!(o, Outcome::Fault);
    // both operands were consumed, nothing was pushed
    assert!(st.stack.is_empty());
    // the input side still accepts lines and the queue keeps growing
    let tokens = get_input_tokens("4 5 +").expect("line should tokenize");
    st.enqueue_tokens(&tokens);
    assert_eq!(st.queue.len(), 3);
    let tokens = get_input_tokens("6").expect("line should tokenize");
    st.enqueue_tokens(&tokens);
    assert_eq!(st.queue.len(), 4);
    assert!(st.stack.is_empty());
}

#[test]
fn overflow_faults_the_worker() {
    let mut st = State::new();
    let o = run_line(&mut st, "9223372036854775807 1 +");
    assert_eq!(o, Outcome::Fault);
    assert!(st.stack.is_empty());
    let mut st = State::new();
    let o = run_line(&mut st, "-9223372036854775808 -1 /");
    assert_eq!(o, Outcome::Fault);
}

#[test]
fn destructive_display_drain() {
    let mut st = State::new();
    assert_eq!(run_line(&mut st, "1 2 3"), Outcome::Continue);
    assert_eq!(st.stack, vec![1, 2, 3]);
    // top of stack first, each value exactly once
    let printed = st.drain_stack();
    assert_eq!(printed, vec![3, 2, 1]);
    // the drain removed what it printed: a second drain emits nothing
    let again = st.drain_stack();
    assert!(again.is_empty());
}

#[test]
fn terminate_preempts_pending_work() {
    let mut st = State::new();
    let o = run_line(&mut st, "q 1 2 +");
    assert_eq!(o, Outcome::Terminate);
    // the pending commands of the line are still queued, the stack untouched
    assert_eq!(st.queue.len(), 3);
    assert!(st.stack.is_empty());
    let mut st = State::new();
    assert_eq!(run_line(&mut st, "Q"), Outcome::Terminate);
    let mut st = State::new();
    assert_eq!(run_line(&mut st, "1 2 q"), Outcome::Terminate);
    assert_eq!(st.stack, vec![1, 2]);
}

#[test]
fn tokenizer_rejects_unknown_fragments() {
    assert!(get_input_tokens("1 2 x").is_none());
    assert!(get_input_tokens("1.5").is_none());
    assert!(get_input_tokens("qq").is_none());
    assert!(get_input_tokens("9223372036854775808").is_none());
    assert!(get_input_tokens("+5 -5").is_some());
    assert!(get_input_tokens("-9223372036854775808").is_some());
}

#[test]
fn tokenizer_handles_blanks_and_newline() {
    let tokens = get_input_tokens("").expect("empty line tokenizes");
    assert!(tokens.is_empty());
    let tokens = get_input_tokens("   ").expect("blank line tokenizes");
    assert!(tokens.is_empty());
    let mut st = State::new();
    assert_eq!(run_line(&mut st, " 3  4 + \n"), Outcome::Continue);
    assert_eq!(st.stack, vec![7]);
}

#[test]
fn commands_execute_against_the_stack() {
    let mut stack: Vec<i64> = Vec::new();
    assert_eq!(Insert::new(10).execute(&mut stack), Outcome::Continue);
    assert_eq!(Insert::new(4).execute(&mut stack), Outcome::Continue);
    assert_eq!((Sub {}).execute(&mut stack), Outcome::Continue);
    assert_eq!(stack, vec![6]);
    assert_eq!(Insert::new(7).execute(&mut stack), Outcome::Continue);
    assert_eq!((Mul {}).execute(&mut stack), Outcome::Continue);
    assert_eq!(stack, vec![42]);
    assert_eq!(Insert::new(5).execute(&mut stack), Outcome::Continue);
    assert_eq!((Div {}).execute(&mut stack), Outcome::Continue);
    assert_eq!(stack, vec![8]);
    assert_eq!(Insert::new(1).execute(&mut stack), Outcome::Continue);
    assert_eq!((Add {}).execute(&mut stack), Outcome::Continue);
    assert_eq!(stack, vec![9]);
    assert_eq!((Exit {}).execute(&mut stack), Outcome::Terminate);
    assert_eq!(stack, vec![9]);
}

#[test]
fn operands_pop_right_then_left() {
    let mut stack: Vec<i64> = vec![1, 2, 3];
    let pair = rpn_actors::operations::get_operand_from_stack(&mut stack);
    assert_eq!(pair, Some((2, 3)));
    assert_eq!(stack, vec![1]);
}

#[test]
fn process_line_runs_a_whole_line() {
    let mut st = State::new();
    assert_eq!(st.process_line("2 3 *"), Some(Outcome::Continue));
    assert_eq!(st.stack, vec![6]);
    assert_eq!(st.process_line("bogus"), None);
    assert_eq!(st.stack, vec![6]);
    assert_eq!(st.process_line("q"), Some(Outcome::Terminate));
}
