use csgps::{Object, ObjectMode, PsError, Scanner};

fn run(src: &str) -> (Result<(), PsError>, Vec<String>) {
    let mut scanner = Scanner::new();
    let r = scanner.execute_string(src);
    let out = scanner.take_output();
    (r, out)
}

fn run_ok(src: &str) -> Vec<String> {
    let (r, out) = run(src);
    assert!(r.is_ok(), "unexpected error: {:?}", r);
    out
}

#[test]
fn add_and_print() {
    let out = run_ok("1 2 add =");
    assert_eq!(out, vec!["Integer(3)".to_string()]);
}

#[test]
fn defined_procedure_increments() {
    let out = run_ok("/inc { 1 add } def  5 inc =");
    assert_eq!(out, vec!["Integer(6)".to_string()]);
}

#[test]
fn count_to_mark_counts_three() {
    let out = run_ok("[ 1 2 3 counttomark =");
    assert_eq!(out, vec!["Integer(3)".to_string()]);
}

#[test]
fn count_to_mark_keeps_mark_in_place() {
    let mut scanner = Scanner::new();
    scanner.execute_string("[ 1 2 3 counttomark").unwrap();
    // mark, three integers, and the count
    assert_eq!(scanner.get_stack_size(), 5);
    assert!(matches!(scanner.get_stack_object(0), Object::Mark));
    assert!(matches!(scanner.get_stack_object(4), Object::Integer(3)));
}

#[test]
fn clear_to_mark_restores_baseline() {
    let mut scanner = Scanner::new();
    scanner.execute_string("7 [ 1 2 3 cleartomark").unwrap();
    assert_eq!(scanner.get_stack_size(), 1);
    assert!(matches!(scanner.get_stack_object(0), Object::Integer(7)));
}

#[test]
fn end_array_after_mark_leaves_no_mark() {
    // once `]` has bundled the array there is no mark left to count to
    let (r, _) = run("[ 1 2 3 ] counttomark");
    assert_eq!(r, Err(PsError::MarkNotFound));
}

#[test]
fn repeat_prints_three_lines() {
    let out = run_ok("3 { 7 = } repeat");
    let seven = "Integer(7)".to_string();
    assert_eq!(out, vec![seven.clone(), seven.clone(), seven]);
}

#[test]
fn repeat_once_runs_once() {
    let out = run_ok("1 { 7 = } repeat");
    assert_eq!(out, vec!["Integer(7)".to_string()]);
}

#[test]
fn ifelse_takes_true_branch() {
    let out = run_ok("true { 1 = } { 2 = } ifelse");
    assert_eq!(out, vec!["Integer(1)".to_string()]);
}

#[test]
fn ifelse_takes_false_branch() {
    let out = run_ok("false { 1 = } { 2 = } ifelse");
    assert_eq!(out, vec!["Integer(2)".to_string()]);
}

#[test]
fn roll_rotates_deeper_items_to_top() {
    let mut scanner = Scanner::new();
    scanner.execute_string("1 2 3 3 -1 roll").unwrap();
    assert_eq!(scanner.get_stack_size(), 3);
    assert!(matches!(scanner.get_stack_object(0), Object::Integer(2)));
    assert!(matches!(scanner.get_stack_object(1), Object::Integer(3)));
    assert!(matches!(scanner.get_stack_object(2), Object::Integer(1)));
}

#[test]
fn add_on_empty_stack_underflows() {
    let (r, _) = run("add");
    assert_eq!(r, Err(PsError::UnderflowError));
}

#[test]
fn def_with_value_below_name_is_rejected() {
    // `def` wants the literal name below the value; here the name is on
    // top, so the pair is ill-typed and self-reference never happens
    let (r, _) = run("1 /x def x x");
    assert_eq!(r, Err(PsError::TypeError));
}

#[test]
fn unmatched_close_brace_is_a_syntax_error() {
    let (r, _) = run("}");
    assert_eq!(r, Err(PsError::SyntaxError));
}

#[test]
fn balanced_program_leaves_stack_empty() {
    let mut scanner = Scanner::new();
    scanner.execute_string("1 2 add pop").unwrap();
    assert_eq!(scanner.get_stack_size(), 0);
    scanner.execute_string("3 { 1 } repeat clear").unwrap();
    assert_eq!(scanner.get_stack_size(), 0);
}

#[test]
fn braces_capture_one_executable_array() {
    let mut scanner = Scanner::new();
    scanner.execute_string("{ 1 2 add }").unwrap();
    assert_eq!(scanner.get_stack_size(), 1);
    match scanner.get_stack_object(0) {
        Object::Array(ObjectMode::Executable, items) => {
            assert_eq!(items.len(), 3);
            assert!(matches!(items[0], Object::Integer(1)));
            assert!(matches!(items[1], Object::Integer(2)));
            assert!(matches!(
                items[2],
                Object::Name(ObjectMode::Executable, _)
            ));
        }
        other => panic!("expected an executable array, got {:?}", other),
    }
}

#[test]
fn nested_braces_capture_nested_procedures() {
    let mut scanner = Scanner::new();
    scanner.execute_string("{ 1 { 2 } 3 }").unwrap();
    assert_eq!(scanner.get_stack_size(), 1);
    match scanner.get_stack_object(0) {
        Object::Array(ObjectMode::Executable, items) => {
            assert_eq!(items.len(), 3);
            match &items[1] {
                Object::Array(ObjectMode::Executable, inner) => {
                    assert_eq!(inner.len(), 1);
                    assert!(matches!(inner[0], Object::Integer(2)));
                }
                other => panic!("expected a nested procedure, got {:?}", other),
            }
        }
        other => panic!("expected an executable array, got {:?}", other),
    }
}

#[test]
fn user_binding_shadows_system_operator() {
    let out = run_ok("/add { 99 } def 1 2 add = =");
    // the shadowed `add` ignores its operands and pushes 99
    assert_eq!(
        out,
        vec!["Integer(99)".to_string(), "Integer(2)".to_string()]
    );
}

#[test]
fn shadowing_does_not_leak_into_fresh_engines() {
    let out = run_ok("/add { 99 } def");
    assert_eq!(out, Vec::<String>::new());
    // a fresh engine still has the system meaning
    let out2 = run_ok("1 2 add =");
    assert_eq!(out2, vec!["Integer(3)".to_string()]);
}

#[test]
fn two_rolls_equal_their_sum() {
    let mut a = Scanner::new();
    a.execute_string("1 2 3 4 5  5 2 roll  5 1 roll pstack").unwrap();
    let mut b = Scanner::new();
    b.execute_string("1 2 3 4 5  5 3 roll pstack").unwrap();
    assert_eq!(a.take_output(), b.take_output());
}

#[test]
fn nested_repeat_terminates_with_all_passes() {
    let out = run_ok("2 { 2 { 1 = } repeat } repeat");
    assert_eq!(out.len(), 4);
    for line in out {
        assert_eq!(line, "Integer(1)".to_string());
    }
}

#[test]
fn state_is_kept_between_lines() {
    let mut scanner = Scanner::new();
    scanner.execute_string("/n 4 def").unwrap();
    scanner.execute_string("n =").unwrap();
    assert_eq!(scanner.take_output(), vec!["Integer(4)".to_string()]);
}

#[test]
fn side_effects_before_an_error_remain() {
    let mut scanner = Scanner::new();
    let r = scanner.execute_string("1 = add");
    assert_eq!(r, Err(PsError::UnderflowError));
    assert_eq!(scanner.take_output(), vec!["Integer(1)".to_string()]);
}
