use csgps::{Object, PsError, Scanner};

fn run(src: &str) -> (Result<(), PsError>, Vec<String>) {
    let mut scanner = Scanner::new();
    let r = scanner.execute_string(src);
    let out = scanner.take_output();
    (r, out)
}

fn prints(src: &str) -> Vec<String> {
    let (r, out) = run(src);
    assert!(r.is_ok(), "unexpected error: {:?}", r);
    out
}

#[test]
fn sub_subtracts_top_from_lower() {
    assert_eq!(prints("7 2 sub ="), vec!["Integer(5)".to_string()]);
}

#[test]
fn mul_multiplies() {
    assert_eq!(prints("6 7 mul ="), vec!["Integer(42)".to_string()]);
}

#[test]
fn div_truncates_toward_zero() {
    assert_eq!(prints("7 2 div ="), vec!["Integer(3)".to_string()]);
    assert_eq!(prints("-7 2 div ="), vec!["Integer(-3)".to_string()]);
    assert_eq!(prints("7 -2 div ="), vec!["Integer(-3)".to_string()]);
}

#[test]
fn mod_follows_the_dividend_sign() {
    assert_eq!(prints("7 3 mod ="), vec!["Integer(1)".to_string()]);
    assert_eq!(prints("-7 3 mod ="), vec!["Integer(-1)".to_string()]);
    assert_eq!(prints("7 -3 mod ="), vec!["Integer(1)".to_string()]);
}

#[test]
fn div_by_zero_fails() {
    let (r, _) = run("1 0 div");
    assert_eq!(r, Err(PsError::ArithmeticError));
}

#[test]
fn mod_by_zero_fails() {
    let (r, _) = run("1 0 mod");
    assert_eq!(r, Err(PsError::ArithmeticError));
}

#[test]
fn add_overflow_fails() {
    let (r, _) = run("9223372036854775807 1 add");
    assert_eq!(r, Err(PsError::ArithmeticError));
}

#[test]
fn minimum_integer_negation_overflow_fails() {
    let (r, _) = run("-9223372036854775808 -1 div");
    assert_eq!(r, Err(PsError::ArithmeticError));
}

#[test]
fn add_type_mismatch_fails() {
    let (r, _) = run("1 true add");
    assert_eq!(r, Err(PsError::TypeError));
}

#[test]
fn gt_on_integers() {
    assert_eq!(prints("2 1 gt ="), vec!["Bool(true)".to_string()]);
    assert_eq!(prints("1 2 gt ="), vec!["Bool(false)".to_string()]);
}

#[test]
fn gt_on_booleans_orders_false_below_true() {
    assert_eq!(prints("true false gt ="), vec!["Bool(true)".to_string()]);
    assert_eq!(prints("true true gt ="), vec!["Bool(false)".to_string()]);
    assert_eq!(prints("false false gt ="), vec!["Bool(false)".to_string()]);
}

#[test]
fn gt_mixed_types_fail() {
    let (r, _) = run("1 true gt");
    assert_eq!(r, Err(PsError::TypeError));
}

#[test]
fn eq_and_ne_on_integers_and_booleans() {
    assert_eq!(prints("3 3 eq ="), vec!["Bool(true)".to_string()]);
    assert_eq!(prints("3 4 eq ="), vec!["Bool(false)".to_string()]);
    assert_eq!(prints("3 4 ne ="), vec!["Bool(true)".to_string()]);
    assert_eq!(prints("true true eq ="), vec!["Bool(true)".to_string()]);
    assert_eq!(prints("true false ne ="), vec!["Bool(true)".to_string()]);
}

#[test]
fn dup_duplicates_the_top() {
    assert_eq!(
        prints("5 dup = ="),
        vec!["Integer(5)".to_string(), "Integer(5)".to_string()]
    );
}

#[test]
fn exch_swaps_the_top_two() {
    assert_eq!(
        prints("1 2 exch = ="),
        vec!["Integer(1)".to_string(), "Integer(2)".to_string()]
    );
}

#[test]
fn copy_duplicates_the_top_run_in_order() {
    let mut scanner = Scanner::new();
    scanner.execute_string("1 2 3 2 copy").unwrap();
    assert_eq!(scanner.get_stack_size(), 5);
    assert!(matches!(scanner.get_stack_object(3), Object::Integer(2)));
    assert!(matches!(scanner.get_stack_object(4), Object::Integer(3)));
}

#[test]
fn copy_of_zero_is_a_no_op() {
    let mut scanner = Scanner::new();
    scanner.execute_string("1 2 0 copy").unwrap();
    assert_eq!(scanner.get_stack_size(), 2);
}

#[test]
fn copy_negative_count_fails() {
    let (r, _) = run("1 2 -1 copy");
    assert_eq!(r, Err(PsError::RangeError));
}

#[test]
fn copy_beyond_depth_fails() {
    let (r, _) = run("1 2 copy");
    assert_eq!(r, Err(PsError::RangeError));
}

#[test]
fn index_copies_from_below_the_top() {
    assert_eq!(prints("1 2 3 2 index ="), vec!["Integer(1)".to_string()]);
    assert_eq!(prints("1 2 3 0 index ="), vec!["Integer(3)".to_string()]);
}

#[test]
fn index_negative_or_deep_fails() {
    let (r, _) = run("1 -1 index");
    assert_eq!(r, Err(PsError::RangeError));
    let (r2, _) = run("1 1 index");
    assert_eq!(r2, Err(PsError::RangeError));
}

#[test]
fn roll_by_zero_and_tiny_windows_are_no_ops() {
    let mut scanner = Scanner::new();
    scanner.execute_string("1 2 3 3 0 roll 1 5 roll 0 5 roll").unwrap();
    assert_eq!(scanner.get_stack_size(), 3);
    assert!(matches!(scanner.get_stack_object(0), Object::Integer(1)));
    assert!(matches!(scanner.get_stack_object(2), Object::Integer(3)));
}

#[test]
fn roll_negative_window_fails() {
    let (r, _) = run("1 2 -2 1 roll");
    assert_eq!(r, Err(PsError::RangeError));
}

#[test]
fn roll_beyond_depth_fails() {
    let (r, _) = run("1 2 3 1 roll");
    assert_eq!(r, Err(PsError::RangeError));
}

#[test]
fn roll_wraps_large_shifts() {
    // shifting by the window size is a full turn
    let mut scanner = Scanner::new();
    scanner.execute_string("1 2 3 3 3 roll").unwrap();
    assert!(matches!(scanner.get_stack_object(0), Object::Integer(1)));
    assert!(matches!(scanner.get_stack_object(1), Object::Integer(2)));
    assert!(matches!(scanner.get_stack_object(2), Object::Integer(3)));
}

#[test]
fn clear_empties_the_stack() {
    let mut scanner = Scanner::new();
    scanner.execute_string("1 2 3 clear").unwrap();
    assert_eq!(scanner.get_stack_size(), 0);
}

#[test]
fn pop_discards_and_underflows_when_empty() {
    let mut scanner = Scanner::new();
    scanner.execute_string("1 2 pop").unwrap();
    assert_eq!(scanner.get_stack_size(), 1);
    let (r, _) = run("pop");
    assert_eq!(r, Err(PsError::UnderflowError));
}

#[test]
fn print_pops_and_underflows_when_empty() {
    let (r, _) = run("=");
    assert_eq!(r, Err(PsError::UnderflowError));
}

#[test]
fn pstack_prints_top_down_and_keeps_the_stack() {
    let mut scanner = Scanner::new();
    scanner.execute_string("1 2 pstack").unwrap();
    assert_eq!(
        scanner.take_output(),
        vec!["Integer(2) ".to_string(), "Integer(1) ".to_string()]
    );
    assert_eq!(scanner.get_stack_size(), 2);
}

#[test]
fn end_array_bundles_in_original_order() {
    assert_eq!(
        prints("[ 1 2 3 ] ="),
        vec!["[Integer(1),Integer(2),Integer(3),]".to_string()]
    );
}

#[test]
fn end_array_without_mark_fails() {
    let (r, _) = run("1 ]");
    assert_eq!(r, Err(PsError::MarkNotFound));
}

#[test]
fn clear_to_mark_without_mark_fails() {
    let (r, _) = run("1 2 cleartomark");
    assert_eq!(r, Err(PsError::MarkNotFound));
}

#[test]
fn count_to_mark_without_mark_fails() {
    let (r, _) = run("1 2 counttomark");
    assert_eq!(r, Err(PsError::MarkNotFound));
}

#[test]
fn exec_runs_a_procedure() {
    assert_eq!(prints("{ 1 2 add } exec ="), vec!["Integer(3)".to_string()]);
}

#[test]
fn exec_of_a_literal_pushes_it_back() {
    assert_eq!(prints("5 exec ="), vec!["Integer(5)".to_string()]);
}

#[test]
fn exec_on_empty_stack_underflows() {
    let (r, _) = run("exec");
    assert_eq!(r, Err(PsError::UnderflowError));
}

#[test]
fn load_pushes_the_bound_object() {
    assert_eq!(prints("/x 5 def /x load ="), vec!["Integer(5)".to_string()]);
}

#[test]
fn load_of_an_unbound_name_fails() {
    let (r, _) = run("/nosuch load");
    assert_eq!(r, Err(PsError::UndefinedName));
}

#[test]
fn load_of_a_non_name_fails() {
    let (r, _) = run("5 load");
    assert_eq!(r, Err(PsError::TypeError));
}

#[test]
fn if_runs_only_on_true() {
    assert_eq!(prints("true { 9 = } if"), vec!["Integer(9)".to_string()]);
    assert_eq!(prints("false { 9 = } if"), Vec::<String>::new());
}

#[test]
fn if_type_mismatch_fails() {
    let (r, _) = run("1 { 9 } if");
    assert_eq!(r, Err(PsError::TypeError));
}

#[test]
fn repeat_zero_times_is_a_no_op() {
    assert_eq!(prints("0 { 9 = } repeat"), Vec::<String>::new());
}

#[test]
fn repeat_negative_count_fails() {
    let (r, _) = run("-1 { 9 = } repeat");
    assert_eq!(r, Err(PsError::RangeError));
}

#[test]
fn undefined_executable_name_fails() {
    let (r, _) = run("frobnicate");
    assert_eq!(r, Err(PsError::UndefinedName));
}

#[test]
fn literal_name_prints_its_text() {
    assert_eq!(prints("/alpha ="), vec!["Name(alpha)".to_string()]);
}
