use csgps::{
    deep_clone, to_text, DictStack, Engine, ExecStack, Object, ObjectMode, OnceRunner, Operator,
    ProcBuilder, PsError, RepeatRunner, Runner, Stack,
};

#[test]
fn stack_add_pushes_the_sum() {
    let mut s = Stack::new();
    s.push(Object::Integer(20));
    s.push(Object::Integer(22));
    assert_eq!(s.add(), Ok(()));
    assert_eq!(s.len(), 1);
    assert!(matches!(s.get(0), Object::Integer(42)));
}

#[test]
fn stack_add_underflow_consumes_the_lone_operand() {
    let mut s = Stack::new();
    s.push(Object::Integer(1));
    assert_eq!(s.add(), Err(PsError::UnderflowError));
    assert_eq!(s.len(), 0);
}

#[test]
fn stack_type_error_consumes_operands() {
    let mut s = Stack::new();
    s.push(Object::Bool(true));
    s.push(Object::Integer(1));
    assert_eq!(s.add(), Err(PsError::TypeError));
    assert_eq!(s.len(), 0);
}

#[test]
fn stack_roll_rotates_window() {
    let mut s = Stack::new();
    for i in 1..=5 {
        s.push(Object::Integer(i));
    }
    s.push(Object::Integer(3));
    s.push(Object::Integer(1));
    assert_eq!(s.roll(), Ok(()));
    // bottom 1 2 stays; 3 4 5 becomes 5 3 4
    assert!(matches!(s.get(2), Object::Integer(5)));
    assert!(matches!(s.get(3), Object::Integer(3)));
    assert!(matches!(s.get(4), Object::Integer(4)));
}

#[test]
fn stack_make_array_and_make_proc_modes() {
    let mut s = Stack::new();
    s.push(Object::Mark);
    s.push(Object::Integer(1));
    s.push(Object::Integer(2));
    assert_eq!(s.make_array(), Ok(()));
    assert!(matches!(s.get(0), Object::Array(ObjectMode::Literal, v) if v.len() == 2));

    let mut p = Stack::new();
    p.push(Object::Mark);
    p.push(Object::Integer(1));
    assert_eq!(p.make_proc(), Ok(()));
    assert!(matches!(p.get(0), Object::Array(ObjectMode::Executable, v) if v.len() == 1));
}

#[test]
fn stack_pop_and_print_renders_canonically() {
    let mut s = Stack::new();
    let mut out: Vec<String> = Vec::new();
    s.push(Object::Integer(-8));
    assert_eq!(s.pop_and_print(&mut out), Ok(()));
    assert_eq!(out, vec!["Integer(-8)".to_string()]);
}

#[test]
fn stack_def_binds_in_the_dictionary() {
    let mut s = Stack::new();
    let mut d = DictStack::new();
    s.push(Object::Name(ObjectMode::Literal, "answer".to_string()));
    s.push(Object::Integer(42));
    assert_eq!(s.def(&mut d), Ok(()));
    assert!(matches!(d.get("answer"), Some(Object::Integer(42))));
}

#[test]
fn dict_lookup_prefers_the_top_layer() {
    let mut d = DictStack::new();
    assert!(matches!(
        d.get("add"),
        Some(Object::Operator(ObjectMode::Executable, Operator::Add))
    ));
    d.def("add".to_string(), Object::Integer(7));
    assert!(matches!(d.get("add"), Some(Object::Integer(7))));
    assert!(d.get("nosuch").is_none());
}

#[test]
fn dict_last_binding_wins() {
    let mut d = DictStack::new();
    d.def("k".to_string(), Object::Integer(1));
    d.def("k".to_string(), Object::Integer(2));
    assert!(matches!(d.get("k"), Some(Object::Integer(2))));
}

#[test]
fn once_runner_yields_in_order_then_stops() {
    let body = vec![Object::Integer(1), Object::Integer(2)];
    let mut r = OnceRunner::new(body);
    assert!(matches!(r.get_object(), Some(Object::Integer(1))));
    assert!(matches!(r.get_object(), Some(Object::Integer(2))));
    assert!(r.get_object().is_none());
    assert!(r.get_object().is_none());
}

#[test]
fn repeat_runner_yields_full_passes() {
    let body = vec![Object::Integer(1), Object::Integer(2)];
    let mut r = RepeatRunner::new(body, 2);
    let mut seen = Vec::new();
    while let Some(o) = r.get_object() {
        match o {
            Object::Integer(i) => seen.push(i),
            other => panic!("unexpected {:?}", other),
        }
    }
    assert_eq!(seen, vec![1, 2, 1, 2]);
}

#[test]
fn repeat_runner_zero_yields_nothing() {
    let mut r = RepeatRunner::new(vec![Object::Integer(1)], 0);
    assert!(r.get_object().is_none());
}

#[test]
fn repeat_runner_empty_body_yields_nothing() {
    let mut r = RepeatRunner::new(Vec::new(), 5);
    assert!(r.get_object().is_none());
}

#[test]
fn exec_stack_is_lifo_over_runners() {
    let mut xs = ExecStack::new();
    assert!(!xs.is_runnable());
    xs.push(Runner::Once(OnceRunner::new(vec![Object::Integer(1)])));
    xs.push(Runner::Once(OnceRunner::new(vec![Object::Integer(2)])));
    assert!(xs.is_runnable());
    assert!(matches!(xs.get_object(), Some(Object::Integer(2))));
    assert!(matches!(xs.get_object(), Some(Object::Integer(1))));
    assert!(xs.get_object().is_none());
}

#[test]
fn proc_builder_captures_nested_bodies() {
    let mut b = ProcBuilder::new();
    assert!(!b.is_open());
    b.open();
    b.push(Object::Integer(1));
    b.open();
    b.push(Object::Integer(2));
    assert!(b.close().is_none());
    b.push(Object::Integer(3));
    let done = b.close().expect("outermost close hands the array out");
    assert!(!b.is_open());
    match done {
        Object::Array(ObjectMode::Executable, items) => {
            assert_eq!(items.len(), 3);
            assert!(matches!(items[0], Object::Integer(1)));
            assert!(matches!(
                &items[1],
                Object::Array(ObjectMode::Executable, inner) if inner.len() == 1
            ));
            assert!(matches!(items[2], Object::Integer(3)));
        }
        other => panic!("expected an executable array, got {:?}", other),
    }
}

#[test]
fn engine_runs_operators_directly() {
    let mut e = Engine::new();
    e.push(Object::Integer(2));
    e.push(Object::Integer(3));
    assert_eq!(e.run_operator(Operator::Mul), Ok(()));
    assert_eq!(e.get_stack_size(), 1);
    assert!(matches!(e.get_stack_object(0), Object::Integer(6)));
}

#[test]
fn engine_process_object_pushes_literals_and_runs_names() {
    let mut e = Engine::new();
    assert_eq!(e.process_object(Object::Integer(5)), Ok(()));
    assert_eq!(
        e.process_object(Object::Name(ObjectMode::Executable, "dup".to_string())),
        Ok(()),
    );
    assert_eq!(e.get_stack_size(), 2);
}

#[test]
fn engine_drains_deferred_runners() {
    let mut e = Engine::new();
    e.push(Object::Integer(1));
    e.push(Object::Array(
        ObjectMode::Executable,
        vec![
            Object::Integer(2),
            Object::Operator(ObjectMode::Executable, Operator::Add),
        ],
    ));
    assert_eq!(e.run_operator(Operator::Exec), Ok(()));
    assert_eq!(e.process_execution_stack(), Ok(()));
    assert_eq!(e.get_stack_size(), 1);
    assert!(matches!(e.get_stack_object(0), Object::Integer(3)));
}

#[test]
fn engine_lookup_finds_system_bindings() {
    let e = Engine::new();
    assert!(e.get_object_by_name("roll").is_some());
    assert!(e.get_object_by_name("nosuch").is_none());
}

#[test]
fn deep_clone_preserves_rendering() {
    let o = Object::Array(
        ObjectMode::Literal,
        vec![
            Object::Integer(1),
            Object::Name(ObjectMode::Literal, "n".to_string()),
            Object::Array(ObjectMode::Executable, vec![Object::Bool(true)]),
        ],
    );
    let c = deep_clone(&o);
    assert_eq!(to_text(&o), to_text(&c));
}

#[test]
fn to_text_canonical_forms() {
    assert_eq!(to_text(&Object::Integer(0)), "Integer(0)");
    assert_eq!(to_text(&Object::Integer(i64::MIN)), format!("Integer({})", i64::MIN));
    assert_eq!(to_text(&Object::Bool(false)), "Bool(false)");
    assert_eq!(to_text(&Object::Mark), "Mark");
    assert_eq!(
        to_text(&Object::Operator(ObjectMode::Executable, Operator::Add)),
        "--add--"
    );
    assert_eq!(
        to_text(&Object::Array(ObjectMode::Literal, Vec::new())),
        "[]"
    );
}
