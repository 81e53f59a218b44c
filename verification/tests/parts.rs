use reactive_core::{
    counter, important_api_call, Derivation, ErrorKind, Fault, Formula, Owner, Press, Step, Tracker,
    Value,
};

#[test]
fn the_tracker_records_reads_in_the_frame_on_top() {
    let mut t = Tracker::new();
    assert_eq!(t.depth(), 0);
    assert_eq!(t.current(), None);
    assert!(!t.record(3));
    assert!(t.pop().is_none());

    t.push(Owner::Node(7));
    assert!(t.record(1));
    assert!(t.record(2));
    assert!(!t.record(1));
    t.push(Owner::Node(8));
    assert_eq!(t.current(), Some(Owner::Node(8)));
    assert!(t.record(1));
    assert!(t.record(5));
    assert_eq!(t.depth(), 2);

    let inner = t.pop().unwrap();
    assert_eq!(inner.owner, Owner::Node(8));
    assert_eq!(inner.reads, vec![1, 5]);
    assert!(t.record(5));
    let outer = t.pop().unwrap();
    assert_eq!(outer.owner, Owner::Node(7));
    assert_eq!(outer.reads, vec![1, 2, 5]);
    assert_eq!(t.depth(), 0);
}

#[test]
fn formulas_ask_for_their_source_first() {
    assert_eq!(Formula::Scaled { source: 4, factor: 2 }.step(&vec![]), Step::Read(4));
    assert_eq!(Formula::Gated { switch: 1, source: 2 }.step(&vec![]), Step::Read(1));
    assert_eq!(Formula::Negated { source: 9 }.step(&vec![]), Step::Read(9));
}

#[test]
fn formulas_compute_what_they_say() {
    let int = |i: i64| vec![Value::Int(i)];
    assert_eq!(Formula::Scaled { source: 0, factor: 2 }.step(&int(21)), Step::Done(Value::Int(42)));
    assert_eq!(Formula::Shifted { source: 0, offset: 100 }.step(&int(3)), Step::Done(Value::Int(103)));
    assert_eq!(Formula::Remainder { source: 0, modulus: 3 }.step(&int(7)), Step::Done(Value::Int(1)));
    assert_eq!(Formula::Remainder { source: 0, modulus: 2 }.step(&int(-7)), Step::Done(Value::Int(-1)));
    assert_eq!(Formula::Remainder { source: 0, modulus: -2 }.step(&int(7)), Step::Done(Value::Int(1)));
    assert_eq!(Formula::Remainder { source: 0, modulus: 2 }.step(&int(0)), Step::Done(Value::Int(0)));
    assert_eq!(Formula::Equals { source: 0, expected: 1 }.step(&int(1)), Step::Done(Value::Flag(true)));
    assert_eq!(Formula::Equals { source: 0, expected: 1 }.step(&int(-1)), Step::Done(Value::Flag(false)));
    assert_eq!(Formula::Exceeds { source: 0, bound: 5 }.step(&int(5)), Step::Done(Value::Flag(false)));
    assert_eq!(Formula::Exceeds { source: 0, bound: 5 }.step(&int(6)), Step::Done(Value::Flag(true)));
    assert_eq!(
        Formula::Negated { source: 0 }.step(&vec![Value::Flag(true)]),
        Step::Done(Value::Flag(false))
    );
}

#[test]
fn formulas_fail_on_what_they_cannot_compute() {
    let fail = |m: &str| Step::Fail(m.to_string());
    let int = |i: i64| vec![Value::Int(i)];
    assert_eq!(Formula::Scaled { source: 0, factor: 2 }.step(&int(i64::MAX)), fail("arithmetic overflow"));
    assert_eq!(Formula::Scaled { source: 0, factor: -1 }.step(&int(i64::MIN)), fail("arithmetic overflow"));
    assert_eq!(Formula::Shifted { source: 0, offset: 1 }.step(&int(i64::MAX)), fail("arithmetic overflow"));
    assert_eq!(Formula::Shifted { source: 0, offset: -1 }.step(&int(i64::MIN)), fail("arithmetic overflow"));
    assert_eq!(Formula::Remainder { source: 0, modulus: 0 }.step(&int(1)), fail("division by zero"));
    assert_eq!(Formula::Remainder { source: 0, modulus: -1 }.step(&int(i64::MIN)), fail("arithmetic overflow"));
    assert_eq!(Formula::Scaled { source: 0, factor: 2 }.step(&vec![Value::Nothing]), fail("not an integer"));
    assert_eq!(Formula::Negated { source: 0 }.step(&int(1)), fail("not a flag"));
    assert_eq!(Formula::Gated { switch: 0, source: 1 }.step(&int(1)), fail("not a flag"));
}

#[test]
fn a_gated_formula_reads_its_source_only_when_on() {
    let gated = Formula::Gated { switch: 0, source: 1 };
    assert_eq!(gated.step(&vec![Value::Flag(false)]), Step::Done(Value::Nothing));
    assert_eq!(gated.step(&vec![Value::Flag(true)]), Step::Read(1));
    assert_eq!(
        gated.step(&vec![Value::Flag(true), Value::Text("x".to_string())]),
        Step::Done(Value::Text("x".to_string()))
    );
}

#[test]
fn faults_fall_into_three_kinds() {
    assert_eq!(Fault::Raised("x".to_string()).kind(), ErrorKind::Evaluation);
    assert_eq!(Fault::UnknownNode(1).kind(), ErrorKind::Evaluation);
    assert_eq!(Fault::RepeatedRead(1).kind(), ErrorKind::Evaluation);
    assert_eq!(Fault::Rejected("x".to_string()).kind(), ErrorKind::AsyncOperation);
    assert_eq!(Fault::Exhausted.kind(), ErrorKind::AsyncOperation);
    assert_eq!(Fault::Cyclic(1).kind(), ErrorKind::CyclicDependency);
}

#[test]
fn the_counter_moves_by_its_step() {
    let mut c = counter(0, 20);
    assert_eq!((c.value(), c.step()), (0, 20));
    c.press(Press::Plus);
    c.press(Press::Plus);
    assert_eq!(c.value(), 40);
    c.press(Press::Minus);
    assert_eq!(c.value(), 20);
    c.press(Press::Minus);
    c.press(Press::Minus);
    assert_eq!(c.value(), -20);
    c.press(Press::Clear);
    assert_eq!(c.value(), 0);
    assert_eq!(c.step(), 20);
}

#[test]
fn the_counter_knows_its_limits() {
    let c = counter(i32::MAX - 5, 10);
    assert!(!c.allows(Press::Plus));
    assert!(c.allows(Press::Minus));
    assert!(c.allows(Press::Clear));
    let c = counter(i32::MIN, 1);
    assert!(!c.allows(Press::Minus));
    assert!(c.allows(Press::Plus));
    let c = counter(i32::MIN + 3, -4);
    assert!(!c.allows(Press::Plus));
    assert!(c.allows(Press::Minus));
}

#[test]
fn the_api_call_shouts_the_name() {
    let text = |s: &str| Value::Text(s.to_string());
    assert_eq!(important_api_call(&text("a")), Ok(text("A")));
    assert_eq!(important_api_call(&text("ab")), Ok(text("AB")));
    assert_eq!(important_api_call(&text("Controlled")), Ok(text("CONTROLLED")));
    assert_eq!(important_api_call(&text("az AZ 09 {`")), Ok(text("AZ AZ 09 {`")));
    assert_eq!(important_api_call(&text("grüße")), Ok(text("GRüßE")));
    assert_eq!(important_api_call(&text("")), Ok(text("")));
    assert_eq!(important_api_call(&Value::Int(3)), Err("not a text".to_string()));
}

#[test]
fn formulas_know_whether_their_nodes_are_older() {
    assert!(Formula::Scaled { source: 2, factor: 1 }.is_below(3));
    assert!(!Formula::Scaled { source: 3, factor: 1 }.is_below(3));
    assert!(Formula::Gated { switch: 0, source: 1 }.is_below(2));
    assert!(!Formula::Gated { switch: 0, source: 2 }.is_below(2));
    assert!(!Formula::Gated { switch: 2, source: 0 }.is_below(2));
    assert!(!Formula::Negated { source: 0 }.is_below(0));
}
