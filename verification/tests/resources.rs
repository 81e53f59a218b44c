use reactive_core::{important_api_call, ErrorKind, Fault, Formula, Graph, Launch, Status, Value};

fn text(s: &str) -> Value {
    Value::Text(s.to_string())
}

#[test]
fn the_first_read_starts_the_first_operation() {
    let mut g: Graph<Formula> = Graph::new();
    let name = g.create_cell(text("a"));
    let data = g.create_resource(name);
    assert_eq!(g.status(data), Status::Idle);
    assert_eq!(g.generation(data), 0);
    assert_eq!(g.take_launches(), Vec::<Launch>::new());
    assert_eq!(g.read(data), Ok(Value::Nothing));
    assert_eq!(g.status(data), Status::Pending);
    assert_eq!(g.generation(data), 1);
    assert_eq!(g.take_launches(), vec![Launch { resource: data, generation: 1, input: text("a") }]);
    assert_eq!(g.take_launches(), Vec::<Launch>::new());
    // a second read starts nothing
    assert_eq!(g.read(data), Ok(Value::Nothing));
    assert_eq!(g.take_launches(), Vec::<Launch>::new());
}

#[test]
fn a_stale_result_never_appears() {
    let mut g: Graph<Formula> = Graph::new();
    let name = g.create_cell(text("a"));
    let data = g.create_resource(name);
    assert_eq!(g.read(data), Ok(Value::Nothing));
    g.write(name, text("ab"));
    assert_eq!(g.flush().unwrap().order, vec![data]);
    let launches = g.take_launches();
    assert_eq!(
        launches,
        vec![
            Launch { resource: data, generation: 1, input: text("a") },
            Launch { resource: data, generation: 2, input: text("ab") },
        ]
    );
    let first = important_api_call(&launches[0].input);
    let second = important_api_call(&launches[1].input);
    assert_eq!(first, Ok(text("A")));
    assert_eq!(second, Ok(text("AB")));

    // the second operation ends first
    assert!(g.complete(data, 2, second));
    assert_eq!(g.status(data), Status::Ready(text("AB")));
    // the first one ends late and is dropped
    assert!(!g.complete(data, 1, first));
    assert_eq!(g.status(data), Status::Ready(text("AB")));
    assert_eq!(g.read(data), Ok(text("AB")));
    assert_eq!(g.value(data), Some(text("AB")));
}

#[test]
fn a_stale_result_that_comes_first_is_dropped_too() {
    let mut g: Graph<Formula> = Graph::new();
    let name = g.create_cell(text("a"));
    let data = g.create_resource(name);
    assert_eq!(g.read(data), Ok(Value::Nothing));
    g.write(name, text("ab"));
    g.flush().unwrap();
    assert!(!g.complete(data, 1, Ok(text("A"))));
    assert_eq!(g.status(data), Status::Pending);
    assert_eq!(g.value(data), None);
    assert!(g.complete(data, 2, Ok(text("AB"))));
    assert_eq!(g.status(data), Status::Ready(text("AB")));
    // a result for a generation that was never started, or a second result
    assert!(!g.complete(data, 3, Ok(text("X"))));
    assert!(!g.complete(data, 2, Ok(text("Y"))));
    assert_eq!(g.status(data), Status::Ready(text("AB")));
}

#[test]
fn a_rejected_operation_makes_the_resource_errored() {
    let mut g: Graph<Formula> = Graph::new();
    let name = g.create_cell(text("a"));
    let data = g.create_resource(name);
    assert_eq!(g.read(data), Ok(Value::Nothing));
    assert!(g.complete(data, 1, Err("timeout".to_string())));
    let fault = Fault::Rejected("timeout".to_string());
    assert_eq!(fault.kind(), ErrorKind::AsyncOperation);
    assert_eq!(g.status(data), Status::Errored(fault.clone()));
    assert_eq!(g.read(data), Err(fault));
}

#[test]
fn a_pending_resource_shows_its_last_value() {
    let mut g: Graph<Formula> = Graph::new();
    let name = g.create_cell(text("a"));
    let data = g.create_resource(name);
    assert_eq!(g.read(data), Ok(Value::Nothing));
    assert!(g.complete(data, 1, Ok(text("A"))));
    g.write(name, text("b"));
    g.flush().unwrap();
    assert_eq!(g.status(data), Status::Pending);
    assert_eq!(g.generation(data), 2);
    assert_eq!(g.value(data), Some(text("A")));
    assert_eq!(g.read(data), Ok(text("A")));
}

#[test]
fn the_same_trigger_value_starts_nothing_new() {
    let mut g: Graph<Formula> = Graph::new();
    let name = g.create_cell(text("a"));
    let data = g.create_resource(name);
    assert_eq!(g.read(data), Ok(Value::Nothing));
    assert!(g.complete(data, 1, Ok(text("A"))));
    g.take_launches();
    g.write(name, text("a"));
    assert_eq!(g.flush().unwrap().order, vec![data]);
    assert_eq!(g.take_launches(), Vec::<Launch>::new());
    assert_eq!(g.generation(data), 1);
    assert_eq!(g.status(data), Status::Ready(text("A")));
}

#[test]
fn what_depends_on_a_resource_follows_it() {
    let mut g: Graph<Formula> = Graph::new();
    let count = g.create_cell(Value::Int(2));
    let data = g.create_resource(count);
    let above = g.create_computation(Formula::Exceeds { source: data, bound: 3 });
    let watch = g.on_change(above);
    assert_eq!(g.read(above), Err(Fault::Raised("not an integer".to_string())));
    assert_eq!(g.journal(), vec![data, above]);
    assert!(g.complete(data, 1, Ok(Value::Int(4))));
    assert!(g.is_dirty(above));
    let pass = g.flush().unwrap();
    assert_eq!(pass.order, vec![above]);
    assert_eq!(pass.callbacks, vec![watch]);
    assert_eq!(g.read(above), Ok(Value::Flag(true)));
}

#[test]
fn a_failed_trigger_fails_the_resource() {
    let mut g: Graph<Formula> = Graph::new();
    let count = g.create_cell(Value::Flag(true));
    let double = g.create_computation(Formula::Scaled { source: count, factor: 2 });
    let data = g.create_resource(double);
    let fault = Fault::Raised("not an integer".to_string());
    assert_eq!(g.read(data), Err(fault.clone()));
    assert_eq!(g.status(data), Status::Errored(fault));
    assert_eq!(g.generation(data), 0);
    assert_eq!(g.take_launches(), Vec::<Launch>::new());
    g.write(count, Value::Int(4));
    assert_eq!(g.flush().unwrap().order, vec![double, data]);
    assert_eq!(g.status(data), Status::Pending);
    assert_eq!(g.take_launches(), vec![Launch { resource: data, generation: 1, input: Value::Int(8) }]);
}

#[test]
fn a_result_for_an_idle_resource_is_dropped() {
    let mut g: Graph<Formula> = Graph::new();
    let name = g.create_cell(text("a"));
    let data = g.create_resource(name);
    assert!(!g.complete(data, 0, Ok(text("A"))));
    assert_eq!(g.status(data), Status::Idle);
}

#[test]
fn a_pass_starts_one_operation_for_each_resource_that_must_restart() {
    let mut g: Graph<Formula> = Graph::new();
    let name = g.create_cell(text("a"));
    let other = g.create_cell(text("x"));
    let first = g.create_resource(name);
    let second = g.create_resource(name);
    let third = g.create_resource(other);
    for r in [first, second, third] {
        assert_eq!(g.read(r), Ok(Value::Nothing));
    }
    assert_eq!(g.take_launches().len(), 3);
    g.write(name, text("b"));
    g.write(name, text("c"));
    assert_eq!(g.flush().unwrap().order, vec![first, second]);
    assert_eq!(
        g.take_launches(),
        vec![
            Launch { resource: first, generation: 2, input: text("c") },
            Launch { resource: second, generation: 2, input: text("c") },
        ]
    );
    assert_eq!(g.generation(third), 1);
}
