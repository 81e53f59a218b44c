use reactive_core::{Formula, Graph, Phase, Status, Value};

#[test]
fn a_cell_holds_its_initial_value() {
    let mut g: Graph<Formula> = Graph::new();
    let count = g.create_cell(Value::Int(0));
    assert_eq!(count, 0);
    assert_eq!(g.len(), 1);
    assert!(g.is_cell(count));
    assert_eq!(g.read(count), Ok(Value::Int(0)));
    assert_eq!(g.status(count), Status::Ready(Value::Int(0)));
    assert_eq!(g.phase_of(count), Phase::Clean);
}

#[test]
fn a_write_replaces_the_value_at_once() {
    let mut g: Graph<Formula> = Graph::new();
    let name = g.create_cell(Value::Text("Controlled".to_string()));
    g.write(name, Value::Text("typed".to_string()));
    assert_eq!(g.read(name), Ok(Value::Text("typed".to_string())));
    g.write(name, Value::Flag(true));
    assert_eq!(g.read(name), Ok(Value::Flag(true)));
}

#[test]
fn a_read_outside_any_scope_subscribes_nobody() {
    let mut g: Graph<Formula> = Graph::new();
    let count = g.create_cell(Value::Int(1));
    assert_eq!(g.read(count), Ok(Value::Int(1)));
    g.write(count, Value::Int(2));
    let pass = g.flush().unwrap();
    assert_eq!(pass.order, Vec::<usize>::new());
    assert_eq!(pass.callbacks, Vec::<usize>::new());
    assert_eq!(pass.boundaries, Vec::<usize>::new());
}

#[test]
fn ids_are_given_in_creation_order() {
    let mut g: Graph<Formula> = Graph::new();
    let a = g.create_cell(Value::Nothing);
    let b = g.create_computation(Formula::Negated { source: a });
    let c = g.create_resource(a);
    assert_eq!((a, b, c), (0, 1, 2));
    assert!(g.is_cell(a) && !g.is_cell(b) && !g.is_cell(c) && !g.is_cell(3));
    assert!(g.is_resource(c) && !g.is_resource(a) && !g.is_resource(b) && !g.is_resource(3));
}

#[test]
fn values_compare_by_content() {
    assert!(Value::Text("a".to_string()).same(&Value::Text("a".to_string())));
    assert!(!Value::Text("a".to_string()).same(&Value::Text("b".to_string())));
    assert!(!Value::Int(1).same(&Value::Flag(true)));
    assert!(Value::Nothing.same(&Value::Nothing));
    assert!(Value::Int(-4).same(&Value::Int(-4)));
    assert_eq!(Value::Text("x".to_string()).clone(), Value::Text("x".to_string()));
}

#[test]
fn teardown_releases_everything() {
    let mut g: Graph<Formula> = Graph::new();
    let a = g.create_cell(Value::Int(1));
    let r = g.create_resource(a);
    g.on_change(a);
    assert_eq!(g.read(r), Ok(Value::Nothing));
    g.teardown();
    assert_eq!(g.len(), 0);
    assert!(!g.is_cell(a) && !g.is_resource(r));
    assert!(g.take_launches().is_empty());
    assert_eq!(g.journal(), Vec::<usize>::new());
    assert_eq!(g.flush().unwrap().callbacks, Vec::<usize>::new());
    assert_eq!(g.create_cell(Value::Nothing), 0);
}
