use reactive_core::{Fault, Formula, Graph, Value};

#[test]
fn a_pass_settles_each_node_after_what_it_depends_on() {
    let mut g: Graph<Formula> = Graph::new();
    let count = g.create_cell(Value::Int(1));
    // created in this order so that the oldest depends on the youngest
    let third = g.create_computation(Formula::Shifted { source: 2, offset: 1 });
    let second = g.create_computation(Formula::Shifted { source: 3, offset: 1 });
    let first = g.create_computation(Formula::Scaled { source: count, factor: 10 });
    assert_eq!(g.read(third), Ok(Value::Int(12)));
    assert_eq!(g.journal(), vec![first, second, third]);
    g.write(count, Value::Int(2));
    let pass = g.flush().unwrap();
    assert_eq!(pass.order, vec![first, second, third]);
    assert_eq!(g.read(third), Ok(Value::Int(22)));
}

#[test]
fn a_diamond_is_settled_once_per_node() {
    let mut g: Graph<Formula> = Graph::new();
    let count = g.create_cell(Value::Int(3));
    let left = g.create_computation(Formula::Scaled { source: count, factor: 2 });
    let right = g.create_computation(Formula::Exceeds { source: count, bound: 5 });
    let join = g.create_computation(Formula::Gated { switch: right, source: left });
    assert_eq!(g.read(join), Ok(Value::Nothing));
    g.write(count, Value::Int(6));
    let pass = g.flush().unwrap();
    // while the switch was off nobody had read `left`: it settles inside `join`
    assert_eq!(pass.order, vec![right, left, join]);
    assert_eq!(g.read(join), Ok(Value::Int(12)));
    g.write(count, Value::Int(7));
    assert_eq!(g.flush().unwrap().order, vec![left, right, join]);
    assert_eq!(g.read(join), Ok(Value::Int(14)));
    assert_eq!(g.dependencies(join), vec![right, left]);
}

#[test]
fn a_pass_leaves_alone_what_was_never_read() {
    let mut g: Graph<Formula> = Graph::new();
    let count = g.create_cell(Value::Int(3));
    let double = g.create_computation(Formula::Scaled { source: count, factor: 2 });
    g.write(count, Value::Int(4));
    assert_eq!(g.flush().unwrap().order, Vec::<usize>::new());
    assert!(g.is_dirty(double));
    assert_eq!(g.read(double), Ok(Value::Int(8)));
}

#[test]
fn callbacks_fire_once_per_pass_for_what_changed() {
    let mut g: Graph<Formula> = Graph::new();
    let count = g.create_cell(Value::Int(0));
    let name = g.create_cell(Value::Text("a".to_string()));
    let double = g.create_computation(Formula::Scaled { source: count, factor: 2 });
    assert_eq!(g.read(double), Ok(Value::Int(0)));
    let on_count = g.on_change(count);
    let on_name = g.on_change(name);
    let on_double = g.on_change(double);
    let again = g.on_change(double);
    assert_eq!((on_count, on_name, on_double, again), (0, 1, 2, 3));

    g.write(count, Value::Int(1));
    g.write(count, Value::Int(2));
    g.write(count, Value::Int(3));
    assert_eq!(g.flush().unwrap().callbacks, vec![on_count, on_double, again]);
    assert_eq!(g.flush().unwrap().callbacks, Vec::<usize>::new());

    g.write(name, Value::Text("b".to_string()));
    assert_eq!(g.flush().unwrap().callbacks, vec![on_name]);
}

#[test]
fn callbacks_see_settled_values() {
    let mut g: Graph<Formula> = Graph::new();
    let count = g.create_cell(Value::Int(0));
    let double = g.create_computation(Formula::Scaled { source: count, factor: 2 });
    assert_eq!(g.read(double), Ok(Value::Int(0)));
    let watch = g.on_change(double);
    g.write(count, Value::Int(21));
    let pass = g.flush().unwrap();
    assert_eq!(pass.callbacks, vec![watch]);
    assert!(!g.is_dirty(double));
    assert_eq!(g.read(double), Ok(Value::Int(42)));
    assert_eq!(g.journal(), Vec::<usize>::new());
}

#[test]
fn a_cycle_ends_the_pass() {
    let mut g: Graph<Formula> = Graph::new();
    let flag = g.create_cell(Value::Flag(false));
    // 1 reads 2 while the flag is on, 2 reads 1 always
    let a = g.create_computation(Formula::Gated { switch: flag, source: 2 });
    let b = g.create_computation(Formula::Shifted { source: a, offset: 1 });
    let watch = g.on_change(flag);
    assert_eq!(g.read(b), Err(Fault::Raised("not an integer".to_string())));
    g.write(flag, Value::Flag(true));
    assert_eq!(g.flush(), Err(Fault::Cyclic(a)));
    assert!(g.is_dirty(a) && g.is_dirty(b));
    // the marks stay, so the next pass tries again
    assert_eq!(g.flush(), Err(Fault::Cyclic(a)));
    g.write(flag, Value::Flag(false));
    let pass = g.flush().unwrap();
    assert_eq!(pass.order, vec![a, b]);
    assert_eq!(pass.callbacks, vec![watch]);
}

#[test]
fn a_read_between_writes_sees_the_writes_made_so_far() {
    let mut g: Graph<Formula> = Graph::new();
    let count = g.create_cell(Value::Int(1));
    let double = g.create_computation(Formula::Scaled { source: count, factor: 2 });
    assert_eq!(g.read(double), Ok(Value::Int(2)));
    g.write(count, Value::Int(5));
    assert!(g.is_dirty(double));
    assert_eq!(g.read(double), Ok(Value::Int(10)));
    // already up to date: the pass has nothing to evaluate
    assert_eq!(g.flush().unwrap().order, Vec::<usize>::new());
}
