use reactive_core::{Aggregate, BoundaryKind, Failure, Fault, Formula, Graph, Value};

fn text(s: &str) -> Value {
    Value::Text(s.to_string())
}

/// Two resources read under one boundary of the given kind.
fn two_resources(kind: BoundaryKind) -> (Graph<Formula>, usize, usize, usize) {
    let mut g: Graph<Formula> = Graph::new();
    let name = g.create_cell(text("a"));
    let x = g.create_resource(name);
    let y = g.create_resource(name);
    let b = g.open_boundary(kind);
    assert_eq!(g.read(x), Ok(Value::Nothing));
    assert_eq!(g.read(y), Ok(Value::Nothing));
    assert_eq!(g.close_boundary(), Some(b));
    (g, x, y, b)
}

#[test]
fn pending_wins_whatever_the_other_node_is() {
    let (mut g, x, y, b) = two_resources(BoundaryKind::Suspense);
    assert_eq!(g.boundary_count(), 1);
    assert_eq!(g.observed(b), vec![x, y]);
    assert_eq!(g.boundary_status(b), Aggregate::Pending);
    assert!(g.shows_fallback(b));
    assert!(g.complete(x, 1, Ok(text("A"))));
    assert_eq!(g.boundary_status(b), Aggregate::Pending);
    assert!(g.complete(x, 1, Ok(text("A"))) == false);
    let (mut g, x, _y, b) = two_resources(BoundaryKind::Suspense);
    assert!(g.complete(x, 1, Err("no".to_string())));
    assert_eq!(g.boundary_status(b), Aggregate::Pending);
    assert!(g.shows_fallback(b));
}

#[test]
fn one_failure_makes_the_aggregate_errored_with_that_fault() {
    let (mut g, x, y, b) = two_resources(BoundaryKind::ErrorBoundary);
    assert!(!g.shows_fallback(b));
    assert!(g.complete(x, 1, Ok(text("A"))));
    assert!(g.complete(y, 1, Err("no".to_string())));
    assert_eq!(
        g.boundary_status(b),
        Aggregate::Errored(vec![Failure { node: y, fault: Fault::Rejected("no".to_string()) }])
    );
    assert!(g.shows_fallback(b));
}

#[test]
fn two_failures_are_both_collected_under_their_nodes() {
    let (mut g, x, y, b) = two_resources(BoundaryKind::ErrorBoundary);
    assert!(g.complete(y, 1, Err("second".to_string())));
    assert!(g.complete(x, 1, Err("first".to_string())));
    assert_eq!(
        g.boundary_status(b),
        Aggregate::Errored(vec![
            Failure { node: x, fault: Fault::Rejected("first".to_string()) },
            Failure { node: y, fault: Fault::Rejected("second".to_string()) },
        ])
    );
}

#[test]
fn both_ready_is_ready() {
    let (mut g, x, y, b) = two_resources(BoundaryKind::Suspense);
    assert!(g.complete(x, 1, Ok(text("A"))));
    assert!(g.complete(y, 1, Ok(text("A"))));
    assert_eq!(g.boundary_status(b), Aggregate::Ready);
    assert!(!g.shows_fallback(b));
}

#[test]
fn an_error_boundary_falls_back_until_a_good_value_comes() {
    let mut g: Graph<Formula> = Graph::new();
    let typed = g.create_cell(text("x"));
    let number = g.create_computation(Formula::Shifted { source: typed, offset: 0 });
    let b = g.open_boundary(BoundaryKind::ErrorBoundary);
    assert!(g.read(number).is_err());
    assert_eq!(g.close_boundary(), Some(b));
    assert!(g.shows_fallback(b));
    assert_eq!(
        g.boundary_status(b),
        Aggregate::Errored(vec![Failure {
            node: number,
            fault: Fault::Raised("not an integer".to_string())
        }])
    );
    g.write(typed, Value::Int(12));
    let pass = g.flush().unwrap();
    assert_eq!(pass.boundaries, vec![b]);
    assert!(!g.shows_fallback(b));
    assert_eq!(g.boundary_status(b), Aggregate::Ready);
}

#[test]
fn a_pass_names_the_boundaries_whose_nodes_were_touched() {
    let mut g: Graph<Formula> = Graph::new();
    let a = g.create_cell(Value::Int(1));
    let c = g.create_cell(Value::Int(2));
    let first = g.open_boundary(BoundaryKind::Suspense);
    g.read(a).unwrap();
    g.close_boundary();
    let second = g.open_boundary(BoundaryKind::Suspense);
    g.read(c).unwrap();
    g.close_boundary();
    g.write(c, Value::Int(3));
    assert_eq!(g.flush().unwrap().boundaries, vec![second]);
    g.write(a, Value::Int(3));
    g.write(c, Value::Int(4));
    assert_eq!(g.flush().unwrap().boundaries, vec![first, second]);
    assert_eq!(g.flush().unwrap().boundaries, Vec::<usize>::new());
}

#[test]
fn an_inner_scope_keeps_its_reads_to_itself() {
    let mut g: Graph<Formula> = Graph::new();
    let a = g.create_cell(Value::Int(1));
    let c = g.create_cell(Value::Int(2));
    let double = g.create_computation(Formula::Scaled { source: c, factor: 2 });
    let outer = g.open_boundary(BoundaryKind::Suspense);
    g.read(a).unwrap();
    let inner = g.open_boundary(BoundaryKind::ErrorBoundary);
    g.read(double).unwrap();
    g.read(double).unwrap();
    assert_eq!(g.close_boundary(), Some(inner));
    g.read(a).unwrap();
    assert_eq!(g.close_boundary(), Some(outer));
    assert_eq!(g.close_boundary(), None);
    assert_eq!(g.observed(outer), vec![a]);
    // the evaluation of `double` read `c` in a frame of its own
    assert_eq!(g.observed(inner), vec![double]);
    assert_eq!(g.dependencies(double), vec![c]);
}

#[test]
fn a_boundary_that_observes_nothing_is_ready() {
    let mut g: Graph<Formula> = Graph::new();
    let b = g.open_boundary(BoundaryKind::Suspense);
    assert_eq!(g.close_boundary(), Some(b));
    assert_eq!(g.boundary_status(b), Aggregate::Ready);
    assert!(!g.shows_fallback(b));
}
