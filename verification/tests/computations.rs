use reactive_core::{Derivation, Fault, Formula, Graph, Phase, Status, Step, Value};
use std::cell::Cell;
use std::rc::Rc;

/// A derivation that counts how often it is run.
struct Counted {
    inner: Formula,
    runs: Rc<Cell<u32>>,
}

impl Derivation for Counted {
    fn step(&self, seen: &Vec<Value>) -> Step {
        if seen.is_empty() {
            self.runs.set(self.runs.get() + 1);
        }
        self.inner.step(seen)
    }
}

/// The sum of the first `cells` nodes.
struct Sum {
    cells: usize,
    runs: Rc<Cell<u32>>,
}

impl Derivation for Sum {
    fn step(&self, seen: &Vec<Value>) -> Step {
        if seen.is_empty() {
            self.runs.set(self.runs.get() + 1);
        }
        if seen.len() < self.cells {
            return Step::Read(seen.len());
        }
        let mut total: i64 = 0;
        for v in seen {
            match v {
                Value::Int(i) => total += i,
                _ => return Step::Fail("not an integer".to_string()),
            }
        }
        Step::Done(Value::Int(total))
    }
}

/// Asks for node 0 again and again.
struct Stubborn;

impl Derivation for Stubborn {
    fn step(&self, _seen: &Vec<Value>) -> Step {
        Step::Read(0)
    }
}

fn counted(inner: Formula) -> (Counted, Rc<Cell<u32>>) {
    let runs = Rc::new(Cell::new(0));
    (Counted { inner, runs: runs.clone() }, runs)
}

#[test]
fn double_is_six_after_count_is_three_and_ran_once() {
    let mut g: Graph<Counted> = Graph::new();
    let count = g.create_cell(Value::Int(0));
    let (d, runs) = counted(Formula::Scaled { source: count, factor: 2 });
    let double = g.create_computation(d);
    assert_eq!(runs.get(), 0);
    g.write(count, Value::Int(3));
    assert_eq!(g.flush().unwrap().order, Vec::<usize>::new());
    assert_eq!(g.read(double), Ok(Value::Int(6)));
    assert_eq!(runs.get(), 1);
}

#[test]
fn a_computation_is_not_run_when_created() {
    let mut g: Graph<Counted> = Graph::new();
    let count = g.create_cell(Value::Int(5));
    let (d, runs) = counted(Formula::Shifted { source: count, offset: 100 });
    let left = g.create_computation(d);
    assert_eq!(runs.get(), 0);
    assert_eq!(g.status(left), Status::Idle);
    assert_eq!(g.phase_of(left), Phase::Dirty);
    assert_eq!(g.read(left), Ok(Value::Int(105)));
    assert_eq!(runs.get(), 1);
    assert_eq!(g.phase_of(left), Phase::Clean);
    assert_eq!(g.dependencies(left), vec![count]);
}

#[test]
fn a_clean_computation_is_served_from_its_cache() {
    let mut g: Graph<Counted> = Graph::new();
    let count = g.create_cell(Value::Int(4));
    let (d, runs) = counted(Formula::Scaled { source: count, factor: 2 });
    let double = g.create_computation(d);
    assert_eq!(g.read(double), Ok(Value::Int(8)));
    assert_eq!(g.journal(), vec![double]);
    assert_eq!(g.read(double), Ok(Value::Int(8)));
    assert_eq!(g.read(double), Ok(Value::Int(8)));
    assert_eq!(g.journal(), Vec::<usize>::new());
    assert_eq!(runs.get(), 1);
}

#[test]
fn a_batch_of_writes_is_seen_whole() {
    let mut g: Graph<Sum> = Graph::new();
    for i in 0..4 {
        g.create_cell(Value::Int(i));
    }
    let runs = Rc::new(Cell::new(0));
    let sum = g.create_computation(Sum { cells: 4, runs: runs.clone() });
    assert_eq!(g.read(sum), Ok(Value::Int(6)));
    for i in 0..4 {
        g.write(i, Value::Int(10 * (i as i64 + 1)));
    }
    let pass = g.flush().unwrap();
    assert_eq!(pass.order, vec![sum]);
    assert_eq!(g.read(sum), Ok(Value::Int(100)));
    assert_eq!(runs.get(), 2);
    assert_eq!(g.dependencies(sum), vec![0, 1, 2, 3]);
}

#[test]
fn a_derivation_runs_once_per_pass_in_which_a_dependency_changed() {
    let mut g: Graph<Counted> = Graph::new();
    let count = g.create_cell(Value::Int(1));
    let other = g.create_cell(Value::Int(1));
    let (d, runs) = counted(Formula::Scaled { source: count, factor: 2 });
    let double = g.create_computation(d);
    assert_eq!(g.read(double), Ok(Value::Int(2)));
    assert_eq!(runs.get(), 1);

    g.write(count, Value::Int(2));
    g.write(count, Value::Int(3));
    g.write(count, Value::Int(4));
    assert_eq!(g.flush().unwrap().order, vec![double]);
    assert_eq!(runs.get(), 2);
    assert_eq!(g.read(double), Ok(Value::Int(8)));
    assert_eq!(runs.get(), 2);

    g.write(other, Value::Int(9));
    assert_eq!(g.flush().unwrap().order, Vec::<usize>::new());
    assert_eq!(runs.get(), 2);

    assert_eq!(g.flush().unwrap().order, Vec::<usize>::new());
    assert_eq!(runs.get(), 2);
}

#[test]
fn a_gated_node_tracks_its_source_only_while_the_switch_is_on() {
    let mut g: Graph<Counted> = Graph::new();
    let a = g.create_cell(Value::Flag(false));
    let b = g.create_cell(Value::Int(7));
    let (d, runs) = counted(Formula::Gated { switch: a, source: b });
    let gated = g.create_computation(d);

    assert_eq!(g.read(gated), Ok(Value::Nothing));
    assert_eq!(g.dependencies(gated), vec![a]);
    assert_eq!(runs.get(), 1);

    g.write(b, Value::Int(8));
    assert!(!g.is_dirty(gated));
    assert_eq!(g.flush().unwrap().order, Vec::<usize>::new());
    assert_eq!(runs.get(), 1);

    g.write(a, Value::Flag(true));
    assert!(g.is_dirty(gated));
    assert_eq!(g.flush().unwrap().order, vec![gated]);
    assert_eq!(g.read(gated), Ok(Value::Int(8)));
    assert_eq!(g.dependencies(gated), vec![a, b]);
    assert_eq!(runs.get(), 2);

    g.write(b, Value::Int(9));
    assert_eq!(g.flush().unwrap().order, vec![gated]);
    assert_eq!(g.read(gated), Ok(Value::Int(9)));
    assert_eq!(runs.get(), 3);

    g.write(a, Value::Flag(false));
    assert_eq!(g.flush().unwrap().order, vec![gated]);
    assert_eq!(g.dependencies(gated), vec![a]);
    g.write(b, Value::Int(10));
    assert_eq!(g.flush().unwrap().order, Vec::<usize>::new());
    assert_eq!(runs.get(), 4);
}

#[test]
fn a_derivation_that_raises_makes_its_node_errored() {
    let mut g: Graph<Formula> = Graph::new();
    let count = g.create_cell(Value::Int(i64::MAX));
    let double = g.create_computation(Formula::Scaled { source: count, factor: 2 });
    let fault = Fault::Raised("arithmetic overflow".to_string());
    assert_eq!(g.read(double), Err(fault.clone()));
    assert_eq!(g.status(double), Status::Errored(fault));
    assert_eq!(g.phase_of(double), Phase::Clean);
    g.write(count, Value::Int(2));
    assert_eq!(g.read(double), Ok(Value::Int(4)));
}

#[test]
fn a_fault_passes_on_to_whoever_reads_the_node() {
    let mut g: Graph<Formula> = Graph::new();
    let text = g.create_cell(Value::Text("x".to_string()));
    let double = g.create_computation(Formula::Scaled { source: text, factor: 2 });
    let above = g.create_computation(Formula::Exceeds { source: double, bound: 5 });
    let fault = Fault::Raised("not an integer".to_string());
    assert_eq!(g.read(above), Err(fault.clone()));
    assert_eq!(g.status(double), Status::Errored(fault.clone()));
    assert_eq!(g.status(above), Status::Errored(fault));
    assert_eq!(g.dependencies(above), vec![double]);
    g.write(text, Value::Int(3));
    assert_eq!(g.flush().unwrap().order, vec![double, above]);
    assert_eq!(g.read(above), Ok(Value::Flag(true)));
}

#[test]
fn asking_twice_for_a_node_is_a_fault() {
    let mut g: Graph<Stubborn> = Graph::new();
    let cell = g.create_cell(Value::Int(1));
    let node = g.create_computation(Stubborn);
    assert_eq!(g.read(node), Err(Fault::RepeatedRead(cell)));
    assert_eq!(g.status(node), Status::Errored(Fault::RepeatedRead(cell)));
    assert_eq!(g.dependencies(node), vec![cell]);
}

#[test]
fn a_node_that_does_not_exist_is_a_fault_until_it_is_created() {
    let mut g: Graph<Formula> = Graph::new();
    let early = g.create_computation(Formula::Scaled { source: 2, factor: 3 });
    let over = g.create_computation(Formula::Shifted { source: early, offset: 1 });
    assert_eq!(g.read(over), Err(Fault::UnknownNode(2)));
    assert_eq!(g.status(early), Status::Errored(Fault::UnknownNode(2)));
    assert_eq!(g.status(over), Status::Errored(Fault::UnknownNode(2)));
    assert!(!g.is_dirty(early) && !g.is_dirty(over));
    let late = g.create_cell(Value::Int(5));
    assert_eq!(late, 2);
    assert!(g.is_dirty(early) && g.is_dirty(over));
    assert_eq!(g.flush().unwrap().order, vec![early, over]);
    assert_eq!(g.read(over), Ok(Value::Int(16)));
}

#[test]
fn a_node_that_reads_itself_is_cyclic() {
    let mut g: Graph<Formula> = Graph::new();
    let a = g.create_computation(Formula::Scaled { source: 0, factor: 2 });
    assert_eq!(g.read(a), Err(Fault::Cyclic(a)));
    assert!(g.is_dirty(a));
    assert_eq!(g.status(a), Status::Idle);
}

#[test]
fn two_nodes_that_read_each_other_are_cyclic() {
    let mut g: Graph<Formula> = Graph::new();
    let a = g.create_computation(Formula::Shifted { source: 1, offset: 1 });
    let b = g.create_computation(Formula::Shifted { source: 0, offset: 1 });
    assert_eq!(g.read(a), Err(Fault::Cyclic(a)));
    assert_eq!(g.read(b), Err(Fault::Cyclic(b)));
    assert!(g.is_dirty(a) && g.is_dirty(b));
    assert_eq!(g.journal(), Vec::<usize>::new());
}

#[test]
fn a_read_evaluates_only_what_the_node_needs() {
    let mut g: Graph<Counted> = Graph::new();
    let count = g.create_cell(Value::Int(2));
    let (d1, runs_double) = counted(Formula::Scaled { source: count, factor: 2 });
    let double = g.create_computation(d1);
    let (d2, runs_above) = counted(Formula::Exceeds { source: double, bound: 3 });
    let above = g.create_computation(d2);
    let (d3, runs_left) = counted(Formula::Shifted { source: count, offset: 100 });
    let left = g.create_computation(d3);

    assert_eq!(g.read(above), Ok(Value::Flag(true)));
    assert_eq!(g.journal(), vec![double, above]);
    assert_eq!((runs_double.get(), runs_above.get(), runs_left.get()), (1, 1, 0));
    assert!(g.is_dirty(left));

    assert_eq!(g.read(left), Ok(Value::Int(102)));
    assert_eq!(g.journal(), vec![left]);
    assert_eq!((runs_double.get(), runs_above.get(), runs_left.get()), (1, 1, 1));

    g.write(count, Value::Int(1));
    assert_eq!(g.read(double), Ok(Value::Int(2)));
    assert_eq!(g.journal(), vec![double]);
    assert!(g.is_dirty(above) && g.is_dirty(left));
    assert_eq!(g.flush().unwrap().order, vec![above, left]);
    assert_eq!((runs_double.get(), runs_above.get(), runs_left.get()), (2, 2, 2));
    assert_eq!(g.read(above), Ok(Value::Flag(false)));
}

#[test]
fn stale_subscriptions_are_dropped() {
    let mut g: Graph<Formula> = Graph::new();
    let on = g.create_cell(Value::Flag(true));
    let b = g.create_cell(Value::Int(1));
    let gated = g.create_computation(Formula::Gated { switch: on, source: b });
    let watch = g.on_change(gated);
    assert_eq!(g.read(gated), Ok(Value::Int(1)));
    g.write(on, Value::Flag(false));
    assert_eq!(g.flush().unwrap().callbacks, vec![watch]);
    // `b` has lost its only subscriber
    g.write(b, Value::Int(2));
    let pass = g.flush().unwrap();
    assert_eq!(pass.order, Vec::<usize>::new());
    assert_eq!(pass.callbacks, Vec::<usize>::new());
    assert_eq!(g.read(gated), Ok(Value::Nothing));
}
