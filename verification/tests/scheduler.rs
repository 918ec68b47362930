use combustion::system::{NodeId, Routine, SystemBuilder, SystemError, SystemResult};
use std::cell::RefCell;
use std::rc::Rc;

type Log = Rc<RefCell<Vec<String>>>;

/// A routine that records its name into a shared log and then succeeds or
/// fails as configured.
struct Rec {
    name: String,
    log: Log,
    fail: bool,
}

impl Routine for Rec {
    fn run(&mut self) -> SystemResult<()> {
        self.log.borrow_mut().push(self.name.clone());
        if self.fail {
            Err(SystemError::DuplicateSystem(self.name.clone()))
        } else {
            Ok(())
        }
    }
}

fn rec(name: &str, log: &Log) -> Rec {
    Rec { name: name.to_string(), log: log.clone(), fail: false }
}

fn failing(name: &str, log: &Log) -> Rec {
    Rec { name: name.to_string(), log: log.clone(), fail: true }
}

fn new_log() -> Log {
    Rc::new(RefCell::new(Vec::new()))
}

fn position(log: &[String], name: &str) -> usize {
    log.iter().position(|n| n == name).unwrap()
}

/// A routine that only prints its name, mirroring simple work units.
struct Printer {
    name: String,
}

impl Routine for Printer {
    fn run(&mut self) -> SystemResult<()> {
        println!("Name: {}", self.name);
        Ok(())
    }
}

fn dummy(name: &str) -> Printer {
    Printer { name: name.to_string() }
}

fn deps(names: &[&str]) -> Vec<String> {
    names.iter().map(|s| s.to_string()).collect()
}

#[test]
fn basic() {
    let mut builder = SystemBuilder::new();

    builder.add_system("test".to_string(), dummy("test")).unwrap();
    builder.add_system("testing".to_string(), dummy("testing")).unwrap();

    builder
        .add_system_with_deps("test1".to_string(), dummy("test1"), deps(&["testing"]))
        .unwrap();
    builder
        .add_system_with_deps("test4".to_string(), dummy("test4"), deps(&["test"]))
        .unwrap();
    builder
        .add_system_with_deps("test3".to_string(), dummy("test3"), deps(&["test2"]))
        .unwrap();
    builder
        .add_system_with_deps("test5".to_string(), dummy("test5"), deps(&["test2"]))
        .unwrap();
    builder
        .add_system_with_deps("test2".to_string(), dummy("test2"), deps(&["test4"]))
        .unwrap();

    builder.build().unwrap();
}

#[test]
fn end_to_end_order() {
    let log = new_log();
    let mut builder = SystemBuilder::new();

    builder.add_system("test".to_string(), rec("test", &log)).unwrap();
    builder.add_system("testing".to_string(), rec("testing", &log)).unwrap();
    builder
        .add_system_with_deps("test1".to_string(), rec("test1", &log), deps(&["testing"]))
        .unwrap();
    builder
        .add_system_with_deps("test4".to_string(), rec("test4", &log), deps(&["test"]))
        .unwrap();
    builder
        .add_system_with_deps("test3".to_string(), rec("test3", &log), deps(&["test2"]))
        .unwrap();
    builder
        .add_system_with_deps("test5".to_string(), rec("test5", &log), deps(&["test2"]))
        .unwrap();
    builder
        .add_system_with_deps("test2".to_string(), rec("test2", &log), deps(&["test4"]))
        .unwrap();

    assert!(builder.build().is_ok());

    let ran = log.borrow().clone();
    assert_eq!(ran.len(), 7);
    for name in ["test", "testing", "test1", "test2", "test3", "test4", "test5"] {
        assert_eq!(ran.iter().filter(|n| n.as_str() == name).count(), 1);
    }
    assert!(position(&ran, "testing") < position(&ran, "test1"));
    assert!(position(&ran, "test") < position(&ran, "test4"));
    assert!(position(&ran, "test4") < position(&ran, "test2"));
    assert!(position(&ran, "test2") < position(&ran, "test3"));
    assert!(position(&ran, "test2") < position(&ran, "test5"));
}

#[test]
fn idempotent_naming() {
    let log = new_log();
    let mut builder = SystemBuilder::new();
    let first = builder.add_system("worker".to_string(), rec("first", &log)).unwrap();
    let second = builder.add_system("worker".to_string(), rec("second", &log)).unwrap();
    assert_eq!(first, second);
    assert_eq!(first.index(), second.index());
    assert!(builder.build().is_ok());
    let ran = log.borrow().clone();
    assert_eq!(ran, vec!["second".to_string()]);
}

#[test]
fn reregistration_keeps_one_root_edge() {
    let log = new_log();
    let mut builder = SystemBuilder::new();
    let n1 = builder.add_system("worker".to_string(), rec("first", &log)).unwrap();
    let n2 = builder.add_system("worker".to_string(), rec("second", &log)).unwrap();
    assert_eq!(n1, n2);
    // The root lists the re-registered system exactly once.
    let root_successors = &builder.graph.adj[0];
    assert_eq!(root_successors.iter().filter(|&&v| v == n1.index()).count(), 1);
}

#[test]
fn schedule_orders_dependencies_first() {
    let mut builder = SystemBuilder::new();
    let a = builder.add_system("a".to_string(), dummy("a")).unwrap();
    let b = builder
        .add_system_with_deps("b".to_string(), dummy("b"), deps(&["a"]))
        .unwrap();
    let order = builder.schedule();
    let pa = order.iter().position(|&n| n == a.index()).unwrap();
    let pb = order.iter().position(|&n| n == b.index()).unwrap();
    assert!(pa < pb);
}

#[test]
fn default_root_edge_runs_system() {
    let log = new_log();
    let mut builder = SystemBuilder::new();
    builder.add_system("solo".to_string(), rec("solo", &log)).unwrap();
    assert!(builder.build().is_ok());
    assert_eq!(log.borrow().clone(), vec!["solo".to_string()]);
}

#[test]
fn forward_reference_resolution() {
    let log = new_log();
    let mut builder = SystemBuilder::new();
    let a: NodeId = builder
        .add_system_with_deps("A".to_string(), rec("A", &log), deps(&["B"]))
        .unwrap();
    let b = builder.add_system("B".to_string(), rec("B", &log)).unwrap();
    assert_ne!(a, b);
    assert!(builder.build().is_ok());
    let ran = log.borrow().clone();
    assert_eq!(ran.len(), 2);
    assert!(position(&ran, "B") < position(&ran, "A"));
}

#[test]
fn unresolved_dependency_fails() {
    let log = new_log();
    let mut builder = SystemBuilder::new();
    builder
        .add_system_with_deps("A".to_string(), rec("A", &log), deps(&["B"]))
        .unwrap();
    let result = builder.build();
    assert_eq!(result, Err(SystemError::MissingDependentSystem("B".to_string())));
    // The failing stand-in runs before A, so A's routine never runs.
    assert!(log.borrow().is_empty());
}

#[test]
fn cycle_is_rejected() {
    let log = new_log();
    let mut builder = SystemBuilder::new();
    builder
        .add_system_with_deps("A".to_string(), rec("A", &log), deps(&["B"]))
        .unwrap();
    let result = builder.add_system_with_deps("B".to_string(), rec("B", &log), deps(&["A"]));
    assert_eq!(result, Err(SystemError::WouldCycle));
    // No contradictory edge was added: B (now registered) still runs
    // before A.
    assert!(builder.build().is_ok());
    let ran = log.borrow().clone();
    assert_eq!(ran.len(), 2);
    assert!(position(&ran, "B") < position(&ran, "A"));
}

#[test]
fn self_dependency_is_rejected() {
    let log = new_log();
    let mut builder = SystemBuilder::new();
    builder.add_system("X".to_string(), rec("X", &log)).unwrap();
    let result = builder.add_system_with_deps("X".to_string(), rec("X", &log), deps(&["X"]));
    assert_eq!(result, Err(SystemError::WouldCycle));
}

#[test]
fn longer_cycle_is_rejected() {
    let log = new_log();
    let mut builder = SystemBuilder::new();
    builder.add_system("a".to_string(), rec("a", &log)).unwrap();
    builder
        .add_system_with_deps("b".to_string(), rec("b", &log), deps(&["a"]))
        .unwrap();
    builder
        .add_system_with_deps("c".to_string(), rec("c", &log), deps(&["b"]))
        .unwrap();
    let result = builder.add_system_with_deps("a".to_string(), rec("a", &log), deps(&["c"]));
    assert_eq!(result, Err(SystemError::WouldCycle));
}

#[test]
fn fail_fast_halts_the_build() {
    let log = new_log();
    let mut builder = SystemBuilder::new();
    builder.add_system("a".to_string(), rec("a", &log)).unwrap();
    builder.add_system("b".to_string(), failing("b", &log)).unwrap();
    builder.add_system("c".to_string(), rec("c", &log)).unwrap();
    let result = builder.build();
    assert_eq!(result, Err(SystemError::DuplicateSystem("b".to_string())));
    let ran = log.borrow().clone();
    // The failing routine is the last thing that ran; everything after it
    // was never reached.
    assert_eq!(ran.last().map(String::as_str), Some("b"));
    assert!(!ran.iter().any(|n| n == "c"));
}

#[test]
fn add_dep_is_a_no_op() {
    let log = new_log();
    let mut builder = SystemBuilder::new();
    builder.add_system("a".to_string(), rec("a", &log)).unwrap();
    assert_eq!(builder.add_dep("a".to_string(), "b".to_string()), Ok(()));
    assert!(builder.build().is_ok());
    assert_eq!(log.borrow().clone(), vec!["a".to_string()]);
}

#[test]
fn empty_builder_builds() {
    let builder: SystemBuilder<Rec> = SystemBuilder::new();
    assert_eq!(builder.build(), Ok(()));
}

#[test]
fn dependency_shared_by_two_systems_runs_once() {
    let log = new_log();
    let mut builder = SystemBuilder::new();
    builder.add_system("base".to_string(), rec("base", &log)).unwrap();
    builder
        .add_system_with_deps("left".to_string(), rec("left", &log), deps(&["base"]))
        .unwrap();
    builder
        .add_system_with_deps("right".to_string(), rec("right", &log), deps(&["base"]))
        .unwrap();
    assert!(builder.build().is_ok());
    let ran = log.borrow().clone();
    assert_eq!(ran.len(), 3);
    assert_eq!(ran.iter().filter(|n| n.as_str() == "base").count(), 1);
    assert!(position(&ran, "base") < position(&ran, "left"));
    assert!(position(&ran, "base") < position(&ran, "right"));
}

#[test]
fn diamond_runs_after_all_predecessors() {
    let log = new_log();
    let mut builder = SystemBuilder::new();
    builder.add_system("top".to_string(), rec("top", &log)).unwrap();
    builder
        .add_system_with_deps("left".to_string(), rec("left", &log), deps(&["top"]))
        .unwrap();
    builder
        .add_system_with_deps("right".to_string(), rec("right", &log), deps(&["top"]))
        .unwrap();
    builder
        .add_system_with_deps(
            "bottom".to_string(),
            rec("bottom", &log),
            deps(&["left", "right"]),
        )
        .unwrap();
    assert!(builder.build().is_ok());
    let ran = log.borrow().clone();
    assert_eq!(ran.len(), 4);
    assert!(position(&ran, "top") < position(&ran, "left"));
    assert!(position(&ran, "top") < position(&ran, "right"));
    assert!(position(&ran, "left") < position(&ran, "bottom"));
    assert!(position(&ran, "right") < position(&ran, "bottom"));
}
