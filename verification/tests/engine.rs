use incremental::compiler::{Compiler, File, Query, Value};
use incremental::database::{Database, EngineError, Frame};
use incremental::datum::Datum;
use incremental::interner::Interner;
use incremental::sample::{Formula, Sample};
use incremental::state::Event;

fn text(s: &str) -> Vec<char> {
    s.chars().collect()
}

fn sums(a: usize, b: usize) -> Database<Sample> {
    let mut db = Database::new(Sample);
    assert_eq!(db.declare_input(a).unwrap(), 0);
    assert_eq!(db.declare_input(b).unwrap(), 1);
    db
}

fn recomputed(db: &Database<Sample>) -> Vec<Formula> {
    db.events()
        .iter()
        .filter_map(|e| match e {
            Event::Recomputed(id) => Some(*db.resolve(*id)),
            _ => None,
        })
        .collect()
}

#[test]
fn a_query_is_computed_from_the_inputs() {
    let mut db = sums(3, 4);
    assert_eq!(db.query(&Formula::Total).unwrap(), 7);
    assert_eq!(db.query(&Formula::Parity).unwrap(), 1);
    assert_eq!(db.query(&Formula::Both).unwrap(), 7);
    assert_eq!(recomputed(&db), vec![Formula::Total, Formula::Parity, Formula::Both]);
}

#[test]
fn events_tell_what_happened() {
    let mut db = sums(3, 4);
    db.query(&Formula::Parity).unwrap();
    let one = db.intern(&Formula::Parity);
    let zero = db.intern(&Formula::Total);
    assert_eq!(
        db.events(),
        &vec![
            Event::Started(one),
            Event::Started(zero),
            Event::Recomputed(zero),
            Event::Accumulated(one),
            Event::Recomputed(one),
        ]
    );
    db.drain_events();
    db.query(&Formula::Parity).unwrap();
    assert_eq!(db.events(), &vec![Event::CacheHit(one)]);
    assert_eq!(db.drain_events(), vec![Event::CacheHit(one)]);
    assert_eq!(db.events().len(), 0);
}

#[test]
fn writing_an_equal_value_changes_nothing() {
    let mut db = sums(3, 4);
    db.query(&Formula::Both).unwrap();
    db.drain_events();
    assert_eq!(db.revision(), 0);
    db.set_input(0, 3).unwrap();
    assert_eq!(db.revision(), 0);
    assert_eq!(db.read_input(0).unwrap(), (&3, 0));
    db.query(&Formula::Both).unwrap();
    assert_eq!(db.events().len(), 1);
    assert!(matches!(db.events()[0], Event::CacheHit(_)));
}

#[test]
fn writing_another_value_advances_the_revision() {
    let mut db = sums(3, 4);
    assert_eq!(db.read_input(1).unwrap(), (&4, 0));
    db.set_input(1, 9).unwrap();
    assert_eq!(db.revision(), 1);
    assert_eq!(db.read_input(1).unwrap(), (&9, 1));
    assert_eq!(db.read_input(0).unwrap(), (&3, 0));
    db.set_input(0, 5).unwrap();
    assert_eq!(db.revision(), 2);
    assert_eq!(db.read_input(0).unwrap(), (&5, 2));
    assert_eq!(db.query(&Formula::Total).unwrap(), 14);
}

#[test]
fn only_what_read_a_change_runs_again() {
    let mut db = sums(3, 4);
    db.query(&Formula::Both).unwrap();
    db.drain_events();
    // the sum changes by two: its parity does not
    db.set_input(0, 5).unwrap();
    assert_eq!(db.query(&Formula::Parity).unwrap(), 1);
    assert_eq!(recomputed(&db), vec![Formula::Total, Formula::Parity]);
    db.drain_events();
    assert_eq!(db.query(&Formula::Both).unwrap(), 9);
    assert_eq!(recomputed(&db), vec![Formula::Both]);
}

#[test]
fn an_equal_result_stops_the_change() {
    let mut db = sums(3, 4);
    db.query(&Formula::Top).unwrap();
    db.drain_events();
    // the cells trade values: the sum is the same
    db.set_input(0, 4).unwrap();
    db.set_input(1, 3).unwrap();
    assert_eq!(db.revision(), 2);
    db.query(&Formula::Top).unwrap();
    assert_eq!(recomputed(&db), vec![Formula::Total]);
}

#[test]
fn a_changed_value_has_a_changed_dependency() {
    let mut db = sums(3, 4);
    let before = db.query(&Formula::Parity).unwrap();
    db.set_input(0, 4).unwrap();
    let after = db.query(&Formula::Parity).unwrap();
    assert_ne!(before, after);
    // what `Parity` read, `Total`, is worth something else than it was
    assert_eq!(db.query(&Formula::Total).unwrap(), 8);
}

#[test]
fn notes_are_gathered_depth_first_and_once() {
    let mut db = sums(3, 4);
    // `Top` calls `Both` (which calls `Parity`, then `Total`) and then
    // `Parity` again
    assert_eq!(db.accumulated(&Formula::Top, 0).unwrap(), vec![300, 200, 101]);
    assert_eq!(db.accumulated(&Formula::Top, 1).unwrap(), vec![201]);
    assert_eq!(db.collect_accumulated(&Formula::Both, 0), vec![200, 101]);
    assert_eq!(db.collect_accumulated(&Formula::Parity, 0), vec![101]);
    assert_eq!(db.collect_accumulated(&Formula::Total, 0), Vec::<usize>::new());
}

#[test]
fn notes_are_replaced_when_their_query_runs_again() {
    let mut db = sums(3, 4);
    assert_eq!(db.accumulated(&Formula::Top, 0).unwrap(), vec![300, 200, 101]);
    db.set_input(0, 4).unwrap();
    assert_eq!(db.accumulated(&Formula::Top, 0).unwrap(), vec![300, 200, 100]);
    let mut fresh = sums(4, 4);
    assert_eq!(fresh.accumulated(&Formula::Top, 0).unwrap(), vec![300, 200, 100]);
}

#[test]
fn a_ring_of_queries_is_a_cycle() {
    let mut db = sums(3, 4);
    assert!(matches!(db.query(&Formula::Ring(0)), Err(EngineError::Cycle)));
    assert!(matches!(db.query(&Formula::Ring(2)), Err(EngineError::Cycle)));
    // the database is still usable
    assert_eq!(db.query(&Formula::Total).unwrap(), 7);
    assert_eq!(db.set_input(0, 1), Ok(()));
}

#[test]
fn a_sum_that_does_not_fit_is_a_fault() {
    let mut db = sums(usize::MAX, 1);
    assert_eq!(db.query(&Formula::Total), Err(EngineError::Fault(usize::MAX)));
    assert_eq!(db.query(&Formula::Top), Err(EngineError::Fault(usize::MAX)));
    db.set_input(1, 0).unwrap();
    assert_eq!(db.query(&Formula::Total), Ok(usize::MAX));
}

#[test]
fn nesting_is_bounded() {
    let mut db = Database::with_limits(Sample, 4, 10);
    assert!(matches!(db.query(&Formula::Chain(5)), Err(EngineError::DepthExceeded)));
    assert_eq!(db.query(&Formula::Chain(4)).unwrap(), 7);
    // what is cached needs no nesting
    assert_eq!(db.query(&Formula::Chain(5)).unwrap(), 7);
    let mut deep = Database::with_limits(Sample, 6, 10);
    assert_eq!(deep.query(&Formula::Chain(6)).unwrap(), 7);
}

#[test]
fn reads_are_bounded() {
    let mut db = Database::with_limits(Sample, 4, 2);
    db.declare_input(1).unwrap();
    db.declare_input(2).unwrap();
    assert!(matches!(db.query(&Formula::Total), Err(EngineError::TooManyReads)));
    let mut wide = Database::with_limits(Sample, 4, 3);
    wide.declare_input(1).unwrap();
    wide.declare_input(2).unwrap();
    assert_eq!(wide.query(&Formula::Total).unwrap(), 3);
}

#[test]
fn a_fault_carries_what_the_body_reported() {
    let mut db = sums(3, 4);
    assert_eq!(db.query(&Formula::Broken), Err(EngineError::Fault(3)));
    db.set_input(0, 8).unwrap();
    assert_eq!(db.query(&Formula::Broken), Err(EngineError::Fault(8)));
}

#[test]
fn reading_a_missing_cell_is_refused() {
    let mut db = Database::new(Sample);
    assert_eq!(db.query(&Formula::Total), Err(EngineError::UnknownInput));
    assert_eq!(db.set_input(0, 1), Err(EngineError::UnknownInput));
    db.declare_input(1).unwrap();
    assert_eq!(db.query(&Formula::Total), Err(EngineError::UnknownInput));
    db.declare_input(2).unwrap();
    assert_eq!(db.query(&Formula::Total), Ok(3));
}

#[test]
fn a_note_needs_a_running_query() {
    let mut db = sums(3, 4);
    assert_eq!(db.accumulate(5), Err(EngineError::NoActiveQuery));
    assert_eq!(db.events().len(), 0);
}

#[test]
fn refresh_brings_an_entry_up_to_date() {
    let mut db = sums(3, 4);
    let id = db.intern(&Formula::Parity);
    assert!(!db.is_current(id));
    assert!(!db.is_active(id));
    assert_eq!(db.refresh(id, 8), Ok(()));
    assert!(db.is_current(id));
    db.set_input(0, 9).unwrap();
    assert!(!db.is_current(id));
    assert_eq!(db.refresh(id, 0), Err(EngineError::DepthExceeded));
    assert_eq!(db.refresh(id, 1), Ok(()));
    assert!(db.is_current(id));
}

#[test]
fn interning_is_canonical() {
    let mut table: Interner<Vec<char>> = Interner::new();
    let a = table.intern(&text("alpha"));
    let b = table.intern(&text("beta"));
    let again = table.intern(&text("alpha"));
    assert_eq!(a, 0);
    assert_eq!(b, 1);
    assert_eq!(again, a);
    assert_ne!(a, b);
    assert_eq!(table.len(), 2);
    assert_eq!(table.resolve(a), &text("alpha"));
    assert_eq!(table.resolve(b), &text("beta"));
    assert_eq!(table.lookup(&text("beta")), Some(1));
    assert_eq!(table.lookup(&text("gamma")), None);
}

#[test]
fn query_keys_are_interned() {
    let mut db = Database::new(Compiler);
    let file = File::new(&mut db, text("f"), text("\n")).unwrap();
    let first = db.intern(&Query::Parse(file));
    let second = db.intern(&Query::FileModule(file));
    assert_eq!(db.intern(&Query::Parse(file)), first);
    assert_ne!(first, second);
    assert_eq!(db.resolve(first), &Query::Parse(file));
    assert_eq!(db.resolve(second), &Query::FileModule(file));
}

#[test]
fn values_compare_and_copy_by_what_they_hold() {
    let a = Value::Text(text("x"));
    let b = a.duplicate();
    assert!(a.same(&b));
    assert_eq!(a, b);
    assert!(!a.same(&Value::Text(text("y"))));
    assert!(!a.same(&Value::Unit));
    assert!(Value::Found(None).same(&Value::Found(None)));
    let key = Query::Resolve(
        incremental::module::Module {
            name: text("m"),
            inner: incremental::module::ModuleInner::Export,
        },
        vec![text("p"), text("q")],
    );
    assert!(key.same(&key.duplicate()));
    assert_eq!(key, key.duplicate());
    assert!(vec![1usize, 2].same(&vec![1, 2]));
    assert!(!vec![1usize, 2].same(&vec![1, 2, 3]));
}

#[test]
fn the_last_revision_cannot_be_left() {
    let mut db = sums(3, 4);
    db.revision = u64::MAX - 1;
    assert_eq!(db.set_input(0, 5), Ok(()));
    assert_eq!(db.revision(), u64::MAX);
    assert_eq!(db.read_input(0).unwrap(), (&5, u64::MAX));
    assert_eq!(db.set_input(0, 5), Ok(()));
    assert_eq!(db.set_input(0, 6), Err(EngineError::RevisionExhausted));
    assert_eq!(db.read_input(0).unwrap(), (&5, u64::MAX));
    assert_eq!(db.query(&Formula::Total), Ok(9));
}

#[test]
fn while_a_query_runs_inputs_and_queries_are_refused() {
    let mut db = sums(3, 4);
    let id = db.intern(&Formula::Top);
    db.stack.push(Frame { query: id, bucket: vec![] });
    assert_eq!(db.set_input(0, 5), Err(EngineError::QueryInProgress));
    assert_eq!(db.declare_input(5), Err(EngineError::QueryInProgress));
    assert_eq!(db.query(&Formula::Total), Err(EngineError::QueryInProgress));
    assert_eq!(db.refresh(id, 8), Err(EngineError::QueryInProgress));
    assert_eq!(db.accumulated(&Formula::Top, 0), Err(EngineError::QueryInProgress));
    assert_eq!(db.read_input(0).unwrap(), (&3, 0));
    assert_eq!(db.revision(), 0);

    // a note goes to the query that is running
    assert_eq!(db.accumulate(41), Ok(()));
    assert_eq!(db.accumulate(42), Ok(()));
    assert_eq!(db.stack[0].bucket, vec![41, 42]);
    assert_eq!(db.events(), &vec![Event::Accumulated(id), Event::Accumulated(id)]);

    db.stack.pop();
    assert_eq!(db.query(&Formula::Total), Ok(7));
}

#[test]
fn equal_values_share_a_digest() {
    let a = Value::Text(text("x"));
    assert_eq!(a.hash(), a.duplicate().hash());
    assert_ne!(a.hash(), Value::Text(text("y")).hash());
    assert_eq!(text("abc").hash(), text("abc").hash());
    assert_eq!(Formula::Ring(1).hash(), Formula::Ring(1).hash());
    assert_ne!(Formula::Ring(1).hash(), Formula::Chain(1).hash());
    assert_eq!('a'.hash(), 97);
    assert_eq!(text("a").hash(), 97);
    assert_eq!(text("ab").hash(), (97 << 5) ^ 98);
}

#[test]
fn many_values_are_found_again() {
    let mut table: Interner<Vec<usize>> = Interner::new();
    for n in 0..200usize {
        assert_eq!(table.intern(&vec![n % 7, n]), n);
    }
    for n in 0..200usize {
        assert_eq!(table.intern(&vec![n % 7, n]), n);
        assert_eq!(table.lookup(&vec![n % 7, n]), Some(n));
        assert_eq!(table.resolve(n), &vec![n % 7, n]);
    }
    assert_eq!(table.lookup(&vec![7, 7]), None);
    assert_eq!(table.len(), 200);
}
