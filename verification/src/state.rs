//! The mathematical state of a database and what it means for it to be
//! consistent.
use crate::interner::distinct;
use crate::program::{Dep, KeyModel, Node, NoteModel, Plan, Program, ValueModel};
use crate::semantics::{asks, denotes};
use vstd::prelude::*;

verus! {

/// What the engine reports to observers. The number is the query's identifier.
#[derive(Clone, Copy, Debug, PartialEq, Eq, Structural)]
pub enum Event {
    /// A query body is about to run.
    Started(usize),
    /// A cached value was returned without running the body.
    CacheHit(usize),
    /// A query body ran to completion and its result was stored.
    Recomputed(usize),
    /// A running query emitted a note.
    Accumulated(usize),
}

/// An input cell: its value and the revision at which the value last changed.
pub struct CellModel<V> {
    pub value: V,
    pub changed_at: u64,
}

/// A memoized result with the record of the execution that produced it.
pub struct EntryModel<V, N> {
    /// The value the body returned.
    pub value: V,
    /// The notes the body itself emitted, in order.
    pub notes: Seq<N>,
    /// What the body read, in order.
    pub deps: Seq<Dep<usize>>,
    /// What each read returned.
    pub answers: Seq<V>,
    /// The revision at which the body last ran.
    pub computed_at: u64,
    /// The latest revision at which the entry was confirmed.
    pub verified_at: u64,
    /// The revision at which the value last became different.
    pub changed_at: u64,
}

/// A query in progress and the notes it has emitted so far.
pub struct FrameModel<N> {
    pub query: usize,
    pub bucket: Seq<N>,
}

/// Everything a database holds, as mathematics.
pub struct State<K, V, N> {
    pub revision: u64,
    pub inputs: Seq<CellModel<V>>,
    /// Query keys by identifier.
    pub keys: Seq<K>,
    /// Cached entries by identifier.
    pub memo: Seq<Option<EntryModel<V, N>>>,
    /// The active calls, outermost first.
    pub stack: Seq<FrameModel<N>>,
    pub events: Seq<Event>,
    /// How deeply queries may nest.
    pub depth_limit: usize,
    /// How many reads one query body may make.
    pub read_limit: usize,
}

impl<K, V, N> State<K, V, N> {
    /// The current values of the input cells.
    pub open spec fn input_values(self) -> Seq<V> {
        Seq::new(self.inputs.len(), |i: int| self.inputs[i].value)
    }

    pub open spec fn has_entry(self, id: int) -> bool {
        0 <= id < self.memo.len() && self.memo[id] is Some
    }

    pub open spec fn entry(self, id: int) -> EntryModel<V, N> {
        self.memo[id]->0
    }

    /// The entry is confirmed for the current revision.
    pub open spec fn current(self, id: int) -> bool {
        self.has_entry(id) && self.entry(id).verified_at == self.revision
    }

    /// The query `key` has an entry that is confirmed for the current
    /// revision.
    pub open spec fn holds(self, key: K) -> bool {
        self.keys.contains(key) && self.current(self.keys.index_of(key))
    }

    pub open spec fn on_stack(self, id: int) -> bool {
        exists|f: int| 0 <= f < self.stack.len() && (#[trigger] self.stack[f]).query == id
    }

    pub open spec fn idle(self) -> bool {
        self.stack.len() == 0
    }

    /// The dependency names something that exists.
    pub open spec fn dep_known(self, dep: Dep<usize>) -> bool {
        match dep {
            Dep::Input(cell) => cell < self.inputs.len(),
            Dep::Query(id) => self.has_entry(id as int),
        }
    }

    /// The revision at which the dependency's value last changed.
    pub open spec fn dep_changed_at(self, dep: Dep<usize>) -> u64 {
        match dep {
            Dep::Input(cell) => self.inputs[cell as int].changed_at,
            Dep::Query(id) => self.entry(id as int).changed_at,
        }
    }

    pub open spec fn dep_value(self, dep: Dep<usize>) -> V {
        match dep {
            Dep::Input(cell) => self.inputs[cell as int].value,
            Dep::Query(id) => self.entry(id as int).value,
        }
    }

    /// An input is always current; a query is when its entry is.
    pub open spec fn dep_current(self, dep: Dep<usize>) -> bool {
        match dep {
            Dep::Input(cell) => true,
            Dep::Query(id) => self.current(id as int),
        }
    }

    /// The dependency with the query's key in place of its identifier.
    pub open spec fn dep_key(self, dep: Dep<usize>) -> Dep<K> {
        match dep {
            Dep::Input(cell) => Dep::Input(cell),
            Dep::Query(id) => Dep::Query(self.keys[id as int]),
        }
    }

    pub open spec fn dep_keys(self, deps: Seq<Dep<usize>>) -> Seq<Dep<K>> {
        Seq::new(deps.len(), |i: int| self.dep_key(deps[i]))
    }

    /// The dependency changed after `since`.
    pub open spec fn dep_changed_since(self, dep: Dep<usize>, since: u64) -> bool {
        self.dep_changed_at(dep) > since
    }

    /// Some dependency of the entry changed after the entry was computed.
    pub open spec fn stale(self, entry: EntryModel<V, N>) -> bool {
        exists|i: int|
            0 <= i < entry.deps.len() && self.dep_changed_since(
                #[trigger] entry.deps[i],
                entry.computed_at,
            )
    }

    /// The record of the entry as a from-scratch evaluation would give it.
    pub open spec fn node(self, id: int) -> Node<K, V, N> {
        Node {
            value: self.entry(id).value,
            notes: self.entry(id).notes,
            deps: self.dep_keys(self.entry(id).deps),
        }
    }
}

/// The entry is confirmed for the current revision: everything it read is
/// current and unchanged since it was computed, and it holds what its query
/// means.
pub open spec fn entry_fresh<P: Program>(
    program: &P,
    s: State<KeyModel<P>, ValueModel<P>, NoteModel<P>>,
    id: int,
) -> bool {
    let e = s.entry(id);
    &&& forall|i: int|
        0 <= i < e.deps.len() ==> s.dep_current(#[trigger] e.deps[i]) && s.dep_changed_at(
            e.deps[i],
        ) <= e.computed_at
    &&& denotes(program, s.input_values(), s.keys[id], Ok(s.node(id)))
}

/// The entry is a consistent record of one execution of its query.
pub open spec fn entry_ok<P: Program>(
    program: &P,
    s: State<KeyModel<P>, ValueModel<P>, NoteModel<P>>,
    id: int,
) -> bool {
    let e = s.entry(id);
    let key = s.keys[id];
    &&& e.changed_at <= e.computed_at <= e.verified_at <= s.revision
    &&& e.deps.len() == e.answers.len()
    &&& forall|i: int| 0 <= i < e.deps.len() ==> s.dep_known(#[trigger] e.deps[i])
    &&& forall|i: int|
        0 <= i < e.deps.len() ==> #[trigger] asks(program, key, e.answers, s.dep_keys(e.deps), i)
    &&& program.plan(key, e.answers) == Plan::<
        KeyModel<P>,
        ValueModel<P>,
        NoteModel<P>,
    >::Done(e.value, e.notes)
    &&& forall|i: int|
        0 <= i < e.deps.len() && s.dep_changed_at(#[trigger] e.deps[i]) <= e.computed_at
            ==> s.dep_value(e.deps[i]) == e.answers[i]
    &&& e.verified_at == s.revision ==> entry_fresh(program, s, id)
}

/// The database is consistent.
pub open spec fn state_ok<P: Program>(
    program: &P,
    s: State<KeyModel<P>, ValueModel<P>, NoteModel<P>>,
) -> bool {
    &&& s.memo.len() == s.keys.len()
    &&& s.memo.len() <= usize::MAX
    &&& distinct(s.keys)
    &&& forall|c: int| 0 <= c < s.inputs.len() ==> (#[trigger] s.inputs[c]).changed_at <= s.revision
    &&& forall|id: int| #[trigger] s.has_entry(id) ==> entry_ok(program, s, id)
    &&& forall|f: int| 0 <= f < s.stack.len() ==> (#[trigger] s.stack[f]).query < s.keys.len()
}

/// How one cached entry may change while the revision stands still: not at
/// all, by being confirmed, or by being computed again because something it
/// read had changed. `stale` says whether the old entry is stale afterwards.
pub open spec fn entry_step<V, N>(
    revision: u64,
    before: EntryModel<V, N>,
    after: EntryModel<V, N>,
    stale: bool,
) -> bool {
    ||| after == before
    ||| before.verified_at < revision && after == (EntryModel { verified_at: revision, ..before })
    ||| {
        &&& before.verified_at < revision
        &&& stale
        &&& after.computed_at == revision
        &&& after.verified_at == revision
        &&& after.changed_at == if after.value == before.value {
            before.changed_at
        } else {
            revision
        }
    }
}

/// `after` is a later state of the same database: identifiers keep their
/// keys, cells and cached entries stay in existence.
pub open spec fn later<K, V, N>(before: State<K, V, N>, after: State<K, V, N>) -> bool {
    &&& before.revision <= after.revision
    &&& before.inputs.len() <= after.inputs.len()
    &&& before.keys.len() <= after.keys.len()
    &&& forall|id: int| 0 <= id < before.keys.len() ==> #[trigger] after.keys[id] == before.keys[id]
    &&& forall|id: int| #[trigger] before.has_entry(id) ==> after.has_entry(id)
}

/// `after` is what running queries can make of `before`: inputs and revision
/// are untouched, and each cached entry changes only as `entry_step` allows.
pub open spec fn advances<K, V, N>(before: State<K, V, N>, after: State<K, V, N>) -> bool {
    &&& later(before, after)
    &&& after.revision == before.revision
    &&& after.inputs == before.inputs
    &&& after.depth_limit == before.depth_limit
    &&& after.read_limit == before.read_limit
    &&& before.events.is_prefix_of(after.events)
    &&& forall|id: int| #[trigger]
        before.has_entry(id) ==> entry_step(
            before.revision,
            before.entry(id),
            after.entry(id),
            after.stale(before.entry(id)),
        )
}

/// The entries of the queries in progress are the same in both states.
pub open spec fn keeps_active<K, V, N>(before: State<K, V, N>, after: State<K, V, N>) -> bool {
    forall|f: int|
        0 <= f < before.stack.len() ==> after.memo[(#[trigger] before.stack[f]).query as int]
            == before.memo[before.stack[f].query as int]
}

/// The effect of running queries, seen from the caller: `advances`, with the
/// active calls as they were.
pub open spec fn evolves<K, V, N>(before: State<K, V, N>, after: State<K, V, N>) -> bool {
    &&& advances(before, after)
    &&& after.stack == before.stack
    &&& keeps_active(before, after)
}

/// A dependency's change revision never goes back.
pub proof fn lemma_changed_at_grows<P: Program>(
    program: &P,
    a: State<KeyModel<P>, ValueModel<P>, NoteModel<P>>,
    b: State<KeyModel<P>, ValueModel<P>, NoteModel<P>>,
    dep: Dep<usize>,
)
    requires
        state_ok(program, a),
        advances(a, b),
        a.dep_known(dep),
    ensures
        b.dep_known(dep),
        a.dep_changed_at(dep) <= b.dep_changed_at(dep),
{
    match dep {
        Dep::Input(cell) => {},
        Dep::Query(id) => {
            assert(a.has_entry(id as int));
            assert(entry_ok(program, a, id as int));
        },
    }
}

pub proof fn lemma_advances_trans<P: Program>(
    program: &P,
    a: State<KeyModel<P>, ValueModel<P>, NoteModel<P>>,
    b: State<KeyModel<P>, ValueModel<P>, NoteModel<P>>,
    c: State<KeyModel<P>, ValueModel<P>, NoteModel<P>>,
)
    requires
        state_ok(program, a),
        state_ok(program, b),
        advances(a, b),
        advances(b, c),
    ensures
        advances(a, c),
{
    assert forall|id: int| #[trigger] a.has_entry(id) implies entry_step(
        a.revision,
        a.entry(id),
        c.entry(id),
        c.stale(a.entry(id)),
    ) by {
        assert(b.has_entry(id));
        let ea = a.entry(id);
        let eb = b.entry(id);
        let ec = c.entry(id);
        assert(entry_step(a.revision, ea, eb, b.stale(ea)));
        assert(entry_step(a.revision, eb, ec, c.stale(eb)));
        assert(entry_ok(program, a, id));
        if b.stale(ea) {
            let i = choose|i: int|
                0 <= i < ea.deps.len() && b.dep_changed_since(
                    #[trigger] ea.deps[i],
                    ea.computed_at,
                );
            assert(a.dep_known(ea.deps[i]));
            lemma_changed_at_grows(program, a, b, ea.deps[i]);
            lemma_changed_at_grows(program, b, c, ea.deps[i]);
            assert(c.dep_changed_since(ea.deps[i], ea.computed_at));
            assert(c.stale(ea));
        }
    }
}

pub proof fn lemma_evolves_trans<P: Program>(
    program: &P,
    a: State<KeyModel<P>, ValueModel<P>, NoteModel<P>>,
    b: State<KeyModel<P>, ValueModel<P>, NoteModel<P>>,
    c: State<KeyModel<P>, ValueModel<P>, NoteModel<P>>,
)
    requires
        state_ok(program, a),
        state_ok(program, b),
        evolves(a, b),
        evolves(b, c),
    ensures
        evolves(a, c),
{
    lemma_advances_trans(program, a, b, c);
    assert forall|f: int| 0 <= f < a.stack.len() implies c.memo[(#[trigger] a.stack[f]).query as int]
        == a.memo[a.stack[f].query as int] by {
        assert(b.stack[f] == a.stack[f]);
    }
}

/// The entry of a query in progress is untouched.
pub proof fn lemma_active_kept<K, V, N>(a: State<K, V, N>, b: State<K, V, N>, id: int)
    requires
        keeps_active(a, b),
        a.on_stack(id),
    ensures
        b.memo[id] == a.memo[id],
{
    let f = choose|f: int| 0 <= f < a.stack.len() && (#[trigger] a.stack[f]).query == id;
    assert(b.memo[a.stack[f].query as int] == a.memo[a.stack[f].query as int]);
}

/// A later state of a later state is a later state.
pub proof fn lemma_later_trans<K, V, N>(a: State<K, V, N>, b: State<K, V, N>, c: State<K, V, N>)
    requires
        later(a, b),
        later(b, c),
    ensures
        later(a, c),
{
    assert forall|id: int| #[trigger] a.has_entry(id) implies c.has_entry(id) by {
        assert(b.has_entry(id));
    }
}

} // verus!
