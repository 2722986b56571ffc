//! What a query means, independent of any cache.
use crate::program::{Dep, KeyModel, Node, NoteModel, Plan, Program, ValueModel};
use vstd::prelude::*;

verus! {

pub type Outcome<P> = Result<Node<KeyModel<P>, ValueModel<P>, NoteModel<P>>, ValueModel<P>>;

/// Runs the body of `key` from the given point with nothing cached, spending
/// one unit of fuel per request. `None` means the fuel did not suffice (or the
/// body asked for a cell that does not exist).
pub open spec fn run<P: Program>(
    program: &P,
    inputs: Seq<ValueModel<P>>,
    key: KeyModel<P>,
    answers: Seq<ValueModel<P>>,
    deps: Seq<Dep<KeyModel<P>>>,
    fuel: nat,
) -> Option<Outcome<P>>
    decreases fuel,
{
    if fuel == 0 {
        None
    } else {
        match program.plan(key, answers) {
            Plan::Done(value, notes) => Some(Ok(Node { value, notes, deps })),
            Plan::Fail(fault) => Some(Err(fault)),
            Plan::Read(cell) => if cell < inputs.len() {
                run(
                    program,
                    inputs,
                    key,
                    answers.push(inputs[cell as int]),
                    deps.push(Dep::Input(cell)),
                    (fuel - 1) as nat,
                )
            } else {
                None
            },
            Plan::Call(callee) => match run(
                program,
                inputs,
                callee,
                Seq::empty(),
                Seq::empty(),
                (fuel - 1) as nat,
            ) {
                Some(Ok(node)) => run(
                    program,
                    inputs,
                    key,
                    answers.push(node.value),
                    deps.push(Dep::Query(callee)),
                    (fuel - 1) as nat,
                ),
                Some(Err(fault)) => Some(Err(fault)),
                None => None,
            },
        }
    }
}

/// `key` evaluates to `outcome` on these inputs when computed from scratch.
pub open spec fn denotes<P: Program>(
    program: &P,
    inputs: Seq<ValueModel<P>>,
    key: KeyModel<P>,
    outcome: Outcome<P>,
) -> bool {
    exists|fuel: nat| #[trigger]
        run(program, inputs, key, Seq::empty(), Seq::empty(), fuel) == Some(outcome)
}

/// More fuel never changes a result that was reached.
pub proof fn lemma_run_more_fuel<P: Program>(
    program: &P,
    inputs: Seq<ValueModel<P>>,
    key: KeyModel<P>,
    answers: Seq<ValueModel<P>>,
    deps: Seq<Dep<KeyModel<P>>>,
    fuel: nat,
    more: nat,
)
    requires
        run(program, inputs, key, answers, deps, fuel) is Some,
        fuel <= more,
    ensures
        run(program, inputs, key, answers, deps, more) == run(
            program,
            inputs,
            key,
            answers,
            deps,
            fuel,
        ),
    decreases fuel,
{
    match program.plan(key, answers) {
        Plan::Done(value, notes) => {},
        Plan::Fail(fault) => {},
        Plan::Read(cell) => {
            lemma_run_more_fuel(
                program,
                inputs,
                key,
                answers.push(inputs[cell as int]),
                deps.push(Dep::Input(cell)),
                (fuel - 1) as nat,
                (more - 1) as nat,
            );
        },
        Plan::Call(callee) => {
            lemma_run_more_fuel(
                program,
                inputs,
                callee,
                Seq::empty(),
                Seq::empty(),
                (fuel - 1) as nat,
                (more - 1) as nat,
            );
            match run(program, inputs, callee, Seq::empty(), Seq::empty(), (fuel - 1) as nat) {
                Some(Ok(node)) => {
                    lemma_run_more_fuel(
                        program,
                        inputs,
                        key,
                        answers.push(node.value),
                        deps.push(Dep::Query(callee)),
                        (fuel - 1) as nat,
                        (more - 1) as nat,
                    );
                },
                _ => {},
            }
        },
    }
}

/// A query has at most one meaning.
pub proof fn lemma_denotes_unique<P: Program>(
    program: &P,
    inputs: Seq<ValueModel<P>>,
    key: KeyModel<P>,
    first: Outcome<P>,
    second: Outcome<P>,
)
    requires
        denotes(program, inputs, key, first),
        denotes(program, inputs, key, second),
    ensures
        first == second,
{
    let f1 = choose|fuel: nat| #[trigger]
        run(program, inputs, key, Seq::empty(), Seq::empty(), fuel) == Some(first);
    let f2 = choose|fuel: nat| #[trigger]
        run(program, inputs, key, Seq::empty(), Seq::empty(), fuel) == Some(second);
    if f1 <= f2 {
        lemma_run_more_fuel(program, inputs, key, Seq::empty(), Seq::empty(), f1, f2);
    } else {
        lemma_run_more_fuel(program, inputs, key, Seq::empty(), Seq::empty(), f2, f1);
    }
}

/// `key` evaluates from scratch to a node with this value.
pub open spec fn yields<P: Program>(
    program: &P,
    inputs: Seq<ValueModel<P>>,
    key: KeyModel<P>,
    value: ValueModel<P>,
) -> bool {
    exists|node: Node<KeyModel<P>, ValueModel<P>, NoteModel<P>>| #[trigger]
        denotes(program, inputs, key, Ok(node)) && node.value == value
}

/// After the first `at` answers, the body of `key` asks for `deps[at]`.
pub open spec fn asks<P: Program>(
    program: &P,
    key: KeyModel<P>,
    answers: Seq<ValueModel<P>>,
    deps: Seq<Dep<KeyModel<P>>>,
    at: int,
) -> bool {
    match program.plan(key, answers.take(at)) {
        Plan::Read(cell) => deps[at] == Dep::<KeyModel<P>>::Input(cell),
        Plan::Call(callee) => deps[at] == Dep::Query(callee),
        _ => false,
    }
}

/// `answer` is what `dep` is worth on these inputs.
pub open spec fn answered<P: Program>(
    program: &P,
    inputs: Seq<ValueModel<P>>,
    dep: Dep<KeyModel<P>>,
    answer: ValueModel<P>,
) -> bool {
    match dep {
        Dep::Input(cell) => cell < inputs.len() && inputs[cell as int] == answer,
        Dep::Query(callee) => yields(program, inputs, callee, answer),
    }
}

/// A faithful record of a query body up to some point: each request is the
/// one the body makes after the answers before it, and each answer is true.
pub open spec fn faithful<P: Program>(
    program: &P,
    inputs: Seq<ValueModel<P>>,
    key: KeyModel<P>,
    answers: Seq<ValueModel<P>>,
    deps: Seq<Dep<KeyModel<P>>>,
) -> bool {
    &&& answers.len() == deps.len()
    &&& forall|at: int|
        0 <= at < deps.len() ==> #[trigger] asks(program, key, answers, deps, at)
    &&& forall|at: int|
        0 <= at < deps.len() ==> answered(program, inputs, #[trigger] deps[at], answers[at])
}

proof fn lemma_rewind<P: Program>(
    program: &P,
    inputs: Seq<ValueModel<P>>,
    key: KeyModel<P>,
    answers: Seq<ValueModel<P>>,
    deps: Seq<Dep<KeyModel<P>>>,
    at: int,
    fuel: nat,
    outcome: Outcome<P>,
) -> (enough: nat)
    requires
        faithful(program, inputs, key, answers, deps),
        0 <= at <= deps.len(),
        run(program, inputs, key, answers.take(at), deps.take(at), fuel) == Some(outcome),
    ensures
        run(program, inputs, key, Seq::empty(), Seq::empty(), enough) == Some(outcome),
    decreases at,
{
    if at == 0 {
        assert(answers.take(0) =~= Seq::empty());
        assert(deps.take(0) =~= Seq::empty());
        fuel
    } else {
        let prev = at - 1;
        assert(asks(program, key, answers, deps, prev));
        assert(answered(program, inputs, deps[prev], answers[prev]));
        assert(answers.take(prev).push(answers[prev]) =~= answers.take(at));
        assert(deps.take(prev).push(deps[prev]) =~= deps.take(at));
        match program.plan(key, answers.take(prev)) {
            Plan::Read(cell) => {
                lemma_rewind(
                    program,
                    inputs,
                    key,
                    answers,
                    deps,
                    prev,
                    fuel + 1,
                    outcome,
                )
            },
            Plan::Call(callee) => {
                let node = choose|node: Node<KeyModel<P>, ValueModel<P>, NoteModel<P>>| #[trigger]
                    denotes(program, inputs, callee, Ok(node)) && node.value == answers[prev];
                let inner = choose|f: nat| #[trigger]
                    run(program, inputs, callee, Seq::empty(), Seq::empty(), f) == Some(
                        Ok::<_, ValueModel<P>>(node),
                    );
                let both = if inner <= fuel {
                    fuel
                } else {
                    inner
                };
                lemma_run_more_fuel(
                    program,
                    inputs,
                    callee,
                    Seq::empty(),
                    Seq::empty(),
                    inner,
                    both,
                );
                lemma_run_more_fuel(
                    program,
                    inputs,
                    key,
                    answers.take(at),
                    deps.take(at),
                    fuel,
                    both,
                );
                lemma_rewind(program, inputs, key, answers, deps, prev, both + 1, outcome)
            },
            _ => 0,
        }
    }
}

/// If a faithful record of `key` continues to `outcome`, then `outcome` is
/// what `key` means.
pub proof fn lemma_faithful_outcome<P: Program>(
    program: &P,
    inputs: Seq<ValueModel<P>>,
    key: KeyModel<P>,
    answers: Seq<ValueModel<P>>,
    deps: Seq<Dep<KeyModel<P>>>,
    fuel: nat,
    outcome: Outcome<P>,
)
    requires
        faithful(program, inputs, key, answers, deps),
        run(program, inputs, key, answers, deps, fuel) == Some(outcome),
    ensures
        denotes(program, inputs, key, outcome),
{
    assert(answers.take(answers.len() as int) =~= answers);
    assert(deps.take(deps.len() as int) =~= deps);
    let enough = lemma_rewind(
        program,
        inputs,
        key,
        answers,
        deps,
        deps.len() as int,
        fuel,
        outcome,
    );
}

/// A faithful record whose body then finishes gives the meaning of `key`.
pub proof fn lemma_faithful_done<P: Program>(
    program: &P,
    inputs: Seq<ValueModel<P>>,
    key: KeyModel<P>,
    answers: Seq<ValueModel<P>>,
    deps: Seq<Dep<KeyModel<P>>>,
)
    requires
        faithful(program, inputs, key, answers, deps),
        program.plan(key, answers) is Done,
    ensures
        denotes(
            program,
            inputs,
            key,
            Ok(
                Node {
                    value: program.plan(key, answers)->Done_0,
                    notes: program.plan(key, answers)->Done_1,
                    deps,
                },
            ),
        ),
{
    let node = Node {
        value: program.plan(key, answers)->Done_0,
        notes: program.plan(key, answers)->Done_1,
        deps,
    };
    assert(run(program, inputs, key, answers, deps, 1) == Some(Ok::<_, ValueModel<P>>(node)));
    lemma_faithful_outcome(program, inputs, key, answers, deps, 1, Ok(node));
}

/// A faithful record whose body then fails gives the fault as the meaning.
pub proof fn lemma_faithful_fail<P: Program>(
    program: &P,
    inputs: Seq<ValueModel<P>>,
    key: KeyModel<P>,
    answers: Seq<ValueModel<P>>,
    deps: Seq<Dep<KeyModel<P>>>,
)
    requires
        faithful(program, inputs, key, answers, deps),
        program.plan(key, answers) is Fail,
    ensures
        denotes(program, inputs, key, Err(program.plan(key, answers)->Fail_0)),
{
    let fault = program.plan(key, answers)->Fail_0;
    assert(run(program, inputs, key, answers, deps, 1) == Some(Outcome::<P>::Err(fault)));
    lemma_faithful_outcome(program, inputs, key, answers, deps, 1, Err(fault));
}

/// A faithful record whose body then calls a query that fails inherits the
/// fault.
pub proof fn lemma_faithful_callee_fails<P: Program>(
    program: &P,
    inputs: Seq<ValueModel<P>>,
    key: KeyModel<P>,
    answers: Seq<ValueModel<P>>,
    deps: Seq<Dep<KeyModel<P>>>,
    callee: KeyModel<P>,
    fault: ValueModel<P>,
)
    requires
        faithful(program, inputs, key, answers, deps),
        program.plan(key, answers) == Plan::<KeyModel<P>, ValueModel<P>, NoteModel<P>>::Call(
            callee,
        ),
        denotes(program, inputs, callee, Err(fault)),
    ensures
        denotes(program, inputs, key, Err(fault)),
{
    let inner = choose|f: nat| #[trigger]
        run(program, inputs, callee, Seq::empty(), Seq::empty(), f) == Some(
            Outcome::<P>::Err(fault),
        );
    assert(run(program, inputs, key, answers, deps, inner + 1) == Some(
        Outcome::<P>::Err(fault),
    ));
    lemma_faithful_outcome(program, inputs, key, answers, deps, inner + 1, Err(fault));
}

/// Declaring one more input cell changes no result that was reached.
pub proof fn lemma_run_more_inputs<P: Program>(
    program: &P,
    inputs: Seq<ValueModel<P>>,
    extra: ValueModel<P>,
    key: KeyModel<P>,
    answers: Seq<ValueModel<P>>,
    deps: Seq<Dep<KeyModel<P>>>,
    fuel: nat,
)
    requires
        run(program, inputs, key, answers, deps, fuel) is Some,
    ensures
        run(program, inputs.push(extra), key, answers, deps, fuel) == run(
            program,
            inputs,
            key,
            answers,
            deps,
            fuel,
        ),
    decreases fuel,
{
    match program.plan(key, answers) {
        Plan::Done(value, notes) => {},
        Plan::Fail(fault) => {},
        Plan::Read(cell) => {
            lemma_run_more_inputs(
                program,
                inputs,
                extra,
                key,
                answers.push(inputs[cell as int]),
                deps.push(Dep::Input(cell)),
                (fuel - 1) as nat,
            );
        },
        Plan::Call(callee) => {
            lemma_run_more_inputs(
                program,
                inputs,
                extra,
                callee,
                Seq::empty(),
                Seq::empty(),
                (fuel - 1) as nat,
            );
            match run(program, inputs, callee, Seq::empty(), Seq::empty(), (fuel - 1) as nat) {
                Some(Ok(node)) => {
                    lemma_run_more_inputs(
                        program,
                        inputs,
                        extra,
                        key,
                        answers.push(node.value),
                        deps.push(Dep::Query(callee)),
                        (fuel - 1) as nat,
                    );
                },
                _ => {},
            }
        },
    }
}

/// Declaring one more input cell changes no query's meaning.
pub proof fn lemma_denotes_more_inputs<P: Program>(
    program: &P,
    inputs: Seq<ValueModel<P>>,
    extra: ValueModel<P>,
    key: KeyModel<P>,
    outcome: Outcome<P>,
)
    requires
        denotes(program, inputs, key, outcome),
    ensures
        denotes(program, inputs.push(extra), key, outcome),
{
    let fuel = choose|fuel: nat| #[trigger]
        run(program, inputs, key, Seq::empty(), Seq::empty(), fuel) == Some(outcome);
    lemma_run_more_inputs(program, inputs, extra, key, Seq::empty(), Seq::empty(), fuel);
}

/// Runs the body of `key` from the given point with nothing cached, within
/// limits: queries may nest `depth` deep from here, this body may make
/// `reads` more requests, and every body beneath it `limit` requests.
/// `None` means that a limit was reached, or that the body asked for a cell
/// that does not exist.
pub open spec fn run_within<P: Program>(
    program: &P,
    inputs: Seq<ValueModel<P>>,
    limit: nat,
    key: KeyModel<P>,
    answers: Seq<ValueModel<P>>,
    deps: Seq<Dep<KeyModel<P>>>,
    depth: nat,
    reads: nat,
) -> Option<Outcome<P>>
    decreases depth, reads,
{
    if reads == 0 {
        None
    } else {
        match program.plan(key, answers) {
            Plan::Done(value, notes) => Some(Ok(Node { value, notes, deps })),
            Plan::Fail(fault) => Some(Err(fault)),
            Plan::Read(cell) => if cell < inputs.len() {
                run_within(
                    program,
                    inputs,
                    limit,
                    key,
                    answers.push(inputs[cell as int]),
                    deps.push(Dep::Input(cell)),
                    depth,
                    (reads - 1) as nat,
                )
            } else {
                None
            },
            Plan::Call(callee) => if depth == 0 {
                None
            } else {
                match run_within(
                    program,
                    inputs,
                    limit,
                    callee,
                    Seq::empty(),
                    Seq::empty(),
                    (depth - 1) as nat,
                    limit,
                ) {
                    Some(Ok(node)) => run_within(
                        program,
                        inputs,
                        limit,
                        key,
                        answers.push(node.value),
                        deps.push(Dep::Query(callee)),
                        depth,
                        (reads - 1) as nat,
                    ),
                    Some(Err(fault)) => Some(Err(fault)),
                    None => None,
                }
            },
        }
    }
}

/// What `key` evaluates to from scratch within the limits, if they suffice.
pub open spec fn evaluation<P: Program>(
    program: &P,
    inputs: Seq<ValueModel<P>>,
    key: KeyModel<P>,
    depth: nat,
    limit: nat,
) -> Option<Outcome<P>> {
    run_within(program, inputs, limit, key, Seq::empty(), Seq::empty(), depth, limit)
}

/// What is reached within limits is reached without them.
pub proof fn lemma_within_run<P: Program>(
    program: &P,
    inputs: Seq<ValueModel<P>>,
    limit: nat,
    key: KeyModel<P>,
    answers: Seq<ValueModel<P>>,
    deps: Seq<Dep<KeyModel<P>>>,
    depth: nat,
    reads: nat,
) -> (fuel: nat)
    requires
        run_within(program, inputs, limit, key, answers, deps, depth, reads) is Some,
    ensures
        run(program, inputs, key, answers, deps, fuel) == run_within(
            program,
            inputs,
            limit,
            key,
            answers,
            deps,
            depth,
            reads,
        ),
    decreases depth, reads,
{
    match program.plan(key, answers) {
        Plan::Done(value, notes) => 1,
        Plan::Fail(fault) => 1,
        Plan::Read(cell) => {
            let rest = lemma_within_run(
                program,
                inputs,
                limit,
                key,
                answers.push(inputs[cell as int]),
                deps.push(Dep::Input(cell)),
                depth,
                (reads - 1) as nat,
            );
            rest + 1
        },
        Plan::Call(callee) => {
            let inner = lemma_within_run(
                program,
                inputs,
                limit,
                callee,
                Seq::empty(),
                Seq::empty(),
                (depth - 1) as nat,
                limit,
            );
            match run_within(
                program,
                inputs,
                limit,
                callee,
                Seq::empty(),
                Seq::empty(),
                (depth - 1) as nat,
                limit,
            ) {
                Some(Ok(node)) => {
                    let rest = lemma_within_run(
                        program,
                        inputs,
                        limit,
                        key,
                        answers.push(node.value),
                        deps.push(Dep::Query(callee)),
                        depth,
                        (reads - 1) as nat,
                    );
                    let both = if inner <= rest {
                        rest
                    } else {
                        inner
                    };
                    lemma_run_more_fuel(
                        program,
                        inputs,
                        callee,
                        Seq::empty(),
                        Seq::empty(),
                        inner,
                        both,
                    );
                    lemma_run_more_fuel(
                        program,
                        inputs,
                        key,
                        answers.push(node.value),
                        deps.push(Dep::Query(callee)),
                        rest,
                        both,
                    );
                    both + 1
                },
                _ => inner + 1,
            }
        },
    }
}

/// What a query evaluates to within limits is what it means.
pub proof fn lemma_evaluation_denotes<P: Program>(
    program: &P,
    inputs: Seq<ValueModel<P>>,
    key: KeyModel<P>,
    depth: nat,
    limit: nat,
)
    requires
        evaluation(program, inputs, key, depth, limit) is Some,
    ensures
        denotes(program, inputs, key, evaluation(program, inputs, key, depth, limit)->0),
{
    let fuel = lemma_within_run(
        program,
        inputs,
        limit,
        key,
        Seq::empty(),
        Seq::empty(),
        depth,
        limit,
    );
}

/// An evaluation that succeeds passes through every faithful record of its
/// body.
pub proof fn lemma_within_prefix<P: Program>(
    program: &P,
    inputs: Seq<ValueModel<P>>,
    limit: nat,
    key: KeyModel<P>,
    answers: Seq<ValueModel<P>>,
    deps: Seq<Dep<KeyModel<P>>>,
    depth: nat,
    n: int,
)
    requires
        faithful(program, inputs, key, answers, deps),
        0 <= n <= deps.len(),
        evaluation(program, inputs, key, depth, limit) is Some,
    ensures
        n < limit,
        run_within(
            program,
            inputs,
            limit,
            key,
            answers.take(n),
            deps.take(n),
            depth,
            (limit - n) as nat,
        ) == evaluation(program, inputs, key, depth, limit),
    decreases n,
{
    if n == 0 {
        assert(answers.take(0) =~= Seq::empty());
        assert(deps.take(0) =~= Seq::empty());
    } else {
        let j = n - 1;
        lemma_within_prefix(program, inputs, limit, key, answers, deps, depth, j);
        assert(asks(program, key, answers, deps, j));
        assert(answered(program, inputs, deps[j], answers[j]));
        assert(answers.take(j).push(answers[j]) =~= answers.take(n));
        assert(deps.take(j).push(deps[j]) =~= deps.take(n));
        let total = evaluation(program, inputs, key, depth, limit);
        match program.plan(key, answers.take(j)) {
            Plan::Read(cell) => {},
            Plan::Call(callee) => {
                let inner = evaluation(program, inputs, callee, (depth - 1) as nat, limit);
                assert(inner is Some);
                lemma_evaluation_denotes(program, inputs, callee, (depth - 1) as nat, limit);
                let node = choose|node: Node<KeyModel<P>, ValueModel<P>, NoteModel<P>>| #[trigger]
                    denotes(program, inputs, callee, Ok(node)) && node.value == answers[j];
                lemma_denotes_unique(program, inputs, callee, inner->0, Ok(node));
            },
            _ => {},
        }
        let after = run_within(
            program,
            inputs,
            limit,
            key,
            answers.take(n),
            deps.take(n),
            depth,
            (limit - n) as nat,
        );
        assert(after == total);
        assert(n < limit);
    }
}

/// A query in progress: its key and the faithful record of its body so far.
pub struct Link<K, V> {
    pub key: K,
    pub heard: Seq<V>,
    pub read: Seq<Dep<K>>,
}

/// The key that the body at position `at` of the chain asks for next: that
/// of the following link, or `target` after the last.
pub open spec fn next_key<K, V>(chain: Seq<Link<K, V>>, target: K, at: int) -> K {
    if at + 1 < chain.len() {
        chain[at + 1].key
    } else {
        target
    }
}

/// A chain of calls in progress that ends in a call of `target`.
pub open spec fn chain_ok<P: Program>(
    program: &P,
    inputs: Seq<ValueModel<P>>,
    chain: Seq<Link<KeyModel<P>, ValueModel<P>>>,
    target: KeyModel<P>,
) -> bool {
    forall|at: int|
        0 <= at < chain.len() ==> faithful(
            program,
            inputs,
            (#[trigger] chain[at]).key,
            chain[at].heard,
            chain[at].read,
        ) && program.plan(chain[at].key, chain[at].heard) == Plan::<
            KeyModel<P>,
            ValueModel<P>,
            NoteModel<P>,
        >::Call(next_key(chain, target, at))
}

/// If the query at position `at` of a chain evaluates within `depth`, then
/// the chain's target evaluates within less.
proof fn lemma_chain_descends<P: Program>(
    program: &P,
    inputs: Seq<ValueModel<P>>,
    limit: nat,
    chain: Seq<Link<KeyModel<P>, ValueModel<P>>>,
    target: KeyModel<P>,
    at: int,
    depth: nat,
) -> (less: nat)
    requires
        chain_ok(program, inputs, chain, target),
        0 <= at < chain.len(),
        evaluation(program, inputs, chain[at].key, depth, limit) is Some,
    ensures
        less < depth,
        evaluation(program, inputs, target, less, limit) is Some,
    decreases chain.len() - at,
{
    let link = chain[at];
    lemma_within_prefix(
        program,
        inputs,
        limit,
        link.key,
        link.heard,
        link.read,
        depth,
        link.read.len() as int,
    );
    assert(link.heard.take(link.read.len() as int) =~= link.heard);
    assert(link.read.take(link.read.len() as int) =~= link.read);
    let next = next_key(chain, target, at);
    assert(depth > 0);
    assert(evaluation(program, inputs, next, (depth - 1) as nat, limit) is Some);
    if at + 1 < chain.len() {
        lemma_chain_descends(program, inputs, limit, chain, target, at + 1, (depth - 1) as nat)
    } else {
        (depth - 1) as nat
    }
}

/// A query that is called while it is itself in progress does not evaluate,
/// however deep queries may nest.
pub proof fn lemma_cycle_stuck<P: Program>(
    program: &P,
    inputs: Seq<ValueModel<P>>,
    limit: nat,
    chain: Seq<Link<KeyModel<P>, ValueModel<P>>>,
    target: KeyModel<P>,
    at: int,
    depth: nat,
)
    requires
        chain_ok(program, inputs, chain, target),
        0 <= at < chain.len(),
        chain[at].key == target,
    ensures
        evaluation(program, inputs, target, depth, limit) is None,
    decreases depth,
{
    if evaluation(program, inputs, target, depth, limit) is Some {
        let less = lemma_chain_descends(program, inputs, limit, chain, target, at, depth);
        lemma_cycle_stuck(program, inputs, limit, chain, target, at, less);
    }
}

/// A chain stays a chain when the body that called its target has itself
/// come to a call.
pub proof fn lemma_chain_push<P: Program>(
    program: &P,
    inputs: Seq<ValueModel<P>>,
    chain: Seq<Link<KeyModel<P>, ValueModel<P>>>,
    link: Link<KeyModel<P>, ValueModel<P>>,
    callee: KeyModel<P>,
)
    requires
        chain_ok(program, inputs, chain, link.key),
        faithful(program, inputs, link.key, link.heard, link.read),
        program.plan(link.key, link.heard) == Plan::<
            KeyModel<P>,
            ValueModel<P>,
            NoteModel<P>,
        >::Call(callee),
    ensures
        chain_ok(program, inputs, chain.push(link), callee),
{
    let longer = chain.push(link);
    assert forall|at: int| 0 <= at < longer.len() implies faithful(
        program,
        inputs,
        (#[trigger] longer[at]).key,
        longer[at].heard,
        longer[at].read,
    ) && program.plan(longer[at].key, longer[at].heard) == Plan::<
        KeyModel<P>,
        ValueModel<P>,
        NoteModel<P>,
    >::Call(next_key(longer, callee, at)) by {
        if at < chain.len() {
            assert(longer[at] == chain[at]);
            assert(next_key(longer, callee, at) == next_key(chain, link.key, at));
        }
    }
}

/// A body that has come to a call does not evaluate if the callee does not
/// evaluate one level deeper.
pub proof fn lemma_callee_stuck<P: Program>(
    program: &P,
    inputs: Seq<ValueModel<P>>,
    limit: nat,
    key: KeyModel<P>,
    heard: Seq<ValueModel<P>>,
    read: Seq<Dep<KeyModel<P>>>,
    callee: KeyModel<P>,
    depth: nat,
)
    requires
        faithful(program, inputs, key, heard, read),
        program.plan(key, heard) == Plan::<KeyModel<P>, ValueModel<P>, NoteModel<P>>::Call(
            callee,
        ),
        depth == 0 || evaluation(program, inputs, callee, (depth - 1) as nat, limit) is None,
    ensures
        evaluation(program, inputs, key, depth, limit) is None,
{
    if evaluation(program, inputs, key, depth, limit) is Some {
        lemma_within_prefix(program, inputs, limit, key, heard, read, depth, read.len() as int);
        assert(heard.take(read.len() as int) =~= heard);
        assert(read.take(read.len() as int) =~= read);
    }
}

/// A body that has made as many requests as it may does not evaluate.
pub proof fn lemma_reads_exhausted<P: Program>(
    program: &P,
    inputs: Seq<ValueModel<P>>,
    limit: nat,
    key: KeyModel<P>,
    heard: Seq<ValueModel<P>>,
    read: Seq<Dep<KeyModel<P>>>,
    depth: nat,
)
    requires
        faithful(program, inputs, key, heard, read),
        read.len() >= limit,
    ensures
        evaluation(program, inputs, key, depth, limit) is None,
{
    if evaluation(program, inputs, key, depth, limit) is Some {
        lemma_within_prefix(program, inputs, limit, key, heard, read, depth, read.len() as int);
    }
}

/// A body that has come to read a cell that does not exist does not
/// evaluate.
pub proof fn lemma_unknown_cell<P: Program>(
    program: &P,
    inputs: Seq<ValueModel<P>>,
    limit: nat,
    key: KeyModel<P>,
    heard: Seq<ValueModel<P>>,
    read: Seq<Dep<KeyModel<P>>>,
    cell: usize,
    depth: nat,
)
    requires
        faithful(program, inputs, key, heard, read),
        program.plan(key, heard) == Plan::<KeyModel<P>, ValueModel<P>, NoteModel<P>>::Read(cell),
        cell >= inputs.len(),
    ensures
        evaluation(program, inputs, key, depth, limit) is None,
{
    if evaluation(program, inputs, key, depth, limit) is Some {
        lemma_within_prefix(program, inputs, limit, key, heard, read, depth, read.len() as int);
        assert(heard.take(read.len() as int) =~= heard);
        assert(read.take(read.len() as int) =~= read);
    }
}

} // verus!
