//! Single-unit traversal of the reference-resolution tree.
//!
//! `all_referenced_modules` walks the whole resolution tree behind one
//! module's direct references with a FIFO queue, one resolution at a
//! time: the queue order is the output order, deliberately sequential
//! so the result is deterministic. `primary_referenced_modules` is the
//! shallow variant that resolves only the direct references.

use vstd::prelude::*;

use crate::module_graph::ModuleGraph;
use crate::module_graph::Resolution;
use crate::support::all_below_spec;
use crate::support::copy_values;
use crate::support::extend_values;

verus! {

/// A traversal failed because the resolution boundary recorded a
/// failure for this reference.
#[derive(Clone, Copy, Debug, PartialEq, Eq, Structural)]
pub struct ResolveError {
    pub reference: usize,
}

/// Size of the resolution tree rooted at reference `r`: how many
/// references a FIFO walk that starts at `r` eventually pops.
pub open spec fn reference_weight(g: ModuleGraph, r: int) -> nat
    decreases r, 1int, 0int,
        when g.wf() && 0 <= r < g.reference_count_spec()
{
    proof {
        assert(g.resolution_wf(r));
    }
    match g.resolution_of(r) {
        Resolution::Failed => 1,
        Resolution::Resolved(res) => 1 + references_weight(g, res.further_references@, r),
    }
}

/// Combined size of the resolution trees rooted at the references of
/// `q`, all of which lie below `bound`.
pub open spec fn references_weight(g: ModuleGraph, q: Seq<usize>, bound: int) -> nat
    decreases bound, 0int, q.len(),
        when g.wf() && 0 <= bound <= g.reference_count_spec() && all_below_spec(q, bound)
{
    if q.len() == 0 {
        0
    } else {
        reference_weight(g, q[0] as int) + references_weight(g, q.drop_first(), bound)
    }
}

/// Combined size of the resolution trees of a pending queue.
pub open spec fn queue_weight(g: ModuleGraph, q: Seq<usize>) -> nat {
    references_weight(g, q, g.reference_count_spec())
}

/// The weight of a reference sequence does not depend on the bound
/// under which it is computed.
proof fn lemma_references_weight_bound(g: ModuleGraph, q: Seq<usize>, b1: int, b2: int)
    requires
        g.wf(),
        0 <= b1 <= g.reference_count_spec(),
        0 <= b2 <= g.reference_count_spec(),
        all_below_spec(q, b1),
        all_below_spec(q, b2),
    ensures
        references_weight(g, q, b1) == references_weight(g, q, b2),
    decreases q.len(),
{
    if q.len() > 0 {
        assert(all_below_spec(q.drop_first(), b1));
        assert(all_below_spec(q.drop_first(), b2));
        lemma_references_weight_bound(g, q.drop_first(), b1, b2);
    }
}

/// Weight distributes over concatenation.
proof fn lemma_references_weight_concat(g: ModuleGraph, a: Seq<usize>, b: Seq<usize>, bound: int)
    requires
        g.wf(),
        0 <= bound <= g.reference_count_spec(),
        all_below_spec(a, bound),
        all_below_spec(b, bound),
    ensures
        references_weight(g, a + b, bound) == references_weight(g, a, bound)
            + references_weight(g, b, bound),
    decreases a.len(),
{
    assert(all_below_spec(a + b, bound));
    if a.len() == 0 {
        assert(a + b =~= b);
    } else {
        assert((a + b)[0] == a[0]);
        assert((a + b).drop_first() =~= a.drop_first() + b);
        assert(all_below_spec(a.drop_first(), bound));
        lemma_references_weight_concat(g, a.drop_first(), b, bound);
    }
}

/// Popping the front reference of a pending queue and enqueueing its
/// further references strictly shrinks the queue's weight.
pub proof fn lemma_queue_weight_step(g: ModuleGraph, q: Seq<usize>)
    requires
        g.wf(),
        all_below_spec(q, g.reference_count_spec()),
        q.len() > 0,
        g.resolution_of(q[0] as int) is Resolved,
    ensures
        (match g.resolution_of(q[0] as int) {
            Resolution::Resolved(res) => all_below_spec(
                q.drop_first() + res.further_references@,
                g.reference_count_spec(),
            ) && queue_weight(g, q.drop_first() + res.further_references@) < queue_weight(g, q),
            Resolution::Failed => false,
        }),
{
    let r = q[0] as int;
    let n = g.reference_count_spec();
    assert(g.resolution_wf(r));
    match g.resolution_of(r) {
        Resolution::Resolved(res) => {
            let further = res.further_references@;
            assert(all_below_spec(q.drop_first(), n));
            assert(all_below_spec(further, n)) by {
                assert forall|i: int| 0 <= i < further.len() implies (#[trigger] further[i])
                    < n by {
                    assert(further[i] < r);
                }
            }
            assert(all_below_spec(q.drop_first() + further, n));
            lemma_references_weight_concat(g, q.drop_first(), further, n);
            lemma_references_weight_bound(g, further, r, n);
            assert(references_weight(g, q, n) == reference_weight(g, r) + references_weight(
                g,
                q.drop_first(),
                n,
            ));
            assert(reference_weight(g, r) == 1 + references_weight(g, further, r));
        },
        Resolution::Failed => {
            assert(false);
        },
    }
}

/// The outcome of the FIFO reference walk: pop the front reference,
/// emit its primary targets in order and without deduplication, push
/// the resolutions of its further references to the back, until the
/// queue empties; the first popped reference whose resolution failed
/// aborts the walk.
pub open spec fn walk_refs(g: ModuleGraph, q: Seq<usize>) -> Result<Seq<usize>, usize>
    decreases queue_weight(g, q),
        when g.wf() && all_below_spec(q, g.reference_count_spec())
{
    if q.len() == 0 {
        Ok(Seq::empty())
    } else {
        match g.resolution_of(q[0] as int) {
            Resolution::Failed => Err(q[0]),
            Resolution::Resolved(res) => {
                proof {
                    lemma_queue_weight_step(g, q);
                }
                match walk_refs(g, q.drop_first() + res.further_references@) {
                    Ok(rest) => Ok(res.primary_targets@ + rest),
                    Err(e) => Err(e),
                }
            },
        }
    }
}

/// Everything module `m`'s reference-resolution tree emits, in FIFO
/// order: the recorded meaning of `all_referenced_modules`.
pub open spec fn expansion(g: ModuleGraph, m: int) -> Result<Seq<usize>, usize> {
    walk_refs(g, g.references_of(m))
}

/// Aggregates all modules referenced by a module, primary and
/// secondary: resolves the module's direct references, then every
/// further reference those resolutions discover, strictly in FIFO
/// order, appending each resolution's primary targets to the output
/// without deduplication.
///
/// Fails exactly when the walk reaches a reference whose recorded
/// resolution failed, naming the first such reference in queue order;
/// no partial output is returned.
pub fn all_referenced_modules(graph: &ModuleGraph, module: usize) -> (result: Result<
    Vec<usize>,
    ResolveError,
>)
    requires
        graph.wf(),
        module < graph.module_count_spec(),
    ensures
        (match result {
            Ok(modules) => expansion(*graph, module as int) == Ok::<Seq<usize>, usize>(modules@)
                && all_below_spec(modules@, graph.module_count_spec()),
            Err(e) => expansion(*graph, module as int) == Err::<Seq<usize>, usize>(e.reference)
                && e.reference < graph.reference_count_spec()
                && graph.resolution_of(e.reference as int) is Failed,
        }),
{
    let mut queue: Vec<usize> = copy_values(graph.references(module));
    let mut head: usize = 0;
    let mut modules: Vec<usize> = Vec::new();
    proof {
        assert(all_below_spec(graph.references_of(module as int), graph.reference_count_spec()));
        assert(queue@.skip(0) =~= graph.references_of(module as int));
        assert(modules@ + queue@.skip(0) =~= queue@.skip(0));
    }
    while head < queue.len()
        invariant
            graph.wf(),
            module < graph.module_count_spec(),
            head <= queue@.len(),
            all_below_spec(queue@.skip(head as int), graph.reference_count_spec()),
            all_below_spec(modules@, graph.module_count_spec()),
            (match walk_refs(*graph, queue@.skip(head as int)) {
                Ok(rest) => expansion(*graph, module as int) == Ok::<Seq<usize>, usize>(
                    modules@ + rest,
                ),
                Err(e) => expansion(*graph, module as int) == Err::<Seq<usize>, usize>(e),
            }),
        decreases queue_weight(*graph, queue@.skip(head as int)),
    {
        let ghost qpart = queue@.skip(head as int);
        let r = queue[head];
        head = head + 1;
        proof {
            assert(qpart.len() > 0);
            assert(qpart[0] == r);
            assert(graph.resolution_wf(r as int));
        }
        match graph.resolution(r) {
            Resolution::Failed => {
                proof {
                    assert(walk_refs(*graph, qpart) == Err::<Seq<usize>, usize>(r));
                }
                return Err(ResolveError { reference: r });
            },
            Resolution::Resolved(res) => {
                let ghost previous = modules@;
                extend_values(&mut modules, &res.primary_targets);
                extend_values(&mut queue, &res.further_references);
                proof {
                    lemma_queue_weight_step(*graph, qpart);
                    assert(queue@.skip(head as int) =~= qpart.drop_first()
                        + res.further_references@);
                    assert forall|i: int| 0 <= i < modules@.len() implies (#[trigger] modules@[i])
                        < graph.module_count_spec() by {
                        if i < previous.len() {
                            assert(modules@[i] == previous[i]);
                        } else {
                            assert(modules@[i] == res.primary_targets@[i - previous.len()]);
                        }
                    }
                    let wnew = walk_refs(*graph, queue@.skip(head as int));
                    if wnew is Ok {
                        assert((previous + res.primary_targets@) + wnew->Ok_0 =~= previous + (
                        res.primary_targets@ + wnew->Ok_0));
                    }
                }
            },
        }
    }
    proof {
        assert(queue@.skip(head as int) =~= Seq::<usize>::empty());
        assert(walk_refs(*graph, queue@.skip(head as int)) == Ok::<Seq<usize>, usize>(
            Seq::<usize>::empty(),
        ));
        assert(modules@ + Seq::<usize>::empty() =~= modules@);
    }
    Ok(modules)
}

/// The outcome of resolving only the direct references `q`, in
/// declaration order: each reference's primary targets flattened,
/// further references ignored; fails on the first reference in
/// declaration order whose recorded resolution failed.
pub open spec fn primary_walk(g: ModuleGraph, q: Seq<usize>) -> Result<Seq<usize>, usize>
    decreases q.len(),
{
    if q.len() == 0 {
        Ok(Seq::empty())
    } else {
        match g.resolution_of(q[0] as int) {
            Resolution::Failed => Err(q[0]),
            Resolution::Resolved(res) => match primary_walk(g, q.drop_first()) {
                Ok(rest) => Ok(res.primary_targets@ + rest),
                Err(e) => Err(e),
            },
        }
    }
}

/// Aggregates only the primary modules referenced by a module: resolves
/// the module's direct references and flattens their primary targets in
/// reference-declaration order, ignoring further references entirely.
///
/// Fails exactly when a direct reference's recorded resolution failed,
/// naming the first such reference in declaration order; no partial
/// output is returned.
pub fn primary_referenced_modules(graph: &ModuleGraph, module: usize) -> (result: Result<
    Vec<usize>,
    ResolveError,
>)
    requires
        graph.wf(),
        module < graph.module_count_spec(),
    ensures
        (match result {
            Ok(modules) => primary_walk(*graph, graph.references_of(module as int)) == Ok::<
                Seq<usize>,
                usize,
            >(modules@) && all_below_spec(modules@, graph.module_count_spec()),
            Err(e) => primary_walk(*graph, graph.references_of(module as int)) == Err::<
                Seq<usize>,
                usize,
            >(e.reference) && e.reference < graph.reference_count_spec()
                && graph.resolution_of(e.reference as int) is Failed,
        }),
{
    let references = graph.references(module);
    let mut head: usize = 0;
    let mut modules: Vec<usize> = Vec::new();
    proof {
        assert(all_below_spec(graph.references_of(module as int), graph.reference_count_spec()));
        assert(references@.skip(0) =~= graph.references_of(module as int));
        assert(modules@ + references@.skip(0) =~= references@.skip(0));
    }
    while head < references.len()
        invariant
            graph.wf(),
            module < graph.module_count_spec(),
            head <= references@.len(),
            references@ == graph.references_of(module as int),
            all_below_spec(modules@, graph.module_count_spec()),
            (match primary_walk(*graph, references@.skip(head as int)) {
                Ok(rest) => primary_walk(*graph, graph.references_of(module as int)) == Ok::<
                    Seq<usize>,
                    usize,
                >(modules@ + rest),
                Err(e) => primary_walk(*graph, graph.references_of(module as int)) == Err::<
                    Seq<usize>,
                    usize,
                >(e),
            }),
        decreases references@.len() - head,
    {
        let ghost qpart = references@.skip(head as int);
        let r = references[head];
        head = head + 1;
        proof {
            assert(qpart.len() > 0);
            assert(qpart[0] == r);
            assert(r < graph.reference_count_spec());
            assert(graph.resolution_wf(r as int));
            assert(qpart.drop_first() =~= references@.skip(head as int));
        }
        match graph.resolution(r) {
            Resolution::Failed => {
                return Err(ResolveError { reference: r });
            },
            Resolution::Resolved(res) => {
                let ghost previous = modules@;
                extend_values(&mut modules, &res.primary_targets);
                proof {
                    assert forall|i: int| 0 <= i < modules@.len() implies (#[trigger] modules@[i])
                        < graph.module_count_spec() by {
                        if i < previous.len() {
                            assert(modules@[i] == previous[i]);
                        } else {
                            assert(modules@[i] == res.primary_targets@[i - previous.len()]);
                        }
                    }
                    let wnew = primary_walk(*graph, references@.skip(head as int));
                    if wnew is Ok {
                        assert((previous + res.primary_targets@) + wnew->Ok_0 =~= previous + (
                        res.primary_targets@ + wnew->Ok_0));
                    }
                }
            },
        }
    }
    proof {
        assert(references@.skip(head as int) =~= Seq::<usize>::empty());
        assert(modules@ + Seq::<usize>::empty() =~= modules@);
    }
    Ok(modules)
}

/// The resolution tree rooted at reference `r` resolves successfully
/// throughout.
pub open spec fn tree_ok(g: ModuleGraph, r: int) -> bool
    decreases r, 1int, 0int,
        when g.wf() && 0 <= r < g.reference_count_spec()
{
    proof {
        assert(g.resolution_wf(r));
    }
    match g.resolution_of(r) {
        Resolution::Failed => false,
        Resolution::Resolved(res) => seq_tree_ok(g, res.further_references@, r),
    }
}

/// Every resolution tree rooted in `q` (all below `bound`) succeeds.
pub open spec fn seq_tree_ok(g: ModuleGraph, q: Seq<usize>, bound: int) -> bool
    decreases bound, 0int, q.len(),
        when g.wf() && 0 <= bound <= g.reference_count_spec() && all_below_spec(q, bound)
{
    q.len() == 0 || (tree_ok(g, q[0] as int) && seq_tree_ok(g, q.drop_first(), bound))
}

/// The set of modules the resolution tree rooted at `r` emits.
pub open spec fn tree_modules(g: ModuleGraph, r: int) -> Set<usize>
    decreases r, 1int, 0int,
        when g.wf() && 0 <= r < g.reference_count_spec()
{
    proof {
        assert(g.resolution_wf(r));
    }
    match g.resolution_of(r) {
        Resolution::Failed => Set::empty(),
        Resolution::Resolved(res) => res.primary_targets@.to_set().union(
            seq_tree_modules(g, res.further_references@, r),
        ),
    }
}

/// The union of the modules of the resolution trees rooted in `q`.
pub open spec fn seq_tree_modules(g: ModuleGraph, q: Seq<usize>, bound: int) -> Set<usize>
    decreases bound, 0int, q.len(),
        when g.wf() && 0 <= bound <= g.reference_count_spec() && all_below_spec(q, bound)
{
    if q.len() == 0 {
        Set::empty()
    } else {
        tree_modules(g, q[0] as int).union(seq_tree_modules(g, q.drop_first(), bound))
    }
}

/// `seq_tree_ok` read element by element.
pub proof fn lemma_seq_tree_ok_elements(g: ModuleGraph, q: Seq<usize>, bound: int)
    requires
        g.wf(),
        0 <= bound <= g.reference_count_spec(),
        all_below_spec(q, bound),
    ensures
        seq_tree_ok(g, q, bound) <==> (forall|i: int|
            0 <= i < q.len() ==> tree_ok(g, (#[trigger] q[i]) as int)),
    decreases q.len(),
{
    if q.len() > 0 {
        assert(all_below_spec(q.drop_first(), bound));
        lemma_seq_tree_ok_elements(g, q.drop_first(), bound);
        if tree_ok(g, q[0] as int) && (forall|i: int|
            0 <= i < q.drop_first().len() ==> tree_ok(g, (#[trigger] q.drop_first()[i]) as int)) {
            assert forall|i: int| 0 <= i < q.len() implies tree_ok(g, (#[trigger] q[i]) as int) by {
                if i > 0 {
                    assert(q.drop_first()[i - 1] == q[i]);
                }
            }
        }
        if forall|i: int| 0 <= i < q.len() ==> tree_ok(g, (#[trigger] q[i]) as int) {
            assert forall|i: int|
                0 <= i < q.drop_first().len() implies tree_ok(
                g,
                (#[trigger] q.drop_first()[i]) as int,
            ) by {
                assert(q.drop_first()[i] == q[i + 1]);
            }
        }
    }
}

/// `seq_tree_modules` read element by element, at one module `x`.
pub proof fn lemma_seq_tree_modules_elements(g: ModuleGraph, q: Seq<usize>, bound: int, x: usize)
    requires
        g.wf(),
        0 <= bound <= g.reference_count_spec(),
        all_below_spec(q, bound),
    ensures
        seq_tree_modules(g, q, bound).contains(x) <==> (exists|i: int|
            0 <= i < q.len() && tree_modules(g, (#[trigger] q[i]) as int).contains(x)),
    decreases q.len(),
{
    if q.len() > 0 {
        assert(all_below_spec(q.drop_first(), bound));
        lemma_seq_tree_modules_elements(g, q.drop_first(), bound, x);
        if seq_tree_modules(g, q, bound).contains(x) {
            if tree_modules(g, q[0] as int).contains(x) {
                assert(0 <= 0 < q.len() && tree_modules(g, (q[0]) as int).contains(x));
            } else {
                let i = choose|i: int|
                    0 <= i < q.drop_first().len() && tree_modules(
                        g,
                        (#[trigger] q.drop_first()[i]) as int,
                    ).contains(x);
                assert(q.drop_first()[i] == q[i + 1]);
                assert(tree_modules(g, (q[i + 1]) as int).contains(x));
            }
        }
        if exists|i: int| 0 <= i < q.len() && tree_modules(g, (#[trigger] q[i]) as int).contains(x) {
            let i = choose|i: int|
                0 <= i < q.len() && tree_modules(g, (#[trigger] q[i]) as int).contains(x);
            if i == 0 {
                assert(seq_tree_modules(g, q, bound).contains(x));
            } else {
                assert(q.drop_first()[i - 1] == q[i]);
                assert(seq_tree_modules(g, q.drop_first(), bound).contains(x));
            }
        }
    }
}

/// A walk succeeds exactly when every pending resolution tree succeeds
/// throughout, and a successful walk emits exactly the union of the
/// pending trees' modules.
pub proof fn lemma_walk_refs_tree(g: ModuleGraph, q: Seq<usize>)
    requires
        g.wf(),
        all_below_spec(q, g.reference_count_spec()),
    ensures
        walk_refs(g, q) is Ok <==> seq_tree_ok(g, q, g.reference_count_spec()),
        (match walk_refs(g, q) {
            Ok(out) => out.to_set() == seq_tree_modules(g, q, g.reference_count_spec()),
            Err(_) => true,
        }),
    decreases queue_weight(g, q),
{
    let n = g.reference_count_spec();
    if q.len() == 0 {
        assert(walk_refs(g, q) == Ok::<Seq<usize>, usize>(Seq::<usize>::empty()));
        assert(Seq::<usize>::empty().to_set() =~= Set::<usize>::empty());
    } else {
        let r = q[0] as int;
        assert(g.resolution_wf(r));
        match g.resolution_of(r) {
            Resolution::Failed => {
                assert(!tree_ok(g, r));
                assert(!seq_tree_ok(g, q, n));
            },
            Resolution::Resolved(res) => {
                let primary = res.primary_targets@;
                let further = res.further_references@;
                let rest = q.drop_first();
                let rec = rest + further;
                lemma_queue_weight_step(g, q);
                lemma_walk_refs_tree(g, rec);
                assert(all_below_spec(rest, n));
                assert(all_below_spec(further, r)) by {
                    assert(g.resolution_wf(r));
                }
                assert(all_below_spec(further, n)) by {
                    assert forall|i: int| 0 <= i < further.len() implies (#[trigger] further[i])
                        < n by {
                        assert(further[i] < r);
                    }
                }
                lemma_seq_tree_ok_elements(g, rec, n);
                lemma_seq_tree_ok_elements(g, rest, n);
                lemma_seq_tree_ok_elements(g, further, n);
                lemma_seq_tree_ok_elements(g, further, r);
                assert(seq_tree_ok(g, rec, n) <==> (seq_tree_ok(g, rest, n) && seq_tree_ok(
                    g,
                    further,
                    n,
                ))) by {
                    if seq_tree_ok(g, rec, n) {
                        assert forall|i: int|
                            0 <= i < rest.len() implies tree_ok(g, (#[trigger] rest[i]) as int) by {
                            assert(rec[i] == rest[i]);
                        }
                        assert forall|i: int|
                            0 <= i < further.len() implies tree_ok(
                            g,
                            (#[trigger] further[i]) as int,
                        ) by {
                            assert(rec[rest.len() + i] == further[i]);
                        }
                    }
                    if seq_tree_ok(g, rest, n) && seq_tree_ok(g, further, n) {
                        assert forall|i: int|
                            0 <= i < rec.len() implies tree_ok(g, (#[trigger] rec[i]) as int) by {
                            if i < rest.len() {
                                assert(rec[i] == rest[i]);
                            } else {
                                assert(rec[i] == further[i - rest.len()]);
                            }
                        }
                    }
                }
                assert(seq_tree_ok(g, further, r) <==> seq_tree_ok(g, further, n));
                assert(tree_ok(g, r) <==> seq_tree_ok(g, further, r));
                assert(seq_tree_ok(g, q, n) <==> (tree_ok(g, r) && seq_tree_ok(g, rest, n)));
                assert(walk_refs(g, q) is Ok <==> walk_refs(g, rec) is Ok);
                if walk_refs(g, q) is Ok {
                    let out = walk_refs(g, q)->Ok_0;
                    let rec_out = walk_refs(g, rec)->Ok_0;
                    assert(out == primary + rec_out);
                    assert(rec_out.to_set() == seq_tree_modules(g, rec, n));
                    assert(out.to_set() =~= seq_tree_modules(g, q, n)) by {
                        assert forall|x: usize| out.to_set().contains(x) implies seq_tree_modules(
                            g,
                            q,
                            n,
                        ).contains(x) by {
                            lemma_seq_tree_modules_elements(g, rec, n, x);
                            lemma_seq_tree_modules_elements(g, rest, n, x);
                            lemma_seq_tree_modules_elements(g, further, n, x);
                            lemma_seq_tree_modules_elements(g, further, r, x);
                            let k = choose|k: int| 0 <= k < out.len() && out[k] == x;
                            if k < primary.len() {
                                assert(primary[k] == x);
                                assert(primary.contains(x));
                                assert(tree_modules(g, r).contains(x));
                            } else {
                                assert(rec_out[k - primary.len()] == x);
                                assert(rec_out.contains(x));
                                assert(rec_out.to_set().contains(x));
                                let i = choose|i: int|
                                    0 <= i < rec.len() && tree_modules(
                                        g,
                                        (#[trigger] rec[i]) as int,
                                    ).contains(x);
                                if i < rest.len() {
                                    assert(rec[i] == rest[i]);
                                    assert(seq_tree_modules(g, rest, n).contains(x));
                                } else {
                                    assert(rec[i] == further[i - rest.len()]);
                                    assert(seq_tree_modules(g, further, n).contains(x));
                                    assert(seq_tree_modules(g, further, r).contains(x));
                                    assert(tree_modules(g, r).contains(x));
                                }
                            }
                        }
                        assert forall|x: usize| seq_tree_modules(g, q, n).contains(x)
                            implies out.to_set().contains(x) by {
                            lemma_seq_tree_modules_elements(g, rec, n, x);
                            lemma_seq_tree_modules_elements(g, rest, n, x);
                            lemma_seq_tree_modules_elements(g, further, n, x);
                            lemma_seq_tree_modules_elements(g, further, r, x);
                            if tree_modules(g, r).contains(x) {
                                if primary.to_set().contains(x) {
                                    let k = choose|k: int|
                                        0 <= k < primary.len() && primary[k] == x;
                                    assert(out[k] == x);
                                    assert(out.contains(x));
                                } else {
                                    assert(seq_tree_modules(g, further, r).contains(x));
                                    assert(seq_tree_modules(g, further, n).contains(x));
                                    let i = choose|i: int|
                                        0 <= i < further.len() && tree_modules(
                                            g,
                                            (#[trigger] further[i]) as int,
                                        ).contains(x);
                                    assert(rec[rest.len() + i] == further[i]);
                                    assert(seq_tree_modules(g, rec, n).contains(x));
                                    assert(rec_out.to_set().contains(x));
                                    let k = choose|k: int|
                                        0 <= k < rec_out.len() && rec_out[k] == x;
                                    assert(out[primary.len() + k] == x);
                                    assert(out.contains(x));
                                }
                            } else {
                                assert(seq_tree_modules(g, rest, n).contains(x));
                                let i = choose|i: int|
                                    0 <= i < rest.len() && tree_modules(
                                        g,
                                        (#[trigger] rest[i]) as int,
                                    ).contains(x);
                                assert(rec[i] == rest[i]);
                                assert(seq_tree_modules(g, rec, n).contains(x));
                                assert(rec_out.to_set().contains(x));
                                let k = choose|k: int|
                                    0 <= k < rec_out.len() && rec_out[k] == x;
                                assert(out[primary.len() + k] == x);
                                assert(out.contains(x));
                            }
                        }
                    }
                }
            },
        }
    }
}

/// Resolution trees depend on the recorded resolutions alone: two
/// well-formed graphs with equal resolutions grow equal trees.
pub proof fn lemma_tree_same(g1: ModuleGraph, g2: ModuleGraph, r: int)
    requires
        g1.wf(),
        g2.wf(),
        g1.resolutions@ == g2.resolutions@,
        0 <= r < g1.reference_count_spec(),
    ensures
        tree_ok(g1, r) == tree_ok(g2, r),
        tree_modules(g1, r) == tree_modules(g2, r),
    decreases r, 1int, 0int,
{
    assert(g1.resolution_wf(r));
    assert(g2.resolution_wf(r));
    assert(g1.resolution_of(r) == g2.resolution_of(r));
    match g1.resolution_of(r) {
        Resolution::Failed => {
        },
        Resolution::Resolved(res) => {
            lemma_seq_tree_same(g1, g2, res.further_references@, r);
        },
    }
}

/// Companion of `lemma_tree_same` for sequences of roots.
pub proof fn lemma_seq_tree_same(g1: ModuleGraph, g2: ModuleGraph, q: Seq<usize>, bound: int)
    requires
        g1.wf(),
        g2.wf(),
        g1.resolutions@ == g2.resolutions@,
        0 <= bound <= g1.reference_count_spec(),
        all_below_spec(q, bound),
    ensures
        seq_tree_ok(g1, q, bound) == seq_tree_ok(g2, q, bound),
        seq_tree_modules(g1, q, bound) == seq_tree_modules(g2, q, bound),
    decreases bound, 0int, q.len(),
{
    if q.len() > 0 {
        lemma_tree_same(g1, g2, q[0] as int);
        assert(all_below_spec(q.drop_first(), bound));
        lemma_seq_tree_same(g1, g2, q.drop_first(), bound);
    }
}

/// The recorded resolution of `r` discovers no further references.
pub open spec fn no_further_references(g: ModuleGraph, r: int) -> bool {
    match g.resolution_of(r) {
        Resolution::Resolved(res) => res.further_references@.len() == 0,
        Resolution::Failed => true,
    }
}

/// A unit with no references yields nothing: both the full walk and the
/// primary-only walk of an empty reference list return the empty
/// sequence.
pub proof fn lemma_no_references_empty(g: ModuleGraph, m: int)
    requires
        g.wf(),
        0 <= m < g.module_count_spec(),
        g.references_of(m).len() == 0,
    ensures
        expansion(g, m) == Ok::<Seq<usize>, usize>(Seq::<usize>::empty()),
        primary_walk(g, g.references_of(m)) == Ok::<Seq<usize>, usize>(Seq::<usize>::empty()),
{
    assert(all_below_spec(g.references_of(m), g.reference_count_spec()));
}

/// When no reference in the queue discovers further references, the
/// full walk and the primary-only walk coincide, so the primary targets
/// are exactly (and in particular a subset of) the full result.
pub proof fn lemma_walks_coincide_without_further(g: ModuleGraph, q: Seq<usize>)
    requires
        g.wf(),
        all_below_spec(q, g.reference_count_spec()),
        forall|i: int| 0 <= i < q.len() ==> no_further_references(g, (#[trigger] q[i]) as int),
    ensures
        walk_refs(g, q) == primary_walk(g, q),
    decreases q.len(),
{
    if q.len() > 0 {
        let r = q[0] as int;
        assert(no_further_references(g, r));
        match g.resolution_of(r) {
            Resolution::Failed => {
            },
            Resolution::Resolved(res) => {
                lemma_queue_weight_step(g, q);
                assert(q.drop_first() + res.further_references@ =~= q.drop_first());
                assert(all_below_spec(q.drop_first(), g.reference_count_spec()));
                assert forall|i: int| 0 <= i < q.drop_first().len() implies no_further_references(
                    g,
                    (#[trigger] q.drop_first()[i]) as int,
                ) by {
                    assert(q.drop_first()[i] == q[i + 1]);
                }
                lemma_walks_coincide_without_further(g, q.drop_first());
            },
        }
    }
}

} // verus!
