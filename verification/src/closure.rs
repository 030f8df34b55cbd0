//! Transitive module closure: every module reachable from an entry.

use vstd::prelude::*;

use crate::module_graph::ModuleGraph;
use crate::reference::all_referenced_modules;
use crate::reference::expansion;
use crate::reference::lemma_no_references_empty;
use crate::reference::lemma_seq_tree_modules_elements;
use crate::reference::lemma_seq_tree_ok_elements;
use crate::reference::lemma_tree_same;
use crate::reference::lemma_walk_refs_tree;
use crate::reference::seq_tree_modules;
use crate::reference::seq_tree_ok;
use crate::reference::tree_modules;
use crate::reference::tree_ok;
use crate::support::all_below_spec;
use crate::support::contains_value;
use crate::support::lemma_no_dup_bounded_len;

verus! {

/// A closure computation failed while expanding the references of a
/// module. The failure is annotated with the module being expanded (the
/// diagnostic context) and names the reference whose recorded
/// resolution failed; the underlying failure kind is preserved.
#[derive(Clone, Copy, Debug, PartialEq, Eq, Structural)]
pub struct ModuleExpansionError {
    pub module: usize,
    pub reference: usize,
}

impl ModuleExpansionError {
    /// The fixed human-readable description attached to every
    /// expansion failure.
    pub fn description(&self) -> (description: &'static str)
        ensures
            description@ == "expanding references of module"@,
    {
        "expanding references of module"
    }
}

/// The expansion of module `m` succeeded.
pub open spec fn expansion_ok(g: ModuleGraph, m: int) -> bool {
    expansion(g, m) is Ok
}

/// The set of modules that module `m`'s successful expansion emits.
pub open spec fn expansion_modules(g: ModuleGraph, m: int) -> Set<usize> {
    match expansion(g, m) {
        Ok(out) => out.to_set(),
        Err(_) => Set::empty(),
    }
}

/// `s` absorbs every successful expansion of its members: every member
/// is a module of the graph, and for a member whose expansion
/// succeeded, everything that expansion emits stays inside `s`.
pub open spec fn ok_closed(g: ModuleGraph, s: Set<usize>) -> bool {
    forall|m: usize| #[trigger] s.contains(m)
        ==> m < g.module_count_spec()
        && (expansion_ok(g, m as int) ==> expansion_modules(g, m as int).subset_of(s))
}

/// `s` is the transitive module closure of `entry`: it contains
/// `entry`; every member's expansion succeeded and stayed inside `s`;
/// and `s` is the least set that absorbs expansions and contains
/// `entry`.
pub open spec fn closure_set(g: ModuleGraph, entry: usize, s: Set<usize>) -> bool {
    &&& s.contains(entry)
    &&& forall|m: usize| #[trigger] s.contains(m)
        ==> m < g.module_count_spec()
        && expansion_ok(g, m as int)
        && expansion_modules(g, m as int).subset_of(s)
    &&& forall|t: Set<usize>| #[trigger] ok_closed(g, t) && t.contains(entry) ==> s.subset_of(t)
}

/// Computes the set of modules reachable from `entry`, `entry`
/// included: repeatedly expands an unvisited module's references and
/// visits everything the expansion emits, FIFO, each module exactly
/// once. The returned list has no duplicates and its set of elements is
/// the transitive closure of `entry`.
///
/// Fails exactly when the expansion of some reachable module reaches a
/// reference whose recorded resolution failed; the failure names that
/// module (every candidate closure set contains it) and the failing
/// reference, and no partial result is returned.
pub fn all_modules(graph: &ModuleGraph, entry: usize) -> (result: Result<
    Vec<usize>,
    ModuleExpansionError,
>)
    requires
        graph.wf(),
        entry < graph.module_count_spec(),
    ensures
        (match result {
            Ok(modules) => modules@.no_duplicates() && closure_set(
                *graph,
                entry,
                modules@.to_set(),
            ),
            Err(e) => {
                &&& e.module < graph.module_count_spec()
                &&& expansion(*graph, e.module as int) == Err::<Seq<usize>, usize>(e.reference)
                &&& e.reference < graph.reference_count_spec()
                &&& graph.resolution_of(e.reference as int) is Failed
                &&& forall|t: Set<usize>|
                    #[trigger] ok_closed(*graph, t) && t.contains(entry) ==> t.contains(e.module)
            },
        }),
{
    let mut visited: Vec<usize> = Vec::new();
    visited.push(entry);
    let mut queue: Vec<usize> = Vec::new();
    queue.push(entry);
    let mut head: usize = 0;
    proof {
        assert(visited@ =~= seq![entry]);
        assert(visited@[0] == entry);
        assert(visited@.contains(entry));
        assert(queue@[0] == entry);
        assert(queue@.skip(0) =~= queue@);
        assert forall|m: usize| #[trigger] visited@.contains(m) implies queue@.skip(0).contains(
            m,
        ) by {
            assert(m == entry);
            assert(queue@.skip(0)[0] == entry);
        }
        assert forall|t: Set<usize>|
            #[trigger] ok_closed(*graph, t) && t.contains(entry) implies visited@.to_set().subset_of(
            t,
        ) by {
            assert forall|x: usize| visited@.to_set().contains(x) implies t.contains(x) by {
                assert(x == entry);
            }
        }
    }
    while head < queue.len()
        invariant
            graph.wf(),
            entry < graph.module_count_spec(),
            head <= queue@.len(),
            visited@.contains(entry),
            visited@.no_duplicates(),
            all_below_spec(visited@, graph.module_count_spec()),
            visited@.len() <= graph.module_count_spec(),
            forall|i: int| head <= i < queue@.len() ==> visited@.contains(#[trigger] queue@[i]),
            forall|m: usize| #[trigger] visited@.contains(m)
                ==> queue@.skip(head as int).contains(m)
                || (expansion_ok(*graph, m as int) && expansion_modules(*graph, m as int).subset_of(
                    visited@.to_set(),
                )),
            forall|t: Set<usize>|
                #[trigger] ok_closed(*graph, t) && t.contains(entry) ==> visited@.to_set().subset_of(
                    t,
                ),
        decreases
                graph.module_count_spec() - visited@.len(),
                queue@.len() - head,
    {
        let ghost head_before = head as int;
        let m = queue[head];
        head = head + 1;
        proof {
            assert(visited@.contains(m));
            let k = choose|k: int| 0 <= k < visited@.len() && visited@[k] == m;
            assert(visited@[k] < graph.module_count_spec());
            assert forall|m2: usize| #[trigger] visited@.contains(m2) implies queue@.skip(
                head as int,
            ).contains(m2) || m2 == m || (expansion_ok(*graph, m2 as int) && expansion_modules(
                *graph,
                m2 as int,
            ).subset_of(visited@.to_set())) by {
                if queue@.skip(head_before).contains(m2) {
                    let i = choose|i: int|
                        0 <= i < queue@.skip(head_before).len() && queue@.skip(head_before)[i]
                            == m2;
                    if i == 0 {
                        assert(m2 == m);
                    } else {
                        assert(queue@.skip(head as int)[i - 1] == m2);
                    }
                }
            }
        }
        match all_referenced_modules(graph, m) {
            Err(e) => {
                proof {
                    assert forall|t: Set<usize>|
                        #[trigger] ok_closed(*graph, t) && t.contains(entry) implies t.contains(
                        m,
                    ) by {
                        assert(visited@.to_set().subset_of(t));
                        assert(visited@.to_set().contains(m));
                    }
                }
                return Err(ModuleExpansionError { module: m, reference: e.reference });
            },
            Ok(found) => {
                let ghost visited_at_pop = visited@;
                let ghost queue_at_pop = queue@;
                let mut j: usize = 0;
                while j < found.len()
                    invariant
                        graph.wf(),
                        entry < graph.module_count_spec(),
                        m < graph.module_count_spec(),
                        expansion(*graph, m as int) == Ok::<Seq<usize>, usize>(found@),
                        all_below_spec(found@, graph.module_count_spec()),
                        j <= found@.len(),
                        head <= queue@.len(),
                        visited@.contains(entry),
                        visited@.contains(m),
                        visited@.no_duplicates(),
                        all_below_spec(visited@, graph.module_count_spec()),
                        visited@.len() <= graph.module_count_spec(),
                        forall|i: int|
                            head <= i < queue@.len() ==> visited@.contains(#[trigger] queue@[i]),
                        forall|k: int| 0 <= k < j ==> visited@.contains(#[trigger] found@[k]),
                        forall|m2: usize| #[trigger] visited@.contains(m2)
                            ==> queue@.skip(head as int).contains(m2)
                            || m2 == m
                            || (expansion_ok(*graph, m2 as int) && expansion_modules(
                                *graph,
                                m2 as int,
                            ).subset_of(visited@.to_set())),
                        forall|t: Set<usize>|
                            #[trigger] ok_closed(*graph, t) && t.contains(entry)
                                ==> visited@.to_set().subset_of(t),
                        (visited@ == visited_at_pop && queue@ == queue_at_pop) || visited@.len()
                            > visited_at_pop.len(),
                    decreases found@.len() - j,
                {
                    let c = found[j];
                    if !contains_value(&visited, c) {
                        let ghost visited_before = visited@;
                        let ghost queue_before = queue@;
                        visited.push(c);
                        queue.push(c);
                        proof {
                            assert(visited@ =~= visited_before.push(c));
                            assert forall|x: usize| visited_before.contains(x)
                                implies visited@.contains(x) by {
                                let k = choose|k: int|
                                    0 <= k < visited_before.len() && visited_before[k] == x;
                                assert(visited@[k] == x);
                            }
                            assert(visited@[visited@.len() - 1] == c);
                            assert(visited@.contains(c));
                            assert(visited@.no_duplicates());
                            lemma_no_dup_bounded_len(visited@, graph.module_count_spec());
                            assert(queue@.skip(head as int).contains(c)) by {
                                assert(queue@[queue@.len() - 1] == c);
                                assert(queue@.skip(head as int)[queue@.len() - 1 - head] == c);
                            }
                            assert forall|i: int|
                                head <= i < queue@.len() implies visited@.contains(
                                #[trigger] queue@[i],
                            ) by {
                                if i < queue@.len() - 1 {
                                    assert(visited_before.contains(queue@[i]));
                                }
                            }
                            assert(visited_before.to_set().subset_of(visited@.to_set())) by {
                                assert forall|x: usize| visited_before.to_set().contains(x)
                                    implies visited@.to_set().contains(x) by {
                                    assert(visited_before.contains(x));
                                }
                            }
                            assert forall|m2: usize| #[trigger] visited@.contains(m2)
                                implies queue@.skip(head as int).contains(m2) || m2 == m || (
                            expansion_ok(*graph, m2 as int) && expansion_modules(
                                *graph,
                                m2 as int,
                            ).subset_of(visited@.to_set())) by {
                                if m2 == c {
                                } else {
                                    assert(visited_before.contains(m2));
                                    if queue_before.skip(head as int).contains(m2) {
                                        let i = choose|i: int|
                                            0 <= i < queue_before.skip(head as int).len()
                                                && queue_before.skip(head as int)[i] == m2;
                                        assert(queue@.skip(head as int)[i] == m2);
                                    } else if m2 != m {
                                        assert(expansion_modules(*graph, m2 as int).subset_of(
                                            visited_before.to_set(),
                                        ));
                                        assert forall|x: usize|
                                            expansion_modules(*graph, m2 as int).contains(x)
                                            implies visited@.to_set().contains(x) by {
                                            assert(visited_before.to_set().contains(x));
                                        }
                                    }
                                }
                            }
                            assert forall|t: Set<usize>|
                                #[trigger] ok_closed(*graph, t) && t.contains(entry)
                                    implies visited@.to_set().subset_of(t) by {
                                assert(visited_before.to_set().subset_of(t));
                                assert(visited_before.to_set().contains(m));
                                assert(t.contains(m));
                                assert(expansion_modules(*graph, m as int).subset_of(t));
                                assert(found@.to_set().contains(c));
                                assert(t.contains(c));
                                assert forall|x: usize| visited@.to_set().contains(x)
                                    implies t.contains(x) by {
                                    if visited_before.contains(x) {
                                        assert(visited_before.to_set().contains(x));
                                    } else {
                                        assert(x == c);
                                    }
                                }
                            }
                        }
                    }
                    j = j + 1;
                }
                proof {
                    assert(expansion_modules(*graph, m as int).subset_of(visited@.to_set())) by {
                        assert forall|x: usize| expansion_modules(*graph, m as int).contains(x)
                            implies visited@.to_set().contains(x) by {
                            assert(found@.to_set().contains(x));
                            let k = choose|k: int| 0 <= k < found@.len() && found@[k] == x;
                            assert(visited@.contains(found@[k]));
                        }
                    }
                }
            },
        }
    }
    proof {
        assert(queue@.skip(head as int) =~= Seq::<usize>::empty());
        assert(visited@.to_set().contains(entry));
        assert forall|m: usize| #[trigger] visited@.to_set().contains(m)
            implies m < graph.module_count_spec() && expansion_ok(*graph, m as int)
            && expansion_modules(*graph, m as int).subset_of(visited@.to_set()) by {
            assert(visited@.contains(m));
            let k = choose|k: int| 0 <= k < visited@.len() && visited@[k] == m;
            assert(visited@[k] < graph.module_count_spec());
            assert(!queue@.skip(head as int).contains(m));
        }
    }
    Ok(visited)
}

/// The transitive closure is unique: two sets that both satisfy the
/// closure characterization for the same graph and entry are equal.
pub proof fn lemma_closure_set_unique(g: ModuleGraph, entry: usize, s1: Set<usize>, s2: Set<usize>)
    requires
        closure_set(g, entry, s1),
        closure_set(g, entry, s2),
    ensures
        s1 == s2,
{
    assert(ok_closed(g, s1));
    assert(ok_closed(g, s2));
    assert(s1.subset_of(s2));
    assert(s2.subset_of(s1));
    assert(s1 =~= s2);
}

/// Failure is exclusive: when every candidate closure set must contain
/// a module whose expansion failed, no closure set exists at all — a
/// failed closure computation cannot also have a successful value.
pub proof fn lemma_closure_failure_exclusive(
    g: ModuleGraph,
    entry: usize,
    failing: usize,
    s: Set<usize>,
)
    requires
        forall|t: Set<usize>|
            #[trigger] ok_closed(g, t) && t.contains(entry) ==> t.contains(failing),
        !expansion_ok(g, failing as int),
    ensures
        !closure_set(g, entry, s),
{
    if closure_set(g, entry, s) {
        assert(ok_closed(g, s));
        assert(s.contains(failing));
    }
}

/// A module with no references closes to exactly itself.
pub proof fn lemma_no_references_closure(g: ModuleGraph, entry: usize, s: Set<usize>)
    requires
        g.wf(),
        entry < g.module_count_spec(),
        g.references_of(entry as int).len() == 0,
        closure_set(g, entry, s),
    ensures
        s == Set::<usize>::empty().insert(entry),
{
    lemma_no_references_empty(g, entry as int);
    let singleton = Set::<usize>::empty().insert(entry);
    assert(ok_closed(g, singleton)) by {
        assert forall|m: usize| #[trigger] singleton.contains(m)
            implies m < g.module_count_spec() && (expansion_ok(g, m as int) ==> expansion_modules(
            g,
            m as int,
        ).subset_of(singleton)) by {
            assert(m == entry);
            assert(expansion_modules(g, m as int) =~= Set::<usize>::empty());
        }
    }
    assert(s.subset_of(singleton));
    assert(s.contains(entry));
    assert(s =~= singleton);
}


/// Expansion depends on the resolutions and on which references a
/// module declares, not on their order: two well-formed graphs with
/// equal resolutions whose reference lists for `m` hold the same
/// multiset of references expand `m` alike.
proof fn lemma_expansion_same(g1: ModuleGraph, g2: ModuleGraph, m: int)
    requires
        g1.wf(),
        g2.wf(),
        g1.resolutions@ == g2.resolutions@,
        g1.module_count_spec() == g2.module_count_spec(),
        0 <= m < g1.module_count_spec(),
        g1.references_of(m).to_multiset() == g2.references_of(m).to_multiset(),
    ensures
        expansion_ok(g1, m) == expansion_ok(g2, m),
        expansion_ok(g1, m) ==> expansion_modules(g1, m) == expansion_modules(g2, m),
{
    let n = g1.reference_count_spec();
    let q1 = g1.references_of(m);
    let q2 = g2.references_of(m);
    assert(all_below_spec(q1, n));
    assert(all_below_spec(q2, n));
    assert forall|x: usize| q1.contains(x) <==> q2.contains(x) by {
        vstd::seq_lib::to_multiset_contains(q1, x);
        vstd::seq_lib::to_multiset_contains(q2, x);
    }
    lemma_walk_refs_tree(g1, q1);
    lemma_walk_refs_tree(g2, q2);
    lemma_seq_tree_ok_elements(g1, q1, n);
    lemma_seq_tree_ok_elements(g2, q2, n);
    assert(seq_tree_ok(g1, q1, n) == seq_tree_ok(g2, q2, n)) by {
        if seq_tree_ok(g1, q1, n) {
            assert forall|i: int| 0 <= i < q2.len() implies tree_ok(
                g2,
                (#[trigger] q2[i]) as int,
            ) by {
                assert(q2.contains(q2[i]));
                assert(q1.contains(q2[i]));
                let j = choose|j: int| 0 <= j < q1.len() && q1[j] == q2[i];
                assert(tree_ok(g1, q1[j] as int));
                lemma_tree_same(g1, g2, q2[i] as int);
            }
        }
        if seq_tree_ok(g2, q2, n) {
            assert forall|i: int| 0 <= i < q1.len() implies tree_ok(
                g1,
                (#[trigger] q1[i]) as int,
            ) by {
                assert(q1.contains(q1[i]));
                assert(q2.contains(q1[i]));
                let j = choose|j: int| 0 <= j < q2.len() && q2[j] == q1[i];
                assert(tree_ok(g2, q2[j] as int));
                lemma_tree_same(g1, g2, q1[i] as int);
            }
        }
    }
    if expansion_ok(g1, m) {
        assert(seq_tree_modules(g1, q1, n) =~= seq_tree_modules(g2, q2, n)) by {
            assert forall|x: usize|
                seq_tree_modules(g1, q1, n).contains(x) <==> seq_tree_modules(
                    g2,
                    q2,
                    n,
                ).contains(x) by {
                lemma_seq_tree_modules_elements(g1, q1, n, x);
                lemma_seq_tree_modules_elements(g2, q2, n, x);
                if seq_tree_modules(g1, q1, n).contains(x) {
                    let i = choose|i: int|
                        0 <= i < q1.len() && tree_modules(g1, (#[trigger] q1[i]) as int).contains(
                            x,
                        );
                    assert(q1.contains(q1[i]));
                    assert(q2.contains(q1[i]));
                    let j = choose|j: int| 0 <= j < q2.len() && q2[j] == q1[i];
                    lemma_tree_same(g1, g2, q1[i] as int);
                    assert(tree_modules(g2, (q2[j]) as int).contains(x));
                }
                if seq_tree_modules(g2, q2, n).contains(x) {
                    let i = choose|i: int|
                        0 <= i < q2.len() && tree_modules(g2, (#[trigger] q2[i]) as int).contains(
                            x,
                        );
                    assert(q2.contains(q2[i]));
                    assert(q1.contains(q2[i]));
                    let j = choose|j: int| 0 <= j < q1.len() && q1[j] == q2[i];
                    lemma_tree_same(g1, g2, q2[i] as int);
                    assert(tree_modules(g1, (q1[j]) as int).contains(x));
                }
            }
        }
    }
}

/// The transitive closure does not depend on the order in which a
/// module declares its references: permuting reference lists (keeping
/// each list's multiset of references) never changes the closure set,
/// and closures of the two graphs fail together.
pub proof fn lemma_closure_order_independent(
    g1: ModuleGraph,
    g2: ModuleGraph,
    entry: usize,
    s1: Set<usize>,
    s2: Set<usize>,
)
    requires
        g1.wf(),
        g2.wf(),
        g1.resolutions@ == g2.resolutions@,
        g1.module_count_spec() == g2.module_count_spec(),
        forall|m: int|
            0 <= m < g1.module_count_spec() ==> (#[trigger] g1.references_of(m)).to_multiset()
                == g2.references_of(m).to_multiset(),
        closure_set(g1, entry, s1),
        closure_set(g2, entry, s2),
    ensures
        s1 == s2,
{
    assert(closure_set(g1, entry, s2)) by {
        assert forall|m: usize| #[trigger] s2.contains(m)
            implies m < g1.module_count_spec() && expansion_ok(g1, m as int) && expansion_modules(
            g1,
            m as int,
        ).subset_of(s2) by {
            lemma_expansion_same(g1, g2, m as int);
        }
        assert forall|t: Set<usize>|
            #[trigger] ok_closed(g1, t) && t.contains(entry) implies s2.subset_of(t) by {
            assert(ok_closed(g2, t)) by {
                assert forall|m: usize| #[trigger] t.contains(m)
                    implies m < g2.module_count_spec() && (expansion_ok(g2, m as int)
                    ==> expansion_modules(g2, m as int).subset_of(t)) by {
                    lemma_expansion_same(g1, g2, m as int);
                }
            }
        }
    }
    lemma_closure_set_unique(g1, entry, s1, s2);
}

} // verus!
