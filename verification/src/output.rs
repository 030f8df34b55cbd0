//! Multi-root asset traversal with reverse-topological linearization.
//!
//! Output assets reference other output assets directly, with no
//! resolve-result indirection. `all_assets_from_entries` explores the
//! asset graph from several roots at once, deduplicates globally, and
//! linearizes the visited assets so that every dependency appears at or
//! before its dependent — except inside cycles, where every member
//! still appears exactly once in some total order.

use vstd::prelude::*;

use crate::support::all_below_spec;
use crate::support::contains_value;
use crate::support::copy_values;
use crate::support::lemma_no_dup_bounded_len;

verus! {

/// An output-asset dependency graph, held arena-style: assets are dense
/// ids; each asset owns the ordered list of assets it references
/// directly. Cycles are allowed.
pub struct AssetGraph {
    pub asset_references: Vec<Vec<usize>>,
}

impl AssetGraph {
    /// Number of assets in the graph.
    pub open spec fn asset_count_spec(self) -> int {
        self.asset_references@.len() as int
    }

    /// The ordered direct references of asset `a`.
    pub open spec fn references_of(self, a: int) -> Seq<usize> {
        self.asset_references@[a]@
    }

    /// Well-formedness: every referenced asset exists.
    pub open spec fn wf(self) -> bool {
        forall|a: int|
            0 <= a < self.asset_count_spec() ==> all_below_spec(
                #[trigger] self.references_of(a),
                self.asset_count_spec(),
            )
    }

    /// Creates an empty asset graph.
    pub fn new() -> (graph: AssetGraph)
        ensures
            graph.wf(),
            graph.asset_count_spec() == 0,
    {
        AssetGraph { asset_references: Vec::new() }
    }

    /// Number of assets.
    pub fn asset_count(&self) -> (n: usize)
        ensures
            n == self.asset_count_spec(),
    {
        self.asset_references.len()
    }

    /// Adds an asset with no references yet and returns its id.
    pub fn add_asset(&mut self) -> (asset: usize)
        requires
            old(self).wf(),
        ensures
            final(self).wf(),
            asset == old(self).asset_count_spec(),
            final(self).asset_count_spec() == old(self).asset_count_spec() + 1,
            forall|a: int|
                0 <= a < old(self).asset_count_spec() ==> final(self).references_of(a) == old(
                    self,
                ).references_of(a),
            final(self).references_of(asset as int).len() == 0,
    {
        let asset = self.asset_references.len();
        self.asset_references.push(Vec::new());
        proof {
            assert forall|a: int|
                0 <= a < self.asset_count_spec() implies all_below_spec(
                #[trigger] self.references_of(a),
                self.asset_count_spec(),
            ) by {
                if a < old(self).asset_count_spec() {
                    assert(all_below_spec(old(self).references_of(a), old(
                        self,
                    ).asset_count_spec()));
                }
            }
        }
        asset
    }

    /// Appends `to` to the direct reference list of `from`. Declaration
    /// order is kept.
    ///
    /// Refused (returning `false`, leaving the graph unchanged) exactly
    /// when one of the two assets does not exist.
    pub fn add_asset_reference(&mut self, from: usize, to: usize) -> (added: bool)
        requires
            old(self).wf(),
        ensures
            final(self).wf(),
            added <==> (from < old(self).asset_count_spec() && to < old(self).asset_count_spec()),
            added ==> {
                &&& final(self).asset_count_spec() == old(self).asset_count_spec()
                &&& final(self).references_of(from as int) == old(self).references_of(from as int)
                    + seq![to]
                &&& forall|a: int|
                    0 <= a < final(self).asset_count_spec() && a != from
                        ==> #[trigger] final(self).references_of(a) == old(self).references_of(a)
            },
            !added ==> *final(self) == *old(self),
    {
        if from < self.asset_references.len() && to < self.asset_references.len() {
            let list = &mut self.asset_references[from];
            list.push(to);
            proof {
                assert(self.references_of(from as int) =~= old(self).references_of(from as int)
                    + seq![to]);
                assert forall|a: int|
                    0 <= a < self.asset_count_spec() implies all_below_spec(
                    #[trigger] self.references_of(a),
                    self.asset_count_spec(),
                ) by {
                    assert(all_below_spec(old(self).references_of(a), old(
                        self,
                    ).asset_count_spec()));
                }
            }
            true
        } else {
            false
        }
    }
}

/// Returns the ordered list of assets the given asset references
/// directly: a copy of its own reference list, no resolution walk.
pub fn get_referenced_assets(graph: &AssetGraph, asset: usize) -> (refs: Vec<usize>)
    requires
        graph.wf(),
        asset < graph.asset_count_spec(),
    ensures
        refs@ == graph.references_of(asset as int),
{
    copy_values(&graph.asset_references[asset])
}

/// `p` is a walk through the graph: consecutive elements are linked by
/// direct references.
pub open spec fn is_asset_path(g: AssetGraph, p: Seq<usize>) -> bool {
    &&& p.len() >= 1
    &&& forall|i: int| 0 <= i < p.len() ==> (#[trigger] p[i]) < g.asset_count_spec()
    &&& forall|i: int|
        0 <= i < p.len() - 1 ==> #[trigger] g.references_of(p[i] as int).contains(p[i + 1])
}

/// Asset `to` can be reached from asset `from` along direct references
/// (in zero or more steps).
pub open spec fn asset_reaches(g: AssetGraph, from: usize, to: usize) -> bool {
    exists|p: Seq<usize>|
        is_asset_path(g, p) && p.first() == from && p.last() == to
}

/// `t` is closed under direct references: every member is an asset of
/// the graph and everything a member references is in `t`.
pub open spec fn asset_closed(g: AssetGraph, t: Set<usize>) -> bool {
    forall|a: usize| #[trigger]
        t.contains(a) ==> a < g.asset_count_spec() && g.references_of(a as int).to_set().subset_of(
            t,
        )
}

/// Within the emitted order `out`, the dependency `b` of the asset at
/// position `k` either appears at or before position `k`, or itself
/// reaches that asset (so the two sit on a common cycle).
pub open spec fn dependency_before(g: AssetGraph, out: Seq<usize>, k: int, b: usize) -> bool {
    (exists|i: int| 0 <= i <= k && out[i] == b) || asset_reaches(g, b, out[k])
}

/// `out` is reverse topological up to cycles: every direct dependency
/// of an emitted asset is emitted at or before it, unless the
/// dependency reaches its dependent (a cycle).
pub open spec fn reverse_topological(g: AssetGraph, out: Seq<usize>) -> bool {
    forall|k: int, b: usize|
        0 <= k < out.len() && #[trigger] g.references_of(out[k] as int).contains(b)
            ==> dependency_before(g, out, k, b)
}

/// No nonempty walk returns to its start.
pub open spec fn asset_acyclic(g: AssetGraph) -> bool {
    forall|p: Seq<usize>|
        (#[trigger] is_asset_path(g, p)) && p.len() >= 2 ==> p.first() != p.last()
}

/// The nodes held by a DFS stack, bottom first.
spec fn stack_nodes(st: Seq<(usize, usize)>) -> Seq<usize> {
    st.map_values(|f: (usize, usize)| f.0)
}

/// One DFS stack frame is sound: its asset exists, its cursor is in
/// range, and every reference before the cursor was already visited.
spec fn frame_ok(g: AssetGraph, visited: Seq<usize>, f: (usize, usize)) -> bool {
    &&& (f.0 as int) < g.asset_count_spec()
    &&& f.1 <= g.references_of(f.0 as int).len()
    &&& forall|j: int|
        0 <= j < f.1 ==> visited.contains(#[trigger] g.references_of(f.0 as int)[j])
}

/// References still to be explored by the frames of a DFS stack.
spec fn pending_work(g: AssetGraph, st: Seq<(usize, usize)>) -> nat
    decreases st.len(),
{
    if st.len() == 0 {
        0
    } else {
        let f = st.last();
        let total = g.references_of(f.0 as int).len();
        pending_work(g, st.drop_last()) + (if f.1 <= total {
            (total - f.1) as nat
        } else {
            0
        })
    }
}

/// A consecutively linked chain of assets is a path: every element of
/// the chain reaches the chain's last element.
proof fn lemma_chain_reaches(g: AssetGraph, nodes: Seq<usize>, i: int)
    requires
        nodes.len() >= 1,
        forall|k: int| 0 <= k < nodes.len() ==> (#[trigger] nodes[k]) < g.asset_count_spec(),
        forall|k: int|
            0 <= k < nodes.len() - 1 ==> #[trigger] g.references_of(nodes[k] as int).contains(
                nodes[k + 1],
            ),
        0 <= i < nodes.len(),
    ensures
        asset_reaches(g, nodes[i], nodes[nodes.len() - 1]),
{
    let p = nodes.subrange(i, nodes.len() as int);
    assert(is_asset_path(g, p)) by {
        assert forall|k: int|
            0 <= k < p.len() - 1 implies #[trigger] g.references_of(p[k] as int).contains(
            p[k + 1],
        ) by {
            assert(p[k] == nodes[i + k]);
            assert(p[k + 1] == nodes[i + k + 1]);
        }
    }
    assert(p.first() == nodes[i]);
    assert(p.last() == nodes[nodes.len() - 1]);
}

/// Walks the asset graph from all the given entry assets at once and
/// collects every reachable asset, each exactly once, linearized in
/// depth-first postorder: the returned list is reverse topological up
/// to cycles, its set of elements is exactly what the entries reach
/// (the least reference-closed superset of the entries), and it never
/// holds a duplicate even when two entries share a dependency.
pub fn all_assets_from_entries(graph: &AssetGraph, entries: &Vec<usize>) -> (out: Vec<usize>)
    requires
        graph.wf(),
        all_below_spec(entries@, graph.asset_count_spec()),
    ensures
        out@.no_duplicates(),
        forall|i: int| 0 <= i < entries@.len() ==> out@.contains(#[trigger] entries@[i]),
        asset_closed(*graph, out@.to_set()),
        forall|t: Set<usize>|
            #[trigger] asset_closed(*graph, t) && entries@.to_set().subset_of(t)
                ==> out@.to_set().subset_of(t),
        reverse_topological(*graph, out@),
{
    let mut visited: Vec<usize> = Vec::new();
    let mut out: Vec<usize> = Vec::new();
    let mut e: usize = 0;
    while e < entries.len()
        invariant
            graph.wf(),
            all_below_spec(entries@, graph.asset_count_spec()),
            e <= entries@.len(),
            visited@.no_duplicates(),
            all_below_spec(visited@, graph.asset_count_spec()),
            visited@.len() <= graph.asset_count_spec(),
            out@.no_duplicates(),
            visited@.to_set() == out@.to_set(),
            forall|i: int| 0 <= i < e ==> out@.contains(#[trigger] entries@[i]),
            forall|k: int|
                0 <= k < out@.len() ==> graph.references_of(
                    #[trigger] out@[k] as int,
                ).to_set().subset_of(visited@.to_set()),
            reverse_topological(*graph, out@),
            forall|t: Set<usize>|
                #[trigger] asset_closed(*graph, t) && entries@.to_set().subset_of(t)
                    ==> visited@.to_set().subset_of(t),
        decreases entries@.len() - e,
    {
        let root = entries[e];
        if !contains_value(&visited, root) {
            let ghost visited_before = visited@;
            visited.push(root);
            let mut stack: Vec<(usize, usize)> = Vec::new();
            stack.push((root, 0));
            proof {
                assert(visited@ =~= visited_before.push(root));
                assert forall|x: usize| visited_before.contains(x) implies visited@.contains(
                    x,
                ) by {
                    let k = choose|k: int|
                        0 <= k < visited_before.len() && visited_before[k] == x;
                    assert(visited@[k] == x);
                }
                assert(visited@[visited@.len() - 1] == root);
                lemma_no_dup_bounded_len(visited@, graph.asset_count_spec());
                assert(stack_nodes(stack@) =~= seq![root]);
                assert(stack_nodes(stack@)[0] == root);
                assert(visited@.to_set() =~= out@.to_set().union(stack_nodes(stack@).to_set()))
                    by {
                    assert forall|x: usize| visited@.to_set().contains(x) implies
                        out@.to_set().contains(x) || stack_nodes(stack@).to_set().contains(x) by {
                        if visited_before.contains(x) {
                        } else {
                            assert(x == root);
                            assert(stack_nodes(stack@).contains(root));
                        }
                    }
                    assert forall|x: usize| stack_nodes(stack@).to_set().contains(x)
                        implies visited@.to_set().contains(x) by {
                        assert(x == root);
                    }
                }
                assert forall|x: usize| #[trigger] out@.contains(x)
                    implies !stack_nodes(stack@).contains(x) by {
                    assert(visited_before.to_set().contains(x));
                    assert(!visited_before.contains(root));
                }
                assert forall|t: Set<usize>|
                    #[trigger] asset_closed(*graph, t) && entries@.to_set().subset_of(t)
                        implies visited@.to_set().subset_of(t) by {
                    assert(entries@.to_set().contains(root)) by {
                        assert(entries@.contains(root));
                    }
                    assert forall|x: usize| visited@.to_set().contains(x) implies t.contains(
                        x,
                    ) by {
                        if visited_before.contains(x) {
                            assert(visited_before.to_set().contains(x));
                        } else {
                            assert(x == root);
                        }
                    }
                }
            }
            while stack.len() > 0
                invariant
                    graph.wf(),
                    all_below_spec(entries@, graph.asset_count_spec()),
                    e < entries@.len(),
                    visited@.contains(root),
                    visited@.no_duplicates(),
                    all_below_spec(visited@, graph.asset_count_spec()),
                    visited@.len() <= graph.asset_count_spec(),
                    out@.no_duplicates(),
                    stack_nodes(stack@).no_duplicates(),
                    forall|x: usize| #[trigger] out@.contains(x) ==> !stack_nodes(
                        stack@,
                    ).contains(x),
                    visited@.to_set() == out@.to_set().union(stack_nodes(stack@).to_set()),
                    forall|i: int|
                        0 <= i < stack@.len() ==> frame_ok(*graph, visited@, #[trigger] stack@[i]),
                    forall|i: int|
                        0 <= i < stack@.len() - 1 ==> #[trigger] graph.references_of(
                            stack@[i].0 as int,
                        ).contains(stack@[i + 1].0),
                    forall|i: int| 0 <= i < e ==> out@.contains(#[trigger] entries@[i]),
                    forall|k: int|
                        0 <= k < out@.len() ==> graph.references_of(
                            #[trigger] out@[k] as int,
                        ).to_set().subset_of(visited@.to_set()),
                    reverse_topological(*graph, out@),
                    forall|t: Set<usize>|
                        #[trigger] asset_closed(*graph, t) && entries@.to_set().subset_of(t)
                            ==> visited@.to_set().subset_of(t),
                decreases
                        graph.asset_count_spec() - visited@.len(),
                        pending_work(*graph, stack@),
                        stack@.len(),
            {
                let ghost stack_before = stack@;
                let frame = stack.pop().unwrap();
                let a = frame.0;
                let ci = frame.1;
                proof {
                    assert(frame_ok(*graph, visited@, stack_before.last()));
                    assert(stack@ =~= stack_before.drop_last());
                    assert(stack_nodes(stack@) =~= stack_nodes(stack_before).drop_last());
                }
                let refs = &graph.asset_references[a];
                if ci < refs.len() {
                    let c = refs[ci];
                    stack.push((a, ci + 1));
                    proof {
                        assert(stack@ =~= stack_before.drop_last().push((a, (ci + 1) as usize)));
                        assert(stack_nodes(stack@) =~= stack_nodes(stack_before));
                        assert(c == graph.references_of(a as int)[ci as int]);
                        assert(c < graph.asset_count_spec()) by {
                            assert(all_below_spec(
                                graph.references_of(a as int),
                                graph.asset_count_spec(),
                            ));
                        }
                        assert(pending_work(*graph, stack@) < pending_work(
                            *graph,
                            stack_before,
                        )) by {
                            assert(stack@.drop_last() =~= stack_before.drop_last());
                        }
                    }
                    if !contains_value(&visited, c) {
                        let ghost visited_mid = visited@;
                        let ghost stack_mid = stack@;
                        visited.push(c);
                        stack.push((c, 0));
                        proof {
                            assert(visited@ =~= visited_mid.push(c));
                            assert forall|x: usize| visited_mid.contains(x)
                                implies visited@.contains(x) by {
                                let k = choose|k: int|
                                    0 <= k < visited_mid.len() && visited_mid[k] == x;
                                assert(visited@[k] == x);
                            }
                            assert(visited@[visited@.len() - 1] == c);
                            assert(visited@.contains(c));
                            lemma_no_dup_bounded_len(visited@, graph.asset_count_spec());
                            assert(stack_nodes(stack@) =~= stack_nodes(stack_mid).push(c));
                            assert(stack_nodes(stack_mid) == stack_nodes(stack_before));
                            assert(stack_nodes(stack_mid).no_duplicates());
                            assert forall|x: usize| #[trigger] stack_nodes(stack_mid).contains(x)
                                implies x != c by {
                                assert(stack_nodes(stack_mid).to_set().contains(x));
                                assert(visited_mid.to_set().contains(x));
                                assert(visited_mid.contains(x));
                                assert(!visited_mid.contains(c));
                            }
                            assert(stack_nodes(stack@).no_duplicates()) by {
                                let nodes = stack_nodes(stack@);
                                let mid = stack_nodes(stack_mid);
                                assert forall|i: int, j: int|
                                    0 <= i < nodes.len() && 0 <= j < nodes.len() && i != j
                                    implies nodes[i] != nodes[j] by {
                                    if i < mid.len() && j < mid.len() {
                                        assert(nodes[i] == mid[i]);
                                        assert(nodes[j] == mid[j]);
                                    } else if i < mid.len() {
                                        assert(nodes[j] == c);
                                        assert(mid.contains(mid[i]));
                                        assert(nodes[i] == mid[i]);
                                    } else {
                                        assert(nodes[i] == c);
                                        assert(j < mid.len());
                                        assert(mid.contains(mid[j]));
                                        assert(nodes[j] == mid[j]);
                                    }
                                }
                            }
                            assert forall|x: usize| #[trigger] out@.contains(x)
                                implies !stack_nodes(stack@).contains(x) by {
                                assert(!stack_nodes(stack_mid).contains(x));
                                assert(visited_mid.to_set().contains(x));
                                assert(x != c);
                                assert forall|i: int|
                                    0 <= i < stack_nodes(stack@).len() implies stack_nodes(
                                    stack@,
                                )[i] != x by {
                                    if i < stack_nodes(stack_mid).len() {
                                        assert(stack_nodes(stack@)[i] == stack_nodes(
                                            stack_mid,
                                        )[i]);
                                        assert(!stack_nodes(stack_mid).contains(x));
                                    }
                                }
                            }
                            assert(visited@.to_set() =~= out@.to_set().union(
                                stack_nodes(stack@).to_set(),
                            )) by {
                                assert forall|x: usize| visited@.to_set().contains(x) implies
                                    out@.to_set().contains(x) || stack_nodes(
                                    stack@,
                                ).to_set().contains(x) by {
                                    if visited_mid.contains(x) {
                                        assert(visited_mid.to_set().contains(x));
                                        if stack_nodes(stack_mid).contains(x) {
                                            let i = choose|i: int|
                                                0 <= i < stack_nodes(stack_mid).len()
                                                    && stack_nodes(stack_mid)[i] == x;
                                            assert(stack_nodes(stack@)[i] == x);
                                        }
                                    } else {
                                        assert(x == c);
                                        assert(stack_nodes(stack@)[stack_nodes(stack@).len() - 1]
                                            == c);
                                    }
                                }
                                assert forall|x: usize| stack_nodes(stack@).to_set().contains(x)
                                    implies visited@.to_set().contains(x) by {
                                    if stack_nodes(stack_mid).contains(x) {
                                        assert(visited_mid.to_set().contains(x));
                                        assert(visited_mid.contains(x));
                                    } else {
                                        let i = choose|i: int|
                                            0 <= i < stack_nodes(stack@).len() && stack_nodes(
                                                stack@,
                                            )[i] == x;
                                        assert(i == stack_nodes(stack@).len() - 1);
                                        assert(x == c);
                                    }
                                }
                                assert forall|x: usize| out@.to_set().contains(x)
                                    implies visited@.to_set().contains(x) by {
                                    assert(visited_mid.to_set().contains(x));
                                    assert(visited_mid.contains(x));
                                }
                            }
                            assert forall|i: int|
                                0 <= i < stack@.len() implies frame_ok(
                                *graph,
                                visited@,
                                #[trigger] stack@[i],
                            ) by {
                                if i < stack@.len() - 2 {
                                    assert(stack@[i] == stack_before[i]);
                                    assert(frame_ok(*graph, visited_mid, stack_before[i]));
                                    let f = stack@[i];
                                    assert forall|j: int|
                                        0 <= j < f.1 implies visited@.contains(
                                        #[trigger] graph.references_of(f.0 as int)[j],
                                    ) by {
                                        assert(visited_mid.contains(
                                            graph.references_of(f.0 as int)[j],
                                        ));
                                    }
                                } else if i == stack@.len() - 2 {
                                    assert(stack@[i] == (a, (ci + 1) as usize));
                                    assert(frame_ok(*graph, visited_mid, stack_before.last()));
                                    assert forall|j: int|
                                        0 <= j < ci + 1 implies visited@.contains(
                                        #[trigger] graph.references_of(a as int)[j],
                                    ) by {
                                        if j == ci {
                                            assert(graph.references_of(a as int)[j] == c);
                                        } else {
                                            assert(visited_mid.contains(
                                                graph.references_of(a as int)[j],
                                            ));
                                        }
                                    }
                                } else {
                                    assert(stack@[i] == (c, 0usize));
                                }
                            }
                            assert forall|i: int|
                                0 <= i < stack@.len() - 1 implies #[trigger] graph.references_of(
                                stack@[i].0 as int,
                            ).contains(stack@[i + 1].0) by {
                                if i < stack@.len() - 2 {
                                    assert(stack@[i].0 == stack_before[i].0);
                                    assert(stack@[i + 1].0 == stack_before[i + 1].0);
                                } else {
                                    assert(stack@[i].0 == a);
                                    assert(stack@[i + 1].0 == c);
                                    assert(graph.references_of(a as int)[ci as int] == c);
                                }
                            }
                            assert forall|t: Set<usize>|
                                #[trigger] asset_closed(*graph, t) && entries@.to_set().subset_of(
                                    t,
                                ) implies visited@.to_set().subset_of(t) by {
                                assert(visited_mid.to_set().subset_of(t));
                                assert(visited_mid.to_set().contains(a)) by {
                                    assert(stack_nodes(stack_mid).contains(a)) by {
                                        assert(stack_nodes(stack_mid)[stack_nodes(
                                            stack_mid,
                                        ).len() - 1] == a);
                                    }
                                }
                                assert(t.contains(a));
                                assert(graph.references_of(a as int).to_set().subset_of(t));
                                assert(graph.references_of(a as int).to_set().contains(c)) by {
                                    assert(graph.references_of(a as int).contains(c));
                                }
                                assert forall|x: usize| visited@.to_set().contains(x)
                                    implies t.contains(x) by {
                                    if visited_mid.contains(x) {
                                        assert(visited_mid.to_set().contains(x));
                                    } else {
                                        assert(x == c);
                                    }
                                }
                            }
                            assert forall|k: int|
                                0 <= k < out@.len() implies graph.references_of(
                                #[trigger] out@[k] as int,
                            ).to_set().subset_of(visited@.to_set()) by {
                                assert(graph.references_of(out@[k] as int).to_set().subset_of(
                                    visited_mid.to_set(),
                                ));
                                assert forall|x: usize|
                                    graph.references_of(out@[k] as int).to_set().contains(x)
                                    implies visited@.to_set().contains(x) by {
                                    assert(visited_mid.to_set().contains(x));
                                    assert(visited_mid.contains(x));
                                }
                            }
                        }
                    } else {
                        proof {
                            assert forall|i: int|
                                0 <= i < stack@.len() implies frame_ok(
                                *graph,
                                visited@,
                                #[trigger] stack@[i],
                            ) by {
                                if i < stack@.len() - 1 {
                                    assert(stack@[i] == stack_before[i]);
                                    assert(frame_ok(*graph, visited@, stack_before[i]));
                                } else {
                                    assert(frame_ok(*graph, visited@, stack_before.last()));
                                    assert forall|j: int|
                                        0 <= j < ci + 1 implies visited@.contains(
                                        #[trigger] graph.references_of(a as int)[j],
                                    ) by {
                                        if j == ci {
                                            assert(graph.references_of(a as int)[j] == c);
                                        }
                                    }
                                }
                            }
                            assert forall|i: int|
                                0 <= i < stack@.len() - 1 implies #[trigger] graph.references_of(
                                stack@[i].0 as int,
                            ).contains(stack@[i + 1].0) by {
                                assert(stack@[i] == stack_before[i]);
                                assert(stack@[i + 1].0 == stack_before[i + 1].0);
                            }
                        }
                    }
                } else {
                    let ghost out_before = out@;
                    out.push(a);
                    proof {
                        assert(ci == graph.references_of(a as int).len());
                        assert(out@ =~= out_before.push(a));
                        assert(out@[out@.len() - 1] == a);
                        assert forall|x: usize| out_before.contains(x) implies out@.contains(
                            x,
                        ) by {
                            let k = choose|k: int|
                                0 <= k < out_before.len() && out_before[k] == x;
                            assert(out@[k] == x);
                        }
                        assert(stack_nodes(stack_before).contains(a)) by {
                            assert(stack_nodes(stack_before)[stack_nodes(stack_before).len() - 1]
                                == a);
                        }
                        assert(!out_before.contains(a));
                        assert(out@.no_duplicates());
                        assert forall|x: usize| #[trigger] out@.contains(x)
                            implies !stack_nodes(stack@).contains(x) by {
                            assert forall|i: int|
                                0 <= i < stack_nodes(stack@).len() implies stack_nodes(
                                stack@,
                            )[i] != x by {
                                assert(stack_nodes(stack@)[i] == stack_nodes(stack_before)[i]);
                                if out_before.contains(x) {
                                    assert(!stack_nodes(stack_before).contains(x));
                                } else {
                                    assert(x == a);
                                    assert(stack_nodes(stack_before).no_duplicates());
                                    assert(stack_nodes(stack_before)[stack_nodes(
                                        stack_before,
                                    ).len() - 1] == a);
                                }
                            }
                        }
                        assert(visited@.to_set() =~= out@.to_set().union(
                            stack_nodes(stack@).to_set(),
                        )) by {
                            assert forall|x: usize| visited@.to_set().contains(x) implies
                                out@.to_set().contains(x) || stack_nodes(
                                stack@,
                            ).to_set().contains(x) by {
                                if out_before.to_set().contains(x) {
                                    assert(out_before.contains(x));
                                } else {
                                    assert(stack_nodes(stack_before).to_set().contains(x));
                                    let i = choose|i: int|
                                        0 <= i < stack_nodes(stack_before).len() && stack_nodes(
                                            stack_before,
                                        )[i] == x;
                                    if i < stack_nodes(stack_before).len() - 1 {
                                        assert(stack_nodes(stack@)[i] == x);
                                    } else {
                                        assert(x == a);
                                    }
                                }
                            }
                            assert forall|x: usize| out@.to_set().contains(x) || stack_nodes(
                                stack@,
                            ).to_set().contains(x) implies visited@.to_set().contains(x) by {
                                if out@.contains(x) {
                                    let k = choose|k: int|
                                        0 <= k < out@.len() && out@[k] == x;
                                    if k < out_before.len() {
                                        assert(out_before.contains(x));
                                        assert(out_before.to_set().contains(x));
                                    } else {
                                        assert(x == a);
                                        assert(stack_nodes(stack_before).to_set().contains(a));
                                    }
                                } else {
                                    let i = choose|i: int|
                                        0 <= i < stack_nodes(stack@).len() && stack_nodes(
                                            stack@,
                                        )[i] == x;
                                    assert(stack_nodes(stack_before)[i] == x);
                                    assert(stack_nodes(stack_before).to_set().contains(x));
                                }
                            }
                        }
                        assert forall|k: int|
                            0 <= k < out@.len() implies graph.references_of(
                            #[trigger] out@[k] as int,
                        ).to_set().subset_of(visited@.to_set()) by {
                            if k < out_before.len() {
                                assert(out@[k] == out_before[k]);
                                assert(graph.references_of(out_before[k] as int).to_set().subset_of(
                                    visited@.to_set(),
                                ));
                            } else {
                                assert(out@[k] == a);
                                assert forall|x: usize|
                                    graph.references_of(a as int).to_set().contains(x)
                                    implies visited@.to_set().contains(x) by {
                                    assert(graph.references_of(a as int).contains(x));
                                    let j = choose|j: int|
                                        0 <= j < graph.references_of(a as int).len()
                                            && graph.references_of(a as int)[j] == x;
                                    assert(frame_ok(*graph, visited@, stack_before.last()));
                                    assert(visited@.contains(
                                        graph.references_of(a as int)[j],
                                    ));
                                }
                            }
                        }
                        assert(reverse_topological(*graph, out@)) by {
                            assert forall|k: int, b: usize|
                                0 <= k < out@.len() && #[trigger] graph.references_of(
                                    out@[k] as int,
                                ).contains(b) implies dependency_before(*graph, out@, k, b) by {
                                if k < out_before.len() {
                                    assert(out@[k] == out_before[k]);
                                    assert(dependency_before(*graph, out_before, k, b));
                                    if exists|i: int| 0 <= i <= k && out_before[i] == b {
                                        let i = choose|i: int|
                                            0 <= i <= k && out_before[i] == b;
                                        assert(out@[i] == b);
                                    }
                                } else {
                                    assert(out@[k] == a);
                                    assert(visited@.contains(b)) by {
                                        let j = choose|j: int|
                                            0 <= j < graph.references_of(a as int).len()
                                                && graph.references_of(a as int)[j] == b;
                                        assert(frame_ok(*graph, visited@, stack_before.last()));
                                    }
                                    assert(visited@.to_set().contains(b));
                                    if out@.to_set().contains(b) {
                                        let i = choose|i: int|
                                            0 <= i < out@.len() && out@[i] == b;
                                        assert(0 <= i <= k && out@[i] == b);
                                    } else {
                                        assert(stack_nodes(stack_before).to_set().contains(b)
                                            || b == a) by {
                                            if !out_before.to_set().contains(b) && b != a {
                                                assert(stack_nodes(stack@).to_set().contains(b));
                                                let i = choose|i: int|
                                                    0 <= i < stack_nodes(stack@).len()
                                                        && stack_nodes(stack@)[i] == b;
                                                assert(stack_nodes(stack_before)[i] == b);
                                            } else if out_before.to_set().contains(b) {
                                                assert(out_before.contains(b));
                                                assert(out@.to_set().contains(b));
                                            }
                                        }
                                        let nodes = stack_nodes(stack_before);
                                        assert forall|k2: int|
                                            0 <= k2 < nodes.len() implies (#[trigger] nodes[k2])
                                            < graph.asset_count_spec() by {
                                            assert(frame_ok(
                                                *graph,
                                                visited@,
                                                stack_before[k2],
                                            ));
                                        }
                                        assert forall|k2: int|
                                            0 <= k2 < nodes.len() - 1 implies
                                            #[trigger] graph.references_of(
                                            nodes[k2] as int,
                                        ).contains(nodes[k2 + 1]) by {
                                            assert(graph.references_of(
                                                stack_before[k2].0 as int,
                                            ).contains(stack_before[k2 + 1].0));
                                        }
                                        if b == a {
                                            lemma_chain_reaches(
                                                *graph,
                                                nodes,
                                                nodes.len() - 1,
                                            );
                                        } else {
                                            let i = choose|i: int|
                                                0 <= i < nodes.len() && nodes[i] == b;
                                            lemma_chain_reaches(*graph, nodes, i);
                                        }
                                        assert(nodes[nodes.len() - 1] == a);
                                        assert(asset_reaches(*graph, b, a));
                                    }
                                }
                            }
                        }
                        assert(pending_work(*graph, stack_before) == pending_work(*graph, stack@));
                    }
                }
            }
            proof {
                assert(stack_nodes(stack@) =~= Seq::<usize>::empty());
                assert(visited@.to_set() =~= out@.to_set()) by {
                    assert(stack_nodes(stack@).to_set() =~= Set::<usize>::empty());
                    assert(visited@.to_set() == out@.to_set().union(Set::<usize>::empty()));
                    assert(out@.to_set().union(Set::<usize>::empty()) =~= out@.to_set());
                }
                assert(out@.contains(entries@[e as int])) by {
                    assert(visited@.contains(root));
                    assert(visited@.to_set().contains(root));
                    assert(out@.to_set().contains(root));
                }
            }
        } else {
            proof {
                assert(visited@.to_set().contains(root));
                assert(out@.to_set().contains(root));
                assert(out@.contains(entries@[e as int]));
            }
        }
        e = e + 1;
    }
    proof {
        assert(asset_closed(*graph, out@.to_set())) by {
            assert forall|a: usize| #[trigger] out@.to_set().contains(a)
                implies a < graph.asset_count_spec() && graph.references_of(
                a as int,
            ).to_set().subset_of(out@.to_set()) by {
                assert(visited@.to_set().contains(a));
                assert(visited@.contains(a));
                let k = choose|k: int| 0 <= k < visited@.len() && visited@[k] == a;
                assert(visited@[k] < graph.asset_count_spec());
                let j = choose|j: int| 0 <= j < out@.len() && out@[j] == a;
                assert(graph.references_of(out@[j] as int).to_set().subset_of(
                    visited@.to_set(),
                ));
            }
        }
    }
    out
}

/// In an acyclic asset graph, an order that is reverse topological up
/// to cycles is truly reverse topological: every directly referenced
/// asset appears at or before its referrer.
pub proof fn lemma_reverse_topological_acyclic(g: AssetGraph, out: Seq<usize>, k: int, b: usize)
    requires
        g.wf(),
        asset_acyclic(g),
        reverse_topological(g, out),
        all_below_spec(out, g.asset_count_spec()),
        0 <= k < out.len(),
        g.references_of(out[k] as int).contains(b),
    ensures
        exists|i: int| 0 <= i <= k && out[i] == b,
{
    assert(dependency_before(g, out, k, b));
    if !(exists|i: int| 0 <= i <= k && out[i] == b) {
        assert(asset_reaches(g, b, out[k]));
        let p = choose|p: Seq<usize>|
            is_asset_path(g, p) && p.first() == b && p.last() == out[k];
        let cycle = p.push(b);
        assert(is_asset_path(g, cycle)) by {
            assert(b < g.asset_count_spec()) by {
                assert(all_below_spec(g.references_of(out[k] as int), g.asset_count_spec()));
                let j = choose|j: int|
                    0 <= j < g.references_of(out[k] as int).len() && g.references_of(
                        out[k] as int,
                    )[j] == b;
            }
            assert forall|i: int| 0 <= i < cycle.len() - 1 implies #[trigger] g.references_of(
                cycle[i] as int,
            ).contains(cycle[i + 1]) by {
                if i < p.len() - 1 {
                    assert(cycle[i] == p[i]);
                    assert(cycle[i + 1] == p[i + 1]);
                } else {
                    assert(cycle[i] == p.last());
                    assert(cycle[i + 1] == b);
                }
            }
        }
        assert(cycle.len() >= 2);
        assert(cycle.first() == b && cycle.last() == b);
    }
}

} // verus!
