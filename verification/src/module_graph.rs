//! The module dependency graph and its resolution records.

use vstd::prelude::*;

use crate::support::all_below;
use crate::support::all_below_spec;

verus! {

/// The outcome of resolving one reference at the resolution boundary:
/// the modules the reference resolves to directly, in order, plus zero
/// or more further references discovered while resolving it (re-export
/// indirection and the like).
pub struct ResolveResult {
    pub primary_targets: Vec<usize>,
    pub further_references: Vec<usize>,
}

/// One recorded answer of the resolution boundary for one reference.
/// Resolution is deterministic for equal inputs, so a traversal sees
/// exactly one outcome per reference: a resolve result, or a failure.
pub enum Resolution {
    Resolved(ResolveResult),
    Failed,
}

/// A module dependency graph, held arena-style: modules and references
/// are dense ids, never embedded back-pointers. Each module owns an
/// ordered list of its direct references; each reference carries the
/// one resolution outcome the boundary produced for it.
///
/// A resolution may only chase further references that were registered
/// before the reference itself. That registration order keeps every
/// resolution tree finite, so the traversals terminate even when the
/// module graph itself is cyclic.
pub struct ModuleGraph {
    pub module_references: Vec<Vec<usize>>,
    pub resolutions: Vec<Resolution>,
}

impl ModuleGraph {
    /// Number of modules in the graph.
    pub open spec fn module_count_spec(self) -> int {
        self.module_references@.len() as int
    }

    /// Number of registered references.
    pub open spec fn reference_count_spec(self) -> int {
        self.resolutions@.len() as int
    }

    /// The ordered direct references of module `m`.
    pub open spec fn references_of(self, m: int) -> Seq<usize> {
        self.module_references@[m]@
    }

    /// The recorded resolution outcome of reference `r`.
    pub open spec fn resolution_of(self, r: int) -> Resolution {
        self.resolutions@[r]
    }

    /// The resolution of reference `r` mentions only modules that exist
    /// and only further references registered before `r`.
    pub open spec fn resolution_wf(self, r: int) -> bool {
        match self.resolution_of(r) {
            Resolution::Resolved(res) => all_below_spec(
                res.primary_targets@,
                self.module_count_spec(),
            ) && all_below_spec(res.further_references@, r),
            Resolution::Failed => true,
        }
    }

    /// Well-formedness: every direct reference of a module exists, and
    /// every resolution is well formed.
    pub open spec fn wf(self) -> bool {
        &&& forall|m: int|
            0 <= m < self.module_count_spec() ==> all_below_spec(
                #[trigger] self.references_of(m),
                self.reference_count_spec(),
            )
        &&& forall|r: int| 0 <= r < self.reference_count_spec() ==> #[trigger] self.resolution_wf(r)
    }

    /// Creates a graph of `module_count` modules, each with no direct
    /// references yet, and no registered references.
    pub fn new(module_count: usize) -> (graph: ModuleGraph)
        ensures
            graph.wf(),
            graph.module_count_spec() == module_count,
            graph.reference_count_spec() == 0,
            forall|m: int| 0 <= m < module_count ==> (#[trigger] graph.references_of(m)).len() == 0,
    {
        let mut module_references: Vec<Vec<usize>> = Vec::new();
        let mut i: usize = 0;
        while i < module_count
            invariant
                i <= module_count,
                module_references@.len() == i,
                forall|m: int| 0 <= m < i ==> (#[trigger] module_references@[m])@.len() == 0,
            decreases module_count - i,
        {
            module_references.push(Vec::new());
            i = i + 1;
        }
        ModuleGraph { module_references, resolutions: Vec::new() }
    }

    /// Number of modules.
    pub fn module_count(&self) -> (n: usize)
        ensures
            n == self.module_count_spec(),
    {
        self.module_references.len()
    }

    /// Number of registered references.
    pub fn reference_count(&self) -> (n: usize)
        ensures
            n == self.reference_count_spec(),
    {
        self.resolutions.len()
    }

    /// The ordered direct references of a module.
    pub fn references(&self, module: usize) -> (refs: &Vec<usize>)
        requires
            module < self.module_count_spec(),
        ensures
            refs@ == self.references_of(module as int),
    {
        &self.module_references[module]
    }

    /// The recorded resolution outcome of a reference.
    pub fn resolution(&self, reference: usize) -> (res: &Resolution)
        requires
            reference < self.reference_count_spec(),
        ensures
            *res == self.resolution_of(reference as int),
    {
        &self.resolutions[reference]
    }

    /// Registers a reference that resolves to the given primary targets
    /// and chases the given further references, and returns its id.
    ///
    /// The registration is refused (returning `None`, leaving the graph
    /// unchanged) exactly when a primary target names a module that does
    /// not exist or a further reference was not registered earlier.
    pub fn add_resolved_reference(
        &mut self,
        primary_targets: Vec<usize>,
        further_references: Vec<usize>,
    ) -> (added: Option<usize>)
        requires
            old(self).wf(),
        ensures
            final(self).wf(),
            added is Some <==> (all_below_spec(primary_targets@, old(self).module_count_spec())
                && all_below_spec(further_references@, old(self).reference_count_spec())),
            match added {
                Some(reference) => {
                    &&& reference == old(self).reference_count_spec()
                    &&& final(self).module_references@ == old(self).module_references@
                    &&& final(self).reference_count_spec() == old(self).reference_count_spec() + 1
                    &&& forall|r: int|
                        0 <= r < old(self).reference_count_spec() ==> final(self).resolution_of(r)
                            == old(self).resolution_of(r)
                    &&& final(self).resolution_of(reference as int) == Resolution::Resolved(
                        (ResolveResult { primary_targets, further_references }),
                    )
                },
                None => *final(self) == *old(self),
            },
    {
        let targets_ok = all_below(&primary_targets, self.module_references.len());
        let further_ok = all_below(&further_references, self.resolutions.len());
        if targets_ok && further_ok {
            let reference = self.resolutions.len();
            self.resolutions.push(
                Resolution::Resolved(ResolveResult { primary_targets, further_references }),
            );
            proof {
                assert forall|r: int|
                    0 <= r < self.reference_count_spec() implies #[trigger] self.resolution_wf(
                    r,
                ) by {
                    if r < old(self).reference_count_spec() {
                        assert(old(self).resolution_wf(r));
                    }
                }
                assert forall|m: int|
                    0 <= m < self.module_count_spec() implies all_below_spec(
                    #[trigger] self.references_of(m),
                    self.reference_count_spec(),
                ) by {
                    assert(all_below_spec(old(self).references_of(m), old(
                        self,
                    ).reference_count_spec()));
                }
            }
            Some(reference)
        } else {
            None
        }
    }

    /// Registers a reference whose resolution failed at the boundary,
    /// and returns its id.
    pub fn add_failed_reference(&mut self) -> (reference: usize)
        requires
            old(self).wf(),
        ensures
            final(self).wf(),
            reference == old(self).reference_count_spec(),
            final(self).module_references@ == old(self).module_references@,
            final(self).reference_count_spec() == old(self).reference_count_spec() + 1,
            forall|r: int|
                0 <= r < old(self).reference_count_spec() ==> final(self).resolution_of(r) == old(
                    self,
                ).resolution_of(r),
            final(self).resolution_of(reference as int) == Resolution::Failed,
    {
        let reference = self.resolutions.len();
        self.resolutions.push(Resolution::Failed);
        proof {
            assert forall|r: int|
                0 <= r < self.reference_count_spec() implies #[trigger] self.resolution_wf(r) by {
                if r < old(self).reference_count_spec() {
                    assert(old(self).resolution_wf(r));
                }
            }
            assert forall|m: int|
                0 <= m < self.module_count_spec() implies all_below_spec(
                #[trigger] self.references_of(m),
                self.reference_count_spec(),
            ) by {
                assert(all_below_spec(old(self).references_of(m), old(
                    self,
                ).reference_count_spec()));
            }
        }
        reference
    }

    /// Appends a registered reference to a module's direct reference
    /// list. Declaration order is kept: later additions come later.
    ///
    /// The addition is refused (returning `false`, leaving the graph
    /// unchanged) exactly when the module or the reference does not
    /// exist.
    pub fn add_module_reference(&mut self, module: usize, reference: usize) -> (added: bool)
        requires
            old(self).wf(),
        ensures
            final(self).wf(),
            added <==> (module < old(self).module_count_spec() && reference < old(
                self,
            ).reference_count_spec()),
            added ==> {
                &&& final(self).resolutions@ == old(self).resolutions@
                &&& final(self).module_count_spec() == old(self).module_count_spec()
                &&& final(self).references_of(module as int) == old(self).references_of(
                    module as int,
                ) + seq![reference]
                &&& forall|m: int|
                    0 <= m < final(self).module_count_spec() && m != module
                        ==> #[trigger] final(self).references_of(m) == old(self).references_of(m)
            },
            !added ==> *final(self) == *old(self),
    {
        if module < self.module_references.len() && reference < self.resolutions.len() {
            let list = &mut self.module_references[module];
            list.push(reference);
            proof {
                assert(self.references_of(module as int) =~= old(self).references_of(
                    module as int,
                ) + seq![reference]);
                assert forall|m: int|
                    0 <= m < self.module_count_spec() implies all_below_spec(
                    #[trigger] self.references_of(m),
                    self.reference_count_spec(),
                ) by {
                    assert(all_below_spec(old(self).references_of(m), old(
                        self,
                    ).reference_count_spec()));
                }
                assert forall|r: int|
                    0 <= r < self.reference_count_spec() implies #[trigger] self.resolution_wf(
                    r,
                ) by {
                    assert(old(self).resolution_wf(r));
                }
            }
            true
        } else {
            false
        }
    }

    /// Registers a reference that always resolves to the single module
    /// `target`, with no further references, and returns its id.
    ///
    /// Refused (returning `None`) exactly when `target` does not exist.
    pub fn add_single_module_reference(&mut self, target: usize) -> (added: Option<usize>)
        requires
            old(self).wf(),
        ensures
            final(self).wf(),
            added is Some <==> target < old(self).module_count_spec(),
            match added {
                Some(reference) => {
                    &&& reference == old(self).reference_count_spec()
                    &&& final(self).module_references@ == old(self).module_references@
                    &&& final(self).reference_count_spec() == old(self).reference_count_spec() + 1
                    &&& forall|r: int|
                        0 <= r < old(self).reference_count_spec() ==> final(self).resolution_of(r)
                            == old(self).resolution_of(r)
                    &&& final(self).resolution_of(reference as int) matches Resolution::Resolved(
                        res,
                    ) && res.primary_targets@ == seq![target]
                        && res.further_references@.len() == 0
                },
                None => *final(self) == *old(self),
            },
    {
        let mut primary_targets: Vec<usize> = Vec::new();
        primary_targets.push(target);
        let further_references: Vec<usize> = Vec::new();
        proof {
            assert(primary_targets@ =~= seq![target]);
            assert(all_below_spec(primary_targets@, self.module_count_spec()) <==> target
                < self.module_count_spec()) by {
                assert(primary_targets@[0] == target);
            }
            assert(all_below_spec(further_references@, self.reference_count_spec()));
        }
        self.add_resolved_reference(primary_targets, further_references)
    }
}

} // verus!
