//! A forest of nodes that keeps the dirty flags propagated towards the roots.

use vstd::prelude::*;
use crate::node_flags::{after_reflow, reflow_flags, NodeFlag, NodeFlags};

verus! {

/// A forest of document nodes. A node is named by the number it got when it
/// was added; a node's parent was added before the node itself.
pub struct NodeTree {
    parents: Vec<Option<usize>>,
    flags: Vec<NodeFlags>,
}

impl NodeTree {
    /// How many nodes there are.
    pub closed spec fn size(self) -> nat {
        self.parents@.len()
    }

    /// The parent of node `n`; a root has none, and neither has a number that
    /// names no node.
    pub closed spec fn parent_of(self, n: int) -> Option<int> {
        if 0 <= n < self.parents@.len() {
            match self.parents@[n] {
                Some(p) => Some(p as int),
                None => None,
            }
        } else {
            None
        }
    }

    /// The flags that are set on node `n`.
    pub closed spec fn flags_of(self, n: int) -> Set<NodeFlag> {
        if 0 <= n < self.flags@.len() {
            self.flags@[n]@
        } else {
            Set::empty()
        }
    }

    /// The two vectors describe the same nodes.
    pub closed spec fn coherent(self) -> bool {
        &&& self.parents@.len() == self.flags@.len()
        &&& forall|i: int| 0 <= i < self.flags@.len() ==> (#[trigger] self.flags@[i]).wf()
    }

    /// Every parent is a node, and one added earlier than its child.
    pub open spec fn wf(self) -> bool {
        &&& self.coherent()
        &&& forall|n: int|
            (#[trigger] self.parent_of(n)) is Some ==> 0 <= self.parent_of(n).unwrap() < n
                < self.size()
    }

    /// Node `n` itself asks for work: it has changed or is dirty.
    pub open spec fn needs_work(self, n: int) -> bool {
        self.flags_of(n).contains(NodeFlag::HasChanged) || self.flags_of(n).contains(
            NodeFlag::IsDirty,
        )
    }

    /// Node `n` is flagged as having dirty descendants.
    pub open spec fn flagged(self, n: int) -> bool {
        self.flags_of(n).contains(NodeFlag::HasDirtyDescendants)
    }

    /// `a` is a strict ancestor of `n`.
    pub open spec fn is_ancestor(self, a: int, n: int) -> bool
        decreases n,
    {
        match self.parent_of(n) {
            Some(p) => 0 <= p < n && (a == p || self.is_ancestor(a, p)),
            None => false,
        }
    }

    /// How many ancestors of `n`, going up from its parent, come before the
    /// first one that is flagged already.
    pub open spec fn unflagged_run(self, n: int) -> nat
        decreases n,
    {
        match self.parent_of(n) {
            Some(p) => if 0 <= p < n && !self.flagged(p) {
                1 + self.unflagged_run(p)
            } else {
                0
            },
            None => 0,
        }
    }

    /// `m` is one of the ancestors of `n` that come before the first one that
    /// is flagged already.
    pub open spec fn on_unflagged_run(self, n: int, m: int) -> bool
        decreases n,
    {
        match self.parent_of(n) {
            Some(p) => 0 <= p < n && !self.flagged(p) && (m == p || self.on_unflagged_run(p, m)),
            None => false,
        }
    }

    /// The marking that is kept between operations: the parent of a node
    /// that asks for work, or that is flagged itself, is flagged.
    pub open spec fn well_marked(self) -> bool {
        forall|n: int|
            (#[trigger] self.parent_of(n)) is Some && (self.needs_work(n) || self.flagged(n))
                ==> self.flagged(self.parent_of(n).unwrap())
    }

    /// Every strict ancestor of a node that has changed or is dirty is
    /// flagged as having dirty descendants.
    pub open spec fn propagated(self) -> bool {
        forall|a: int, n: int|
            #[trigger] self.is_ancestor(a, n) && self.needs_work(n) ==> self.flagged(a)
    }

    /// Every child of `n` carries none of the three layout flags.
    pub open spec fn children_clean(self, n: int) -> bool {
        forall|c: int|
            (#[trigger] self.parent_of(c)) == Some(n) ==> !self.needs_work(c) && !self.flagged(c)
    }

    /// The same nodes under the same parents.
    pub open spec fn same_shape(self, other: NodeTree) -> bool {
        &&& self.size() == other.size()
        &&& forall|n: int| #[trigger] self.parent_of(n) == other.parent_of(n)
    }

    /// A forest without nodes.
    pub fn new() -> (r: NodeTree)
        ensures
            r.wf(),
            r.size() == 0,
            r.well_marked(),
    {
        NodeTree { parents: Vec::new(), flags: Vec::new() }
    }

    /// The number of nodes.
    pub fn len(&self) -> (r: usize)
        ensures
            r == self.size(),
    {
        self.parents.len()
    }

    /// The parent of `node`.
    pub fn parent(&self, node: usize) -> (r: Option<usize>)
        requires
            self.wf(),
            node < self.size(),
        ensures
            match r {
                Some(p) => self.parent_of(node as int) == Some(p as int),
                None => self.parent_of(node as int) is None,
            },
    {
        self.parents[node]
    }

    /// The flags of `node`.
    pub fn flags(&self, node: usize) -> (r: NodeFlags)
        requires
            self.wf(),
            node < self.size(),
        ensures
            r@ == self.flags_of(node as int),
            r.wf(),
    {
        self.flags[node]
    }

    /// Flags the ancestors of `node` as having dirty descendants, from its
    /// parent upwards, and stops before the first one that is flagged
    /// already. Returns how many ancestors it flagged.
    pub fn flag_ancestors(&mut self, node: usize) -> (steps: usize)
        requires
            old(self).wf(),
            node < old(self).size(),
        ensures
            final(self).wf(),
            final(self).same_shape(*old(self)),
            steps == old(self).unflagged_run(node as int),
            forall|m: int|
                #[trigger] final(self).flags_of(m) == if old(self).on_unflagged_run(
                    node as int,
                    m,
                ) {
                    old(self).flags_of(m).insert(NodeFlag::HasDirtyDescendants)
                } else {
                    old(self).flags_of(m)
                },
            old(self).well_marked() ==> final(self).well_marked(),
    {
        let ghost before = *self;
        let ghost mut visited: Set<int> = Set::empty();
        let mut cur: usize = node;
        let mut steps: usize = 0;
        loop
            invariant
                before.wf(),
                self.wf(),
                self.same_shape(before),
                cur <= node,
                node < before.size(),
                steps + cur <= node,
                before.unflagged_run(node as int) == steps + before.unflagged_run(cur as int),
                forall|m: int|
                    #![trigger before.on_unflagged_run(node as int, m)]
                    before.on_unflagged_run(node as int, m) == (visited.contains(m)
                        || before.on_unflagged_run(cur as int, m)),
                forall|m: int| visited.contains(m) ==> cur <= m,
                forall|m: int|
                    #[trigger] self.flags_of(m) == if visited.contains(m) {
                        before.flags_of(m).insert(NodeFlag::HasDirtyDescendants)
                    } else {
                        before.flags_of(m)
                    },
            ensures
                before.unflagged_run(cur as int) == 0,
                forall|m: int| !before.on_unflagged_run(cur as int, m),
            decreases cur,
        {
            let ghost here = *self;
            match self.parents[cur] {
                None => {
                    assert(before.parent_of(cur as int) == here.parent_of(cur as int));
                    break ;
                },
                Some(p) => {
                    assert(before.parent_of(cur as int) == here.parent_of(cur as int));
                    assert(here.parent_of(cur as int) == Some(p as int));
                    assert(here.flags_of(p as int) == before.flags_of(p as int));
                    let mut f = self.flags[p];
                    if f.test(NodeFlag::HasDirtyDescendants) {
                        break ;
                    }
                    f.set(NodeFlag::HasDirtyDescendants);
                    self.flags.set(p, f);
                    proof {
                        let grown = visited.insert(p as int);
                        assert forall|m: int|
                            #![trigger before.on_unflagged_run(node as int, m)]
                            before.on_unflagged_run(node as int, m) == (grown.contains(m)
                                || before.on_unflagged_run(p as int, m)) by {
                            assert(before.on_unflagged_run(cur as int, m) == (m == p
                                || before.on_unflagged_run(p as int, m)));
                        }
                        assert forall|m: int|
                            #[trigger] self.flags_of(m) == if grown.contains(m) {
                                before.flags_of(m).insert(NodeFlag::HasDirtyDescendants)
                            } else {
                                before.flags_of(m)
                            } by {
                            assert(here.flags_of(m) == if visited.contains(m) {
                                before.flags_of(m).insert(NodeFlag::HasDirtyDescendants)
                            } else {
                                before.flags_of(m)
                            });
                        }
                        assert forall|n: int| #[trigger] self.parent_of(n) == before.parent_of(
                            n,
                        ) by {
                            assert(here.parent_of(n) == before.parent_of(n));
                        }
                        assert(self.coherent());
                        visited = grown;
                    }
                    steps += 1;
                    cur = p;
                },
            }
        }
        proof {
            assert forall|m: int|
                #[trigger] self.flags_of(m) == if before.on_unflagged_run(node as int, m) {
                    before.flags_of(m).insert(NodeFlag::HasDirtyDescendants)
                } else {
                    before.flags_of(m)
                } by {
                assert(before.on_unflagged_run(node as int, m) == visited.contains(m));
            }
            if before.well_marked() {
                before.lemma_flagging_keeps_marking(*self, node as int);
            }
        }
        steps
    }

    /// Flagging the ancestors that a walk from `node` reaches keeps a
    /// well-marked forest well marked.
    pub proof fn lemma_flagging_keeps_marking(self, after: NodeTree, node: int)
        requires
            self.wf(),
            self.well_marked(),
            after.same_shape(self),
            forall|m: int|
                #[trigger] after.flags_of(m) == if self.on_unflagged_run(node, m) {
                    self.flags_of(m).insert(NodeFlag::HasDirtyDescendants)
                } else {
                    self.flags_of(m)
                },
        ensures
            after.well_marked(),
    {
        assert forall|n: int|
            (#[trigger] after.parent_of(n)) is Some && (after.needs_work(n) || after.flagged(n))
            implies after.flagged(after.parent_of(n).unwrap()) by {
            let p = after.parent_of(n).unwrap();
            assert(self.parent_of(n) == Some(p));
            assert(after.flags_of(n) == if self.on_unflagged_run(node, n) {
                self.flags_of(n).insert(NodeFlag::HasDirtyDescendants)
            } else {
                self.flags_of(n)
            });
            assert(after.flags_of(p) == if self.on_unflagged_run(node, p) {
                self.flags_of(p).insert(NodeFlag::HasDirtyDescendants)
            } else {
                self.flags_of(p)
            });
            if !self.flagged(p) && self.on_unflagged_run(node, n) {
                self.lemma_run_goes_up(node, n);
            }
        }
    }

    /// Marks `node` dirty and flags its ancestors, from its parent upwards,
    /// as having dirty descendants; the walk stops before the first ancestor
    /// that is flagged already. Returns how many ancestors it flagged.
    pub fn mark_dirty_and_propagate(&mut self, node: usize) -> (steps: usize)
        requires
            old(self).wf(),
            node < old(self).size(),
        ensures
            final(self).wf(),
            final(self).same_shape(*old(self)),
            steps == old(self).unflagged_run(node as int),
            forall|m: int|
                #[trigger] final(self).flags_of(m) == old(self).marked_flags(
                    node as int,
                    NodeFlag::IsDirty,
                    m,
                ),
            old(self).well_marked() ==> final(self).well_marked(),
    {
        self.mark_and_propagate(node, NodeFlag::IsDirty)
    }

    /// Marks `node` changed and flags its ancestors as
    /// `mark_dirty_and_propagate` does.
    pub fn mark_changed_and_propagate(&mut self, node: usize) -> (steps: usize)
        requires
            old(self).wf(),
            node < old(self).size(),
        ensures
            final(self).wf(),
            final(self).same_shape(*old(self)),
            steps == old(self).unflagged_run(node as int),
            forall|m: int|
                #[trigger] final(self).flags_of(m) == old(self).marked_flags(
                    node as int,
                    NodeFlag::HasChanged,
                    m,
                ),
            old(self).well_marked() ==> final(self).well_marked(),
    {
        self.mark_and_propagate(node, NodeFlag::HasChanged)
    }

    /// The flags of node `m` after `node` got `mark` and its ancestors were
    /// flagged up to the first one that was flagged already.
    pub open spec fn marked_flags(self, node: int, mark: NodeFlag, m: int) -> Set<NodeFlag> {
        if m == node {
            self.flags_of(m).insert(mark)
        } else if self.on_unflagged_run(node, m) {
            self.flags_of(m).insert(NodeFlag::HasDirtyDescendants)
        } else {
            self.flags_of(m)
        }
    }

    fn mark_and_propagate(&mut self, node: usize, mark: NodeFlag) -> (steps: usize)
        requires
            old(self).wf(),
            node < old(self).size(),
        ensures
            final(self).wf(),
            final(self).same_shape(*old(self)),
            steps == old(self).unflagged_run(node as int),
            forall|m: int|
                #[trigger] final(self).flags_of(m) == old(self).marked_flags(node as int, mark, m),
            old(self).well_marked() ==> final(self).well_marked(),
    {
        let steps = self.flag_ancestors(node);
        let ghost walked = *self;
        let mut f = self.flags[node];
        f.set(mark);
        self.flags.set(node, f);
        proof {
            assert forall|n: int| #[trigger] self.parent_of(n) == old(self).parent_of(n) by {
                assert(walked.parent_of(n) == old(self).parent_of(n));
            }
            assert forall|m: int|
                #[trigger] self.flags_of(m) == old(self).marked_flags(node as int, mark, m) by {
                if old(self).on_unflagged_run(node as int, m) {
                    old(self).lemma_run_is_above(node as int, m);
                }
                assert(walked.flags_of(m) == if old(self).on_unflagged_run(node as int, m) {
                    old(self).flags_of(m).insert(NodeFlag::HasDirtyDescendants)
                } else {
                    old(self).flags_of(m)
                });
            }
            if old(self).well_marked() {
                assert forall|n: int|
                    (#[trigger] self.parent_of(n)) is Some && (self.needs_work(n) || self.flagged(
                        n,
                    )) implies self.flagged(self.parent_of(n).unwrap()) by {
                    let p = self.parent_of(n).unwrap();
                    assert(old(self).parent_of(n) == Some(p));
                    assert(self.flags_of(n) == old(self).marked_flags(node as int, mark, n));
                    assert(self.flags_of(p) == old(self).marked_flags(node as int, mark, p));
                    if !old(self).flagged(p) {
                        if n != node {
                            old(self).lemma_run_goes_up(node as int, n);
                        }
                        assert(old(self).on_unflagged_run(node as int, p));
                        old(self).lemma_run_is_above(node as int, p);
                    }
                }
            }
        }
        steps
    }

    /// The ancestors that a walk from `n` flags were added before `n`.
    pub proof fn lemma_run_is_above(self, n: int, m: int)
        requires
            self.on_unflagged_run(n, m),
        ensures
            0 <= m < n,
        decreases n,
    {
        let p = self.parent_of(n).unwrap();
        if m != p {
            self.lemma_run_is_above(p, m);
        }
    }

    /// Where a walk from `n` flags `m`, it goes on to the parent of `m`
    /// unless that one is flagged already.
    pub proof fn lemma_run_goes_up(self, n: int, m: int)
        requires
            self.wf(),
            self.on_unflagged_run(n, m),
            self.parent_of(m) is Some,
            !self.flagged(self.parent_of(m).unwrap()),
        ensures
            self.on_unflagged_run(n, self.parent_of(m).unwrap()),
        decreases n,
    {
        let p = self.parent_of(n).unwrap();
        let q = self.parent_of(m).unwrap();
        if m == p {
            assert(self.on_unflagged_run(p, q));
        } else {
            self.lemma_run_goes_up(p, m);
        }
    }

    /// Where two forests agree on the parents and on the flagging of every
    /// node up to `n`, a walk from `n` flags the same ancestors in both.
    pub proof fn lemma_runs_agree(self, other: NodeTree, n: int, m: int)
        requires
            forall|k: int| 0 <= k <= n ==> #[trigger] self.parent_of(k) == other.parent_of(k),
            forall|k: int| 0 <= k <= n ==> self.flagged(k) == #[trigger] other.flagged(k),
        ensures
            self.on_unflagged_run(n, m) == other.on_unflagged_run(n, m),
            self.unflagged_run(n) == other.unflagged_run(n),
        decreases n,
    {
        if n >= 0 {
            match self.parent_of(n) {
                Some(p) => {
                    if 0 <= p < n {
                        assert(self.flagged(p) == other.flagged(p));
                        self.lemma_runs_agree(other, p, m);
                    }
                },
                None => {},
            }
        }
    }

    /// Adding a child under `parent` flags `m`: `parent` was not flagged, and
    /// `m` is `parent` or one of the ancestors that a walk from `parent`
    /// flags.
    pub open spec fn flagged_by_child(self, parent: int, m: int) -> bool {
        !self.flagged(parent) && (m == parent || self.on_unflagged_run(parent, m))
    }

    /// Adds a node without a parent. Like every new node it carries the
    /// three layout flags. Returns its number.
    pub fn add_root(&mut self) -> (node: usize)
        requires
            old(self).wf(),
        ensures
            final(self).wf(),
            node == old(self).size(),
            final(self).size() == old(self).size() + 1,
            final(self).parent_of(node as int) is None,
            final(self).flags_of(node as int) == reflow_flags(),
            forall|n: int| n != node ==> #[trigger] final(self).parent_of(n) == old(self).parent_of(n),
            forall|m: int| m != node ==> #[trigger] final(self).flags_of(m) == old(self).flags_of(m),
            old(self).well_marked() ==> final(self).well_marked(),
    {
        let node = self.parents.len();
        self.parents.push(None);
        self.flags.push(NodeFlags::new());
        proof {
            assert forall|n: int| n != node implies #[trigger] self.parent_of(n) == old(self).parent_of(n) by {}
            assert forall|m: int| m != node implies #[trigger] self.flags_of(m) == old(self).flags_of(m) by {}
            assert forall|n: int| (#[trigger] self.parent_of(n)) is Some implies 0
                <= self.parent_of(n).unwrap() < n < self.size() by {
                assert(old(self).parent_of(n) is Some);
            }
            if old(self).well_marked() {
                assert forall|n: int|
                    (#[trigger] self.parent_of(n)) is Some && (self.needs_work(n) || self.flagged(
                        n,
                    )) implies self.flagged(self.parent_of(n).unwrap()) by {
                    let p = self.parent_of(n).unwrap();
                    assert(old(self).parent_of(n) == Some(p));
                    assert(self.flags_of(n) == old(self).flags_of(n));
                    assert(self.flags_of(p) == old(self).flags_of(p));
                }
            }
        }
        node
    }

    /// Adds a node under `parent`. Like every new node it carries the three
    /// layout flags, so its ancestors are flagged as having dirty
    /// descendants, up to the first that is flagged already. Returns the new
    /// node's number.
    pub fn append_child(&mut self, parent: usize) -> (node: usize)
        requires
            old(self).wf(),
            parent < old(self).size(),
        ensures
            final(self).wf(),
            node == old(self).size(),
            final(self).size() == old(self).size() + 1,
            final(self).parent_of(node as int) == Some(parent as int),
            final(self).flags_of(node as int) == reflow_flags(),
            forall|n: int| n != node ==> #[trigger] final(self).parent_of(n) == old(self).parent_of(n),
            forall|m: int|
                m != node ==> #[trigger] final(self).flags_of(m) == if old(self).flagged_by_child(
                    parent as int,
                    m,
                ) {
                    old(self).flags_of(m).insert(NodeFlag::HasDirtyDescendants)
                } else {
                    old(self).flags_of(m)
                },
            old(self).well_marked() ==> final(self).well_marked(),
    {
        let node = self.parents.len();
        self.parents.push(Some(parent));
        self.flags.push(NodeFlags::new());
        let ghost grown = *self;
        proof {
            assert forall|n: int| n != node implies #[trigger] grown.parent_of(n) == old(self).parent_of(n) by {}
            assert forall|m: int| m != node implies #[trigger] grown.flags_of(m) == old(self).flags_of(m) by {}
            assert(grown.parent_of(node as int) == Some(parent as int));
            assert forall|n: int| (#[trigger] grown.parent_of(n)) is Some implies 0
                <= grown.parent_of(n).unwrap() < n < grown.size() by {
                if n != node {
                    assert(old(self).parent_of(n) is Some);
                }
            }
        }
        let _ = self.flag_ancestors(node);
        proof {
            assert forall|n: int| n != node implies #[trigger] self.parent_of(n) == old(self).parent_of(n) by {
                assert(grown.parent_of(n) == old(self).parent_of(n));
            }
            assert(self.parent_of(node as int) == grown.parent_of(node as int));
            assert forall|m: int|
                grown.on_unflagged_run(node as int, m) == old(self).flagged_by_child(
                    parent as int,
                    m,
                ) by {
                assert(grown.flags_of(parent as int) == old(self).flags_of(parent as int));
                assert forall|k: int| 0 <= k <= parent implies grown.flagged(k) == #[trigger] old(self).flagged(k) by {
                    assert(grown.flags_of(k) == old(self).flags_of(k));
                }
                grown.lemma_runs_agree(*old(self), parent as int, m);
            }
            assert forall|m: int| m != node implies #[trigger] self.flags_of(m) == if old(self).flagged_by_child(parent as int, m) {
                old(self).flags_of(m).insert(NodeFlag::HasDirtyDescendants)
            } else {
                old(self).flags_of(m)
            } by {
                assert(grown.flags_of(m) == old(self).flags_of(m));
            }
            assert(self.flags_of(node as int) == reflow_flags()) by {
                if grown.on_unflagged_run(node as int, node as int) {
                    grown.lemma_run_is_above(node as int, node as int);
                }
                assert(grown.flags_of(node as int) == reflow_flags());
            }
            if old(self).well_marked() {
                assert forall|n: int|
                    (#[trigger] self.parent_of(n)) is Some && (self.needs_work(n) || self.flagged(
                        n,
                    )) implies self.flagged(self.parent_of(n).unwrap()) by {
                    let p = self.parent_of(n).unwrap();
                    assert(self.flags_of(p) == if old(self).flagged_by_child(parent as int, p) {
                        old(self).flags_of(p).insert(NodeFlag::HasDirtyDescendants)
                    } else {
                        old(self).flags_of(p)
                    });
                    if n != node {
                        assert(old(self).parent_of(n) == Some(p));
                        assert(self.flags_of(n) == if old(self).flagged_by_child(
                            parent as int,
                            n,
                        ) {
                            old(self).flags_of(n).insert(NodeFlag::HasDirtyDescendants)
                        } else {
                            old(self).flags_of(n)
                        });
                        if !old(self).flagged(p) && n != parent && old(self).flagged_by_child(
                            parent as int,
                            n,
                        ) {
                            old(self).lemma_run_goes_up(parent as int, n);
                        }
                    }
                }
            }
        }
        node
    }

    /// Takes the three layout flags off `node`, as a layout pass does once
    /// it is through with the node and everything below it. The marking
    /// stays as it should be where every child of `node` was cleared before.
    pub fn clear_after_reflow(&mut self, node: usize)
        requires
            old(self).wf(),
            node < old(self).size(),
        ensures
            final(self).wf(),
            final(self).same_shape(*old(self)),
            final(self).flags_of(node as int) == after_reflow(old(self).flags_of(node as int)),
            forall|m: int| m != node ==> #[trigger] final(self).flags_of(m) == old(self).flags_of(m),
            old(self).well_marked() && old(self).children_clean(node as int) ==> final(self).well_marked(),
    {
        let mut f = self.flags[node];
        f.clear_after_reflow();
        self.flags.set(node, f);
        proof {
            assert forall|n: int| #[trigger] self.parent_of(n) == old(self).parent_of(n) by {}
            assert forall|m: int| m != node implies #[trigger] self.flags_of(m) == old(self).flags_of(m) by {}
            if old(self).well_marked() && old(self).children_clean(node as int) {
                assert forall|n: int|
                    (#[trigger] self.parent_of(n)) is Some && (self.needs_work(n) || self.flagged(
                        n,
                    )) implies self.flagged(self.parent_of(n).unwrap()) by {
                    let p = self.parent_of(n).unwrap();
                    assert(old(self).parent_of(n) == Some(p));
                    if n != node {
                        assert(self.flags_of(n) == old(self).flags_of(n));
                    }
                    if p != node {
                        assert(self.flags_of(p) == old(self).flags_of(p));
                    }
                }
            }
        }
    }

    /// Sets `flag` on `node`. Nothing is propagated: after setting a layout
    /// flag this way the marking is the caller's to restore. A flag that
    /// does not belong to layout leaves the marking as it was.
    pub fn set_flag(&mut self, node: usize, flag: NodeFlag)
        requires
            old(self).wf(),
            node < old(self).size(),
        ensures
            final(self).wf(),
            final(self).same_shape(*old(self)),
            final(self).flags_of(node as int) == old(self).flags_of(node as int).insert(flag),
            forall|m: int| m != node ==> #[trigger] final(self).flags_of(m) == old(self).flags_of(m),
            old(self).well_marked() && !reflow_flags().contains(flag) ==> final(self).well_marked(),
    {
        let mut f = self.flags[node];
        f.set(flag);
        self.flags.set(node, f);
        proof {
            assert forall|n: int| #[trigger] self.parent_of(n) == old(self).parent_of(n) by {}
            assert forall|m: int| m != node implies #[trigger] self.flags_of(m) == old(self).flags_of(m) by {}
            if old(self).well_marked() && !reflow_flags().contains(flag) {
                assert forall|n: int|
                    (#[trigger] self.parent_of(n)) is Some && (self.needs_work(n) || self.flagged(n))
                    implies self.flagged(self.parent_of(n).unwrap()) by {
                    let p = self.parent_of(n).unwrap();
                    assert(old(self).parent_of(n) == Some(p));
                    if n != node {
                        assert(self.flags_of(n) == old(self).flags_of(n));
                    }
                    if p != node {
                        assert(self.flags_of(p) == old(self).flags_of(p));
                    }
                }
            }
        }
    }

    /// Clears `flag` on `node`. Nothing else changes. The marking stays as
    /// it was unless the flag is the one that says that descendants are
    /// dirty.
    pub fn clear_flag(&mut self, node: usize, flag: NodeFlag)
        requires
            old(self).wf(),
            node < old(self).size(),
        ensures
            final(self).wf(),
            final(self).same_shape(*old(self)),
            final(self).flags_of(node as int) == old(self).flags_of(node as int).remove(flag),
            forall|m: int| m != node ==> #[trigger] final(self).flags_of(m) == old(self).flags_of(m),
            old(self).well_marked() && flag != NodeFlag::HasDirtyDescendants ==> final(self).well_marked(),
    {
        let mut f = self.flags[node];
        f.clear(flag);
        self.flags.set(node, f);
        proof {
            assert forall|n: int| #[trigger] self.parent_of(n) == old(self).parent_of(n) by {}
            assert forall|m: int| m != node implies #[trigger] self.flags_of(m) == old(self).flags_of(m) by {}
            if old(self).well_marked() && flag != NodeFlag::HasDirtyDescendants {
                assert forall|n: int|
                    (#[trigger] self.parent_of(n)) is Some && (self.needs_work(n) || self.flagged(n))
                    implies self.flagged(self.parent_of(n).unwrap()) by {
                    let p = self.parent_of(n).unwrap();
                    assert(old(self).parent_of(n) == Some(p));
                    if n != node {
                        assert(self.flags_of(n) == old(self).flags_of(n));
                    }
                    if p != node {
                        assert(self.flags_of(p) == old(self).flags_of(p));
                    }
                }
            }
        }
    }

    /// In a well-marked forest every strict ancestor of a node that is
    /// flagged, or that asks for work itself, is flagged.
    pub proof fn lemma_ancestors_flagged(self, a: int, n: int)
        requires
            self.well_marked(),
            self.is_ancestor(a, n),
            self.needs_work(n) || self.flagged(n),
        ensures
            self.flagged(a),
        decreases n,
    {
        let p = self.parent_of(n).unwrap();
        if a != p {
            self.lemma_ancestors_flagged(a, p);
        }
    }

    /// The propagation invariant: in a well-marked forest, if a node has
    /// changed or is dirty, every strict ancestor of it is flagged as having
    /// dirty descendants. Every operation that keeps the forest well marked
    /// keeps this with it.
    pub proof fn lemma_propagation_invariant(self)
        requires
            self.well_marked(),
        ensures
            self.propagated(),
    {
        assert forall|a: int, n: int| #[trigger]
            self.is_ancestor(a, n) && self.needs_work(n) implies self.flagged(a) by {
            self.lemma_ancestors_flagged(a, n);
        }
    }

    /// What lets a layout pass skip a subtree: in a well-marked forest
    /// nothing below a node that is not flagged asks for work.
    pub proof fn lemma_unflagged_subtree_is_clean(self, a: int, n: int)
        requires
            self.well_marked(),
            !self.flagged(a),
            self.is_ancestor(a, n),
        ensures
            !self.needs_work(n),
            !self.flagged(n),
    {
        if self.needs_work(n) || self.flagged(n) {
            self.lemma_ancestors_flagged(a, n);
        }
    }

    /// The walk may stop early: where the parent of `node` is flagged
    /// already, marking `node` flags no ancestor and changes the flags of no
    /// other node.
    pub proof fn lemma_short_circuit(self, node: int, mark: NodeFlag)
        requires
            self.parent_of(node) is Some,
            self.flagged(self.parent_of(node).unwrap()),
        ensures
            self.unflagged_run(node) == 0,
            forall|m: int| !self.on_unflagged_run(node, m),
            forall|m: int| m != node ==> #[trigger] self.marked_flags(node, mark, m) == self.flags_of(m),
    {
    }

    /// Marking a node a second time changes nothing: it flags no ancestor
    /// and leaves every node's flags as the first marking left them.
    pub proof fn lemma_mark_idempotent(self, after: NodeTree, node: int, mark: NodeFlag)
        requires
            self.wf(),
            after.same_shape(self),
            forall|m: int| #[trigger] after.flags_of(m) == self.marked_flags(node, mark, m),
        ensures
            after.unflagged_run(node) == 0,
            forall|m: int| #[trigger] after.marked_flags(node, mark, m) == after.flags_of(m),
    {
        if self.parent_of(node) is Some {
            let p = self.parent_of(node).unwrap();
            assert(after.parent_of(node) == Some(p));
            assert(after.flags_of(p) == self.marked_flags(node, mark, p));
            assert(after.flagged(p));
        } else {
            assert(after.parent_of(node) == self.parent_of(node));
        }
        assert(after.flags_of(node) == self.marked_flags(node, mark, node));
        assert forall|m: int| #[trigger] after.marked_flags(node, mark, m) == after.flags_of(m) by {
            assert(!after.on_unflagged_run(node, m));
            if m == node {
                assert(after.flags_of(m).insert(mark) =~= after.flags_of(m));
            }
        }
    }
}

} // verus!
