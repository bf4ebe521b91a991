//! The flags kept on every node of a document.

use vstd::prelude::*;

verus! {

/// One named flag of a node.
#[derive(Clone, Copy, Debug, PartialEq, Eq, Structural)]
pub enum NodeFlag {
    /// The node is attached to a live document.
    IsInDoc,
    /// The node must be reflowed whatever a style comparison says.
    HasChanged,
    /// The node needs its style recalculated before the next layout.
    IsDirty,
    /// Some descendant has changed since the last reflow.
    HasDirtyDescendants,
    /// An authentic click is in progress on the node.
    ClickInProgress,
    /// The node is reachable by sequential focus navigation.
    SequentiallyFocusable,
    /// Some ancestor, or the node itself, is a fragmentation container.
    CanBeFragmented,
}

impl NodeFlag {
    /// The single bit that stands for this flag in a `NodeFlags` value.
    pub open spec fn mask(self) -> u8 {
        match self {
            NodeFlag::IsInDoc => 0x01,
            NodeFlag::HasChanged => 0x02,
            NodeFlag::IsDirty => 0x04,
            NodeFlag::HasDirtyDescendants => 0x08,
            NodeFlag::ClickInProgress => 0x10,
            NodeFlag::SequentiallyFocusable => 0x20,
            NodeFlag::CanBeFragmented => 0x40,
        }
    }

    /// The flag's bit.
    pub fn bit(self) -> (r: u8)
        ensures
            r == self.mask(),
    {
        match self {
            NodeFlag::IsInDoc => 0x01,
            NodeFlag::HasChanged => 0x02,
            NodeFlag::IsDirty => 0x04,
            NodeFlag::HasDirtyDescendants => 0x08,
            NodeFlag::ClickInProgress => 0x10,
            NodeFlag::SequentiallyFocusable => 0x20,
            NodeFlag::CanBeFragmented => 0x40,
        }
    }
}

/// The three flags that a completed layout pass takes off a node.
pub open spec fn reflow_flags() -> Set<NodeFlag> {
    set![NodeFlag::HasChanged, NodeFlag::IsDirty, NodeFlag::HasDirtyDescendants]
}

/// A set of flags without the three that a layout pass clears.
pub open spec fn after_reflow(flags: Set<NodeFlag>) -> Set<NodeFlag> {
    flags.difference(reflow_flags())
}

/// The bits of every flag together.
pub const ALL_BITS: u8 = 0x7f;

/// The bits of the flags that a new node carries.
pub const NEW_NODE_BITS: u8 = 0x0e;

/// The flags of one node, packed into a byte.
#[derive(Clone, Copy, Debug, PartialEq, Eq, Structural)]
pub struct NodeFlags {
    bits: u8,
}

spec fn is_flag_bit(m: u8) -> bool {
    m == 0x01 || m == 0x02 || m == 0x04 || m == 0x08 || m == 0x10 || m == 0x20 || m == 0x40
}

proof fn lemma_or_bit(b: u8, m: u8, k: u8)
    by (bit_vector)
    requires
        is_flag_bit(m),
        is_flag_bit(k),
    ensures
        ((b | m) & k != 0) == ((b & k != 0) || m == k),
        (b & 0x80 == 0) ==> ((b | m) & 0x80 == 0),
{
}

proof fn lemma_clear_bit(b: u8, m: u8, k: u8)
    by (bit_vector)
    requires
        is_flag_bit(m),
        is_flag_bit(k),
    ensures
        ((b & !m) & k != 0) == ((b & k != 0) && m != k),
        (b & 0x80 == 0) ==> ((b & !m) & 0x80 == 0),
{
}

proof fn lemma_clear_reflow_bits(b: u8, k: u8)
    by (bit_vector)
    requires
        is_flag_bit(k),
    ensures
        ((b & 0x71) & k != 0) == ((b & k != 0) && k != 0x02 && k != 0x04 && k != 0x08),
        (b & 0x71) & 0x80 == 0,
{
}

proof fn lemma_new_node_bits(k: u8)
    by (bit_vector)
    requires
        is_flag_bit(k),
    ensures
        (0x0eu8 & k != 0) == (k == 0x02 || k == 0x04 || k == 0x08),
        (0u8 & k != 0) == false,
{
}

proof fn lemma_bits_by_flags(a: u8, b: u8)
    by (bit_vector)
    requires
        a & 0x80 == 0,
        b & 0x80 == 0,
        (a & 0x01 != 0) == (b & 0x01 != 0),
        (a & 0x02 != 0) == (b & 0x02 != 0),
        (a & 0x04 != 0) == (b & 0x04 != 0),
        (a & 0x08 != 0) == (b & 0x08 != 0),
        (a & 0x10 != 0) == (b & 0x10 != 0),
        (a & 0x20 != 0) == (b & 0x20 != 0),
        (a & 0x40 != 0) == (b & 0x40 != 0),
    ensures
        a == b,
{
}

impl View for NodeFlags {
    type V = Set<NodeFlag>;

    /// The flags that are set.
    open spec fn view(&self) -> Set<NodeFlag> {
        Set::new(|f: NodeFlag| self.raw() & f.mask() != 0)
    }
}

impl NodeFlags {
    /// The byte that holds the flags.
    pub closed spec fn raw(self) -> u8 {
        self.bits
    }

    /// No bit stands outside the seven flags.
    pub open spec fn wf(self) -> bool {
        self.raw() & 0x80 == 0
    }

    /// The flags of a node that has never been laid out: it has changed, is
    /// dirty, and is taken to have dirty descendants.
    pub fn new() -> (r: NodeFlags)
        ensures
            r.wf(),
            r.raw() == NEW_NODE_BITS,
            r@ == reflow_flags(),
            forall|f: NodeFlag|
                r@.contains(f) <==> (f == NodeFlag::HasChanged || f == NodeFlag::IsDirty || f
                    == NodeFlag::HasDirtyDescendants),
    {
        let r = NodeFlags { bits: NEW_NODE_BITS };
        proof {
            assert(0x0eu8 & 0x80 == 0) by (bit_vector);
            assert forall|f: NodeFlag|
                r@.contains(f) <==> (f == NodeFlag::HasChanged || f == NodeFlag::IsDirty || f
                    == NodeFlag::HasDirtyDescendants) by {
                lemma_new_node_bits(f.mask());
            }
            assert(r@ =~= reflow_flags());
        }
        r
    }

    /// No flag at all.
    pub fn empty() -> (r: NodeFlags)
        ensures
            r.wf(),
            r.raw() == 0,
            r@ == Set::<NodeFlag>::empty(),
    {
        let r = NodeFlags { bits: 0 };
        proof {
            assert(0u8 & 0x80 == 0) by (bit_vector);
            assert forall|f: NodeFlag| !r@.contains(f) by {
                lemma_new_node_bits(f.mask());
            }
            assert(r@ =~= Set::<NodeFlag>::empty());
        }
        r
    }

    /// The flags as a byte, each flag at its own bit.
    pub fn bits(&self) -> (r: u8)
        ensures
            r == self.raw(),
    {
        self.bits
    }

    /// The flags that a byte holds, or nothing where the byte has a bit that
    /// stands for no flag.
    pub fn from_bits(bits: u8) -> (r: Option<NodeFlags>)
        ensures
            r.is_some() <==> bits <= ALL_BITS,
            r.is_some() ==> r.unwrap().raw() == bits && r.unwrap().wf(),
    {
        proof {
            assert((bits & 0x80 == 0) == (bits <= 0x7f)) by (bit_vector);
        }
        if bits <= ALL_BITS {
            Some(NodeFlags { bits })
        } else {
            None
        }
    }

    /// Whether `flag` is set.
    pub fn test(&self, flag: NodeFlag) -> (r: bool)
        ensures
            r == self@.contains(flag),
    {
        self.bits & flag.bit() != 0
    }

    /// Sets `flag` and leaves every other flag as it was.
    pub fn set(&mut self, flag: NodeFlag)
        ensures
            final(self)@ == old(self)@.insert(flag),
            old(self).wf() ==> final(self).wf(),
    {
        let m: u8 = flag.bit();
        self.bits = self.bits | m;
        proof {
            lemma_or_bit(old(self).bits, m, m);
            assert forall|f: NodeFlag|
                final(self)@.contains(f) == old(self)@.insert(flag).contains(f) by {
                lemma_or_bit(old(self).bits, m, f.mask());
            }
            assert(final(self)@ =~= old(self)@.insert(flag));
        }
    }

    /// Clears `flag` and leaves every other flag as it was.
    pub fn clear(&mut self, flag: NodeFlag)
        ensures
            final(self)@ == old(self)@.remove(flag),
            old(self).wf() ==> final(self).wf(),
    {
        let m: u8 = flag.bit();
        self.bits = self.bits & !m;
        proof {
            lemma_clear_bit(old(self).bits, m, m);
            assert forall|f: NodeFlag|
                final(self)@.contains(f) == old(self)@.remove(flag).contains(f) by {
                lemma_clear_bit(old(self).bits, m, f.mask());
            }
            assert(final(self)@ =~= old(self)@.remove(flag));
        }
    }

    /// Whether the node itself asks for work: it has changed or is dirty.
    pub fn needs_work(&self) -> (r: bool)
        ensures
            r == (self@.contains(NodeFlag::HasChanged) || self@.contains(NodeFlag::IsDirty)),
    {
        self.test(NodeFlag::HasChanged) || self.test(NodeFlag::IsDirty)
    }

    /// Takes off the three flags that a finished layout pass clears; the
    /// flags that do not belong to layout stay.
    pub fn clear_after_reflow(&mut self)
        ensures
            final(self)@ == after_reflow(old(self)@),
            final(self).wf(),
    {
        self.bits = self.bits & 0x71;
        proof {
            lemma_clear_reflow_bits(old(self).bits, 0x01);
            assert forall|f: NodeFlag|
                final(self)@.contains(f) == after_reflow(old(self)@).contains(f) by {
                lemma_clear_reflow_bits(old(self).bits, f.mask());
            }
            assert(final(self)@ =~= after_reflow(old(self)@));
        }
    }

    /// Two well-formed flag values with the same flags set are the same byte.
    pub proof fn lemma_view_determines_bits(self, other: NodeFlags)
        requires
            self.wf(),
            other.wf(),
            self@ == other@,
        ensures
            self == other,
    {
        assert forall|f: NodeFlag| (self.bits & f.mask() != 0) == (other.bits & f.mask() != 0) by {
            assert(self@.contains(f) == other@.contains(f));
            assert(self@.contains(f) == (self.raw() & f.mask() != 0));
            assert(other@.contains(f) == (other.raw() & f.mask() != 0));
        }
        assert(NodeFlag::IsInDoc.mask() == 0x01);
        assert(NodeFlag::HasChanged.mask() == 0x02);
        assert(NodeFlag::IsDirty.mask() == 0x04);
        assert(NodeFlag::HasDirtyDescendants.mask() == 0x08);
        assert(NodeFlag::ClickInProgress.mask() == 0x10);
        assert(NodeFlag::SequentiallyFocusable.mask() == 0x20);
        assert(NodeFlag::CanBeFragmented.mask() == 0x40);
        lemma_bits_by_flags(self.bits, other.bits);
    }
}

/// Clearing after a reflow a second time changes nothing: what the first
/// clearing left is what the second leaves.
pub proof fn lemma_clear_after_reflow_idempotent(flags: Set<NodeFlag>)
    ensures
        after_reflow(after_reflow(flags)) == after_reflow(flags),
{
    assert(after_reflow(after_reflow(flags)) =~= after_reflow(flags));
}

/// Clearing after a reflow keeps every flag that does not belong to layout
/// and leaves none of the three that do.
pub proof fn lemma_after_reflow_flags(flags: Set<NodeFlag>, f: NodeFlag)
    ensures
        after_reflow(flags).contains(f) <==> (flags.contains(f) && f != NodeFlag::HasChanged && f
            != NodeFlag::IsDirty && f != NodeFlag::HasDirtyDescendants),
{
}

} // verus!
