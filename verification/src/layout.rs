//! Layout adapter model: the parallel tree handed to the native flex-box
//! layout engine, one node per DOM node, each child inserted with a
//! uniform flex-grow weight of one, DOM child order preserved. The native
//! engine itself (and the geometry it computes) lives outside the library;
//! this models the calling contract: the shape of the tree it is given and
//! the fixed viewport the calculation is requested against.

use vstd::prelude::*;

use crate::tree::Vertex;

verus! {

/// Width of the fixed viewport a layout calculation is requested against.
pub const VIEWPORT_WIDTH: u64 = 500;

/// Height of the fixed viewport a layout calculation is requested against.
pub const VIEWPORT_HEIGHT: u64 = 400;

/// One layout node per DOM node: its flex-grow weight and its children,
/// in DOM order.
#[derive(Debug)]
pub struct Node {
    pub grow: u64,
    pub children: Vec<Node>,
}

/// The layout tree mirrors the DOM tree: same shape, child order kept,
/// and every inserted child carries flex-grow weight one.
pub open spec fn mirrors<V: Vertex>(n: Node, t: V) -> bool
    decreases n,
{
    &&& n.children@.len() == t.spec_children().len()
    &&& forall|i: int|
        0 <= i < n.children@.len() ==> (#[trigger] n.children@[i]).grow == 1 && mirrors(
            n.children@[i],
            t.spec_children()[i],
        )
}

impl Node {
    /// A fresh layout node with no children and no grow weight.
    pub fn new() -> (r: Node)
        ensures
            r.grow == 0,
            r.children@ == Seq::<Node>::empty(),
    {
        Node { grow: 0, children: Vec::new() }
    }

    /// Adopt `child` with flex-grow weight one, after the children already
    /// inserted. The index picks the native slot; the mirrored order is
    /// insertion order.
    pub fn insert(&mut self, child: Node, index: u32)
        ensures
            final(self).grow == old(self).grow,
            final(self).children@.len() == old(self).children@.len() + 1,
            forall|i: int|
                0 <= i < old(self).children@.len() ==> final(self).children@[i] == old(
                    self,
                ).children@[i],
            final(self).children@.last().grow == 1,
            final(self).children@.last().children@ == child.children@,
    {
        let mut child = child;
        child.grow = 1;
        self.children.push(child);
    }
}

/// Build the parallel layout tree for a DOM tree: one node per DOM node,
/// children in order, each with flex-grow weight one.
pub fn layout<V: Vertex>(tree: &V) -> (r: Node)
    ensures
        mirrors(r, *tree),
        r.grow == 0,
    decreases tree.rank(),
{
    let mut root = Node::new();
    let kids = tree.children();
    proof {
        tree.lemma_rank();
    }
    let mut i: usize = 0;
    while i < kids.len()
        invariant
            i <= kids.len(),
            kids@ == tree.spec_children(),
            forall|j: int|
                0 <= j < kids@.len() ==> (#[trigger] kids@[j]).rank() < tree.rank(),
            root.grow == 0,
            root.children@.len() == i,
            forall|j: int|
                0 <= j < i ==> (#[trigger] root.children@[j]).grow == 1 && mirrors(
                    root.children@[j],
                    kids@[j],
                ),
        decreases kids.len() - i,
    {
        let node = layout(&kids[i]);
        proof {
            assert(mirrors(node, kids@[i as int]));
        }
        root.insert(node, 0);
        proof {
            assert(root.children@.last().grow == 1);
            assert(mirrors(root.children@.last(), kids@[i as int]));
        }
        i += 1;
    }
    root
}

} // verus!
