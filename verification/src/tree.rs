//! An append-only tree kept in one vector, with indices as parent links.

use vstd::prelude::*;
use vstd::std_specs::cmp::PartialEqSpec;

verus! {

/// The nodes form an arena tree: the first node is the root and its own
/// parent, and every later node hangs below a node that was added before it.
pub open spec fn arena<T>(nodes: Seq<(T, usize)>) -> bool {
    &&& nodes.len() >= 1
    &&& nodes[0].1 == 0
    &&& forall|i: int| 1 <= i < nodes.len() ==> (#[trigger] nodes[i]).1 < i
}

/// The node reached from `k` by following `d` parent links.
pub open spec fn climb<T>(nodes: Seq<(T, usize)>, k: int, d: nat) -> int
    decreases d,
{
    if d == 0 {
        k
    } else {
        climb(nodes, nodes[k].1 as int, (d - 1) as nat)
    }
}

/// Node `k` is its own parent.
pub open spec fn is_root<T>(nodes: Seq<(T, usize)>, k: int) -> bool {
    nodes[k].1 == k
}

/// Following parent links from `k`, a root is first met after exactly `d`
/// steps.
pub open spec fn path_length<T>(nodes: Seq<(T, usize)>, k: int, d: nat) -> bool {
    &&& is_root(nodes, climb(nodes, k, d))
    &&& forall|e: nat| e < d ==> !is_root(nodes, #[trigger] climb(nodes, k, e))
}

/// The number of parent links between node `k` of an arena tree and its root.
pub open spec fn depth<T>(nodes: Seq<(T, usize)>, k: int) -> nat
    decreases k,
{
    if 1 <= k < nodes.len() && nodes[k].1 < k {
        1 + depth(nodes, nodes[k].1 as int)
    } else {
        0
    }
}

/// In an arena tree the path from a node to the root has the node's depth as
/// its length, and stays inside the arena.
pub proof fn lemma_depth_is_path_length<T>(nodes: Seq<(T, usize)>, k: int)
    requires
        arena(nodes),
        0 <= k < nodes.len(),
    ensures
        path_length(nodes, k, depth(nodes, k)),
        climb(nodes, k, depth(nodes, k)) == 0,
        forall|e: nat| e <= depth(nodes, k) ==> 0 <= #[trigger] climb(nodes, k, e) < nodes.len(),
    decreases k,
{
    if k >= 1 {
        let p = nodes[k].1 as int;
        lemma_depth_is_path_length(nodes, p);
        let d = depth(nodes, k);
        assert forall|e: nat| e < d implies !is_root(nodes, #[trigger] climb(nodes, k, e)) by {
            if e > 0 {
                assert(climb(nodes, k, e) == climb(nodes, p, (e - 1) as nat));
            }
        }
        assert forall|e: nat| e <= d implies 0 <= #[trigger] climb(nodes, k, e) < nodes.len() by {
            if e > 0 {
                assert(climb(nodes, k, e) == climb(nodes, p, (e - 1) as nat));
            }
        }
    }
}

/// An append-only tree using indexes as "pointers" to the parent node.
#[derive(Debug, Clone)]
pub struct Tree<T> {
    nodes: Vec<(T, usize)>,
}

impl<T> View for Tree<T> {
    type V = Seq<(T, usize)>;

    /// The nodes in the order in which they were added, each with its value
    /// and the index of its parent.
    closed spec fn view(&self) -> Seq<(T, usize)> {
        self.nodes@
    }
}

impl<T> Tree<T> {
    /// The nodes form an arena tree. Every tree made by `new` and grown by
    /// `append` is well formed.
    pub open spec fn wf(&self) -> bool {
        arena(self@)
    }

    /// Create a new tree with the given value as the root node.
    pub fn new(root: T) -> (r: Tree<T>)
        ensures
            r@ == seq![(root, 0usize)],
            r.wf(),
    {
        let mut nodes: Vec<(T, usize)> = Vec::new();
        nodes.push((root, 0));
        assert(nodes@ =~= seq![(root, 0usize)]);
        Tree { nodes }
    }

    /// The number of nodes.
    pub fn len(&self) -> (r: usize)
        ensures
            r == self@.len(),
    {
        self.nodes.len()
    }

    /// Hand out the nodes, in order.
    pub fn into_nodes(self) -> (r: Vec<(T, usize)>)
        ensures
            r@ == self@,
    {
        self.nodes
    }

    /// Get the value in the node at `idx`.
    pub fn get(&self, idx: usize) -> (r: Option<&T>)
        ensures
            idx < self@.len() ==> r == Some(&self@[idx as int].0),
            idx >= self@.len() ==> r is None,
    {
        if idx < self.nodes.len() {
            Some(&self.nodes[idx].0)
        } else {
            None
        }
    }

    /// Append a new node with the given value to the node at `parent`.
    pub fn append(&mut self, val: T, parent: usize)
        requires
            old(self).wf(),
            parent < old(self)@.len(),
        ensures
            final(self)@ == old(self)@.push((val, parent)),
            final(self).wf(),
    {
        self.nodes.push((val, parent));
    }

    /// Get the parent of the node at `idx`, returning `None` for the root
    /// node.
    pub fn parent(&self, idx: usize) -> (r: Option<usize>)
        ensures
            r == if idx < self@.len() && self@[idx as int].1 != idx {
                Some(self@[idx as int].1)
            } else {
                None
            },
    {
        if idx < self.nodes.len() {
            let parent = self.nodes[idx].1;
            if idx == parent {
                None
            } else {
                Some(parent)
            }
        } else {
            None
        }
    }

    /// Search for the index of a node with the given value (if there are
    /// multiple nodes with the same value, the first-inserted one is
    /// returned).
    pub fn search(&self, val: &T) -> (r: Option<usize>) where T: PartialEq
        ensures
            r matches Some(i) ==> i < self@.len(),
            T::obeys_eq_spec() ==> match r {
                Some(i) => {
                    &&& i < self@.len()
                    &&& self@[i as int].0.eq_spec(val)
                    &&& forall|j: int| 0 <= j < i ==> !(#[trigger] self@[j]).0.eq_spec(val)
                },
                None => forall|j: int| 0 <= j < self@.len() ==> !(#[trigger] self@[j]).0.eq_spec(val),
            },
    {
        let mut i: usize = 0;
        while i < self.nodes.len()
            invariant
                i <= self.nodes@.len(),
                T::obeys_eq_spec() ==> forall|j: int|
                    0 <= j < i ==> !(#[trigger] self.nodes@[j]).0.eq_spec(val),
            decreases self.nodes@.len() - i,
        {
            if self.nodes[i].0 == *val {
                return Some(i);
            }
            i += 1;
        }
        None
    }
}

} // verus!
