//! A tree whose nodes are laid out in the order of their values, so that a
//! value is found by binary search.

use crate::order::{less, precedes, strict_total_order};
use crate::tree::{arena, climb, is_root, path_length, Tree};
use vstd::prelude::*;

verus! {

/// The values of the nodes, in order.
pub open spec fn values<T>(nodes: Seq<(T, usize)>) -> Seq<T> {
    nodes.map_values(|node: (T, usize)| node.0)
}

/// No node holds a value that precedes the value of an earlier node.
pub open spec fn ascending<T: PartialOrd>(nodes: Seq<(T, usize)>) -> bool {
    forall|i: int, j: int|
        0 <= i < j < nodes.len() ==> !precedes((#[trigger] nodes[j]).0, (#[trigger] nodes[i]).0)
}

/// Some node is moved to place `k`.
pub open spec fn taken(place: Seq<int>, k: int) -> bool {
    exists|i: int| 0 <= i < place.len() && #[trigger] place[i] == k
}

/// `to` holds the nodes of `from` in another order: node `i` of `from` stands
/// at `place[i]` in `to`, with the same value, and its parent link names the
/// new place of its old parent.
pub open spec fn rearranges<T>(from: Seq<(T, usize)>, to: Seq<(T, usize)>, place: Seq<int>) -> bool {
    &&& to.len() == from.len()
    &&& place.len() == from.len()
    &&& forall|i: int| 0 <= i < from.len() ==> 0 <= #[trigger] place[i] < to.len()
    &&& forall|i: int, j: int|
        0 <= i < from.len() && 0 <= j < from.len() && i != j ==> #[trigger] place[i]
            != #[trigger] place[j]
    &&& forall|k: int| 0 <= k < to.len() ==> #[trigger] taken(place, k)
    &&& forall|i: int|
        0 <= i < from.len() ==> {
            &&& to[#[trigger] place[i]].0 == from[i].0
            &&& to[place[i]].1 == place[from[i].1 as int]
        }
}

/// Nodes with equal values keep their order.
pub open spec fn keeps_order<T>(from: Seq<(T, usize)>, place: Seq<int>) -> bool {
    forall|i: int, j: int|
        0 <= i < j < from.len() && from[i].0 == from[j].0 ==> #[trigger] place[i]
            < #[trigger] place[j]
}

/// `to` holds the nodes of `from` in ascending order of their values, node
/// `i` at `place[i]`, with nodes of equal values in the order that they had.
pub open spec fn sorts<T: PartialOrd>(
    from: Seq<(T, usize)>,
    to: Seq<(T, usize)>,
    place: Seq<int>,
) -> bool {
    &&& rearranges(from, to, place)
    &&& ascending(to)
    &&& keeps_order(from, place)
}

/// `to` is `from` with its nodes sorted by their values, nodes of equal
/// values in the order that they had, and its parent links renumbered to
/// match.
pub open spec fn sorted_form<T: PartialOrd>(from: Seq<(T, usize)>, to: Seq<(T, usize)>) -> bool {
    exists|place: Seq<int>| sorts(from, to, place)
}

/// Rearranging an arena tree keeps, for every node, the value of its parent
/// and the length of its path to the root.
pub proof fn lemma_rearranged_paths<T>(
    from: Seq<(T, usize)>,
    to: Seq<(T, usize)>,
    place: Seq<int>,
    i: int,
    d: nat,
)
    requires
        arena(from),
        rearranges(from, to, place),
        0 <= i < from.len(),
    ensures
        to[to[place[i]].1 as int].0 == from[from[i].1 as int].0,
        is_root(to, place[i]) == is_root(from, i),
        0 <= climb(from, i, d) < from.len(),
        climb(to, place[i], d) == place[climb(from, i, d)],
        path_length(to, place[i], d) == path_length(from, i, d),
{
    lemma_climb_rearranged(from, to, place, i, d);
    lemma_climb_rearranged(from, to, place, i, 0);
    assert forall|e: nat| e < d implies is_root(to, #[trigger] climb(to, place[i], e)) == is_root(
        from,
        climb(from, i, e),
    ) by {
        lemma_climb_rearranged(from, to, place, i, e);
    }
    assert forall|e: nat| e < d implies is_root(from, #[trigger] climb(from, i, e)) == is_root(
        to,
        climb(to, place[i], e),
    ) by {
        lemma_climb_rearranged(from, to, place, i, e);
    }
    let p = from[i].1 as int;
    assert(0 <= p < from.len());
    assert(to[place[i]].1 == place[p]);
}

proof fn lemma_climb_rearranged<T>(
    from: Seq<(T, usize)>,
    to: Seq<(T, usize)>,
    place: Seq<int>,
    i: int,
    d: nat,
)
    requires
        arena(from),
        rearranges(from, to, place),
        0 <= i < from.len(),
    ensures
        0 <= climb(from, i, d) < from.len(),
        climb(to, place[i], d) == place[climb(from, i, d)],
        is_root(to, climb(to, place[i], d)) == is_root(from, climb(from, i, d)),
    decreases d,
{
    let p = from[i].1 as int;
    assert(0 <= p < from.len());
    if d > 0 {
        lemma_climb_rearranged(from, to, place, p, (d - 1) as nat);
    } else {
        if p != i {
            assert(place[p] != place[i]);
        }
    }
}

/// Sorting puts a node before every node with a greater value, and before
/// every later node with the same value.
proof fn lemma_sorts_in_order<T: PartialOrd>(
    from: Seq<(T, usize)>,
    to: Seq<(T, usize)>,
    place: Seq<int>,
    i: int,
    j: int,
)
    requires
        strict_total_order::<T>(),
        sorts(from, to, place),
        0 <= i < from.len(),
        0 <= j < from.len(),
        precedes(from[i].0, from[j].0) || (from[i].0 == from[j].0 && i < j),
    ensures
        place[i] < place[j],
{
    if precedes(from[i].0, from[j].0) {
        assert(to[place[i]].0 == from[i].0);
        assert(to[place[j]].0 == from[j].0);
        if place[j] < place[i] {
            assert(!precedes(to[place[i]].0, to[place[j]].0));
        }
    }
}

proof fn lemma_same_place<T: PartialOrd>(
    from: Seq<(T, usize)>,
    a: Seq<(T, usize)>,
    b: Seq<(T, usize)>,
    to_a: Seq<int>,
    to_b: Seq<int>,
    i: int,
    k: nat,
)
    requires
        strict_total_order::<T>(),
        sorts(from, a, to_a),
        sorts(from, b, to_b),
        0 <= i < from.len(),
        to_a[i] == k,
    ensures
        to_b[i] == k,
    decreases k,
{
    if to_b[i] < k {
        assert(taken(to_a, to_b[i]));
        let other = choose|other: int| 0 <= other < to_a.len() && #[trigger] to_a[other] == to_b[i];
        lemma_same_place(from, a, b, to_a, to_b, other, to_b[i] as nat);
    } else if to_b[i] > k {
        assert(taken(to_b, k as int));
        let other = choose|other: int| 0 <= other < to_b.len() && #[trigger] to_b[other] == k;
        if to_a[other] < k {
            lemma_same_place(from, a, b, to_a, to_b, other, to_a[other] as nat);
        }
        assert(to_a[other] > k);
        if precedes(from[i].0, from[other].0) || (from[i].0 == from[other].0 && i < other) {
            lemma_sorts_in_order(from, b, to_b, i, other);
        } else {
            lemma_sorts_in_order(from, a, to_a, other, i);
        }
    }
}

/// Sorting has one outcome: two sorted forms of the same nodes are equal.
pub proof fn lemma_sorted_form_unique<T: PartialOrd>(
    from: Seq<(T, usize)>,
    a: Seq<(T, usize)>,
    b: Seq<(T, usize)>,
)
    requires
        strict_total_order::<T>(),
        forall|i: int| 0 <= i < from.len() ==> (#[trigger] from[i]).1 < from.len(),
        sorted_form(from, a),
        sorted_form(from, b),
    ensures
        a == b,
{
    let to_a = choose|place: Seq<int>| sorts(from, a, place);
    let to_b = choose|place: Seq<int>| sorts(from, b, place);
    assert forall|k: int| 0 <= k < a.len() implies a[k] == b[k] by {
        assert(taken(to_a, k));
        let i = choose|i: int| 0 <= i < to_a.len() && #[trigger] to_a[i] == k;
        lemma_same_place(from, a, b, to_a, to_b, i, k as nat);
        let up = from[i].1 as int;
        assert(0 <= up < from.len());
        lemma_same_place(from, a, b, to_a, to_b, up, to_a[up] as nat);
        assert(a[to_a[i]].1 == to_a[up]);
        assert(b[to_b[i]].1 == to_b[up]);
        assert(a[to_a[i]].0 == from[i].0);
        assert(b[to_b[i]].0 == from[i].0);
    }
    assert(a =~= b);
}

/// Putting `node` into ascending `nodes` at a place where everything before
/// it precedes it, and nothing after it does, keeps the nodes ascending.
proof fn lemma_insert_keeps_ascending<T: PartialOrd>(
    nodes: Seq<(T, usize)>,
    k: int,
    node: (T, usize),
    a: int,
    b: int,
)
    requires
        strict_total_order::<T>(),
        ascending(nodes),
        0 <= k <= nodes.len(),
        forall|j: int| 0 <= j < k ==> precedes((#[trigger] nodes[j]).0, node.0),
        forall|j: int| k <= j < nodes.len() ==> !precedes((#[trigger] nodes[j]).0, node.0),
        0 <= a < b < nodes.len() + 1,
    ensures
        !precedes(nodes.insert(k, node)[b].0, nodes.insert(k, node)[a].0),
{
    let to = nodes.insert(k, node);
    if b == k {
        assert(to[a] == nodes[a]);
        assert(precedes(nodes[a].0, node.0));
    } else if a == k {
        assert(to[b] == nodes[b - 1]);
    } else if a < k && b > k {
        assert(to[a] == nodes[a]);
        assert(to[b] == nodes[b - 1]);
    } else if b < k {
        assert(to[a] == nodes[a]);
        assert(to[b] == nodes[b]);
    } else {
        assert(to[a] == nodes[a - 1]);
        assert(to[b] == nodes[b - 1]);
    }
}

/// A binary search-able [`Tree`].
#[derive(Debug, Clone)]
pub struct SortedTree<T> {
    nodes: Vec<(T, usize)>,
}

impl<T> View for SortedTree<T> {
    type V = Seq<(T, usize)>;

    /// The nodes in ascending order of their values, each with its value and
    /// the index of its parent.
    closed spec fn view(&self) -> Seq<(T, usize)> {
        self.nodes@
    }
}

impl<T: PartialOrd> SortedTree<T> {
    /// The values ascend under a strict total order, and every parent link
    /// names a node.
    pub open spec fn wf(&self) -> bool {
        &&& strict_total_order::<T>()
        &&& ascending(self@)
        &&& forall|i: int| 0 <= i < self@.len() ==> (#[trigger] self@[i]).1 < self@.len()
    }
}

/// The first place in ascending `nodes` at which `val` can be put in without
/// breaking the order.
fn insertion_point<T: Ord>(nodes: &Vec<(T, usize)>, val: &T) -> (k: usize)
    requires
        strict_total_order::<T>(),
        ascending(nodes@),
    ensures
        k <= nodes@.len(),
        forall|j: int| 0 <= j < k ==> precedes((#[trigger] nodes@[j]).0, *val),
        forall|j: int| k <= j < nodes@.len() ==> !precedes((#[trigger] nodes@[j]).0, *val),
{
    let mut lo: usize = 0;
    let mut hi: usize = nodes.len();
    while lo < hi
        invariant
            strict_total_order::<T>(),
            ascending(nodes@),
            lo <= hi <= nodes@.len(),
            forall|j: int| 0 <= j < lo ==> precedes((#[trigger] nodes@[j]).0, *val),
            forall|j: int| hi <= j < nodes@.len() ==> !precedes((#[trigger] nodes@[j]).0, *val),
        decreases hi - lo,
    {
        let mid = lo + (hi - lo) / 2;
        if less(&nodes[mid].0, val) {
            assert forall|j: int| 0 <= j < mid + 1 implies precedes((#[trigger] nodes@[j]).0, *val) by {
                if j < mid {
                    assert(!precedes(nodes@[mid as int].0, nodes@[j].0));
                    if nodes@[j].0 != nodes@[mid as int].0 {
                        assert(precedes(nodes@[j].0, nodes@[mid as int].0) || precedes(
                            nodes@[mid as int].0,
                            nodes@[j].0,
                        ));
                    }
                }
            }
            lo = mid + 1;
        } else {
            assert forall|j: int| mid <= j < nodes@.len() implies !precedes(
                (#[trigger] nodes@[j]).0,
                *val,
            ) by {
                if j > mid && precedes(nodes@[j].0, *val) {
                    assert(!precedes(nodes@[j].0, nodes@[mid as int].0));
                    if nodes@[j].0 != nodes@[mid as int].0 {
                        assert(precedes(nodes@[j].0, nodes@[mid as int].0) || precedes(
                            nodes@[mid as int].0,
                            nodes@[j].0,
                        ));
                    }
                }
            }
            hi = mid;
        }
    }
    lo
}

impl<T> SortedTree<T> {
    /// Create a new sorted tree from the given tree.
    pub fn new(tree: Tree<T>) -> (r: SortedTree<T>) where T: Ord
        requires
            strict_total_order::<T>(),
            tree.wf(),
        ensures
            r.wf(),
            sorted_form(tree@, r@),
            values(r@).to_multiset() == values(tree@).to_multiset(),
    {
        let ghost from = tree@;
        let mut src = tree.into_nodes();
        let n = src.len();
        let mut nodes: Vec<(T, usize)> = Vec::new();
        let mut origin: Vec<usize> = Vec::new();
        let ghost mut place: Seq<int> = Seq::new(n as nat, |i: int| 0int);
        proof {
            assert(src@ =~= from.subrange(0, n as int));
            assert(values(nodes@) =~= Seq::<T>::empty());
            vstd::multiset::lemma_multiset_empty_len(values(nodes@).to_multiset());
            values(nodes@).to_multiset_ensures();
            assert(values(nodes@).to_multiset().add(values(src@).to_multiset()) =~= values(
                from,
            ).to_multiset());
        }
        while src.len() > 0
            invariant
                strict_total_order::<T>(),
                arena(from),
                n == from.len(),
                place.len() == n,
                src@.len() <= n,
                src@ == from.subrange(0, src@.len() as int),
                nodes@.len() == n - src@.len(),
                origin@.len() == nodes@.len(),
                ascending(nodes@),
                forall|k: int|
                    0 <= k < nodes@.len() ==> {
                        &&& src@.len() <= #[trigger] origin@[k] < n
                        &&& nodes@[k] == from[origin@[k] as int]
                        &&& place[origin@[k] as int] == k
                    },
                forall|i: int|
                    src@.len() <= i < n ==> {
                        &&& 0 <= #[trigger] place[i] < nodes@.len()
                        &&& origin@[place[i]] == i
                    },
                forall|i: int, j: int|
                    src@.len() <= i < j < n && from[i].0 == from[j].0 ==> #[trigger] place[i]
                        < #[trigger] place[j],
                values(nodes@).to_multiset().add(values(src@).to_multiset()) == values(
                    from,
                ).to_multiset(),
            decreases src@.len(),
        {
            let ghost old_src = src@;
            let ghost old_nodes = nodes@;
            let ghost old_origin = origin@;
            let ghost old_place = place;
            let node = src.pop().unwrap();
            let i = src.len();
            let k = insertion_point(&nodes, &node.0);
            nodes.insert(k, node);
            origin.insert(k, i);
            proof {
                place = Seq::new(
                    n as nat,
                    |j: int|
                        if j == i {
                            k as int
                        } else if old_place[j] >= k {
                            old_place[j] + 1
                        } else {
                            old_place[j]
                        },
                );
                assert(src@ =~= from.subrange(0, i as int));
                assert(node == from[i as int]);
                assert forall|a: int, b: int| 0 <= a < b < nodes@.len() implies !precedes(
                    (#[trigger] nodes@[b]).0,
                    (#[trigger] nodes@[a]).0,
                ) by {
                    lemma_insert_keeps_ascending(old_nodes, k as int, node, a, b);
                }
                assert forall|j: int| 0 <= j < nodes@.len() implies {
                    &&& src@.len() <= #[trigger] origin@[j] < n
                    &&& nodes@[j] == from[origin@[j] as int]
                    &&& place[origin@[j] as int] == j
                } by {
                    if j < k {
                        assert(origin@[j] == old_origin[j]);
                    } else if j > k {
                        assert(origin@[j] == old_origin[j - 1]);
                        assert(nodes@[j] == old_nodes[j - 1]);
                    }
                }
                assert forall|j: int| src@.len() <= j < n implies {
                    &&& 0 <= #[trigger] place[j] < nodes@.len()
                    &&& origin@[place[j]] == j
                } by {
                    if j != i {
                        assert(0 <= old_place[j] < old_nodes.len());
                    }
                }
                assert forall|a: int, b: int|
                    src@.len() <= a < b < n && from[a].0 == from[b].0 implies #[trigger] place[a]
                    < #[trigger] place[b] by {
                    assert(0 <= old_place[b] < old_nodes.len());
                    assert(old_nodes[old_place[b]] == from[old_origin[old_place[b]] as int]);
                    if a == i {
                        assert(!precedes(old_nodes[old_place[b]].0, node.0));
                    } else {
                        assert(0 <= old_place[a] < old_nodes.len());
                    }
                }
                assert(values(nodes@) =~= values(old_nodes).insert(k as int, node.0));
                assert(values(old_src) =~= values(src@).push(node.0));
                vstd::seq_lib::to_multiset_insert(values(old_nodes), k as int, node.0);
                vstd::seq_lib::to_multiset_build(values(src@), node.0);
                assert(values(nodes@).to_multiset().add(values(src@).to_multiset()) =~= values(
                    old_nodes,
                ).to_multiset().add(values(old_src).to_multiset()));
            }
        }
        proof {
            assert(values(src@) =~= Seq::<T>::empty());
            values(src@).to_multiset_ensures();
            vstd::multiset::lemma_multiset_empty_len(values(src@).to_multiset());
            assert(values(nodes@).to_multiset() =~= values(from).to_multiset());
        }
        let mut relocations: Vec<usize> = Vec::new();
        while relocations.len() < n
            invariant
                relocations@.len() <= n,
            decreases n - relocations@.len(),
        {
            relocations.push(0);
        }
        let mut k: usize = 0;
        while k < n
            invariant
                k <= n,
                n == from.len(),
                place.len() == n,
                relocations@.len() == n,
                origin@.len() == n,
                forall|j: int|
                    0 <= j < n ==> 0 <= #[trigger] origin@[j] < n && place[origin@[j] as int] == j,
                forall|i: int| 0 <= i < n ==> 0 <= #[trigger] place[i] < n && origin@[place[i]] == i,
                forall|i: int| 0 <= i < n && place[i] < k ==> #[trigger] relocations@[i] == place[i],
            decreases n - k,
        {
            let i = origin[k];
            relocations[i] = k;
            k += 1;
        }
        let ghost sorted = nodes@;
        let mut k: usize = 0;
        while k < n
            invariant
                k <= n,
                n == from.len(),
                arena(from),
                place.len() == n,
                relocations@.len() == n,
                nodes@.len() == n,
                sorted.len() == n,
                origin@.len() == n,
                forall|j: int|
                    0 <= j < n ==> 0 <= #[trigger] origin@[j] < n && sorted[j] == from[origin@[j] as int],
                forall|i: int| 0 <= i < n ==> 0 <= #[trigger] place[i] < n && relocations@[i] == place[i],
                forall|j: int| k <= j < n ==> #[trigger] nodes@[j] == sorted[j],
                forall|j: int|
                    0 <= j < k ==> #[trigger] nodes@[j] == (
                        sorted[j].0,
                        place[sorted[j].1 as int] as usize,
                    ),
            decreases n - k,
        {
            let p = nodes[k].1;
            assert(sorted[k as int] == from[origin@[k as int] as int]);
            assert(p < n);
            nodes[k].1 = relocations[p];
            k += 1;
        }
        proof {
            assert(values(nodes@) =~= values(sorted));
            assert forall|a: int, b: int| 0 <= a < b < nodes@.len() implies !precedes(
                (#[trigger] nodes@[b]).0,
                (#[trigger] nodes@[a]).0,
            ) by {
                assert(!precedes(sorted[b].0, sorted[a].0));
            }
            assert forall|i: int| 0 <= i < n implies {
                &&& nodes@[#[trigger] place[i]].0 == from[i].0
                &&& nodes@[place[i]].1 == place[from[i].1 as int]
            } by {
                assert(origin@[place[i]] == i);
                assert(sorted[place[i]] == from[origin@[place[i]] as int]);
                assert(0 <= from[i].1 < n);
            }
            assert forall|i: int, j: int| 0 <= i < n && 0 <= j < n && i != j implies #[trigger] place[i]
                != #[trigger] place[j] by {
                assert(origin@[place[i]] == i);
                assert(origin@[place[j]] == j);
            }
            assert forall|j: int| 0 <= j < n implies (#[trigger] nodes@[j]).1 < n by {
                assert(sorted[j] == from[origin@[j] as int]);
                assert(0 <= from[origin@[j] as int].1 < n);
                assert(0 <= place[sorted[j].1 as int] < n);
            }
            assert forall|k: int| 0 <= k < n implies #[trigger] taken(place, k) by {
                assert(place[origin@[k] as int] == k);
            }
            assert(rearranges(from, nodes@, place));
            assert(sorts(from, nodes@, place));
        }
        SortedTree { nodes }
    }

    /// Get the value in the node at `idx`.
    pub fn get(&self, idx: usize) -> (r: Option<&T>)
        ensures
            idx < self@.len() ==> r == Some(&self@[idx as int].0),
            idx >= self@.len() ==> r is None,
    {
        if idx < self.nodes.len() {
            Some(&self.nodes[idx].0)
        } else {
            None
        }
    }

    /// Get the parent of the node at `idx`, returning `None` for the root
    /// node.
    pub fn parent(&self, idx: usize) -> (r: Option<usize>)
        ensures
            r == if idx < self@.len() && self@[idx as int].1 != idx {
                Some(self@[idx as int].1)
            } else {
                None
            },
    {
        if idx < self.nodes.len() {
            let parent = self.nodes[idx].1;
            if idx == parent {
                None
            } else {
                Some(parent)
            }
        } else {
            None
        }
    }

    /// The number of nodes.
    pub fn len(&self) -> (r: usize)
        ensures
            r == self@.len(),
    {
        self.nodes.len()
    }

    /// Search for the index of a node with the given value (if there are
    /// multiple nodes with the same value, an arbitrary one is returned).
    pub fn search(&self, val: &T) -> (r: Option<usize>) where T: Ord
        requires
            self.wf(),
        ensures
            match r {
                Some(i) => i < self@.len() && self@[i as int].0 == *val,
                None => forall|j: int| 0 <= j < self@.len() ==> (#[trigger] self@[j]).0 != *val,
            },
    {
        let k = insertion_point(&self.nodes, val);
        if k < self.nodes.len() && !less(val, &self.nodes[k].0) {
            Some(k)
        } else {
            assert forall|j: int| 0 <= j < self@.len() implies (#[trigger] self@[j]).0 != *val by {
                if j > k {
                    assert(!precedes(self@[j].0, self@[k as int].0));
                }
            }
            None
        }
    }
}

} // verus!
