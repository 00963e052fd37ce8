use vstd::prelude::*;

use crate::octree::{
    SparseOctreeNode, lemma_same_tree_mono, lemma_subtree_unique, lemma_subtree_wf, lemma_wf_mono,
    popcount, power_of_two, same_tree, subtree_ok, wf_node,
};
use crate::cube::Cube;
use std::collections::VecDeque;

verus! {

/// One record of the flattened octree, laid out for the GPU traversal kernel.
/// A branch record has a non-zero `child_mask`, and its children occupy the
/// `popcount(child_mask)` records that start at `child_index`; a leaf record has
/// `child_mask == 0`, `child_index == 0` and its packed RGBA colour in `color`.
#[derive(Clone, Copy, Debug, PartialEq, Eq, Structural)]
pub struct GpuOctNode {
    pub child_index: u32,
    pub child_mask: u8,
    pub color: u32,
}

/// Number of children a node lists.
pub open spec fn child_count(n: SparseOctreeNode) -> int {
    match n {
        SparseOctreeNode::Leaf { .. } => 0,
        SparseOctreeNode::Branch { children, .. } => children@.len() as int,
    }
}

/// The children a node lists, in order.
pub open spec fn children_of(n: SparseOctreeNode) -> Seq<SparseOctreeNode> {
    match n {
        SparseOctreeNode::Leaf { .. } => seq![],
        SparseOctreeNode::Branch { children, .. } => children@,
    }
}

/// Number of children listed by the first `i` nodes of `order`.
pub open spec fn enqueued_before(order: Seq<SparseOctreeNode>, i: int) -> int
    decreases i,
{
    if i <= 0 {
        0
    } else {
        enqueued_before(order, i - 1) + child_count(order[i - 1])
    }
}

/// The record of node `n` whose first child will sit at index `child_index`.
pub open spec fn record_of(n: SparseOctreeNode, child_index: int) -> GpuOctNode {
    match n {
        SparseOctreeNode::Leaf { color } => GpuOctNode { child_index: 0, child_mask: 0, color },
        SparseOctreeNode::Branch { child_mask, .. } => GpuOctNode {
            child_index: child_index as u32,
            child_mask,
            color: 0,
        },
    }
}

/// `order` lists nodes in breadth-first order from `root` as far as the records `out`
/// have been written: every written node's children follow, contiguous and in order,
/// right after all children of the nodes written before it, and record `i` gives its
/// first child the index `first + enqueued_before(order, i)`.
pub open spec fn bfs_prefix(
    root: SparseOctreeNode,
    order: Seq<SparseOctreeNode>,
    out: Seq<GpuOctNode>,
    first: int,
) -> bool {
    &&& order.len() >= 1
    &&& order[0] == root
    &&& out.len() <= order.len()
    &&& order.len() == 1 + enqueued_before(order, out.len() as int)
    &&& 0 <= first
    &&& first + enqueued_before(order, out.len() as int) <= u32::MAX
    &&& forall|i: int| 0 <= i < out.len() ==> i < 1 + #[trigger] enqueued_before(order, i)
    &&& forall|i: int|
        0 <= i < out.len() ==> #[trigger] out[i] == record_of(
            order[i],
            first + enqueued_before(order, i),
        )
    &&& forall|i: int, k: int|
        0 <= i < out.len() && 0 <= k < child_count(order[i]) ==> #[trigger] order[1
            + enqueued_before(order, i) + k] == #[trigger] children_of(order[i])[k]
}

/// `out` is the complete breadth-first layout of the tree at `root`, whose root record
/// stands just before index `first` (the index its first child takes).
pub open spec fn bfs_layout(root: SparseOctreeNode, out: Seq<GpuOctNode>, first: int) -> bool {
    exists|order: Seq<SparseOctreeNode>|
        #[trigger] bfs_prefix(root, order, out, first) && out.len() == order.len()
}

proof fn lemma_enqueued_prefix(a: Seq<SparseOctreeNode>, b: Seq<SparseOctreeNode>, i: int)
    requires
        0 <= i <= a.len(),
        i <= b.len(),
        forall|j: int| 0 <= j < i ==> a[j] == b[j],
    ensures
        enqueued_before(a, i) == enqueued_before(b, i),
    decreases i,
{
    if i > 0 {
        lemma_enqueued_prefix(a, b, i - 1);
    }
}

proof fn lemma_enqueued_mono(order: Seq<SparseOctreeNode>, i: int, j: int)
    requires
        0 <= i <= j,
    ensures
        enqueued_before(order, i) <= enqueued_before(order, j),
    decreases j,
{
    if i < j {
        lemma_enqueued_mono(order, i, j - 1);
    }
}

/// Writing the record of the next node of a breadth-first prefix, and queueing its
/// children, gives a longer prefix.
proof fn lemma_step(
    root: SparseOctreeNode,
    before: Seq<SparseOctreeNode>,
    after: Seq<SparseOctreeNode>,
    out: Seq<GpuOctNode>,
    rec: GpuOctNode,
    first: int,
)
    requires
        bfs_prefix(root, before, out, first),
        out.len() < before.len(),
        after == before + children_of(before[out.len() as int]),
        rec == record_of(before[out.len() as int], first + enqueued_before(before, out.len() as int)),
        first + enqueued_before(before, out.len() as int) + child_count(before[out.len() as int])
            <= u32::MAX,
    ensures
        bfs_prefix(root, after, out.push(rec), first),
{
    let i = out.len() as int;
    let out2 = out.push(rec);
    assert forall|j: int| 0 <= j <= i + 1 implies enqueued_before(after, j) == enqueued_before(
        before,
        j,
    ) by {
        lemma_enqueued_prefix(after, before, j);
    }
    assert forall|j: int| 0 <= j < out2.len() implies j < 1 + #[trigger] enqueued_before(
        after,
        j,
    ) by {
        lemma_enqueued_prefix(after, before, j);
    }
    assert forall|j: int| 0 <= j < out2.len() implies #[trigger] out2[j] == record_of(
        after[j],
        first + enqueued_before(after, j),
    ) by {
        lemma_enqueued_prefix(after, before, j);
    }
    assert forall|j: int, k: int|
        0 <= j < out2.len() && 0 <= k < child_count(after[j]) implies #[trigger] after[1
        + enqueued_before(after, j) + k] == #[trigger] children_of(after[j])[k] by {
        lemma_enqueued_prefix(after, before, j);
        lemma_enqueued_prefix(after, before, j + 1);
        if j < i {
            lemma_enqueued_mono(before, j + 1, i);
            assert(before[1 + enqueued_before(before, j) + k] == children_of(before[j])[k]);
        }
    }
}

/// Laying out the tree at `root` from `first` on reaches a node whose children's indices
/// do not fit in 32 bits.
pub open spec fn layout_overflows(root: SparseOctreeNode, first: int) -> bool {
    exists|order: Seq<SparseOctreeNode>, out: Seq<GpuOctNode>|
        #[trigger] bfs_prefix(root, order, out, first) && out.len() < order.len() && first
            + enqueued_before(order, out.len() as int) + child_count(order[out.len() as int])
            > u32::MAX
}

/// The length of a complete layout, added to the index of its root, still fits in 32 bits.
pub proof fn lemma_layout_end(root: SparseOctreeNode, out: Seq<GpuOctNode>, first: int)
    requires
        bfs_layout(root, out, first),
    ensures
        1 <= out.len(),
        first + out.len() - 1 <= u32::MAX,
{
    let order = choose|order: Seq<SparseOctreeNode>|
        #[trigger] bfs_prefix(root, order, out, first) && out.len() == order.len();
}

/// Flattens the tree at `root` breadth first. `first` is the index that the root's first
/// child takes in the buffer (one past the root's own index). `None` when some child index
/// would not fit in 32 bits.
pub fn flatten(root: &SparseOctreeNode, first: u32) -> (r: Option<Vec<GpuOctNode>>)
    ensures
        r matches Some(out) ==> bfs_layout(*root, out@, first as int),
        r is None ==> layout_overflows(*root, first as int),
{
    let mut out: Vec<GpuOctNode> = Vec::new();
    let mut queue: VecDeque<&SparseOctreeNode> = VecDeque::new();
    queue.push_back(root);
    let ghost mut order: Seq<SparseOctreeNode> = seq![*root];
    let mut next: u32 = first;
    while queue.len() > 0
        invariant
            bfs_prefix(*root, order, out@, first as int),
            queue@.len() == order.len() - out@.len(),
            forall|m: int| 0 <= m < queue@.len() ==> #[trigger] queue@[m] == order[out@.len() + m],
            next as int == first + enqueued_before(order, out@.len() as int),
        decreases u32::MAX - next, queue@.len(),
    {
        let ghost i = out@.len() as int;
        let node = queue.pop_front().unwrap();
        assert(node == order[i]);
        match node {
            SparseOctreeNode::Leaf { color } => {
                let rec = GpuOctNode { child_index: 0, child_mask: 0, color: *color };
                proof {
                    assert(order + children_of(order[i]) =~= order);
                    lemma_step(*root, order, order, out@, rec, first as int);
                }
                out.push(rec);
            },
            SparseOctreeNode::Branch { child_mask, children } => {
                let count = children.len();
                if count as u64 > (u32::MAX - next) as u64 {
                    assert(bfs_prefix(*root, order, out@, first as int) && out@.len() < order.len()
                        && first + enqueued_before(order, out@.len() as int) + child_count(
                        order[out@.len() as int],
                    ) > u32::MAX);
                    return None;
                }
                let ghost before = order;
                let mut k: usize = 0;
                while k < count
                    invariant
                        k <= count,
                        0 <= i < before.len(),
                        count == children@.len(),
                        order.len() == before.len() + k,
                        order.subrange(0, before.len() as int) == before,
                        forall|m: int| 0 <= m < k ==> order[before.len() + m] == children@[m],
                        queue@.len() == order.len() - (i + 1),
                        forall|m: int|
                            0 <= m < queue@.len() ==> #[trigger] queue@[m] == order[i + 1 + m],
                    decreases count - k,
                {
                    let ghost q0 = queue@;
                    let ghost o0 = order;
                    queue.push_back(&children[k]);
                    proof {
                        order = order.push(children@[k as int]);
                        assert forall|m: int| 0 <= m < queue@.len() implies #[trigger] queue@[m]
                            == order[i + 1 + m] by {
                            if m < q0.len() {
                                assert(queue@[m] == q0[m]);
                                assert(order[i + 1 + m] == o0[i + 1 + m]);
                            }
                        }
                        assert(order.subrange(0, before.len() as int) =~= before);
                    }
                    k = k + 1;
                }
                let rec = GpuOctNode { child_index: next, child_mask: *child_mask, color: 0 };
                proof {
                    assert(order =~= before + children_of(before[i]));
                    lemma_step(*root, before, order, out@, rec, first as int);
                }
                out.push(rec);
                next = next + count as u32;
            },
        }
    }
    assert(bfs_prefix(*root, order, out@, first as int) && out@.len() == order.len());
    Some(out)
}

/// The node at position `p >= 1` of a breadth-first order is a child of the node at the
/// returned position, which comes before it.
proof fn lemma_parent(order: Seq<SparseOctreeNode>, n: int, p: int) -> (i: int)
    requires
        0 <= n,
        1 <= p < 1 + enqueued_before(order, n),
    ensures
        0 <= i < n,
        1 + enqueued_before(order, i) <= p < 1 + enqueued_before(order, i + 1),
    decreases n,
{
    if p < 1 + enqueued_before(order, n - 1) {
        lemma_parent(order, n - 1, p)
    } else {
        n - 1
    }
}

/// Every node listed in the breadth-first order of a well-formed tree is well formed.
proof fn lemma_order_wf(
    root: SparseOctreeNode,
    order: Seq<SparseOctreeNode>,
    out: Seq<GpuOctNode>,
    first: int,
    d: int,
    p: int,
)
    requires
        bfs_prefix(root, order, out, first),
        out.len() == order.len(),
        wf_node(root, d),
        0 <= p < order.len(),
    ensures
        wf_node(order[p], d),
    decreases p,
{
    if p > 0 {
        let i = lemma_parent(order, out.len() as int, p);
        assert(i < 1 + enqueued_before(order, i));
        lemma_order_wf(root, order, out, first, d, i);
        let k = p - 1 - enqueued_before(order, i);
        assert(order[1 + enqueued_before(order, i) + k] == children_of(order[i])[k]);
        lemma_wf_mono(order[p], d - 1, d);
    }
}

proof fn lemma_popcount_pos(m: int)
    requires
        m > 0,
    ensures
        popcount(m) > 0,
    decreases m,
{
    if m % 2 == 0 {
        lemma_popcount_pos(m / 2);
        lemma_popcount_nonneg(m / 2);
    } else {
        lemma_popcount_nonneg(m / 2);
    }
}

proof fn lemma_popcount_nonneg(m: int)
    ensures
        popcount(m) >= 0,
    decreases m,
{
    if m > 0 {
        lemma_popcount_nonneg(m / 2);
    }
}

/// Array index of the first child of branch record `i`, in an array whose root record
/// stands just before index `first`.
pub open spec fn run_start(out: Seq<GpuOctNode>, first: int, i: int) -> int {
    out[i].child_index - first + 1
}

/// Record `k` lies in the child run of some branch record.
pub open spec fn has_parent(out: Seq<GpuOctNode>, first: int, k: int) -> bool {
    exists|i: int|
        0 <= i < out.len() && (#[trigger] out[i]).child_mask != 0 && run_start(out, first, i) <= k
            < run_start(out, first, i) + popcount(out[i].child_mask as int)
}

/// Index arithmetic on a flattened octree is sound: every branch record's
/// `popcount(child_mask)` children form a run that lies after the record and inside the
/// array; the runs of earlier records come first and do not overlap; and every record
/// but the root lies in the run of some branch record (its parent).
pub open spec fn layout_shape(out: Seq<GpuOctNode>, first: int) -> bool {
    &&& forall|i: int|
        0 <= i < out.len() && (#[trigger] out[i]).child_mask != 0 ==> {
            &&& i < run_start(out, first, i)
            &&& run_start(out, first, i) + popcount(out[i].child_mask as int) <= out.len()
        }
    &&& forall|i: int, j: int|
        0 <= i < j < out.len() && (#[trigger] out[i]).child_mask != 0 && (#[trigger] out[j]).child_mask
            != 0 ==> run_start(out, first, i) + popcount(out[i].child_mask as int) <= run_start(
            out,
            first,
            j,
        )
    &&& forall|k: int| 1 <= k < out.len() ==> #[trigger] has_parent(out, first, k)
}

/// The breadth-first layout of a well-formed octree has a sound shape.
pub proof fn lemma_layout_children(
    root: SparseOctreeNode,
    out: Seq<GpuOctNode>,
    first: int,
    d: int,
)
    requires
        bfs_layout(root, out, first),
        wf_node(root, d),
    ensures
        layout_shape(out, first),
{
    let order = choose|order: Seq<SparseOctreeNode>|
        #[trigger] bfs_prefix(root, order, out, first) && out.len() == order.len();
    assert forall|i: int| 0 <= i < out.len() implies {
        &&& (#[trigger] out[i]).child_mask != 0 <==> child_count(order[i]) > 0
        &&& out[i].child_mask != 0 ==> run_start(out, first, i) == 1 + enqueued_before(order, i)
            && popcount(out[i].child_mask as int) == child_count(order[i])
    } by {
        lemma_order_wf(root, order, out, first, d, i);
        lemma_enqueued_mono(order, i, out.len() as int);
        lemma_enqueued_mono(order, 0, i);
        assert(out[i] == record_of(order[i], first + enqueued_before(order, i)));
        if let SparseOctreeNode::Branch { child_mask, .. } = order[i] {
            lemma_popcount_pos(child_mask as int);
        }
    }
    assert forall|i: int| 0 <= i < out.len() && (#[trigger] out[i]).child_mask != 0 implies {
        &&& i < run_start(out, first, i)
        &&& run_start(out, first, i) + popcount(out[i].child_mask as int) <= out.len()
    } by {
        lemma_enqueued_mono(order, i + 1, out.len() as int);
    }
    assert forall|i: int, j: int|
        0 <= i < j < out.len() && (#[trigger] out[i]).child_mask != 0 && (#[trigger] out[j]).child_mask
            != 0 implies run_start(out, first, i) + popcount(out[i].child_mask as int) <= run_start(
        out,
        first,
        j,
    ) by {
        lemma_enqueued_mono(order, i + 1, j);
    }
    assert forall|k: int| 1 <= k < out.len() implies #[trigger] has_parent(out, first, k) by {
        let i = lemma_parent(order, out.len() as int, k);
        assert(out[i].child_mask != 0);
    }
}

/// The layout of an octree built from voxels has a sound shape.
pub proof fn lemma_built_layout_children(
    n: SparseOctreeNode,
    cubes: Seq<Cube>,
    ox: int,
    oy: int,
    oz: int,
    e: int,
    out: Seq<GpuOctNode>,
    first: int,
)
    requires
        power_of_two(e),
        subtree_ok(n, cubes, ox, oy, oz, e),
        bfs_layout(n, out, first),
    ensures
        layout_shape(out, first),
{
    lemma_subtree_wf(n, cubes, ox, oy, oz, e);
    lemma_layout_children(n, out, first, crate::octree::log2(e));
}

/// Nodes that are the same tree list the same number of children up to any position.
proof fn lemma_enqueued_same(
    a: Seq<SparseOctreeNode>,
    b: Seq<SparseOctreeNode>,
    d: int,
    n: int,
)
    requires
        0 <= n <= a.len(),
        n <= b.len(),
        forall|q: int| 0 <= q < n ==> same_tree(#[trigger] a[q], b[q], d),
    ensures
        enqueued_before(a, n) == enqueued_before(b, n),
    decreases n,
{
    if n > 0 {
        lemma_enqueued_same(a, b, d, n - 1);
        assert(same_tree(a[n - 1], b[n - 1], d));
    }
}

/// Two complete breadth-first orders of the same tree agree node for node.
proof fn lemma_orders_agree(
    r1: SparseOctreeNode,
    r2: SparseOctreeNode,
    o1: Seq<SparseOctreeNode>,
    o2: Seq<SparseOctreeNode>,
    out1: Seq<GpuOctNode>,
    out2: Seq<GpuOctNode>,
    first: int,
    d: int,
    p: int,
)
    requires
        bfs_prefix(r1, o1, out1, first),
        out1.len() == o1.len(),
        bfs_prefix(r2, o2, out2, first),
        out2.len() == o2.len(),
        same_tree(r1, r2, d),
        0 <= p < o1.len(),
        p < o2.len(),
    ensures
        same_tree(o1[p], o2[p], d),
    decreases p,
{
    if p > 0 {
        let i = lemma_parent(o1, out1.len() as int, p);
        assert(i < 1 + enqueued_before(o1, i));
        assert forall|q: int| 0 <= q < i + 1 implies same_tree(#[trigger] o1[q], o2[q], d) by {
            lemma_orders_agree(r1, r2, o1, o2, out1, out2, first, d, q);
        }
        lemma_enqueued_same(o1, o2, d, i);
        lemma_enqueued_same(o1, o2, d, i + 1);
        let k = p - 1 - enqueued_before(o1, i);
        assert(o1[1 + enqueued_before(o1, i) + k] == children_of(o1[i])[k]);
        assert(o2[1 + enqueued_before(o2, i) + k] == children_of(o2[i])[k]);
        lemma_same_tree_mono(o1[p], o2[p], d - 1, d);
    }
}

/// The breadth-first layout of a tree is unique: trees that are the same give
/// identical record arrays.
proof fn lemma_layout_unique(
    r1: SparseOctreeNode,
    r2: SparseOctreeNode,
    out1: Seq<GpuOctNode>,
    out2: Seq<GpuOctNode>,
    first: int,
    d: int,
)
    requires
        bfs_layout(r1, out1, first),
        bfs_layout(r2, out2, first),
        same_tree(r1, r2, d),
    ensures
        out1 == out2,
{
    let o1 = choose|order: Seq<SparseOctreeNode>|
        #[trigger] bfs_prefix(r1, order, out1, first) && out1.len() == order.len();
    let o2 = choose|order: Seq<SparseOctreeNode>|
        #[trigger] bfs_prefix(r2, order, out2, first) && out2.len() == order.len();
    let n = if o1.len() < o2.len() {
        o1.len() as int
    } else {
        o2.len() as int
    };
    assert forall|q: int| 0 <= q < n implies same_tree(#[trigger] o1[q], o2[q], d) by {
        lemma_orders_agree(r1, r2, o1, o2, out1, out2, first, d, q);
    }
    lemma_enqueued_same(o1, o2, d, n);
    if o1.len() < o2.len() {
        assert(n < 1 + enqueued_before(o2, n));
    }
    if o2.len() < o1.len() {
        assert(n < 1 + enqueued_before(o1, n));
    }
    assert forall|i: int| 0 <= i < out1.len() implies out1[i] == out2[i] by {
        lemma_enqueued_same(o1, o2, d, i);
        assert(out1[i] == record_of(o1[i], first + enqueued_before(o1, i)));
        assert(out2[i] == record_of(o2[i], first + enqueued_before(o2, i)));
    }
    assert(out1 =~= out2);
}

/// Building and flattening are deterministic: any two octrees built from the same voxels
/// over the same box lay out to byte-identical record arrays.
pub proof fn lemma_deterministic_layout(
    n1: SparseOctreeNode,
    n2: SparseOctreeNode,
    cubes: Seq<Cube>,
    ox: int,
    oy: int,
    oz: int,
    e: int,
    out1: Seq<GpuOctNode>,
    out2: Seq<GpuOctNode>,
    first: int,
)
    requires
        power_of_two(e),
        subtree_ok(n1, cubes, ox, oy, oz, e),
        subtree_ok(n2, cubes, ox, oy, oz, e),
        bfs_layout(n1, out1, first),
        bfs_layout(n2, out2, first),
    ensures
        out1 == out2,
{
    lemma_subtree_unique(n1, n2, cubes, ox, oy, oz, e);
    lemma_layout_unique(n1, n2, out1, out2, first, crate::octree::log2(e));
}

} // verus!
