//! The aggregated tree that a walk builds: one node for each entry, a
//! directory holding the nodes of its entries.

use vstd::prelude::*;

verus! {

/// One of the three times that the filesystem keeps of an entry.
#[derive(Clone, Copy, Debug, PartialEq, Eq, Structural)]
pub enum FileTime {
    Modified,
    Accessed,
    Changed,
}

/// What a walk measures. One metric is chosen for a whole walk, and every
/// size in its tree is of that kind.
#[derive(Clone, Copy, Debug, PartialEq, Eq, Structural)]
pub enum Metric {
    /// Bytes allocated on disk.
    DiskUsage,
    /// Bytes of content.
    ApparentSize,
    /// The number of files.
    FileCount,
    /// The latest of the chosen time over the files.
    Time(FileTime),
}

/// The identity of an entry on its filesystem.
#[derive(Clone, Copy, Debug, PartialEq, Eq, Structural)]
pub struct FileId {
    pub device: u64,
    pub inode: u64,
}

/// One filesystem entry after aggregation.
#[derive(Debug, PartialEq, Eq)]
pub struct Node {
    /// The name of the entry in its directory; the whole path for a root.
    pub name: String,
    /// The entry's measure under the walk's metric, its contents included.
    pub size: u64,
    /// The nodes of the entries of a directory; empty for a file.
    pub children: Vec<Node>,
    /// The identity of the entry, where its metadata could be read.
    pub device_id: Option<FileId>,
    /// Whether the entry is a directory.
    pub is_dir: bool,
}

/// A node as a mathematical tree.
pub ghost struct NodeView {
    pub name: Seq<char>,
    pub size: nat,
    pub children: Seq<NodeView>,
    pub device_id: Option<FileId>,
    pub is_dir: bool,
}

/// The tree that `node` stands for.
pub open spec fn node_view(node: Node) -> NodeView
    decreases node,
{
    NodeView {
        name: node.name@,
        size: node.size as nat,
        children: forest_view(node.children@),
        device_id: node.device_id,
        is_dir: node.is_dir,
    }
}

/// The trees that `nodes` stand for, in order.
pub open spec fn forest_view(nodes: Seq<Node>) -> Seq<NodeView>
    decreases nodes,
{
    if nodes.len() == 0 {
        Seq::empty()
    } else {
        forest_view(nodes.drop_last()).push(node_view(nodes.last()))
    }
}

impl View for Node {
    type V = NodeView;

    open spec fn view(&self) -> NodeView {
        node_view(*self)
    }
}

/// The view of a forest holds the view of each node at the node's place.
pub proof fn lemma_forest_view(nodes: Seq<Node>)
    ensures
        forest_view(nodes).len() == nodes.len(),
        forall|i: int| 0 <= i < nodes.len() ==> (#[trigger] forest_view(nodes)[i]) == nodes[i]@,
    decreases nodes.len(),
{
    if nodes.len() > 0 {
        lemma_forest_view(nodes.drop_last());
    }
}

/// The view of a forest grows with the forest.
pub proof fn lemma_forest_view_push(nodes: Seq<Node>, node: Node)
    ensures
        forest_view(nodes.push(node)) == forest_view(nodes).push(node@),
{
    assert(nodes.push(node).drop_last() =~= nodes);
}

/// The largest value a size can take.
pub open spec fn size_limit() -> nat {
    u64::MAX as nat
}

/// `n`, or the largest size where `n` is beyond it.
pub open spec fn clamped(n: nat) -> nat {
    if n > size_limit() {
        size_limit()
    } else {
        n
    }
}

/// The sum of the sizes of `nodes`.
pub open spec fn sum_of_sizes(nodes: Seq<NodeView>) -> nat
    decreases nodes.len(),
{
    if nodes.len() == 0 {
        0
    } else {
        sum_of_sizes(nodes.drop_last()) + nodes.last().size
    }
}

/// The largest of the sizes of `nodes`, 0 where there is none.
pub open spec fn largest_size(nodes: Seq<NodeView>) -> nat
    decreases nodes.len(),
{
    if nodes.len() == 0 {
        0
    } else if largest_size(nodes.drop_last()) >= nodes.last().size {
        largest_size(nodes.drop_last())
    } else {
        nodes.last().size
    }
}

/// The size of a directory whose own share is `own` and whose entries have
/// the nodes `children`: the latest time where times are measured, else the
/// sum, held at the largest size.
pub open spec fn aggregate(metric: Metric, own: nat, children: Seq<NodeView>) -> nat {
    match metric {
        Metric::Time(_) => if own >= largest_size(children) {
            own
        } else {
            largest_size(children)
        },
        _ => clamped(own + sum_of_sizes(children)),
    }
}

/// Every directory of the tree has the size that its entries give it: their
/// sum, to which disk usage adds the directory's own blocks, or their latest
/// time.
pub open spec fn is_aggregated(node: NodeView, metric: Metric) -> bool
    decreases node,
{
    &&& node.is_dir ==> match metric {
        Metric::DiskUsage => exists|own: nat| node.size == #[trigger] aggregate(metric, own, node.children),
        _ => node.size == aggregate(metric, 0, node.children),
    }
    &&& forall|i: int|
        0 <= i < node.children.len() ==> is_aggregated(#[trigger] node.children[i], metric)
}

/// Somewhere in the tree stands a directory with the identity `id`.
pub open spec fn holds_directory(node: NodeView, id: FileId) -> bool
    decreases node,
{
    (node.is_dir && node.device_id == Some(id)) || exists|i: int|
        0 <= i < node.children.len() && holds_directory(#[trigger] node.children[i], id)
}

/// On no way down the tree does a directory stand below itself.
pub open spec fn is_acyclic(node: NodeView) -> bool
    decreases node,
{
    &&& node.is_dir && node.device_id is Some ==> forall|i: int|
        0 <= i < node.children.len() ==> !holds_directory(
            #[trigger] node.children[i],
            node.device_id.unwrap(),
        )
    &&& forall|i: int| 0 <= i < node.children.len() ==> is_acyclic(#[trigger] node.children[i])
}

/// The sum of sizes is that of the other nodes and the size of the node at
/// `i`.
pub proof fn lemma_sum_without(nodes: Seq<NodeView>, i: int)
    requires
        0 <= i < nodes.len(),
    ensures
        sum_of_sizes(nodes) == sum_of_sizes(nodes.remove(i)) + nodes[i].size,
    decreases nodes.len(),
{
    if i == nodes.len() - 1 {
        assert(nodes.remove(i) =~= nodes.drop_last());
    } else {
        lemma_sum_without(nodes.drop_last(), i);
        assert(nodes.remove(i).drop_last() =~= nodes.drop_last().remove(i));
        assert(nodes.remove(i).last() == nodes.last());
    }
}

/// The largest size is the larger of that of the other nodes and the size of
/// the node at `i`.
pub proof fn lemma_largest_without(nodes: Seq<NodeView>, i: int)
    requires
        0 <= i < nodes.len(),
    ensures
        largest_size(nodes) == if largest_size(nodes.remove(i)) >= nodes[i].size {
            largest_size(nodes.remove(i))
        } else {
            nodes[i].size
        },
    decreases nodes.len(),
{
    if i == nodes.len() - 1 {
        assert(nodes.remove(i) =~= nodes.drop_last());
    } else {
        lemma_largest_without(nodes.drop_last(), i);
        assert(nodes.remove(i).drop_last() =~= nodes.drop_last().remove(i));
        assert(nodes.remove(i).last() == nodes.last());
    }
}

/// The size of a directory does not depend on the order of its entries: the
/// same nodes in any order give the same size.
pub proof fn lemma_aggregate_ignores_order(
    metric: Metric,
    own: nat,
    one: Seq<NodeView>,
    other: Seq<NodeView>,
)
    requires
        one.to_multiset() == other.to_multiset(),
    ensures
        aggregate(metric, own, one) == aggregate(metric, own, other),
{
    lemma_sizes_ignore_order(one, other);
}

/// The same nodes in any order have the same sum and the same largest size.
proof fn lemma_sizes_ignore_order(one: Seq<NodeView>, other: Seq<NodeView>)
    requires
        one.to_multiset() == other.to_multiset(),
    ensures
        sum_of_sizes(one) == sum_of_sizes(other),
        largest_size(one) == largest_size(other),
    decreases one.len(),
{
    broadcast use {
        vstd::seq_lib::to_multiset_len,
        vstd::seq_lib::to_multiset_contains,
        vstd::seq_lib::to_multiset_remove,
    };

    assert(one.len() == one.to_multiset().len());
    assert(other.len() == other.to_multiset().len());
    if one.len() > 0 {
        let x = one.last();
        assert(one.contains(x)) by {
            assert(one[one.len() - 1] == x);
        }
        assert(one.to_multiset().count(x) > 0);
        assert(other.contains(x));
        let j = choose|j: int| 0 <= j < other.len() && other[j] == x;
        assert(one.remove(one.len() - 1) =~= one.drop_last());
        assert(one.remove(one.len() - 1).to_multiset() == one.to_multiset().remove(x));
        assert(other.remove(j).to_multiset() == other.to_multiset().remove(x));
        lemma_sizes_ignore_order(one.drop_last(), other.remove(j));
        lemma_sum_without(other, j);
        lemma_largest_without(other, j);
    }
}

/// The size of a directory whose own share is `own` and whose entries have
/// the nodes `children`.
pub fn aggregate_sizes(metric: Metric, own: u64, children: &Vec<Node>) -> (size: u64)
    ensures
        size == aggregate(metric, own as nat, forest_view(children@)),
{
    let latest: bool = match metric {
        Metric::Time(_) => true,
        _ => false,
    };
    let mut size: u64 = own;
    let mut i: usize = 0;
    proof {
        lemma_forest_view(children@);
        assert(forest_view(children@).take(0) =~= Seq::<NodeView>::empty());
    }
    while i < children.len()
        invariant
            i <= children.len(),
            forest_view(children@).len() == children.len(),
            latest == (metric is Time),
            latest ==> size as nat == (if own as nat >= largest_size(forest_view(children@).take(i as int)) {
                own as nat
            } else {
                largest_size(forest_view(children@).take(i as int))
            }),
            !latest ==> size as nat == clamped(own as nat + sum_of_sizes(forest_view(children@).take(i as int))),
        decreases children.len() - i,
    {
        proof {
            lemma_forest_view(children@);
            let kids = forest_view(children@);
            assert(kids.take(i + 1).drop_last() =~= kids.take(i as int));
            assert(kids.take(i + 1).last() == children@[i as int]@);
        }
        let child_size: u64 = children[i].size;
        if latest {
            if child_size > size {
                size = child_size;
            }
        } else {
            size = size.saturating_add(child_size);
        }
        i += 1;
    }
    proof {
        assert(forest_view(children@).take(children.len() as int) =~= forest_view(children@));
    }
    size
}

impl Clone for Node {
    /// A copy of the whole tree.
    fn clone(&self) -> (copy: Node)
        ensures
            copy@ == self@,
        decreases self,
    {
        let mut children: Vec<Node> = Vec::new();
        let mut i: usize = 0;
        proof {
            lemma_forest_view(self.children@);
            assert(forest_view(self.children@).take(0) =~= forest_view(children@));
        }
        while i < self.children.len()
            invariant
                i <= self.children.len(),
                forest_view(self.children@).len() == self.children.len(),
                forest_view(children@) == forest_view(self.children@).take(i as int),
            decreases self.children.len() - i,
        {
            let child: Node = self.children[i].clone();
            proof {
                lemma_forest_view(self.children@);
                lemma_forest_view_push(children@, child);
                assert(forest_view(self.children@).take(i + 1) =~= forest_view(self.children@).take(
                    i as int,
                ).push(child@));
            }
            children.push(child);
            i += 1;
        }
        proof {
            assert(forest_view(self.children@).take(self.children.len() as int) =~= forest_view(
                self.children@,
            ));
        }
        Node {
            name: self.name.clone(),
            size: self.size,
            children,
            device_id: self.device_id,
            is_dir: self.is_dir,
        }
    }
}

} // verus!
