//! Disk usage over a recorded filesystem: walk a snapshot into a tree of
//! aggregated sizes, then reduce that tree to a bounded summary for display.

pub mod config;
pub mod dir_walker;
pub mod display_node;
pub mod filter;
pub mod node;
pub mod platform;
pub mod progress;
pub mod snapshot;
pub mod text;
pub mod utils;

use vstd::prelude::*;

pub use crate::dir_walker::{walk_it, WalkData};
pub use crate::display_node::DisplayNode;
pub use crate::filter::{get_biggest, AggregateData};
pub use crate::node::{FileTime, Node};

use crate::dir_walker::{plain_walk, walk_forest};
use crate::display_node::is_bounded_and_ranked;
use crate::filter::{biggest, candidates, is_retained, shown_view};
use crate::node::{forest_view, is_aggregated, Metric, NodeView};
use crate::progress::ProgressTracker;
use crate::snapshot::Snapshot;
use crate::text::{joined, texts};
use crate::utils::{simplified, simplify_dir_names};

verus! {

/// Builds the trees of the roots `directories` from the recorded filesystem.
///
/// The roots are first put in normal form, and those that lie below another
/// one are taken out. The walk measures disk usage, follows no symlink, and
/// leaves nothing out but, where `ignore_hidden` says so, the entries whose
/// name starts with a dot. What could not be read is left out.
pub fn build_directory_tree(fs: &Snapshot, directories: Vec<String>, ignore_hidden: bool) -> (nodes: Vec<
    Node,
>)
    requires
        fs.wf(),
    ensures
        forest_view(nodes@) == walk_forest(
            fs@,
            plain_walk(ignore_hidden),
            simplified(texts(directories@)),
        ).nodes,
        nodes.len() == simplified(texts(directories@)).len(),
        forall|m: int| 0 <= m < nodes.len() ==> is_aggregated(#[trigger] nodes@[m]@, Metric::DiskUsage),
{
    let simplified_dirs: Vec<String> = simplify_dir_names(&directories);
    let walk_data = WalkData::new(ignore_hidden);
    let mut tracker = ProgressTracker::new();
    assert(texts(simplified_dirs@).len() == simplified_dirs.len());
    walk_it(fs, simplified_dirs, &walk_data, &mut tracker)
}

/// The settings under which only the number of entries at each level is
/// bounded: every entry is kept, at any depth, under its path.
pub open spec fn largest_only(number_of_nodes: usize) -> AggregateData {
    AggregateData {
        min_size: None,
        only_dir: false,
        only_file: false,
        number_of_lines: number_of_nodes,
        depth: usize::MAX,
        using_a_filter: false,
        short_paths: false,
    }
}

/// Where only the number of entries is bounded, something is shown of every
/// entry of a list.
pub proof fn lemma_largest_only_keeps_all(
    number_of_nodes: usize,
    nodes: Seq<NodeView>,
    base: Seq<char>,
    level: nat,
)
    ensures
        candidates(largest_only(number_of_nodes), None, Seq::empty(), nodes, base, level).len()
            == nodes.len(),
    decreases nodes.len(),
{
    if nodes.len() > 0 {
        lemma_largest_only_keeps_all(number_of_nodes, nodes.drop_last(), base, level);
        let path = joined(base, nodes.last().name);
        assert(is_retained(largest_only(number_of_nodes), None, Seq::empty(), nodes.last(), path));
    }
}

/// Reduces the forest to the `number_of_nodes` largest entries at each level.
///
/// Nothing is shown of an empty forest. Of any other, every entry is kept
/// and only their number at each level is bounded.
pub fn get_largest_nodes(nodes: Vec<Node>, number_of_nodes: usize) -> (shown: Option<DisplayNode>)
    ensures
        shown_view(shown) == biggest(
            forest_view(nodes@),
            largest_only(number_of_nodes),
            None,
            Seq::empty(),
        ),
        shown is Some == (nodes.len() > 0),
        shown matches Some(root) ==> is_bounded_and_ranked(root@, number_of_nodes as nat),
{
    let agg_data = AggregateData {
        min_size: None,
        only_dir: false,
        only_file: false,
        number_of_lines: number_of_nodes,
        depth: usize::MAX,
        using_a_filter: false,
        short_paths: false,
    };
    let excluded: Vec<String> = Vec::new();
    proof {
        assert(texts(excluded@) =~= Seq::<Seq<char>>::empty());
        lemma_largest_only_keeps_all(number_of_nodes, forest_view(nodes@), Seq::empty(), 0);
        crate::node::lemma_forest_view(nodes@);
    }
    get_biggest(nodes, agg_data, &None, excluded)
}

} // verus!
