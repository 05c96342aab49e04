//! From the aggregated tree to what is shown: which entries are kept, how
//! deep, how many at each level and in what order.

use vstd::prelude::*;
use crate::display_node::{
    display_views, is_bounded_and_ranked, is_ranked, leading, lemma_leading_is_bounded_and_ranked,
    lemma_placed_capped, lemma_ranked_is_ranked, place_capped, ranked, DisplayNode, DisplayView,
};
use crate::node::{
    aggregate_sizes, clamped, forest_view, lemma_forest_view, sum_of_sizes, Metric, Node, NodeView,
};
use crate::text::{base_name, holds_text, join_path, joined, last_component, occurs_in, texts, Pattern};

verus! {

/// How the aggregated tree is reduced for display.
#[derive(Clone, Copy, Debug, PartialEq, Eq)]
pub struct AggregateData {
    /// Entries below this size are not shown for their own sake.
    pub min_size: Option<usize>,
    /// Only directories are shown for their own sake.
    pub only_dir: bool,
    /// Only files are shown for their own sake; `only_dir` goes first.
    pub only_file: bool,
    /// The most entries that are shown below any one entry.
    pub number_of_lines: usize,
    /// How many levels below a root are shown.
    pub depth: usize,
    /// The tree was walked under a filter: a directory that the filter left
    /// with size 0 is not shown for its own sake.
    pub using_a_filter: bool,
    /// Entries are named by their last component, not by their path.
    pub short_paths: bool,
}

/// The text of the pattern, where there is one.
pub open spec fn pattern_text(pattern: Option<Pattern>) -> Option<Seq<char>> {
    match pattern {
        Some(p) => Some(p@),
        None => None,
    }
}

/// The entry is of the kind that is asked for.
pub open spec fn kind_admitted(cfg: AggregateData, node: NodeView) -> bool {
    if cfg.only_dir {
        node.is_dir
    } else if cfg.only_file {
        !node.is_dir
    } else {
        true
    }
}

/// The entry meets the size threshold or the name pattern. Where both are
/// set, either is enough; where neither is set, every entry does.
pub open spec fn is_match(cfg: AggregateData, pattern: Option<Seq<char>>, node: NodeView) -> bool {
    match (cfg.min_size, pattern) {
        (None, None) => true,
        (Some(least), None) => node.size >= least,
        (None, Some(p)) => occurs_in(p, node.name),
        (Some(least), Some(p)) => node.size >= least || occurs_in(p, node.name),
    }
}

/// A directory that a filtered walk left with nothing in it.
pub open spec fn is_hollow(cfg: AggregateData, node: NodeView) -> bool {
    cfg.using_a_filter && node.is_dir && node.size == 0
}

/// The entry is shown for its own sake.
pub open spec fn is_selected(cfg: AggregateData, pattern: Option<Seq<char>>, node: NodeView) -> bool {
    kind_admitted(cfg, node) && is_match(cfg, pattern, node) && !is_hollow(cfg, node)
}

/// The entry at `path` is kept: it is not excluded, and it is shown for its
/// own sake or lies on the way to an entry that is kept.
pub open spec fn is_retained(
    cfg: AggregateData,
    pattern: Option<Seq<char>>,
    excluded: Seq<Seq<char>>,
    node: NodeView,
    path: Seq<char>,
) -> bool
    decreases node, 1nat,
{
    !excluded.contains(path) && (is_selected(cfg, pattern, node) || holds_retained(
        cfg,
        pattern,
        excluded,
        node.children,
        path,
    ))
}

/// One of the entries `nodes` of the directory at `base` is kept.
pub open spec fn holds_retained(
    cfg: AggregateData,
    pattern: Option<Seq<char>>,
    excluded: Seq<Seq<char>>,
    nodes: Seq<NodeView>,
    base: Seq<char>,
) -> bool
    decreases nodes, 0nat,
{
    nodes.len() > 0 && (holds_retained(cfg, pattern, excluded, nodes.drop_last(), base)
        || is_retained(cfg, pattern, excluded, nodes.last(), joined(base, nodes.last().name)))
}

/// The name under which the entry at `path` is shown.
pub open spec fn shown_name(cfg: AggregateData, node: NodeView, path: Seq<char>) -> Seq<char> {
    if cfg.short_paths {
        base_name(node.name)
    } else {
        path
    }
}

/// What is shown of the entry at `path`, `level` levels below its root: its
/// name and its full size, and below it, unless the depth is reached, the
/// leading ones of its entries that are kept.
pub open spec fn projection(
    cfg: AggregateData,
    pattern: Option<Seq<char>>,
    excluded: Seq<Seq<char>>,
    node: NodeView,
    path: Seq<char>,
    level: nat,
) -> DisplayView
    decreases node, 1nat,
{
    DisplayView {
        name: shown_name(cfg, node, path),
        size: node.size,
        children: if level >= cfg.depth {
            Seq::empty()
        } else {
            leading(
                candidates(cfg, pattern, excluded, node.children, path, level + 1),
                cfg.number_of_lines as nat,
            )
        },
    }
}

/// What is shown of those entries `nodes` of the directory at `base` that
/// are kept, in the order of `nodes`.
pub open spec fn candidates(
    cfg: AggregateData,
    pattern: Option<Seq<char>>,
    excluded: Seq<Seq<char>>,
    nodes: Seq<NodeView>,
    base: Seq<char>,
    level: nat,
) -> Seq<DisplayView>
    decreases nodes, 0nat,
{
    if nodes.len() == 0 {
        Seq::empty()
    } else {
        let rest = candidates(cfg, pattern, excluded, nodes.drop_last(), base, level);
        let path = joined(base, nodes.last().name);
        if is_retained(cfg, pattern, excluded, nodes.last(), path) {
            rest.push(projection(cfg, pattern, excluded, nodes.last(), path, level))
        } else {
            rest
        }
    }
}

/// The name of the node that stands above several roots.
pub open spec fn total_name() -> Seq<char> {
    "(total)"@
}

/// What is shown of a forest. Nothing where no root is kept. One root is
/// shown as it is; several stand below a node that holds their sum.
pub open spec fn biggest(
    roots: Seq<NodeView>,
    cfg: AggregateData,
    pattern: Option<Seq<char>>,
    excluded: Seq<Seq<char>>,
) -> Option<DisplayView> {
    let shown = candidates(cfg, pattern, excluded, roots, Seq::empty(), 0);
    if shown.len() == 0 {
        None
    } else if roots.len() == 1 {
        Some(shown[0])
    } else {
        Some(
            DisplayView {
                name: total_name(),
                size: clamped(sum_of_sizes(roots)),
                children: leading(shown, cfg.number_of_lines as nat),
            },
        )
    }
}

/// Something is shown of a list of entries exactly where one of them is kept,
/// and never more than the list holds.
pub proof fn lemma_candidates(
    cfg: AggregateData,
    pattern: Option<Seq<char>>,
    excluded: Seq<Seq<char>>,
    nodes: Seq<NodeView>,
    base: Seq<char>,
    level: nat,
)
    ensures
        candidates(cfg, pattern, excluded, nodes, base, level).len() > 0 <==> holds_retained(
            cfg,
            pattern,
            excluded,
            nodes,
            base,
        ),
        candidates(cfg, pattern, excluded, nodes, base, level).len() <= nodes.len(),
    decreases nodes.len(),
{
    if nodes.len() > 0 {
        lemma_candidates(cfg, pattern, excluded, nodes.drop_last(), base, level);
    }
}

/// Whether the entry is shown for its own sake.
pub fn selects(cfg: &AggregateData, pattern: &Option<Pattern>, node: &Node) -> (r: bool)
    ensures
        r == is_selected(*cfg, pattern_text(*pattern), node@),
{
    let admitted: bool = if cfg.only_dir {
        node.is_dir
    } else if cfg.only_file {
        !node.is_dir
    } else {
        true
    };
    if !admitted || (cfg.using_a_filter && node.is_dir && node.size == 0) {
        return false;
    }
    let large: bool = match cfg.min_size {
        Some(least) => node.size >= least as u64,
        None => false,
    };
    match pattern {
        Some(p) => large || p.is_match(node.name.as_str()),
        None => large || cfg.min_size.is_none(),
    }
}

/// Whether the entry at `path` is kept.
pub fn retains(
    cfg: &AggregateData,
    pattern: &Option<Pattern>,
    excluded: &Vec<String>,
    node: &Node,
    path: &String,
) -> (r: bool)
    ensures
        r == is_retained(*cfg, pattern_text(*pattern), texts(excluded@), node@, path@),
    decreases node, 1nat,
{
    !holds_text(excluded, path) && (selects(cfg, pattern, node) || holds_kept(
        cfg,
        pattern,
        excluded,
        node,
        path,
    ))
}

/// Whether one of the entries of the directory `node` at `path` is kept.
pub fn holds_kept(
    cfg: &AggregateData,
    pattern: &Option<Pattern>,
    excluded: &Vec<String>,
    node: &Node,
    path: &String,
) -> (r: bool)
    ensures
        r == holds_retained(*cfg, pattern_text(*pattern), texts(excluded@), node@.children, path@),
    decreases node, 0nat,
{
    let ghost kids = forest_view(node.children@);
    proof {
        lemma_forest_view(node.children@);
        assert(kids.take(0) =~= Seq::<NodeView>::empty());
    }
    let mut i: usize = 0;
    while i < node.children.len()
        invariant
            i <= node.children.len(),
            kids == node@.children,
            kids.len() == node.children.len(),
            forall|m: int| 0 <= m < kids.len() ==> (#[trigger] kids[m]) == node.children@[m]@,
            !holds_retained(*cfg, pattern_text(*pattern), texts(excluded@), kids.take(i as int), path@),
        decreases node.children.len() - i,
    {
        let child: &Node = &node.children[i];
        let below: String = join_path(path.as_str(), child.name.as_str());
        proof {
            assert(kids.take(i + 1).drop_last() =~= kids.take(i as int));
            assert(kids.take(i + 1).last() == child@);
        }
        if retains(cfg, pattern, excluded, child, &below) {
            proof {
                lemma_holds_retained_grows(
                    *cfg,
                    pattern_text(*pattern),
                    texts(excluded@),
                    kids,
                    path@,
                    i + 1,
                );
            }
            return true;
        }
        i += 1;
    }
    proof {
        assert(kids.take(kids.len() as int) =~= kids);
    }
    false
}

/// An entry that is kept among the first `k` is kept among all.
pub proof fn lemma_holds_retained_grows(
    cfg: AggregateData,
    pattern: Option<Seq<char>>,
    excluded: Seq<Seq<char>>,
    nodes: Seq<NodeView>,
    base: Seq<char>,
    k: int,
)
    requires
        0 <= k <= nodes.len(),
        holds_retained(cfg, pattern, excluded, nodes.take(k), base),
    ensures
        holds_retained(cfg, pattern, excluded, nodes, base),
    decreases nodes.len() - k,
{
    if k < nodes.len() {
        assert(nodes.take(k + 1).drop_last() =~= nodes.take(k));
        lemma_holds_retained_grows(cfg, pattern, excluded, nodes, base, k + 1);
    } else {
        assert(nodes.take(k) =~= nodes);
    }
}

/// What is shown of the entry at `path`, `level` levels below its root, or
/// nothing where the entry is not kept.
pub fn project(
    cfg: &AggregateData,
    pattern: &Option<Pattern>,
    excluded: &Vec<String>,
    node: &Node,
    path: String,
    level: usize,
) -> (r: Option<DisplayNode>)
    ensures
        r is Some == is_retained(*cfg, pattern_text(*pattern), texts(excluded@), node@, path@),
        r matches Some(shown) ==> shown@ == projection(
            *cfg,
            pattern_text(*pattern),
            texts(excluded@),
            node@,
            path@,
            level as nat,
        ),
    decreases node, 1nat,
{
    if holds_text(excluded, &path) {
        return None;
    }
    let selected: bool = selects(cfg, pattern, node);
    let children: Vec<DisplayNode>;
    let kept: bool;
    if level < cfg.depth {
        let (leaders, any) = collect(cfg, pattern, excluded, &node.children, &path, level + 1);
        proof {
            lemma_candidates(
                *cfg,
                pattern_text(*pattern),
                texts(excluded@),
                node@.children,
                path@,
                (level + 1) as nat,
            );
        }
        children = leaders;
        kept = any;
    } else {
        children = Vec::new();
        proof {
            assert(display_views(children@) =~= Seq::<DisplayView>::empty());
        }
        kept = holds_kept(cfg, pattern, excluded, node, &path);
    }
    if !selected && !kept {
        return None;
    }
    let name: String = if cfg.short_paths {
        last_component(node.name.as_str())
    } else {
        path
    };
    Some(DisplayNode { name, size: node.size, children })
}

/// The leading ones of what is shown of the entries `nodes` of the directory
/// at `base`, and whether anything is shown of them at all.
pub fn collect(
    cfg: &AggregateData,
    pattern: &Option<Pattern>,
    excluded: &Vec<String>,
    nodes: &Vec<Node>,
    base: &String,
    level: usize,
) -> (r: (Vec<DisplayNode>, bool))
    ensures
        display_views(r.0@) == leading(
            candidates(
                *cfg,
                pattern_text(*pattern),
                texts(excluded@),
                forest_view(nodes@),
                base@,
                level as nat,
            ),
            cfg.number_of_lines as nat,
        ),
        r.1 == (candidates(
            *cfg,
            pattern_text(*pattern),
            texts(excluded@),
            forest_view(nodes@),
            base@,
            level as nat,
        ).len() > 0),
    decreases nodes@, 0nat,
{
    let ghost kids = forest_view(nodes@);
    let ghost text = pattern_text(*pattern);
    let ghost out = texts(excluded@);
    let ghost cap = cfg.number_of_lines as nat;
    let mut leaders: Vec<DisplayNode> = Vec::new();
    let mut any: bool = false;
    let mut i: usize = 0;
    proof {
        lemma_forest_view(nodes@);
        assert(kids.take(0) =~= Seq::<NodeView>::empty());
        assert(display_views(leaders@) =~= Seq::<DisplayView>::empty());
    }
    while i < nodes.len()
        invariant
            i <= nodes.len(),
            kids == forest_view(nodes@),
            text == pattern_text(*pattern),
            out == texts(excluded@),
            cap == cfg.number_of_lines,
            kids.len() == nodes.len(),
            forall|m: int| 0 <= m < kids.len() ==> (#[trigger] kids[m]) == nodes@[m]@,
            display_views(leaders@) == leading(
                candidates(*cfg, text, out, kids.take(i as int), base@, level as nat),
                cap,
            ),
            any == (candidates(*cfg, text, out, kids.take(i as int), base@, level as nat).len() > 0),
            is_ranked(display_views(leaders@)),
            leaders.len() <= cfg.number_of_lines,
        decreases nodes.len() - i,
    {
        let child: &Node = &nodes[i];
        let path: String = join_path(base.as_str(), child.name.as_str());
        let ghost before = candidates(*cfg, text, out, kids.take(i as int), base@, level as nat);
        proof {
            assert(kids.take(i + 1).drop_last() =~= kids.take(i as int));
            assert(kids.take(i + 1).last() == child@);
        }
        match project(cfg, pattern, excluded, child, path, level) {
            Some(shown) => {
                proof {
                    lemma_ranked_is_ranked(before);
                    lemma_placed_capped(ranked(before), shown@, cap);
                    assert(before.push(shown@).drop_last() =~= before);
                }
                any = true;
                place_capped(&mut leaders, shown, cfg.number_of_lines);
            },
            None => {},
        }
        i += 1;
    }
    proof {
        assert(kids.take(kids.len() as int) =~= kids);
    }
    (leaders, any)
}

/// What a result stands for.
pub open spec fn shown_view(shown: Option<DisplayNode>) -> Option<DisplayView> {
    match shown {
        Some(node) => Some(node@),
        None => None,
    }
}

/// Reduces the forest of a walk to what is shown of it.
///
/// Nothing is shown of an empty forest, nor of one in which no entry is kept.
/// One root is shown as it is; several stand below a node named `(total)`
/// that holds the sum of their sizes. Every size is the one from the forest.
pub fn get_biggest(
    top_level_nodes: Vec<Node>,
    display_data: AggregateData,
    name_filter: &Option<Pattern>,
    excluded: Vec<String>,
) -> (r: Option<DisplayNode>)
    ensures
        shown_view(r) == biggest(
            forest_view(top_level_nodes@),
            display_data,
            pattern_text(*name_filter),
            texts(excluded@),
        ),
        r matches Some(shown) ==> is_bounded_and_ranked(shown@, display_data.number_of_lines as nat),
{
    proof {
        lemma_biggest_is_bounded_and_ranked(
            forest_view(top_level_nodes@),
            display_data,
            pattern_text(*name_filter),
            texts(excluded@),
        );
    }
    let count: usize = top_level_nodes.len();
    let base: String = String::new();
    let ghost roots = forest_view(top_level_nodes@);
    proof {
        lemma_forest_view(top_level_nodes@);
    }
    if count == 1 {
        let root: &Node = &top_level_nodes[0];
        let path: String = join_path(base.as_str(), root.name.as_str());
        let shown = project(&display_data, name_filter, &excluded, root, path, 0);
        proof {
            let text = pattern_text(*name_filter);
            let out = texts(excluded@);
            let none = Seq::<NodeView>::empty();
            assert(roots.drop_last() =~= none);
            assert(roots.last() == root@);
            assert(candidates(display_data, text, out, none, base@, 0) =~= Seq::<DisplayView>::empty());
            assert(candidates(display_data, text, out, roots, base@, 0) =~= if shown is Some {
                seq![shown.unwrap()@]
            } else {
                Seq::<DisplayView>::empty()
            });
        }
        return shown;
    }
    let (leaders, any) = collect(&display_data, name_filter, &excluded, &top_level_nodes, &base, 0);
    if !any {
        return None;
    }
    let size: u64 = aggregate_sizes(Metric::ApparentSize, 0, &top_level_nodes);
    Some(DisplayNode { name: "(total)".to_owned(), size, children: leaders })
}

/// What is shown of an entry carries the entry's size from the aggregated
/// tree, whatever is left out below it.
pub proof fn lemma_projection_keeps_size(
    cfg: AggregateData,
    pattern: Option<Seq<char>>,
    excluded: Seq<Seq<char>>,
    node: NodeView,
    path: Seq<char>,
    level: nat,
)
    ensures
        projection(cfg, pattern, excluded, node, path, level).size == node.size,
{
}

/// At depth 0 nothing is shown below a root, and the root keeps its size.
pub proof fn lemma_depth_zero_shows_no_entries(
    cfg: AggregateData,
    pattern: Option<Seq<char>>,
    excluded: Seq<Seq<char>>,
    root: NodeView,
)
    requires
        cfg.depth == 0,
    ensures
        projection(cfg, pattern, excluded, root, root.name, 0).children.len() == 0,
        projection(cfg, pattern, excluded, root, root.name, 0).size == root.size,
{
}

/// A directory that is not excluded is kept wherever one of its entries is
/// kept: the way to every entry that is kept stays in the tree.
pub proof fn lemma_kept_entry_keeps_directory(
    cfg: AggregateData,
    pattern: Option<Seq<char>>,
    excluded: Seq<Seq<char>>,
    node: NodeView,
    path: Seq<char>,
    i: int,
)
    requires
        0 <= i < node.children.len(),
        !excluded.contains(path),
        is_retained(cfg, pattern, excluded, node.children[i], joined(path, node.children[i].name)),
    ensures
        is_retained(cfg, pattern, excluded, node, path),
{
    assert(node.children.take(i + 1).last() == node.children[i]);
    lemma_holds_retained_grows(cfg, pattern, excluded, node.children, path, i + 1);
}

/// At every level of what is shown of an entry stand at most
/// `number_of_lines` entries, largest first and equal sizes by name.
pub proof fn lemma_projection_is_bounded_and_ranked(
    cfg: AggregateData,
    pattern: Option<Seq<char>>,
    excluded: Seq<Seq<char>>,
    node: NodeView,
    path: Seq<char>,
    level: nat,
)
    ensures
        is_bounded_and_ranked(
            projection(cfg, pattern, excluded, node, path, level),
            cfg.number_of_lines as nat,
        ),
    decreases node, 1nat,
{
    if level < cfg.depth {
        let found = candidates(cfg, pattern, excluded, node.children, path, level + 1);
        lemma_candidates_are_bounded_and_ranked(cfg, pattern, excluded, node.children, path, level + 1);
        lemma_leading_is_bounded_and_ranked(found, cfg.number_of_lines as nat);
    }
}

/// Each of the entries that are shown is bounded and ranked at every level.
pub proof fn lemma_candidates_are_bounded_and_ranked(
    cfg: AggregateData,
    pattern: Option<Seq<char>>,
    excluded: Seq<Seq<char>>,
    nodes: Seq<NodeView>,
    base: Seq<char>,
    level: nat,
)
    ensures
        forall|i: int|
            0 <= i < candidates(cfg, pattern, excluded, nodes, base, level).len()
                ==> is_bounded_and_ranked(
                #[trigger] candidates(cfg, pattern, excluded, nodes, base, level)[i],
                cfg.number_of_lines as nat,
            ),
    decreases nodes, 0nat,
{
    if nodes.len() > 0 {
        lemma_candidates_are_bounded_and_ranked(cfg, pattern, excluded, nodes.drop_last(), base, level);
        let path = joined(base, nodes.last().name);
        lemma_projection_is_bounded_and_ranked(cfg, pattern, excluded, nodes.last(), path, level);
        let rest = candidates(cfg, pattern, excluded, nodes.drop_last(), base, level);
        let all = candidates(cfg, pattern, excluded, nodes, base, level);
        assert forall|i: int| 0 <= i < all.len() implies is_bounded_and_ranked(
            #[trigger] all[i],
            cfg.number_of_lines as nat,
        ) by {
            if i < rest.len() {
                assert(all[i] == rest[i]);
            }
        }
    }
}

/// What is shown of a forest is bounded and ranked at every level.
pub proof fn lemma_biggest_is_bounded_and_ranked(
    roots: Seq<NodeView>,
    cfg: AggregateData,
    pattern: Option<Seq<char>>,
    excluded: Seq<Seq<char>>,
)
    ensures
        biggest(roots, cfg, pattern, excluded) matches Some(shown) ==> is_bounded_and_ranked(
            shown,
            cfg.number_of_lines as nat,
        ),
{
    let found = candidates(cfg, pattern, excluded, roots, Seq::empty(), 0);
    lemma_candidates_are_bounded_and_ranked(cfg, pattern, excluded, roots, Seq::empty(), 0);
    lemma_leading_is_bounded_and_ranked(found, cfg.number_of_lines as nat);
}

} // verus!
