//! The tree that is shown: a bounded, ranked projection of the aggregated
//! tree.

use vstd::prelude::*;
use crate::text::{
    lemma_text_order_asymmetric, lemma_text_order_total, lemma_text_order_transitive,
    name_precedes, text_precedes,
};

verus! {

/// One line of the summary: an entry with its full size and the chosen few of
/// its entries, largest first.
#[derive(Debug, PartialEq, Eq)]
pub struct DisplayNode {
    /// The path of the entry, or its last component where short names are
    /// asked for.
    pub name: String,
    /// The size of the entry in the aggregated tree.
    pub size: u64,
    /// The entries that are shown below this one.
    pub children: Vec<DisplayNode>,
}

/// A display node as a mathematical tree.
pub ghost struct DisplayView {
    pub name: Seq<char>,
    pub size: nat,
    pub children: Seq<DisplayView>,
}

/// The tree that `node` stands for.
pub open spec fn display_view(node: DisplayNode) -> DisplayView
    decreases node,
{
    DisplayView {
        name: node.name@,
        size: node.size as nat,
        children: display_views(node.children@),
    }
}

/// The trees that `nodes` stand for, in order.
pub open spec fn display_views(nodes: Seq<DisplayNode>) -> Seq<DisplayView>
    decreases nodes,
{
    if nodes.len() == 0 {
        Seq::empty()
    } else {
        display_views(nodes.drop_last()).push(display_view(nodes.last()))
    }
}

impl View for DisplayNode {
    type V = DisplayView;

    open spec fn view(&self) -> DisplayView {
        display_view(*self)
    }
}

/// The views of display nodes hold the view of each node at the node's place.
pub proof fn lemma_display_views(nodes: Seq<DisplayNode>)
    ensures
        display_views(nodes).len() == nodes.len(),
        forall|i: int| 0 <= i < nodes.len() ==> (#[trigger] display_views(nodes)[i]) == nodes[i]@,
    decreases nodes.len(),
{
    if nodes.len() > 0 {
        lemma_display_views(nodes.drop_last());
    }
}

/// Two lists of display nodes with the same views in the same places have
/// the same views as lists.
pub proof fn lemma_display_views_equal(nodes: Seq<DisplayNode>, views: Seq<DisplayView>)
    requires
        nodes.len() == views.len(),
        forall|i: int| 0 <= i < nodes.len() ==> (#[trigger] nodes[i])@ == views[i],
    ensures
        display_views(nodes) == views,
{
    lemma_display_views(nodes);
    assert(display_views(nodes) =~= views);
}

/// `a` is shown before `b`: it is larger, or as large with the name that
/// comes first.
pub open spec fn outranks(a: DisplayView, b: DisplayView) -> bool {
    a.size > b.size || (a.size == b.size && text_precedes(a.name, b.name))
}

/// Of two nodes at most one is shown before the other.
pub proof fn lemma_outranks_asymmetric(a: DisplayView, b: DisplayView)
    ensures
        !(outranks(a, b) && outranks(b, a)),
{
    lemma_text_order_asymmetric(a.name, b.name);
}

/// Where `a` is not shown before `b`, nor `b` before `c`, `a` is not shown
/// before `c`.
pub proof fn lemma_outranks_chain(a: DisplayView, b: DisplayView, c: DisplayView)
    requires
        !outranks(a, b),
        !outranks(b, c),
    ensures
        !outranks(a, c),
{
    if outranks(a, c) {
        if a.size == b.size && b.size == c.size {
            lemma_text_order_total(a.name, b.name);
            lemma_text_order_total(b.name, c.name);
            if b.name != a.name && c.name != b.name {
                lemma_text_order_transitive(c.name, b.name, a.name);
                lemma_text_order_asymmetric(a.name, c.name);
            }
        }
    }
}

/// No node of the list is shown before one that stands earlier in it.
pub open spec fn is_ranked(list: Seq<DisplayView>) -> bool {
    forall|i: int, j: int| 0 <= i < j < list.len() ==> !outranks(#[trigger] list[j], #[trigger] list[i])
}

/// The list with `x` put in behind the last node that `x` is not shown
/// before.
pub open spec fn placed(list: Seq<DisplayView>, x: DisplayView) -> Seq<DisplayView>
    decreases list.len(),
{
    if list.len() > 0 && outranks(x, list.last()) {
        placed(list.drop_last(), x).push(list.last())
    } else {
        list.push(x)
    }
}

/// The nodes of `list` in the order in which they are shown: largest first,
/// equal sizes by name, and what is equal in both in the order of `list`.
pub open spec fn ranked(list: Seq<DisplayView>) -> Seq<DisplayView>
    decreases list.len(),
{
    if list.len() == 0 {
        list
    } else {
        placed(ranked(list.drop_last()), list.last())
    }
}

/// The first `cap` nodes of `list`, all of them where it has no more.
pub open spec fn capped(list: Seq<DisplayView>, cap: nat) -> Seq<DisplayView> {
    if list.len() <= cap {
        list
    } else {
        list.take(cap as int)
    }
}

/// The `cap` nodes of `list` that are shown first, in that order.
pub open spec fn leading(list: Seq<DisplayView>, cap: nat) -> Seq<DisplayView> {
    capped(ranked(list), cap)
}

/// Where `x` goes in `list`: behind position `at`, before which stands a
/// node that `x` is not shown before, and from which on every node comes
/// after `x`.
pub open spec fn is_place(list: Seq<DisplayView>, x: DisplayView, at: int) -> bool {
    &&& 0 <= at <= list.len()
    &&& at > 0 ==> !outranks(x, list[at - 1])
    &&& forall|i: int| at <= i < list.len() ==> outranks(x, #[trigger] list[i])
}

/// Putting `x` in at its place gives `placed`.
pub proof fn lemma_placed_at(list: Seq<DisplayView>, x: DisplayView, at: int)
    requires
        is_place(list, x, at),
    ensures
        placed(list, x) == list.take(at).push(x) + list.skip(at),
        placed(list, x).len() == list.len() + 1,
    decreases list.len(),
{
    if list.len() > 0 && outranks(x, list.last()) {
        assert(at < list.len()) by {
            if at == list.len() {
                assert(!outranks(x, list[at - 1]));
            }
        }
        let rest = list.drop_last();
        assert(is_place(rest, x, at)) by {
            assert forall|i: int| at <= i < rest.len() implies outranks(x, #[trigger] rest[i]) by {
                assert(rest[i] == list[i]);
            }
        }
        lemma_placed_at(rest, x, at);
        assert(placed(list, x) =~= list.take(at).push(x) + list.skip(at));
    } else {
        assert(at == list.len()) by {
            if at < list.len() {
                assert(outranks(x, list[list.len() - 1]));
            }
        }
        assert(placed(list, x) =~= list.take(at).push(x) + list.skip(at));
    }
}

/// Every list has a place for `x`.
pub proof fn lemma_place_exists(list: Seq<DisplayView>, x: DisplayView) -> (at: int)
    ensures
        is_place(list, x, at),
    decreases list.len(),
{
    if list.len() > 0 && outranks(x, list.last()) {
        let rest = list.drop_last();
        let at = lemma_place_exists(rest, x);
        assert forall|i: int| at <= i < list.len() implies outranks(x, #[trigger] list[i]) by {
            if i < rest.len() {
                assert(rest[i] == list[i]);
            }
        }
        if at > 0 {
            assert(rest[at - 1] == list[at - 1]);
        }
        at
    } else {
        list.len() as int
    }
}

/// A ranked list stays ranked when a node is put in at its place.
pub proof fn lemma_placed_is_ranked(list: Seq<DisplayView>, x: DisplayView)
    requires
        is_ranked(list),
    ensures
        is_ranked(placed(list, x)),
        placed(list, x).len() == list.len() + 1,
{
    let at = lemma_place_exists(list, x);
    lemma_placed_at(list, x, at);
    let out = placed(list, x);
    assert forall|i: int, j: int| 0 <= i < j < out.len() implies !outranks(
        #[trigger] out[j],
        #[trigger] out[i],
    ) by {
        if j < at {
            assert(out[i] == list[i] && out[j] == list[j]);
        } else if j == at {
            assert(out[j] == x);
            assert(out[i] == list[i]);
            if i < at - 1 {
                assert(!outranks(list[at - 1], list[i]));
                lemma_outranks_chain(x, list[at - 1], list[i]);
            }
        } else if i < at {
            assert(out[j] == list[j - 1]);
            assert(out[i] == list[i]);
        } else if i == at {
            assert(out[j] == list[j - 1]);
            assert(out[i] == x);
            lemma_outranks_asymmetric(x, list[j - 1]);
        } else {
            assert(out[j] == list[j - 1]);
            assert(out[i] == list[i - 1]);
        }
    }
}

/// The ranked order is ranked, and holds as many nodes as the list.
pub proof fn lemma_ranked_is_ranked(list: Seq<DisplayView>)
    ensures
        is_ranked(ranked(list)),
        ranked(list).len() == list.len(),
    decreases list.len(),
{
    if list.len() > 0 {
        lemma_ranked_is_ranked(list.drop_last());
        lemma_placed_is_ranked(ranked(list.drop_last()), list.last());
    }
}

/// The ranked order holds the nodes of the list, each as often as the list
/// does.
pub proof fn lemma_ranked_is_rearranged(list: Seq<DisplayView>)
    ensures
        ranked(list).to_multiset() == list.to_multiset(),
    decreases list.len(),
{
    broadcast use vstd::seq_lib::group_to_multiset_ensures;
    if list.len() > 0 {
        let rest = list.drop_last();
        let x = list.last();
        lemma_ranked_is_rearranged(rest);
        let sorted = ranked(rest);
        let at = lemma_place_exists(sorted, x);
        lemma_placed_at(sorted, x, at);
        assert(sorted =~= sorted.take(at) + sorted.skip(at));
        vstd::seq_lib::lemma_multiset_commutative(sorted.take(at), sorted.skip(at));
        vstd::seq_lib::lemma_multiset_commutative(sorted.take(at).push(x), sorted.skip(at));
        assert(list =~= rest.push(x));
        assert(ranked(list).to_multiset() =~= list.to_multiset());
    } else {
        assert(ranked(list) =~= list);
    }
}

/// What is cut off a ranked list has no part in what leads after one more
/// node is put in.
pub proof fn lemma_placed_capped(list: Seq<DisplayView>, x: DisplayView, cap: nat)
    requires
        is_ranked(list),
    ensures
        capped(placed(list, x), cap) == capped(placed(capped(list, cap), x), cap),
{
    if list.len() > cap {
        let head = list.take(cap as int);
        let at = lemma_place_exists(list, x);
        lemma_placed_at(list, x, at);
        if at <= cap {
            assert(is_place(head, x, at)) by {
                if at > 0 {
                    assert(head[at - 1] == list[at - 1]);
                }
                assert forall|i: int| at <= i < head.len() implies outranks(x, #[trigger] head[i]) by {
                    assert(head[i] == list[i]);
                }
            }
            lemma_placed_at(head, x, at);
            assert(placed(list, x).take(cap as int) =~= placed(head, x).take(cap as int));
        } else {
            assert(is_place(head, x, cap as int)) by {
                if cap > 0 {
                    assert(head[cap - 1] == list[cap - 1]);
                    if cap < at {
                        if cap - 1 < at - 1 {
                            assert(!outranks(list[at - 1], list[cap - 1]));
                            lemma_outranks_chain(x, list[at - 1], list[cap - 1]);
                        }
                    }
                }
            }
            lemma_placed_at(head, x, cap as int);
            assert(placed(list, x).take(cap as int) =~= placed(head, x).take(cap as int));
        }
    }
}

/// The leading nodes of a list are ranked, at most `cap`, and each is one of
/// the list.
pub proof fn lemma_leading_is_bounded_and_ranked(list: Seq<DisplayView>, cap: nat)
    ensures
        leading(list, cap).len() <= cap,
        leading(list, cap).len() <= list.len(),
        is_ranked(leading(list, cap)),
        forall|i: int| 0 <= i < leading(list, cap).len() ==> list.contains(#[trigger] leading(list, cap)[i]),
{
    broadcast use vstd::seq_lib::group_to_multiset_ensures;
    lemma_ranked_is_ranked(list);
    lemma_ranked_is_rearranged(list);
    let all = ranked(list);
    let first = leading(list, cap);
    assert forall|i: int| 0 <= i < first.len() implies list.contains(#[trigger] first[i]) by {
        assert(first[i] == all[i]);
        assert(all.contains(all[i]));
        assert(all.to_multiset().count(all[i]) > 0);
    }
    assert forall|i: int, j: int| 0 <= i < j < first.len() implies !outranks(
        #[trigger] first[j],
        #[trigger] first[i],
    ) by {
        assert(first[i] == all[i] && first[j] == all[j]);
    }
}

/// Every node of the tree shows at most `cap` entries, in ranked order.
pub open spec fn is_bounded_and_ranked(node: DisplayView, cap: nat) -> bool
    decreases node,
{
    &&& node.children.len() <= cap
    &&& is_ranked(node.children)
    &&& forall|i: int|
        0 <= i < node.children.len() ==> is_bounded_and_ranked(#[trigger] node.children[i], cap)
}

/// Whether `a` is shown before `b`.
pub fn shown_before(a: &DisplayNode, b: &DisplayNode) -> (r: bool)
    ensures
        r == outranks(a@, b@),
{
    a.size > b.size || (a.size == b.size && name_precedes(a.name.as_str(), b.name.as_str()))
}

/// Puts `x` in at its place among the leading nodes `list`, and lets go of
/// the last one where the list would then hold more than `cap`.
pub(crate) fn place_capped(list: &mut Vec<DisplayNode>, x: DisplayNode, cap: usize)
    requires
        is_ranked(display_views(old(list)@)),
        old(list).len() <= cap,
    ensures
        display_views(final(list)@) == capped(placed(display_views(old(list)@), x@), cap as nat),
        is_ranked(display_views(final(list)@)),
        final(list).len() <= cap,
{
    let ghost before = display_views(list@);
    proof {
        lemma_display_views(list@);
    }
    let mut at: usize = list.len();
    while at > 0 && shown_before(&x, &list[at - 1])
        invariant
            at <= list.len(),
            *list == *old(list),
            before == display_views(list@),
            before.len() == list.len(),
            forall|i: int| 0 <= i < list.len() ==> (#[trigger] before[i]) == list@[i]@,
            forall|i: int| at <= i < list.len() ==> outranks(x@, #[trigger] before[i]),
        decreases at,
    {
        at -= 1;
    }
    proof {
        assert(is_place(before, x@, at as int));
        lemma_placed_at(before, x@, at as int);
        lemma_placed_is_ranked(before, x@);
    }
    let ghost after = placed(before, x@);
    if at == cap {
        proof {
            assert(after.take(cap as int) =~= before);
        }
        return;
    }
    list.insert(at, x);
    proof {
        assert forall|i: int| 0 <= i < list.len() implies (#[trigger] list@[i])@ == after[i] by {
            if i < at {
                assert(list@[i] == old(list)@[i]);
            } else if i > at {
                assert(list@[i] == old(list)@[i - 1]);
            }
        }
        lemma_display_views_equal(list@, after);
    }
    if list.len() > cap {
        list.pop();
        proof {
            assert forall|i: int| 0 <= i < list.len() implies (#[trigger] list@[i])@ == after.take(
                cap as int,
            )[i] by {}
            lemma_display_views_equal(list@, after.take(cap as int));
        }
    }
}

/// The views of display nodes grow with the list.
pub proof fn lemma_display_views_push(nodes: Seq<DisplayNode>, node: DisplayNode)
    ensures
        display_views(nodes.push(node)) == display_views(nodes).push(node@),
{
    assert(nodes.push(node).drop_last() =~= nodes);
}

impl Clone for DisplayNode {
    /// A copy of the whole tree.
    fn clone(&self) -> (copy: DisplayNode)
        ensures
            copy@ == self@,
        decreases self,
    {
        let mut children: Vec<DisplayNode> = Vec::new();
        let mut i: usize = 0;
        proof {
            lemma_display_views(self.children@);
            assert(display_views(self.children@).take(0) =~= display_views(children@));
        }
        while i < self.children.len()
            invariant
                i <= self.children.len(),
                display_views(self.children@).len() == self.children.len(),
                display_views(children@) == display_views(self.children@).take(i as int),
            decreases self.children.len() - i,
        {
            let child: DisplayNode = self.children[i].clone();
            proof {
                lemma_display_views(self.children@);
                lemma_display_views_push(children@, child);
                assert(display_views(self.children@).take(i + 1) =~= display_views(self.children@).take(
                    i as int,
                ).push(child@));
            }
            children.push(child);
            i += 1;
        }
        proof {
            assert(display_views(self.children@).take(self.children.len() as int) =~= display_views(
                self.children@,
            ));
        }
        DisplayNode { name: self.name.clone(), size: self.size, children }
    }
}

} // verus!
