use vstd::prelude::*;

use crate::lemmas::{lemma_at_cons, lemma_lookup_route, lemma_max_height_bounds};
use crate::node::Node;
use crate::tree::Tree;

verus! {

/// The sum of the node counts of the given subtrees.
pub open spec fn sum_counts<U, T>(s: Seq<Node<U, T>>) -> nat
    decreases s.len(),
{
    if s.len() == 0 {
        0
    } else {
        sum_counts(s.drop_last()) + s.last().preorder().len()
    }
}

proof fn lemma_preorder_all_len<U, T>(s: Seq<Node<U, T>>)
    ensures
        Node::preorder_all(s).len() == sum_counts(s),
    decreases s.len(),
{
    if s.len() > 0 {
        assert(s.drop_last() == s.subrange(0, s.len() - 1));
        lemma_preorder_all_len(s.drop_last());
    }
}

/// A node counts itself and the nodes of each child's subtree, so at least one.
pub proof fn law_count_sums_children<U, T>(n: Node<U, T>)
    ensures
        n.preorder().len() == 1 + sum_counts(n.spec_children()),
        n.preorder().len() >= 1,
{
    lemma_preorder_all_len(n.spec_children());
}

/// Every node has depth at least 1, and a leaf exactly 1.
pub proof fn law_depth_at_least_one<U, T>(n: Node<U, T>)
    ensures
        n.height() >= 1,
        n.spec_children().len() == 0 ==> n.height() == 1,
{
}

/// Where an identifier search finds a node, the route found for the same
/// identifier leads back to that node.
pub proof fn law_route_round_trip<U: PartialEq, T>(n: Node<U, T>, id: U)
    ensures
        n.lookup(id) is Some ==> {
            &&& n.first_route(id) is Some
            &&& n.at(n.first_route(id)->0) == n.lookup(id)
        },
{
    lemma_lookup_route(n, id);
}

/// The same at tree level: following the tree route found for `id` gives
/// the node that the search finds.
pub proof fn law_tree_route_round_trip<U: PartialEq, T>(t: Tree<U, T>, id: U)
    ensures
        t.spec_root().lookup(id) is Some ==> {
            &&& t.tree_route(id) is Some
            &&& t.spec_root().at(t.tree_route(id)->0.drop_first()) == t.spec_root().lookup(id)
        },
{
    lemma_lookup_route(t.spec_root(), id);
    if let Some(route) = t.spec_root().first_route(id) {
        assert(seq![0usize].add(route).drop_first() =~= route);
    }
}

/// Truncating at depth 0 leaves a leaf.
pub proof fn law_truncate_zero_leaves_leaf<U, T>(before: Node<U, T>, after: Node<U, T>)
    requires
        after.truncates(before, 0),
    ensures
        after.spec_children().len() == 0,
{
}

/// Truncating at a depth that the subtree does not pass changes nothing.
pub proof fn law_truncate_deep_keeps_tree<U, T>(before: Node<U, T>, after: Node<U, T>, depth: nat)
    requires
        after.truncates(before, depth),
        before.height() <= depth + 1,
    ensures
        after.same_tree(before),
    decreases depth,
{
    if depth == 0 {
        if before.spec_children().len() > 0 {
            lemma_max_height_bounds(before.spec_children(), 0);
        }
    } else {
        let (a, b) = (after.spec_children(), before.spec_children());
        assert forall|j: int| 0 <= j < a.len() implies (#[trigger] a[j]).same_tree(b[j]) by {
            lemma_max_height_bounds(b, j);
            law_truncate_deep_keeps_tree(b[j], a[j], (depth - 1) as nat);
        }
    }
}

/// After the direct children carrying `id` are removed, a search for `id`
/// finds nothing, where every node carrying `id` was such a child or lay
/// below one (the node itself and the other subtrees held none).
pub proof fn law_removed_child_not_found<U: PartialEq, T>(
    before: Node<U, T>,
    after: Node<U, T>,
    id: U,
)
    requires
        after.spec_id() == before.spec_id(),
        after.spec_children() == before.spec_children().filter(|c: Node<U, T>| !c.has_id(id)),
        forall|route: Seq<usize>|
            #[trigger] before.routes_to(route, id) ==> {
                &&& route.len() > 0
                &&& before.spec_children()[route[0] as int].has_id(id)
            },
    ensures
        after.lookup(id) is None,
{
    broadcast use vstd::seq_lib::group_filter_ensures;

    let keep = |c: Node<U, T>| !c.has_id(id);
    lemma_lookup_route(after, id);
    if after.contains_id(id) {
        let route = choose|r: Seq<usize>| after.routes_to(r, id);
        assert(!before.routes_to(Seq::empty(), id));
        assert(route.len() > 0);
        let i = route[0] as int;
        let kid = after.spec_children()[i];
        assert(before.spec_children().filter(keep).contains(kid));
        before.spec_children().lemma_filter_contains_rev(keep, kid);
        let kids = before.spec_children();
        let k = choose|k: int| 0 <= k < kids.len() && kids[k] == kid;
        before.lemma_children_bounded();
        assert(keep(kid));
        lemma_at_cons(after, route[0], route.drop_first());
        lemma_at_cons(before, k as usize, route.drop_first());
        assert(route =~= seq![route[0]].add(route.drop_first()));
        assert(before.routes_to(seq![k as usize].add(route.drop_first()), id));
    }
}

/// A search for an identifier that no node carries finds nothing.
pub proof fn law_absent_id_not_found<U: PartialEq, T>(n: Node<U, T>, id: U)
    requires
        !n.contains_id(id),
    ensures
        n.lookup(id) is None,
{
    lemma_lookup_route(n, id);
}

} // verus!
