use vstd::prelude::*;

use crate::node::Node;
use crate::route::{lex_le, lemma_lex_antisymmetric, lemma_lex_cons};

verus! {

/// The pre-order sequence of two runs of siblings is that of the first
/// followed by that of the second.
pub proof fn lemma_preorder_all_concat<U, T>(a: Seq<Node<U, T>>, b: Seq<Node<U, T>>)
    ensures
        Node::preorder_all(a.add(b)) == Node::preorder_all(a).add(Node::preorder_all(b)),
    decreases b.len(),
{
    if b.len() == 0 {
        assert(a.add(b) =~= a);
        assert(Node::preorder_all(a).add(Node::preorder_all(b)) =~= Node::preorder_all(a));
    } else {
        let ab = a.add(b);
        let b1 = b.subrange(0, b.len() - 1);
        assert(ab.subrange(0, ab.len() - 1) =~= a.add(b1));
        assert(ab[ab.len() - 1] == b[b.len() - 1]);
        lemma_preorder_all_concat(a, b1);
        assert(Node::preorder_all(ab) =~= Node::preorder_all(a).add(Node::preorder_all(b)));
    }
}

/// The pre-order sequence of one node alone.
pub proof fn lemma_preorder_all_single<U, T>(n: Node<U, T>)
    ensures
        Node::preorder_all(seq![n]) == n.preorder(),
{
    assert(seq![n].subrange(0, 0) =~= Seq::<Node<U, T>>::empty());
    assert(Node::preorder_all(Seq::<Node<U, T>>::empty()) =~= Seq::<Node<U, T>>::empty());
    assert(Node::preorder_all(seq![n]) =~= n.preorder());
}

/// Taking one more sibling adds its subtree at the end.
pub proof fn lemma_preorder_all_take<U, T>(s: Seq<Node<U, T>>, i: int)
    requires
        0 <= i < s.len(),
    ensures
        Node::preorder_all(s.take(i + 1)) == Node::preorder_all(s.take(i)).add(s[i].preorder()),
{
    assert(s.take(i + 1) =~= s.take(i).add(seq![s[i]]));
    lemma_preorder_all_concat(s.take(i), seq![s[i]]);
    lemma_preorder_all_single(s[i]);
}

/// Splitting the siblings splits their pre-order sequence.
pub proof fn lemma_preorder_all_split<U, T>(s: Seq<Node<U, T>>, i: int)
    requires
        0 <= i <= s.len(),
    ensures
        Node::preorder_all(s) == Node::preorder_all(s.take(i)).add(Node::preorder_all(s.skip(i))),
{
    assert(s =~= s.take(i).add(s.skip(i)));
    lemma_preorder_all_concat(s.take(i), s.skip(i));
}

/// The first match in two sequences one after another.
pub proof fn lemma_first_with_id_concat<U: PartialEq, T>(
    a: Seq<Node<U, T>>,
    b: Seq<Node<U, T>>,
    id: U,
)
    ensures
        Node::first_with_id(a.add(b), id) == (if Node::first_with_id(a, id) is Some {
            Node::first_with_id(a, id)
        } else {
            Node::first_with_id(b, id)
        }),
    decreases a.len(),
{
    if a.len() == 0 {
        assert(a.add(b) =~= b);
    } else {
        assert(a.add(b).drop_first() =~= a.drop_first().add(b));
        lemma_first_with_id_concat(a.drop_first(), b, id);
    }
}

/// A route that starts at child `i` goes on from that child.
pub proof fn lemma_at_cons<U, T>(n: Node<U, T>, i: usize, route: Seq<usize>)
    requires
        i < n.spec_children().len(),
    ensures
        n.at(seq![i].add(route)) == n.spec_children()[i as int].at(route),
{
    assert(seq![i].add(route).drop_first() =~= route);
}

/// The route that leads to a node carrying `id` from one of its ancestors
/// other than itself passes through a child that contains `id`.
pub proof fn lemma_routes_to_child<U: PartialEq, T>(n: Node<U, T>, route: Seq<usize>, id: U)
    requires
        n.routes_to(route, id),
        !n.has_id(id),
    ensures
        route.len() > 0,
        route[0] < n.spec_children().len(),
        n.spec_children()[route[0] as int].routes_to(route.drop_first(), id),
        route == seq![route[0]].add(route.drop_first()),
{
    assert(route == seq![route[0]].add(route.drop_first()));
}

/// A first route is the one that `first_route` picks.
pub proof fn lemma_first_route_unique<U: PartialEq, T>(n: Node<U, T>, route: Seq<usize>, id: U)
    requires
        n.is_first_route(route, id),
    ensures
        n.first_route(id) == Some(route),
{
    let other = choose|r: Seq<usize>| n.is_first_route(r, id);
    assert(lex_le(route, other));
    assert(lex_le(other, route));
    lemma_lex_antisymmetric(route, other);
}

/// A node that carries `id` is found at the empty route.
pub proof fn lemma_first_route_here<U: PartialEq, T>(n: Node<U, T>, id: U)
    requires
        n.has_id(id),
    ensures
        n.is_first_route(Seq::empty(), id),
{
}

/// Where the children before `i` contain no `id` and child `i` does, the
/// first route goes through child `i`.
pub proof fn lemma_first_route_step<U: PartialEq, T>(
    n: Node<U, T>,
    id: U,
    i: usize,
    route: Seq<usize>,
)
    requires
        !n.has_id(id),
        i < n.spec_children().len(),
        forall|j: int| 0 <= j < i ==> !(#[trigger] n.spec_children()[j]).contains_id(id),
        n.spec_children()[i as int].is_first_route(route, id),
    ensures
        n.is_first_route(seq![i].add(route), id),
{
    lemma_at_cons(n, i, route);
    assert forall|other: Seq<usize>| #[trigger] n.routes_to(other, id) implies lex_le(
        seq![i].add(route),
        other,
    ) by {
        lemma_routes_to_child(n, other, id);
        let j = other[0];
        let kid = n.spec_children()[j as int];
        assert(kid.routes_to(other.drop_first(), id));
        if j < i {
            assert(kid.contains_id(id));
        }
        lemma_lex_cons(i, route, j, other.drop_first());
    }
}

/// A node that does not carry `id`, and whose children contain none,
/// contains none.
pub proof fn lemma_no_route<U: PartialEq, T>(n: Node<U, T>, id: U)
    requires
        !n.has_id(id),
        forall|j: int|
            0 <= j < n.spec_children().len() ==> !(#[trigger] n.spec_children()[j]).contains_id(
                id,
            ),
    ensures
        !n.contains_id(id),
{
    if n.contains_id(id) {
        let route = choose|r: Seq<usize>| n.routes_to(r, id);
        lemma_routes_to_child(n, route, id);
        assert(n.spec_children()[route[0] as int].contains_id(id));
    }
}

/// Search by identifier and search by route agree: the route found for `id`
/// leads to the node that the pre-order search finds, and each finds
/// something exactly when the subtree contains `id`.
pub proof fn lemma_lookup_route<U: PartialEq, T>(n: Node<U, T>, id: U)
    ensures
        n.contains_id(id) <==> n.lookup(id) is Some,
        n.first_route(id) is Some <==> n.lookup(id) is Some,
        n.first_route(id) matches Some(r) ==> n.at(r) == n.lookup(id),
    decreases n, 1nat, 0nat,
{
    assert(seq![n][0] == n);
    if n.has_id(id) {
        lemma_first_route_here(n, id);
        lemma_first_route_unique(n, Seq::empty(), id);
    } else {
        assert(seq![n].drop_first() =~= Seq::<Node<U, T>>::empty());
        lemma_first_with_id_concat(seq![n], Node::preorder_all(n.spec_children()), id);
        assert(n.spec_children().take(0) =~= Seq::<Node<U, T>>::empty());
        lemma_lookup_scan(n, id, 0);
    }
}

/// The children of `n` from `i` on decide both searches, those before `i`
/// holding no `id`.
proof fn lemma_lookup_scan<U: PartialEq, T>(n: Node<U, T>, id: U, i: int)
    requires
        !n.has_id(id),
        0 <= i <= n.spec_children().len(),
        forall|j: int| 0 <= j < i ==> !(#[trigger] n.spec_children()[j]).contains_id(id),
        Node::first_with_id(Node::preorder_all(n.spec_children().take(i)), id) is None,
    ensures
        n.contains_id(id) <==> Node::first_with_id(Node::preorder_all(n.spec_children()), id)
            is Some,
        n.first_route(id) is Some <==> Node::first_with_id(
            Node::preorder_all(n.spec_children()),
            id,
        ) is Some,
        n.first_route(id) matches Some(r) ==> n.at(r) == Node::first_with_id(
            Node::preorder_all(n.spec_children()),
            id,
        ),
    decreases n, 0nat, n.spec_children().len() - i,
{
    let kids = n.spec_children();
    if i == kids.len() {
        assert(kids.take(i) =~= kids);
        lemma_no_route(n, id);
    } else {
        let kid = kids[i];
        n.lemma_child_decreases(i);
        n.lemma_children_bounded();
        lemma_lookup_route(kid, id);
        lemma_preorder_all_take(kids, i);
        lemma_first_with_id_concat(Node::preorder_all(kids.take(i)), kid.preorder(), id);
        if kid.contains_id(id) {
            let r = kid.first_route(id)->0;
            lemma_first_route_step(n, id, i as usize, r);
            lemma_first_route_unique(n, seq![i as usize].add(r), id);
            lemma_at_cons(n, i as usize, r);
            lemma_preorder_all_split(kids, i + 1);
            lemma_first_with_id_concat(
                Node::preorder_all(kids.take(i + 1)),
                Node::preorder_all(kids.skip(i + 1)),
                id,
            );
        } else {
            lemma_lookup_scan(n, id, i + 1);
        }
    }
}

/// Taking one more sibling takes the larger of the heights.
pub proof fn lemma_max_height_take<U, T>(s: Seq<Node<U, T>>, i: int)
    requires
        0 <= i < s.len(),
    ensures
        Node::max_height(s.take(i + 1)) == (if s[i].height() > Node::max_height(s.take(i)) {
            s[i].height()
        } else {
            Node::max_height(s.take(i))
        }),
{
    assert(s.take(i + 1).subrange(0, i) =~= s.take(i));
}

/// No node of `s` is higher than the largest height of `s`.
pub proof fn lemma_max_height_bounds<U, T>(s: Seq<Node<U, T>>, i: int)
    requires
        0 <= i < s.len(),
    ensures
        s[i].height() <= Node::max_height(s),
        1 <= Node::max_height(s),
    decreases s.len(),
{
    if i < s.len() - 1 {
        lemma_max_height_bounds(s.subrange(0, s.len() - 1), i);
    }
}

/// The whole of `s` taken is `s`.
pub proof fn lemma_take_all<A>(s: Seq<A>)
    ensures
        s.take(s.len() as int) == s,
{
    assert(s.take(s.len() as int) =~= s);
}

} // verus!
