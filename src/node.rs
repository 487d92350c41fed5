use vstd::prelude::*;
use vstd::std_specs::cmp::PartialEqSpec;
use vstd::std_specs::iter::IteratorSpec;

use core::cmp::Ordering;
use core::slice::{Iter, IterMut};

use crate::lemmas::{
    lemma_at_cons, lemma_first_route_here, lemma_first_route_step, lemma_first_route_unique,
    lemma_first_with_id_concat, lemma_lookup_route, lemma_max_height_bounds, lemma_max_height_take,
    lemma_no_route, lemma_preorder_all_split, lemma_preorder_all_take, lemma_take_all,
};
use crate::order::{cmp_le, is_consistent_order, is_sorted_by};
use crate::route::{lex_le, route_view};
use crate::slices::slice_iter_mut;
use crate::seqs::{lemma_select_concat, lemma_unref_all_concat, select, unref, unref_all};

verus! {

/// A node of an ordered tree: an identifier, a value and the owned children.
#[derive(Debug, PartialEq, Eq)]
pub struct Node<U, T> {
    id: U,
    value: T,
    children: Vec<Node<U, T>>,
}

impl<U, T> Node<U, T> {
    /// The identifier of this node.
    pub closed spec fn spec_id(self) -> U {
        self.id
    }

    /// The value held by this node.
    pub closed spec fn spec_value(self) -> T {
        self.value
    }

    /// The direct children of this node, in order.
    pub closed spec fn spec_children(self) -> Seq<Node<U, T>> {
        self.children@
    }

    /// Every node of this subtree, visited in pre-order: the node itself,
    /// then the subtree of each child from the first to the last.
    pub open spec fn preorder(self) -> Seq<Node<U, T>>
        decreases self, 1nat,
    {
        seq![self].add(Self::preorder_all(self.spec_children()))
    }

    /// The pre-order sequences of the given sibling subtrees, one after another.
    pub open spec fn preorder_all(s: Seq<Node<U, T>>) -> Seq<Node<U, T>>
        decreases s, 0nat,
    {
        if s.len() == 0 {
            Seq::empty()
        } else {
            Self::preorder_all(s.subrange(0, s.len() - 1)).add(s[s.len() - 1].preorder())
        }
    }

    /// The number of levels of this subtree: 1 for a leaf, else one more
    /// than the deepest child.
    pub open spec fn height(self) -> nat
        decreases self, 1nat,
    {
        1 + Self::max_height(self.spec_children())
    }

    /// The largest height among the given nodes, 0 for none.
    pub open spec fn max_height(s: Seq<Node<U, T>>) -> nat
        decreases s, 0nat,
    {
        if s.len() == 0 {
            0
        } else {
            let h = s[s.len() - 1].height();
            let m = Self::max_height(s.subrange(0, s.len() - 1));
            if h > m { h } else { m }
        }
    }

    /// The node reached from this one by following `route`, each entry
    /// choosing a child by its index; none where an index is out of range.
    pub open spec fn at(self, route: Seq<usize>) -> Option<Node<U, T>>
        decreases route.len(),
    {
        if route.len() == 0 {
            Some(self)
        } else if route[0] < self.spec_children().len() {
            self.spec_children()[route[0] as int].at(route.drop_first())
        } else {
            None
        }
    }

    /// Whether `self` and `other` hold the same identifiers and values in the
    /// same shape.
    pub open spec fn same_tree(self, other: Node<U, T>) -> bool
        decreases self,
    {
        &&& self.spec_id() == other.spec_id()
        &&& self.spec_value() == other.spec_value()
        &&& self.spec_children().len() == other.spec_children().len()
        &&& forall|j: int|
            0 <= j < self.spec_children().len() ==> (#[trigger] self.spec_children()[j]).same_tree(
                other.spec_children()[j],
            )
    }

    /// Whether `self` is `before` cut `depth` levels below its top: the same
    /// node, with no children at depth 0, else with each child cut one level
    /// less.
    pub open spec fn truncates(self, before: Node<U, T>, depth: nat) -> bool
        decreases depth,
    {
        &&& self.spec_id() == before.spec_id()
        &&& self.spec_value() == before.spec_value()
        &&& depth == 0 ==> self.spec_children().len() == 0
        &&& depth > 0 ==> self.spec_children().len() == before.spec_children().len()
        &&& depth > 0 ==> forall|j: int|
            0 <= j < self.spec_children().len() ==> (#[trigger] self.spec_children()[j]).truncates(
                before.spec_children()[j],
                (depth - 1) as nat,
            )
    }

    /// A child comes before its parent in the order that recursion on trees goes by.
    pub(crate) proof fn lemma_child_decreases(self, i: int)
        requires
            0 <= i < self.spec_children().len(),
        ensures
            decreases_to!(self => self.spec_children()[i]),
    {
        assert(decreases_to!(self => self.children));
        assert(decreases_to!(self.children => self.children@));
        assert(decreases_to!(self.children@ => self.children@[i]));
    }

    /// A node has at most `usize::MAX` children.
    pub(crate) proof fn lemma_children_bounded(self)
        ensures
            self.spec_children().len() <= usize::MAX,
    {
        vstd::std_specs::vec::axiom_spec_len(&self.children);
    }

    /// Creates a leaf.
    pub fn new(id: U, value: T) -> (r: Self)
        ensures
            r.spec_id() == id,
            r.spec_value() == value,
            r.spec_children() == Seq::<Node<U, T>>::empty(),
    {
        Node { id, value, children: Vec::new() }
    }

    /// Replaces the children of this node by `children`.
    pub fn with_children(self, children: Vec<Node<U, T>>) -> (r: Self)
        ensures
            r.spec_id() == self.spec_id(),
            r.spec_value() == self.spec_value(),
            r.spec_children() == children@,
    {
        let mut node = self;
        node.children = children;
        node
    }

    /// Appends `child` after the existing children.
    pub fn with_child(self, child: Node<U, T>) -> (r: Self)
        ensures
            r.spec_id() == self.spec_id(),
            r.spec_value() == self.spec_value(),
            r.spec_children() == self.spec_children().push(child),
    {
        let mut node = self;
        node.add_child(child);
        node
    }

    /// The identifier of this node.
    pub fn id(&self) -> (r: &U)
        ensures
            *r == self.spec_id(),
    {
        &self.id
    }

    /// The value of this node.
    pub fn value(&self) -> (r: &T)
        ensures
            *r == self.spec_value(),
    {
        &self.value
    }

    /// Replaces the value of this node.
    pub fn set_value(&mut self, value: T)
        ensures
            final(self).spec_id() == old(self).spec_id(),
            final(self).spec_value() == value,
            final(self).spec_children() == old(self).spec_children(),
    {
        self.value = value;
    }

    /// An iterator over the children, in order.
    pub fn iter(&self) -> (r: Iter<'_, Node<U, T>>)
        ensures
            r.remaining().unref() == self.spec_children(),
    {
        broadcast use vstd::std_specs::slice::axiom_spec_slice_iter;

        let r = self.children.as_slice().iter();
        assert(r.remaining().unref() =~= self.spec_children());
        r
    }

    /// An iterator that hands out each child for changing in place; the
    /// identifier, the value and the number of children stay.
    pub fn iter_mut(&mut self) -> (r: IterMut<'_, Node<U, T>>)
        ensures
            final(self).spec_id() == old(self).spec_id(),
            final(self).spec_value() == old(self).spec_value(),
            final(self).spec_children().len() == old(self).spec_children().len(),
    {
        slice_iter_mut(self.children.as_mut_slice())
    }

    /// The children of this node, in order.
    pub fn children(&self) -> (r: &[Node<U, T>])
        ensures
            r@ == self.spec_children(),
    {
        self.children.as_slice()
    }

    /// Whether this node has no children.
    pub fn is_leaf(&self) -> (r: bool)
        ensures
            r <==> self.spec_children().len() == 0,
    {
        self.children.is_empty()
    }

    /// Appends `child` after the existing children.
    pub fn add_child(&mut self, child: Node<U, T>)
        ensures
            final(self).spec_id() == old(self).spec_id(),
            final(self).spec_value() == old(self).spec_value(),
            final(self).spec_children() == old(self).spec_children().push(child),
    {
        self.children.push(child);
    }

    /// Whether `keep` holds, for each node of this subtree in pre-order, an
    /// answer that `predicate` may give on it.
    pub open spec fn answers<P: Fn(&Node<U, T>) -> bool>(
        self,
        predicate: P,
        keep: Seq<bool>,
    ) -> bool {
        &&& keep.len() == self.preorder().len()
        &&& forall|k: int|
            0 <= k < keep.len() ==> predicate.ensures((&self.preorder()[k],), #[trigger] keep[k])
    }

    /// Every node of this subtree on which `predicate` holds, in pre-order.
    pub fn find<P: Fn(&Node<U, T>) -> bool>(&self, predicate: &P) -> (r: Vec<&Node<U, T>>)
        requires
            forall|n: &Node<U, T>| predicate.requires((n,)),
        ensures
            exists|keep: Seq<bool>|
                self.answers(*predicate, keep) && unref_all(r@) == select(self.preorder(), keep),
        decreases self,
    {
        let ghost kids = self.spec_children();
        let mut result: Vec<&Node<U, T>> = Vec::new();
        let hit = predicate(self);
        if hit {
            result.push(self);
        }
        let ghost mut keep: Seq<bool> = seq![hit];
        let ghost mut seen: Seq<Node<U, T>> = seq![*self];
        proof {
            assert(kids.take(0) =~= Seq::<Node<U, T>>::empty());
            assert(seen =~= seq![*self].add(Node::preorder_all(kids.take(0))));
            assert(seen.drop_first() =~= Seq::<Node<U, T>>::empty());
            assert(select(seen.drop_first(), keep.drop_first()) =~= Seq::<Node<U, T>>::empty());
            assert(unref_all(result@) =~= select(seen, keep));
        }
        let mut i: usize = 0;
        while i < self.children.len()
            invariant
                forall|n: &Node<U, T>| predicate.requires((n,)),
                kids == self.spec_children(),
                i <= kids.len(),
                seen == seq![*self].add(Node::preorder_all(kids.take(i as int))),
                keep.len() == seen.len(),
                forall|k: int|
                    0 <= k < keep.len() ==> predicate.ensures((&seen[k],), #[trigger] keep[k]),
                unref_all(result@) == select(seen, keep),
            decreases kids.len() - i,
        {
            proof {
                self.lemma_child_decreases(i as int);
                lemma_preorder_all_take(kids, i as int);
            }
            let mut found = self.children[i].find(predicate);
            let ghost kid = kids[i as int];
            let ghost kid_keep = choose|kk: Seq<bool>|
                kid.answers(*predicate, kk) && unref_all(found@) == select(kid.preorder(), kk);
            proof {
                lemma_select_concat(seen, keep, kid.preorder(), kid_keep);
                lemma_unref_all_concat(result@, found@);
                assert(seen.add(kid.preorder()) =~= seq![*self].add(
                    Node::preorder_all(kids.take(i + 1)),
                ));
            }
            result.append(&mut found);
            proof {
                let next = seen.add(kid.preorder());
                let next_keep = keep.add(kid_keep);
                assert forall|k: int| 0 <= k < next_keep.len() implies predicate.ensures(
                    (&next[k],),
                    #[trigger] next_keep[k],
                ) by {
                    if k >= seen.len() {
                        assert(next[k] == kid.preorder()[k - seen.len()]);
                        assert(next_keep[k] == kid_keep[k - seen.len()]);
                    } else {
                        assert(next[k] == seen[k]);
                        assert(next_keep[k] == keep[k]);
                    }
                }
                seen = next;
                keep = next_keep;
            }
            i = i + 1;
        }
        proof {
            lemma_take_all(kids);
            assert(seen == self.preorder());
            assert(self.answers(*predicate, keep));
        }
        result
    }

    /// The number of nodes of this subtree, itself included.
    pub fn count(&self) -> (r: usize)
        requires
            self.preorder().len() <= usize::MAX,
        ensures
            r == self.preorder().len(),
        decreases self,
    {
        let ghost kids = self.spec_children();
        assert(kids.take(0) =~= Seq::<Node<U, T>>::empty());
        let mut total: usize = 1;
        let mut i: usize = 0;
        while i < self.children.len()
            invariant
                kids == self.spec_children(),
                self.preorder().len() <= usize::MAX,
                i <= kids.len(),
                total == 1 + Node::preorder_all(kids.take(i as int)).len(),
            decreases kids.len() - i,
        {
            proof {
                self.lemma_child_decreases(i as int);
                lemma_preorder_all_take(kids, i as int);
                lemma_preorder_all_split(kids, i + 1);
            }
            let c = self.children[i].count();
            total = total + c;
            i = i + 1;
        }
        proof {
            lemma_take_all(kids);
        }
        total
    }

    /// The number of levels of this subtree, 1 for a leaf.
    pub fn depth(&self) -> (r: usize)
        requires
            self.height() <= usize::MAX,
        ensures
            r == self.height(),
        decreases self,
    {
        let ghost kids = self.spec_children();
        assert(kids.take(0) =~= Seq::<Node<U, T>>::empty());
        let mut deepest: usize = 0;
        let mut i: usize = 0;
        while i < self.children.len()
            invariant
                kids == self.spec_children(),
                self.height() <= usize::MAX,
                i <= kids.len(),
                deepest == Node::max_height(kids.take(i as int)),
            decreases kids.len() - i,
        {
            proof {
                self.lemma_child_decreases(i as int);
                lemma_max_height_take(kids, i as int);
                lemma_max_height_bounds(kids, i as int);
            }
            let d = self.children[i].depth();
            if d > deepest {
                deepest = d;
            }
            i = i + 1;
        }
        proof {
            lemma_take_all(kids);
        }
        deepest + 1
    }

    /// Removes every child, and with it its subtree.
    pub fn clear(&mut self)
        ensures
            final(self).spec_id() == old(self).spec_id(),
            final(self).spec_value() == old(self).spec_value(),
            final(self).spec_children() == Seq::<Node<U, T>>::empty(),
    {
        self.children.clear();
    }

    /// Keeps `depth` levels below this node: at 0 the children go, else
    /// each child keeps one level less.
    pub fn truncate(&mut self, depth: usize)
        ensures
            final(self).truncates(*old(self), depth as nat),
        decreases depth,
    {
        if depth == 0 {
            self.children.clear();
            return;
        }
        let ghost before = *self;
        let mut i: usize = 0;
        while i < self.children.len()
            invariant
                depth > 0,
                self.spec_id() == before.spec_id(),
                self.spec_value() == before.spec_value(),
                self.spec_children().len() == before.spec_children().len(),
                i <= self.spec_children().len(),
                forall|j: int|
                    0 <= j < i ==> (#[trigger] self.spec_children()[j]).truncates(
                        before.spec_children()[j],
                        (depth - 1) as nat,
                    ),
                forall|j: int|
                    i <= j < self.spec_children().len() ==> #[trigger] self.spec_children()[j]
                        == before.spec_children()[j],
            decreases self.spec_children().len() - i,
        {
            self.children[i].truncate(depth - 1);
            i = i + 1;
        }
    }

    /// Orders the children by `compare`, deeper levels left as they are.
    /// Where `compare` is not a consistent total order the children are
    /// still kept, in an order left open.
    pub fn sort<F: FnMut(&Node<U, T>, &Node<U, T>) -> Ordering>(&mut self, compare: F)
        requires
            forall|a: &Node<U, T>, b: &Node<U, T>| compare.requires((a, b)),
        ensures
            final(self).spec_id() == old(self).spec_id(),
            final(self).spec_value() == old(self).spec_value(),
            final(self).spec_children().to_multiset() == old(self).spec_children().to_multiset(),
            is_consistent_order(compare) ==> is_sorted_by(compare, final(self).spec_children()),
    {
        broadcast use vstd::seq_lib::group_to_multiset_ensures;

        if self.children.len() < 2 {
            return;
        }
        let mut cmp = compare;
        let mut k: usize = 1;
        while k < self.children.len()
            invariant
                cmp == compare,
                forall|a: &Node<U, T>, b: &Node<U, T>| compare.requires((a, b)),
                self.spec_id() == old(self).spec_id(),
                self.spec_value() == old(self).spec_value(),
                self.spec_children().to_multiset() == old(self).spec_children().to_multiset(),
                1 <= k <= self.spec_children().len(),
                is_consistent_order(compare) ==> is_sorted_by(
                    compare,
                    self.spec_children().take(k as int),
                ),
            decreases self.spec_children().len() - k,
        {
            let ghost start = self.spec_children();
            let x = self.children.remove(k);
            let ghost rest = self.spec_children();
            let mut p: usize = k;
            while p > 0
                invariant
                    cmp == compare,
                    forall|a: &Node<U, T>, b: &Node<U, T>| compare.requires((a, b)),
                    self.spec_children() == rest,
                    rest == start.remove(k as int),
                    x == start[k as int],
                    k < start.len(),
                    p <= k,
                    is_consistent_order(compare) ==> forall|q: int|
                        p <= q < k ==> #[trigger] cmp_le(compare, x, rest[q]),
                ensures
                    p <= k,
                    is_consistent_order(compare) ==> forall|q: int|
                        p <= q < k ==> #[trigger] cmp_le(compare, x, rest[q]),
                    is_consistent_order(compare) && p > 0 ==> cmp_le(compare, rest[p - 1], x),
                decreases p,
            {
                let o = cmp(&self.children[p - 1], &x);
                match o {
                    Ordering::Greater => {
                        p = p - 1;
                    },
                    _ => {
                        break;
                    },
                }
            }
            self.children.insert(p, x);
            proof {
                let w = self.spec_children();
                assert(w.remove(p as int) =~= rest);
                assert(w[p as int] == x);
                assert(w.contains(x));
                assert(start[k as int] == x);
                assert(start.contains(x));
                w.to_multiset_ensures();
                start.to_multiset_ensures();
                assert(w.remove(p as int).to_multiset() == w.to_multiset().remove(x));
                assert(start.remove(k as int).to_multiset() == start.to_multiset().remove(x));
                let (mw, ms) = (w.to_multiset(), start.to_multiset());
                assert forall|y: Node<U, T>| mw.count(y) == ms.count(y) by {
                    assert(mw.remove(x).count(y) == ms.remove(x).count(y));
                }
                assert(w.to_multiset() =~= start.to_multiset());
                if is_consistent_order(compare) {
                    let sorted = start.take(k as int);
                    assert forall|a: int, b: int| 0 <= a < b < k + 1 implies #[trigger] cmp_le(
                        compare,
                        w.take(k + 1)[a],
                        w.take(k + 1)[b],
                    ) by {
                        if b < p {
                            assert(cmp_le(compare, sorted[a], sorted[b]));
                        } else if b == p {
                            if a < p - 1 {
                                assert(cmp_le(compare, sorted[a], sorted[p - 1]));
                            }
                        } else if a < p {
                            assert(cmp_le(compare, sorted[a], sorted[b - 1]));
                        } else if a == p {
                        } else {
                            assert(cmp_le(compare, sorted[a - 1], sorted[b - 1]));
                        }
                    }
                }
            }
            k = k + 1;
        }
        proof {
            lemma_take_all(self.spec_children());
        }
    }

    /// The node reached by following `route` from this one.
    pub fn node_by_route(&self, route: &[usize]) -> (r: Option<&Node<U, T>>)
        ensures
            unref(r) == self.at(route@),
    {
        let mut cur: &Node<U, T> = self;
        let mut k: usize = 0;
        assert(route@.skip(0) =~= route@);
        while k < route.len()
            invariant
                k <= route@.len(),
                self.at(route@) == cur.at(route@.skip(k as int)),
            decreases route@.len() - k,
        {
            let i = route[k];
            assert(route@.skip(k as int).drop_first() =~= route@.skip(k + 1));
            if i < cur.children.len() {
                cur = &cur.children[i];
            } else {
                return None;
            }
            k = k + 1;
        }
        Some(cur)
    }
}

impl<U: PartialEq, T> Node<U, T> {
    /// Whether this node carries identifier `id`.
    pub open spec fn has_id(self, id: U) -> bool {
        self.spec_id().eq_spec(&id)
    }

    /// The first node of `s` that carries `id`.
    pub open spec fn first_with_id(s: Seq<Node<U, T>>, id: U) -> Option<Node<U, T>>
        decreases s.len(),
    {
        if s.len() == 0 {
            None
        } else if s[0].has_id(id) {
            Some(s[0])
        } else {
            Self::first_with_id(s.drop_first(), id)
        }
    }

    /// The node that an identifier search from this node finds: the first
    /// node carrying `id` in pre-order.
    pub open spec fn lookup(self, id: U) -> Option<Node<U, T>> {
        Self::first_with_id(self.preorder(), id)
    }

    /// Whether `route` leads from this node to a node carrying `id`.
    pub open spec fn routes_to(self, route: Seq<usize>, id: U) -> bool {
        self.at(route) matches Some(n) && n.has_id(id)
    }

    /// Whether some node of this subtree carries `id`.
    pub open spec fn contains_id(self, id: U) -> bool {
        exists|route: Seq<usize>| self.routes_to(route, id)
    }

    /// Whether `route` leads to a node carrying `id` and comes before every
    /// other such route.
    pub open spec fn is_first_route(self, route: Seq<usize>, id: U) -> bool {
        &&& self.routes_to(route, id)
        &&& forall|other: Seq<usize>| #[trigger] self.routes_to(other, id) ==> lex_le(route, other)
    }

    /// Whether `self` is `before` with the node at `route` replaced by `sub`.
    pub open spec fn replaces_at(
        self,
        before: Node<U, T>,
        route: Seq<usize>,
        sub: Node<U, T>,
    ) -> bool
        decreases route.len(),
    {
        if route.len() == 0 {
            self == sub
        } else {
            let i = route[0] as int;
            &&& i < before.spec_children().len()
            &&& self.spec_id() == before.spec_id()
            &&& self.spec_value() == before.spec_value()
            &&& self.spec_children().len() == before.spec_children().len()
            &&& forall|j: int|
                0 <= j < self.spec_children().len() && j != i ==> self.spec_children()[j]
                    == before.spec_children()[j]
            &&& self.spec_children()[i].replaces_at(
                before.spec_children()[i],
                route.drop_first(),
                sub,
            )
        }
    }

    /// The parent, within this subtree, of the first node carrying `id` in
    /// pre-order; none where that node is this one or there is none.
    pub open spec fn parent_of(self, id: U) -> Option<Node<U, T>> {
        match self.first_route(id) {
            Some(route) => if route.len() > 0 {
                self.at(route.drop_last())
            } else {
                None
            },
            None => None,
        }
    }

    /// The identifiers of the children of `parent_of(id)` that do not carry
    /// `id`, in their order.
    pub open spec fn sibling_ids(self, id: U) -> Option<Seq<U>> {
        match self.parent_of(id) {
            Some(p) => Some(p.spec_children().filter(|c: Node<U, T>| !c.has_id(id)).map_values(
                |c: Node<U, T>| c.spec_id(),
            )),
            None => None,
        }
    }

    /// The route from this node to the first node carrying `id` in pre-order.
    pub open spec fn first_route(self, id: U) -> Option<Seq<usize>> {
        if exists|route: Seq<usize>| self.is_first_route(route, id) {
            Some(choose|route: Seq<usize>| self.is_first_route(route, id))
        } else {
            None
        }
    }
}

impl<U: Clone, T: Clone> Clone for Node<U, T> {
    /// A copy of the whole subtree.
    fn clone(&self) -> (r: Self)
        ensures
            cloned(self.spec_id(), r.spec_id()),
            cloned(self.spec_value(), r.spec_value()),
            r.spec_children().len() == self.spec_children().len(),
        decreases self,
    {
        let ghost kids = self.spec_children();
        let mut children: Vec<Node<U, T>> = Vec::new();
        let mut i: usize = 0;
        while i < self.children.len()
            invariant
                kids == self.spec_children(),
                i <= kids.len(),
                children@.len() == i,
            decreases kids.len() - i,
        {
            proof {
                self.lemma_child_decreases(i as int);
            }
            children.push(self.children[i].clone());
            i = i + 1;
        }
        Node { id: self.id.clone(), value: self.value.clone(), children }
    }
}

impl<U: PartialEq, T> Node<U, T> {
    /// Searches this subtree in pre-order for the first node carrying `id`.
    ///
    /// What the search finds is stated for identifier types whose `==`
    /// Verus knows (`obeys_eq_spec`); the same holds of this and of the other
    /// searches by identifier below.
    pub fn query(&self, id: &U) -> (r: Option<&Node<U, T>>)
        ensures
            U::obeys_eq_spec() ==> unref(r) == self.lookup(*id),
        decreases self,
    {
        let ghost kids = self.spec_children();
        assert(self.preorder()[0] == *self);
        if self.id.eq(id) {
            return Some(self);
        }
        proof {
            assert(seq![*self].drop_first() =~= Seq::<Node<U, T>>::empty());
            lemma_first_with_id_concat(seq![*self], Node::preorder_all(kids), *id);
            assert(kids.take(0) =~= Seq::<Node<U, T>>::empty());
        }
        let mut i: usize = 0;
        while i < self.children.len()
            invariant
                kids == self.spec_children(),
                i <= kids.len(),
                U::obeys_eq_spec() ==> self.lookup(*id) == Node::first_with_id(
                    Node::preorder_all(kids),
                    *id,
                ),
                U::obeys_eq_spec() ==> Node::first_with_id(
                    Node::preorder_all(kids.take(i as int)),
                    *id,
                ) is None,
            decreases kids.len() - i,
        {
            proof {
                self.lemma_child_decreases(i as int);
            }
            let found = self.children[i].query(id);
            proof {
                lemma_preorder_all_take(kids, i as int);
                lemma_first_with_id_concat(
                    Node::preorder_all(kids.take(i as int)),
                    kids[i as int].preorder(),
                    *id,
                );
            }
            if found.is_some() {
                proof {
                    lemma_preorder_all_split(kids, i + 1);
                    lemma_first_with_id_concat(
                        Node::preorder_all(kids.take(i + 1)),
                        Node::preorder_all(kids.skip(i + 1)),
                        *id,
                    );
                }
                return found;
            }
            i = i + 1;
        }
        assert(kids.take(i as int) =~= kids);
        None
    }

    /// The route from this node to the first node carrying `id` in
    /// pre-order; empty where this node carries it.
    pub fn route_by_node(&self, id: &U) -> (r: Option<Vec<usize>>)
        ensures
            U::obeys_eq_spec() ==> route_view(r) == self.first_route(*id),
            U::obeys_eq_spec() ==> (r is Some <==> self.contains_id(*id)),
        decreases self,
    {
        let ghost kids = self.spec_children();
        if self.id.eq(id) {
            proof {
                if U::obeys_eq_spec() {
                    lemma_first_route_here(*self, *id);
                    lemma_first_route_unique(*self, Seq::empty(), *id);
                }
            }
            let r: Vec<usize> = Vec::new();
            assert(r@ =~= Seq::<usize>::empty());
            return Some(r);
        }
        let mut i: usize = 0;
        while i < self.children.len()
            invariant
                kids == self.spec_children(),
                i <= kids.len(),
                U::obeys_eq_spec() ==> !self.has_id(*id),
                U::obeys_eq_spec() ==> forall|j: int|
                    0 <= j < i ==> !(#[trigger] kids[j]).contains_id(*id),
            decreases kids.len() - i,
        {
            proof {
                self.lemma_child_decreases(i as int);
            }
            match self.children[i].route_by_node(id) {
                Some(mut route) => {
                    let ghost tail = route@;
                    route.insert(0, i);
                    proof {
                        assert(route@ =~= seq![i].add(tail));
                        if U::obeys_eq_spec() {
                            lemma_first_route_step(*self, *id, i, tail);
                            lemma_first_route_unique(*self, route@, *id);
                        }
                    }
                    return Some(route);
                },
                None => {},
            }
            i = i + 1;
        }
        proof {
            if U::obeys_eq_spec() {
                lemma_no_route(*self, *id);
            }
        }
        None
    }

    /// The parent of the first node carrying `id`, searched in pre-order.
    pub fn parent(&self, id: &U) -> (r: Option<&Node<U, T>>)
        ensures
            U::obeys_eq_spec() ==> unref(r) == self.parent_of(*id),
    {
        match self.route_by_node(id) {
            None => None,
            Some(mut route) => {
                if route.len() == 0 {
                    None
                } else {
                    route.pop();
                    self.node_by_route(route.as_slice())
                }
            },
        }
    }

    /// The identifiers of the siblings of the first node carrying `id`: the
    /// other children of its parent, in order.
    pub fn siblings(&self, id: &U) -> (r: Option<Vec<&U>>)
        ensures
            U::obeys_eq_spec() ==> (match r {
                Some(v) => self.sibling_ids(*id) == Some(unref_all(v@)),
                None => self.sibling_ids(*id) is None,
            }),
    {
        match self.parent(id) {
            None => None,
            Some(p) => {
                let ghost keep = |c: Node<U, T>| !c.has_id(*id);
                let ghost name = |c: Node<U, T>| c.spec_id();
                let ghost kids = p.spec_children();
                let mut ids: Vec<&U> = Vec::new();
                let mut i: usize = 0;
                proof {
                    reveal(Seq::filter);
                    assert(kids.take(0) =~= Seq::<Node<U, T>>::empty());
                    assert(unref_all(ids@) =~= kids.take(0).filter(keep).map_values(name));
                }
                while i < p.children.len()
                    invariant
                        keep == (|c: Node<U, T>| !c.has_id(*id)),
                        name == (|c: Node<U, T>| c.spec_id()),
                        kids == p.spec_children(),
                        i <= kids.len(),
                        U::obeys_eq_spec() ==> unref_all(ids@) == kids.take(i as int).filter(
                            keep,
                        ).map_values(name),
                    decreases kids.len() - i,
                {
                    let c = &p.children[i];
                    proof {
                        reveal(Seq::filter);
                        let next = kids.take(i + 1);
                        assert(next.drop_last() =~= kids.take(i as int));
                        assert(next.last() == *c);
                        assert(next.filter(keep) == if keep(*c) {
                            kids.take(i as int).filter(keep).push(*c)
                        } else {
                            kids.take(i as int).filter(keep)
                        });
                    }
                    let ghost prev = ids@;
                    if !c.id.eq(id) {
                        ids.push(&c.id);
                        proof {
                            let f = kids.take(i as int).filter(keep);
                            assert(unref_all(ids@) =~= unref_all(prev).push(c.id));
                            assert(f.push(*c).map_values(name) =~= f.map_values(name).push(c.id));
                        }
                    }
                    i = i + 1;
                }
                proof {
                    lemma_take_all(kids);
                }
                Some(ids)
            },
        }
    }

    /// Removes every direct child that carries `id`, keeping the order of
    /// the others; deeper nodes are not searched.
    pub fn remove_child(&mut self, id: &U)
        ensures
            final(self).spec_id() == old(self).spec_id(),
            final(self).spec_value() == old(self).spec_value(),
            U::obeys_eq_spec() ==> final(self).spec_children() == old(self).spec_children().filter(
                |c: Node<U, T>| !c.has_id(*id),
            ),
    {
        let ghost keep = |c: Node<U, T>| !c.has_id(*id);
        let ghost before = self.spec_children();
        let ghost mut k: int = 0;
        let mut i: usize = 0;
        proof {
            reveal(Seq::filter);
            assert(self.spec_children().take(0) =~= before.take(0).filter(keep));
            assert(self.spec_children().skip(0) =~= before.skip(0));
        }
        while i < self.children.len()
            invariant
                keep == (|c: Node<U, T>| !c.has_id(*id)),
                self.spec_id() == old(self).spec_id(),
                self.spec_value() == old(self).spec_value(),
                before == old(self).spec_children(),
                0 <= k <= before.len(),
                i <= self.spec_children().len(),
                self.spec_children().len() - i == before.len() - k,
                U::obeys_eq_spec() ==> self.spec_children().take(i as int) == before.take(k).filter(
                    keep,
                ),
                self.spec_children().skip(i as int) == before.skip(k),
            decreases before.len() - k,
        {
            proof {
                reveal(Seq::filter);
                assert(before.take(k + 1).drop_last() =~= before.take(k));
                assert(self.spec_children()[i as int] == before.skip(k)[0]);
            }
            if self.children[i].id.eq(id) {
                let ghost prev = self.spec_children();
                self.children.remove(i);
                proof {
                    let now = self.spec_children();
                    assert(now.take(i as int) =~= prev.take(i as int));
                    assert(now.skip(i as int) =~= prev.skip(i as int).drop_first());
                    assert(before.skip(k + 1) =~= before.skip(k).drop_first());
                }
            } else {
                proof {
                    let now = self.spec_children();
                    assert(now.take(i + 1) =~= now.take(i as int).push(now[i as int]));
                    assert(now.skip(i + 1) =~= now.skip(i as int).drop_first());
                    assert(before.skip(k + 1) =~= before.skip(k).drop_first());
                }
                i = i + 1;
            }
            proof {
                k = k + 1;
            }
        }
        proof {
            assert(before.skip(k).len() == 0);
            lemma_take_all(before);
            lemma_take_all(self.spec_children());
        }
    }

    /// Searches this subtree in pre-order for the first node carrying `id`,
    /// for changing it in place. Where nothing is found nothing changes.
    pub fn query_mut(&mut self, id: &U) -> (r: Option<&mut Node<U, T>>)
        ensures
            U::obeys_eq_spec() ==> (r is Some <==> old(self).lookup(*id) is Some),
            U::obeys_eq_spec() ==> (r matches Some(m) ==> Some(*m) == old(self).lookup(*id)),
            U::obeys_eq_spec() ==> (r matches Some(m) ==> final(self).replaces_at(
                *old(self),
                old(self).first_route(*id)->0,
                *final(m),
            )),
            U::obeys_eq_spec() ==> (r is None ==> *final(self) == *old(self)),
        decreases *old(self),
    {
        let ghost before = *self;
        let ghost kids = self.spec_children();
        proof {
            lemma_lookup_route(before, *id);
        }
        if self.id.eq(id) {
            proof {
                if U::obeys_eq_spec() {
                    lemma_first_route_here(before, *id);
                    lemma_first_route_unique(before, Seq::empty(), *id);
                }
            }
            return Some(self);
        }
        let mut i: usize = 0;
        while i < self.children.len()
            invariant
                *self == before,
                kids == self.spec_children(),
                i <= kids.len(),
                U::obeys_eq_spec() ==> !self.has_id(*id),
                U::obeys_eq_spec() ==> forall|j: int|
                    0 <= j < i ==> !(#[trigger] kids[j]).contains_id(*id),
            ensures
                *self == before,
                i <= kids.len(),
                U::obeys_eq_spec() ==> forall|j: int|
                    0 <= j < i ==> !(#[trigger] kids[j]).contains_id(*id),
                U::obeys_eq_spec() ==> (i < kids.len() ==> kids[i as int].contains_id(*id)),
            decreases kids.len() - i,
        {
            let found = self.children[i].query(id).is_some();
            proof {
                lemma_lookup_route(kids[i as int], *id);
            }
            if found {
                break;
            }
            i = i + 1;
        }
        if i == self.children.len() {
            proof {
                if U::obeys_eq_spec() {
                    lemma_no_route(before, *id);
                }
            }
            return None;
        }
        let ghost kid = kids[i as int];
        let ghost route = kid.first_route(*id)->0;
        proof {
            before.lemma_child_decreases(i as int);
            lemma_lookup_route(kid, *id);
            if U::obeys_eq_spec() {
                lemma_first_route_step(before, *id, i, route);
                lemma_first_route_unique(before, seq![i].add(route), *id);
            }
            lemma_at_cons(before, i, route);
            assert(seq![i].add(route).drop_first() =~= route);
        }
        self.children[i].query_mut(id)
    }
}

} // verus!
