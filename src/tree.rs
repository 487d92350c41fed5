use vstd::prelude::*;
use vstd::std_specs::cmp::PartialEqSpec;

use crate::node::Node;
use crate::route::route_view;
use crate::seqs::{unref, unref_all};

verus! {

/// A tree: one root node, which owns the rest.
///
/// Routes at this level start with one more entry than those of the root,
/// standing for the root itself; it is written `0`.
#[derive(Debug, PartialEq, Eq)]
pub struct Tree<U, T> {
    root: Node<U, T>,
}

impl<U, T> Tree<U, T> {
    /// The root node.
    pub closed spec fn spec_root(self) -> Node<U, T> {
        self.root
    }

    /// Creates a tree with `root` as its root.
    pub fn new(root: Node<U, T>) -> (r: Self)
        ensures
            r.spec_root() == root,
    {
        Tree { root }
    }

    /// The root node.
    pub fn root(&self) -> (r: &Node<U, T>)
        ensures
            *r == self.spec_root(),
    {
        &self.root
    }

    /// The root node, for changing in place.
    pub fn root_mut(&mut self) -> (r: &mut Node<U, T>)
        ensures
            *r == old(self).spec_root(),
            final(self).spec_root() == *final(r),
    {
        &mut self.root
    }

    /// The node that a tree-level route leads to: the first entry stands
    /// for the root and the rest is followed from there; none for an empty
    /// route.
    pub fn node_by_route(&self, route: &[usize]) -> (r: Option<&Node<U, T>>)
        ensures
            route@.len() == 0 ==> r is None,
            route@.len() > 0 ==> unref(r) == self.spec_root().at(route@.drop_first()),
    {
        if route.len() == 0 {
            None
        } else {
            let rest = &route[1..route.len()];
            assert(rest@ =~= route@.drop_first());
            self.root.node_by_route(rest)
        }
    }
}

impl<U: Clone, T: Clone> Clone for Tree<U, T> {
    /// A copy of the whole tree.
    fn clone(&self) -> (r: Self)
        ensures
            r.spec_root().spec_children().len() == self.spec_root().spec_children().len(),
    {
        Tree { root: self.root.clone() }
    }
}

impl<U: PartialEq, T> Tree<U, T> {
    /// The tree-level route of the first node carrying `id` in pre-order.
    pub open spec fn tree_route(self, id: U) -> Option<Seq<usize>> {
        match self.spec_root().first_route(id) {
            Some(route) => Some(seq![0usize].add(route)),
            None => None,
        }
    }

    /// Searches the tree in pre-order for the first node carrying `id`.
    pub fn query(&self, id: &U) -> (r: Option<&Node<U, T>>)
        ensures
            U::obeys_eq_spec() ==> unref(r) == self.spec_root().lookup(*id),
    {
        self.root.query(id)
    }

    /// Searches the tree in pre-order for the first node carrying `id`, for
    /// changing it in place.
    pub fn query_mut(&mut self, id: &U) -> (r: Option<&mut Node<U, T>>)
        ensures
            U::obeys_eq_spec() ==> (r is Some <==> old(self).spec_root().lookup(*id) is Some),
            U::obeys_eq_spec() ==> (r matches Some(m) ==> Some(*m) == old(
                self,
            ).spec_root().lookup(*id)),
            U::obeys_eq_spec() ==> (r matches Some(m) ==> final(self).spec_root().replaces_at(
                old(self).spec_root(),
                old(self).spec_root().first_route(*id)->0,
                *final(m),
            )),
            U::obeys_eq_spec() ==> (r is None ==> final(self).spec_root() == old(self).spec_root()),
    {
        self.root.query_mut(id)
    }

    /// The parent of the first node carrying `id`; none for the root.
    pub fn parent(&self, id: &U) -> (r: Option<&Node<U, T>>)
        ensures
            U::obeys_eq_spec() ==> unref(r) == self.spec_root().parent_of(*id),
    {
        self.root.parent(id)
    }

    /// The identifiers of the siblings of the first node carrying `id`.
    pub fn siblings(&self, id: &U) -> (r: Option<Vec<&U>>)
        ensures
            U::obeys_eq_spec() ==> (match r {
                Some(v) => self.spec_root().sibling_ids(*id) == Some(unref_all(v@)),
                None => self.spec_root().sibling_ids(*id) is None,
            }),
    {
        self.root.siblings(id)
    }

    /// The tree-level route of the first node carrying `id`: `0` for the
    /// root, then the route from the root.
    pub fn route_by_node(&self, id: &U) -> (r: Option<Vec<usize>>)
        ensures
            U::obeys_eq_spec() ==> route_view(r) == self.tree_route(*id),
            r matches Some(v) ==> v@.len() > 0 && v@[0] == 0,
    {
        match self.root.route_by_node(id) {
            None => None,
            Some(mut route) => {
                let ghost tail = route@;
                route.insert(0, 0);
                assert(route@ =~= seq![0usize].add(tail));
                Some(route)
            },
        }
    }
}

} // verus!
