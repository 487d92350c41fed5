use std::cmp::Ordering;

use orange_trees::{Node, Tree};

fn fs_tree() -> Tree<String, &'static str> {
    Tree::new(
        Node::new("/".to_string(), "/")
            .with_child(
                Node::new("/bin".to_string(), "bin/")
                    .with_child(Node::new("/bin/ls".to_string(), "ls"))
                    .with_child(Node::new("/bin/pwd".to_string(), "pwd")),
            )
            .with_child(
                Node::new("/home".to_string(), "home/").with_child(
                    Node::new("/home/omar".to_string(), "omar/")
                        .with_child(Node::new("/home/omar/readme.md".to_string(), "readme.md"))
                        .with_child(Node::new(
                            "/home/omar/changelog.md".to_string(),
                            "changelog.md",
                        )),
                ),
            ),
    )
}

const FS_IDS: [&str; 8] = [
    "/",
    "/bin",
    "/bin/ls",
    "/bin/pwd",
    "/home",
    "/home/omar",
    "/home/omar/readme.md",
    "/home/omar/changelog.md",
];

#[test]
fn count_is_one_plus_children_counts() {
    let tree = fs_tree();
    for id in FS_IDS.iter() {
        let node = tree.root().query(&id.to_string()).unwrap();
        let sum: usize = node.children().iter().map(|c| c.count()).sum();
        assert_eq!(node.count(), 1 + sum);
        assert!(node.count() >= 1);
    }
    assert_eq!(tree.root().children()[0].count(), 3);
    assert_eq!(tree.root().children()[1].count(), 4);
}

#[test]
fn depth_of_leaf_is_one() {
    let leaf: Node<u32, u32> = Node::new(1, 1);
    assert_eq!(leaf.depth(), 1);
    let tree = fs_tree();
    for id in FS_IDS.iter() {
        let node = tree.root().query(&id.to_string()).unwrap();
        assert!(node.depth() >= 1);
        if node.is_leaf() {
            assert_eq!(node.depth(), 1);
        }
    }
    assert_eq!(tree.root().children()[0].depth(), 2);
}

#[test]
fn route_round_trip_for_every_node() {
    let tree = fs_tree();
    for id in FS_IDS.iter() {
        let id = id.to_string();
        let route = tree.root().route_by_node(&id).unwrap();
        let by_route = tree.root().node_by_route(&route).unwrap();
        assert_eq!(by_route.id(), &id);
        assert_eq!(by_route, tree.root().query(&id).unwrap());
        let tree_route = tree.route_by_node(&id).unwrap();
        assert_eq!(tree_route[0], 0);
        assert_eq!(tree.node_by_route(&tree_route).unwrap().id(), &id);
    }
}

#[test]
fn tree_routes_start_with_root_marker() {
    let tree = fs_tree();
    assert_eq!(
        tree.route_by_node(&"/home/omar/changelog.md".to_string()).unwrap(),
        vec![0, 1, 0, 1]
    );
    assert_eq!(tree.route_by_node(&"/".to_string()).unwrap(), vec![0]);
    assert!(tree.route_by_node(&"/nope".to_string()).is_none());
    // an empty tree-level route addresses nothing, a node-level one the node itself
    assert!(tree.node_by_route(&[]).is_none());
    assert_eq!(tree.root().node_by_route(&[]).unwrap().id(), "/");
    assert_eq!(tree.node_by_route(&[0]).unwrap().id(), "/");
    assert_eq!(tree.node_by_route(&[0, 1, 0]).unwrap().id(), "/home/omar");
    assert!(tree.node_by_route(&[0, 2]).is_none());
}

#[test]
fn scenario_filesystem_tree() {
    let tree = fs_tree();
    assert_eq!(tree.root().count(), 8);
    assert_eq!(tree.root().depth(), 4);
    assert_eq!(
        tree.route_by_node(&"/home/omar/changelog.md".to_string()).unwrap(),
        vec![0, 1, 0, 1]
    );
    assert_eq!(
        tree.root()
            .route_by_node(&"/home/omar/changelog.md".to_string())
            .unwrap(),
        vec![1, 0, 1]
    );
    assert_eq!(
        tree.siblings(&"/home/omar/changelog.md".to_string()).unwrap(),
        vec!["/home/omar/readme.md"]
    );
    assert!(tree.parent(&"/".to_string()).is_none());
    assert_eq!(tree.parent(&"/bin".to_string()).unwrap().id(), "/");
    assert_eq!(tree.query(&"/bin/pwd".to_string()).unwrap().value(), &"pwd");
    assert_eq!(tree.root().route_by_node(&"/".to_string()).unwrap().len(), 0);
}

#[test]
fn truncate_zero_makes_leaf() {
    let mut tree = fs_tree();
    tree.root_mut().truncate(0);
    assert!(tree.root().is_leaf());
    assert_eq!(tree.root().count(), 1);
    assert_eq!(tree.root().id(), "/");
}

#[test]
fn truncate_at_or_beyond_depth_is_noop() {
    for d in 3..6 {
        let mut tree = fs_tree();
        tree.root_mut().truncate(d);
        assert_eq!(tree, fs_tree());
    }
    let mut tree = fs_tree();
    tree.root_mut().truncate(2);
    assert_ne!(tree, fs_tree());
    assert_eq!(tree.root().count(), 6);
    assert_eq!(tree.root().depth(), 3);
}

#[test]
fn removed_child_is_not_found() {
    let mut tree = fs_tree();
    tree.root_mut()
        .query_mut(&"/home/omar".to_string())
        .unwrap()
        .add_child(Node::new("/home/omar/new".to_string(), "new"));
    assert_eq!(
        tree.query(&"/home/omar/new".to_string()).unwrap().value(),
        &"new"
    );
    tree.query_mut(&"/home/omar".to_string())
        .unwrap()
        .remove_child(&"/home/omar/new".to_string());
    assert!(tree.query(&"/home/omar/new".to_string()).is_none());
    assert!(tree.root().query(&"never-added".to_string()).is_none());
    assert_eq!(tree.root().count(), 8);
}

#[test]
fn remove_child_removes_every_match_and_only_direct() {
    let mut node: Node<u32, &str> = Node::new(0, "root")
        .with_child(Node::new(1, "a").with_child(Node::new(2, "deep")))
        .with_child(Node::new(2, "b"))
        .with_child(Node::new(3, "c"))
        .with_child(Node::new(2, "d"));
    node.remove_child(&2);
    let ids: Vec<u32> = node.iter().map(|c| *c.id()).collect();
    assert_eq!(ids, vec![1, 3]);
    assert_eq!(node.query(&2).unwrap().value(), &"deep");
    node.remove_child(&42);
    assert_eq!(node.children().len(), 2);
}

#[test]
fn sort_orders_flat_children() {
    let mut node: Node<u32, u32> = Node::new(0, 0);
    for v in [5u32, 3, 9, 1, 7, 2, 8, 4, 6] {
        node.add_child(Node::new(v, v));
    }
    node.sort(|a, b| a.value().cmp(b.value()));
    let values: Vec<u32> = node.iter().map(|c| *c.value()).collect();
    assert_eq!(values, vec![1, 2, 3, 4, 5, 6, 7, 8, 9]);
    node.sort(|a, b| b.value().cmp(a.value()));
    let values: Vec<u32> = node.iter().map(|c| *c.value()).collect();
    assert_eq!(values, vec![9, 8, 7, 6, 5, 4, 3, 2, 1]);
}

#[test]
fn sort_is_not_recursive() {
    let mut node: Node<u32, u32> = Node::new(0, 0)
        .with_child(Node::new(2, 2).with_child(Node::new(22, 9)).with_child(Node::new(21, 1)))
        .with_child(Node::new(1, 1));
    node.sort(|a, b| a.value().cmp(b.value()));
    let ids: Vec<u32> = node.iter().map(|c| *c.id()).collect();
    assert_eq!(ids, vec![1, 2]);
    let grand: Vec<u32> = node.children()[1].iter().map(|c| *c.id()).collect();
    assert_eq!(grand, vec![22, 21]);
}

#[test]
fn sort_with_inconsistent_comparator_keeps_children() {
    let mut node: Node<u32, u32> = Node::new(0, 0);
    for v in [4u32, 1, 3, 2] {
        node.add_child(Node::new(v, v));
    }
    node.sort(|_, _| Ordering::Greater);
    let mut values: Vec<u32> = node.iter().map(|c| *c.value()).collect();
    values.sort();
    assert_eq!(values, vec![1, 2, 3, 4]);
}

#[test]
fn find_keeps_preorder() {
    let tree: Tree<&'static str, usize> = Tree::new(
        Node::new("/", 0)
            .with_child(Node::new("a", 2))
            .with_child(Node::new("b", 7))
            .with_child(Node::new("c", 13))
            .with_child(Node::new("d", 16))
            .with_child(
                Node::new("e", 75)
                    .with_child(Node::new("f", 68))
                    .with_child(Node::new("g", 12))
                    .with_child(Node::new("h", 9))
                    .with_child(Node::new("i", 4)),
            ),
    );
    let ids: Vec<&str> = tree
        .root()
        .find(&|x: &Node<&'static str, usize>| x.value() % 2 == 0)
        .iter()
        .map(|x| *x.id())
        .collect();
    assert_eq!(ids, vec!["/", "a", "d", "f", "g", "i"]);
    assert_eq!(tree.root().find(&|_: &Node<&'static str, usize>| true).len(), 10);
    assert!(tree.root().find(&|_: &Node<&'static str, usize>| false).is_empty());
}

#[test]
fn duplicate_ids_resolve_to_first_in_preorder() {
    let tree: Tree<u32, &str> = Tree::new(
        Node::new(0, "root")
            .with_child(Node::new(1, "a").with_child(Node::new(7, "deep-first")))
            .with_child(Node::new(7, "shallow-second")),
    );
    assert_eq!(tree.query(&7).unwrap().value(), &"deep-first");
    assert_eq!(tree.root().route_by_node(&7).unwrap(), vec![0, 0]);
    assert_eq!(tree.route_by_node(&7).unwrap(), vec![0, 0, 0]);
    assert_eq!(tree.parent(&7).unwrap().id(), &1);
    assert_eq!(tree.siblings(&7).unwrap().len(), 0);
}

#[test]
fn siblings_skip_every_node_with_the_id() {
    let node: Node<u32, u32> = Node::new(0, 0)
        .with_child(Node::new(1, 1))
        .with_child(Node::new(2, 2))
        .with_child(Node::new(3, 3))
        .with_child(Node::new(2, 4));
    let sibs: Vec<u32> = node.siblings(&2).unwrap().into_iter().copied().collect();
    assert_eq!(sibs, vec![1, 3]);
    let sibs: Vec<u32> = node.siblings(&3).unwrap().into_iter().copied().collect();
    assert_eq!(sibs, vec![1, 2, 2]);
    assert!(node.siblings(&0).is_none());
}

#[test]
fn query_mut_changes_the_found_node_only() {
    let mut tree = fs_tree();
    tree.query_mut(&"/bin/ls".to_string()).unwrap().set_value("list");
    assert_eq!(tree.query(&"/bin/ls".to_string()).unwrap().value(), &"list");
    assert_eq!(tree.query(&"/bin/pwd".to_string()).unwrap().value(), &"pwd");
    assert_eq!(tree.root().count(), 8);
    assert!(tree.query_mut(&"/nope".to_string()).is_none());
    for child in tree.root_mut().iter_mut() {
        child.clear();
    }
    assert_eq!(tree.root().count(), 3);
}

#[test]
fn builders_and_accessors() {
    let node: Node<u32, &str> = Node::new(1, "one")
        .with_child(Node::new(2, "two"))
        .with_children(vec![Node::new(3, "three"), Node::new(4, "four")]);
    let ids: Vec<u32> = node.children().iter().map(|c| *c.id()).collect();
    assert_eq!(ids, vec![3, 4]);
    assert!(node.query(&2).is_none());
    assert!(!node.is_leaf());
    assert!(node.children()[0].is_leaf());
    let mut node = node;
    node.clear();
    assert!(node.is_leaf());
    assert_eq!(node.value(), &"one");
    assert_eq!(node.id(), &1);
}

#[test]
fn clone_copies_the_whole_tree() {
    let tree = fs_tree();
    let mut copy = tree.clone();
    assert_eq!(copy, tree);
    copy.query_mut(&"/home/omar".to_string()).unwrap().clear();
    assert_eq!(copy.root().count(), 6);
    assert_eq!(tree.root().count(), 8);
    let node = tree.root().children()[0].clone();
    assert_eq!(&node, &tree.root().children()[0]);
}
