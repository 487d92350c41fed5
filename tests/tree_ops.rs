use orange_trees::{Node, Tree};

fn sample_tree() -> Tree<String, &'static str> {
    Tree::new(
        Node::new("/".to_string(), "/")
            .with_child(
                Node::new("/bin".to_string(), "bin/")
                    .with_child(Node::new("/bin/ls".to_string(), "ls"))
                    .with_child(Node::new("/bin/pwd".to_string(), "pwd")),
            )
            .with_child(
                Node::new("/home".to_string(), "home/").with_child(
                    Node::new("/home/omar".to_string(), "omar/")
                        .with_child(Node::new("/home/omar/readme.md".to_string(), "readme.md"))
                        .with_child(Node::new(
                            "/home/omar/changelog.md".to_string(),
                            "changelog.md",
                        )),
                ),
            ),
    )
}

#[test]
fn test_query() {
    // -- Build
    let tree: Tree<String, &str> = sample_tree();
    let root: &Node<String, &str> = tree.root();
    assert_eq!(root.id(), "/");
    assert_eq!(root.value(), &"/");
    assert_eq!(root.children().len(), 2);
    let bin: &Node<String, &str> = &root.children()[0];
    assert_eq!(bin.id(), "/bin");
    assert_eq!(bin.value(), &"bin/");
    assert_eq!(bin.children().len(), 2);
    let bin_ids: Vec<&String> = bin.children().iter().map(|x| x.id()).collect();
    assert_eq!(bin_ids, vec!["/bin/ls", "/bin/pwd"]);
    let home: &Node<String, &str> = &tree.root().children()[1];
    assert_eq!(home.id(), "/home");
    assert_eq!(home.value(), &"home/");
    assert_eq!(home.children().len(), 1);
    let omar_home: &Node<String, &str> = &home.children()[0];
    let omar_home_ids: Vec<&String> = omar_home.children().iter().map(|x| x.id()).collect();
    assert_eq!(
        omar_home_ids,
        vec!["/home/omar/readme.md", "/home/omar/changelog.md"]
    );
    // count
    assert_eq!(root.count(), 8);
    // depth
    assert_eq!(root.depth(), 4);
    // Children
    assert_eq!(root.children().len(), 2);
    assert_eq!(root.iter().count(), 2);
    // -- Query
    assert_eq!(
        tree.root()
            .query(&"/home/omar/changelog.md".to_string())
            .unwrap()
            .id(),
        "/home/omar/changelog.md"
    );
    assert!(tree.root().query(&"ommlar".to_string()).is_none());
    // is leaf
    assert_eq!(
        tree.root()
            .query(&"/home/omar".to_string())
            .unwrap()
            .is_leaf(),
        false
    );
    assert_eq!(
        tree.root()
            .query(&"/home/omar/changelog.md".to_string())
            .unwrap()
            .is_leaf(),
        true
    );
    // parent
    assert!(tree.root().parent(&"/".to_string()).is_none());
    assert_eq!(
        tree.root()
            .parent(&"/home/omar/changelog.md".to_string())
            .unwrap()
            .id(),
        "/home/omar"
    );
    assert!(tree.root().parent(&"/homer".to_string()).is_none());
    // siblings
    assert_eq!(
        tree.root()
            .siblings(&"/home/omar/changelog.md".to_string())
            .unwrap(),
        vec!["/home/omar/readme.md"]
    );
    assert_eq!(
        tree.root()
            .siblings(&"/home/omar".to_string())
            .unwrap()
            .len(),
        0
    );
    assert!(tree.root().siblings(&"/homer".to_string()).is_none());
}

#[test]
fn test_tree_manipolation() {
    let mut tree: Tree<String, &str> = sample_tree();
    // Mutable
    let root: &mut Node<String, &str> = tree.root_mut();
    assert_eq!(root.iter_mut().count(), 2);
    // Push node
    tree.root_mut()
        .query_mut(&"/home/omar".to_string())
        .unwrap()
        .add_child(Node::new("/home/omar/Cargo.toml".to_string(), "Cargo.toml"));
    assert_eq!(
        tree.root()
            .query(&"/home/omar/Cargo.toml".to_string())
            .unwrap()
            .id(),
        "/home/omar/Cargo.toml"
    );
    // Remove
    tree.root_mut()
        .query_mut(&"/home/omar".to_string())
        .unwrap()
        .add_child(Node::new("/home/omar/Cargo.lock".to_string(), "Cargo.lock"));
    assert_eq!(
        tree.root()
            .query(&"/home/omar/Cargo.lock".to_string())
            .unwrap()
            .id(),
        "/home/omar/Cargo.lock"
    );
    tree.root_mut()
        .query_mut(&"/home/omar".to_string())
        .unwrap()
        .remove_child(&String::from("/home/omar/Cargo.lock"));
    assert!(tree
        .root()
        .query(&"/home/omar/Cargo.lock".to_string())
        .is_none());
    // Clear node
    tree.root_mut()
        .query_mut(&"/home/omar".to_string())
        .unwrap()
        .clear();
    assert_eq!(
        tree.root()
            .query(&"/home/omar".to_string())
            .unwrap()
            .children()
            .len(),
        0
    );
    // -- truncate
    let mut tree: Tree<String, &str> = sample_tree();
    let root: &mut Node<String, &str> = tree.root_mut();
    root.truncate(1);
    assert_eq!(root.children().len(), 2);
    assert_eq!(root.children()[0].children().len(), 0);
    assert_eq!(root.children()[0].id(), "/bin");
    assert_eq!(root.children()[1].children().len(), 0);
    assert_eq!(root.children()[1].id(), "/home");
}

#[test]
fn test_sort() {
    // Sort
    let mut tree: Tree<&'static str, usize> = Tree::new(
        Node::new("/", 0)
            .with_child(Node::new("8", 8))
            .with_child(Node::new("7", 7))
            .with_child(Node::new("3", 3))
            .with_child(Node::new("1", 1))
            .with_child(Node::new("2", 2))
            .with_child(Node::new("9", 9))
            .with_child(Node::new("5", 5))
            .with_child(Node::new("4", 4))
            .with_child(Node::new("6", 6)),
    );
    tree.root_mut()
        .sort(|a, b| a.value().partial_cmp(b.value()).unwrap());
    let values: Vec<usize> = tree.root().iter().map(|x| *x.value()).collect();
    assert_eq!(values, vec![1, 2, 3, 4, 5, 6, 7, 8, 9]);
}

#[test]
fn test_with_children() {
    // -- With children
    let tree: Tree<String, &str> =
        Tree::new(Node::new("a".to_string(), "a").with_children(vec![
            Node::new("a1".to_string(), "a1"),
            Node::new("a2".to_string(), "a2"),
        ]));
    assert!(tree.root().query(&"a".to_string()).is_some());
    assert!(tree.root().query(&"a1".to_string()).is_some());
    assert!(tree.root().query(&"a2".to_string()).is_some());
}

#[test]
fn test_routes() {
    let tree: Tree<String, &str> = sample_tree();
    // -- node_by_route
    assert_eq!(
        tree.root().node_by_route(&[1, 0, 1]).unwrap().id(),
        "/home/omar/changelog.md"
    );
    assert!(tree.root().node_by_route(&[1, 0, 3]).is_none());
    // -- Route by node
    assert_eq!(
        tree.root()
            .route_by_node(&"/home/omar/changelog.md".to_string())
            .unwrap(),
        vec![1, 0, 1]
    );
    assert!(tree
        .root()
        .route_by_node(&"ciccio-pasticcio".to_string())
        .is_none());
}

#[test]
fn test_find() {
    let tree: Tree<&'static str, usize> = Tree::new(
        Node::new("/", 0)
            .with_child(Node::new("a", 2))
            .with_child(Node::new("b", 7))
            .with_child(Node::new("c", 13))
            .with_child(Node::new("d", 16))
            .with_child(
                Node::new("e", 75)
                    .with_child(Node::new("f", 68))
                    .with_child(Node::new("g", 12))
                    .with_child(Node::new("h", 9))
                    .with_child(Node::new("i", 4)),
            ),
    );
    // Find all even values
    let even_nodes = tree
        .root()
        .find(&|x: &Node<&'static str, usize>| x.value() % 2 == 0);
    assert_eq!(even_nodes.len(), 6);
    let values: Vec<usize> = even_nodes.iter().map(|x| *x.value()).collect();
    assert_eq!(values, vec![0, 2, 16, 68, 12, 4]);
}

#[test]
fn test_macro() {
    // -- Empty node
    let node: Node<&'static str, usize> = Node::new("root", 0);
    assert_eq!(node.id(), &"root");
    assert_eq!(*node.value(), 0);
    assert_eq!(node.children().len(), 0);
    // Node with child
    let mut node: Node<&'static str, usize> = Node::new("root", 0);
    node.add_child(Node::new("a", 1));
    assert_eq!(node.id(), &"root");
    assert_eq!(*node.value(), 0);
    assert_eq!(node.children().len(), 1);
    assert_eq!(*node.query(&"a").unwrap().value(), 1);
    let mut node: Node<&'static str, usize> = Node::new("root", 0);
    node.add_child(Node::new("a", 1));
    node.add_child(Node::new("b", 0));
    assert_eq!(node.children().len(), 2);
    let mut a: Node<&'static str, usize> = Node::new("a", 1);
    a.add_child(Node::new("a1", 3));
    a.add_child(Node::new("a2", 4));
    let mut root: Node<&'static str, usize> = Node::new("root", 0);
    root.add_child(a);
    root.add_child(Node::new("b", 0));
    let tree: Tree<&'static str, usize> = Tree::new(root);
    assert_eq!(tree.root().count(), 5);
}

#[test]
fn test_should_update_node_value() {
    let mut node = Node::new("root", 0);

    assert_eq!(node.value(), &0);
    node.set_value(1);

    assert_eq!(node.value(), &1);
}
