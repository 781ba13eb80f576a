use rdraw::tree::Tree;

fn sample() -> Tree<&'static str> {
    let mut t = Tree::new("root");
    let a = t.push(0, "a").unwrap();
    let b = t.push(0, "b").unwrap();
    t.push(a, "a1").unwrap();
    t.push(a, "a2").unwrap();
    t.push(b, "b1").unwrap();
    t
}

#[test]
fn push_links_nodes() {
    let t = sample();
    assert_eq!(t.len(), 6);
    let a = t.get(1).unwrap();
    assert_eq!(*a.node().data(), "a");
    assert_eq!(a.node().level(), 1);
    assert_eq!(a.node().index(), 0);
    let b = t.get(2).unwrap();
    assert_eq!(b.node().index(), 1);
    let a2 = t.get(4).unwrap();
    assert_eq!(a2.node().level(), 2);
    assert_eq!(a2.node().index(), 1);
    assert_eq!(a2.parent().unwrap().id, 1);
    assert!(t.root().parent().is_none());
    assert!(t.get(6).is_none());
}

#[test]
fn push_under_missing_parent_fails() {
    let mut t = Tree::new(0);
    assert_eq!(t.push(5, 1), None);
    assert_eq!(t.len(), 1);
}

#[test]
fn walks_depth_first() {
    let t = sample();
    let mut dfs = t.dfs_iter();
    let mut order = Vec::new();
    while let Some(n) = dfs.next() {
        order.push(*n.node().data());
    }
    assert_eq!(order, vec!["root", "a", "a1", "a2", "b", "b1"]);
}

#[test]
fn lists_children_in_order() {
    let t = sample();
    let mut children = t.root().children();
    let mut names = Vec::new();
    while let Some(n) = children.next() {
        names.push(*n.node().data());
    }
    assert_eq!(names, vec!["a", "b"]);
}

#[test]
fn node_mut_changes_data_and_grows() {
    let mut t = Tree::new(1);
    {
        let mut root = t.get_mut(0).unwrap();
        *root.data() = 10;
        let c = root.push(20);
        assert_eq!(c, 1);
        assert_eq!(root.id(), 0);
    }
    {
        let mut child = t.get_mut(1).unwrap();
        assert_eq!(child.parent().unwrap().id(), 0);
    }
    assert_eq!(*t.root().node().data(), 10);
    assert_eq!(*t.get(1).unwrap().node().data(), 20);
    t.clear(5);
    assert_eq!(t.len(), 1);
    assert_eq!(*t.root().node().data(), 5);
}
