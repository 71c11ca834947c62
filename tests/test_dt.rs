use cdt::{Op, Traverse, DT};

#[derive(Copy, Clone, Debug)]
struct Package<T>(T);

impl<T> std::ops::Deref for Package<T> {
    type Target = T;
    fn deref(&self) -> &Self::Target {
        &self.0
    }
}

fn a() {
    println!("a");
}

fn b() {
    println!("b");
}

fn c() {
    println!("c");
}

fn d() {
    println!("d");
}

#[test]
fn test_dt() {
    let mut tree = DT::init();
    let root = tree.root().unwrap();

    tree.append(root, "1", "data1", 1);
    tree.append(root, "2", "data2", 2);
    tree.append(root, "3", "data3", 3);
    tree.append(root, "4", "data4", 4);
    tree.append(root, "5", "data5", 5);
    tree.append(root, "6", "data6", 6);

    let n4 = tree.find("4").unwrap();
    tree.append(n4, "7", "data7", 7);
    tree.append(n4, "8", "data8", 8);

    let n7 = tree.find("7").unwrap();
    tree.append(n7, "9", "data9", 9);
    tree.append(n7, "10", "data10", 10);

    let mut travel = Traverse::start(tree, root);
    let first = travel.traverse(4, Op::Equal);
    println!("{:?}", first);
    assert_eq!(first, Some(n4));
    let second = travel.traverse(1, Op::Less);
    println!("{:?}", second);
    assert_eq!(second, Some(n7));
    let third = travel.traverse(1, Op::Less);
    println!("{:?}", third);
    assert_eq!(third, travel.tree().find("9"));
    assert_eq!(travel.tree().content(third.unwrap()), Some("data9"));
}

#[test]
fn test_empty_parent() {
    let mut tree = DT::init();
    let root = tree.root().unwrap();

    tree.append(root, "id", "data", 1);

    let mut travel = Traverse::start(tree, root);
    assert!(travel.traverse(2, Op::Greater).is_some());
    assert!(travel.traverse(0, Op::Equal).is_none());
}

#[test]
fn test_partial_op() {
    let mut tree = DT::init();
    let root = tree.root().unwrap();

    tree.append(root, "1", "data1", "a");
    tree.append(root, "2", "data2", "b");
    tree.append(root, "3", "data3", "c");

    let n2 = tree.find("2").unwrap();
    tree.append(n2, "4", "data4", "d");
    tree.append(n2, "5", "data5", "e");

    let n4 = tree.find("4").unwrap();
    tree.append(n4, "6", "data6", "f");
    tree.append(n4, "7", "data7", "g");

    let mut travel = Traverse::start(tree, root);
    let first = travel.traverse("b", Op::Equal);
    println!("{:?}", first);
    assert_eq!(first, Some(n2));
    let second = travel.traverse("b", Op::Less);
    println!("{:?}", second);
    assert_eq!(second, Some(n4));
    let third = travel.traverse("g", Op::Equal);
    println!("{:?}", third);
    assert_eq!(third, travel.tree().find("7"));
}

#[test]
fn test_len() {
    let mut tree = DT::init();
    let root = tree.root().unwrap();
    let at = tree.append(root, "1", "data1", 1);
    let child = tree.latest_child(at).unwrap();
    tree.append(child, "7", "child1", 7);
    let at = tree.append(child, "8", "child1", 7);
    let parent = tree.latest_parent(at).unwrap();
    tree.append(parent, "2", "data2", 2);
    tree.append(parent, "3", "data3", 3);
    tree.append(parent, "4", "data4", 4);
    tree.append(parent, "5", "data5", 5);
    tree.append(parent, "6", "data6", 6);
    assert!(tree.len(root) == 6);
    assert!(tree.tree_len() == 9);
}

#[test]
fn test_fn_pointers() {
    let mut tree: DT<Package<fn()>, i32> = DT::init();
    let root = tree.root().unwrap();
    tree.append(root, "1", Package(a), 1);
    let at = tree.append(root, "2", Package(b), 2);
    let n2 = tree.latest_child(at).unwrap();
    tree.append(n2, "3", Package(c), 3);
    tree.append(n2, "4", Package(d), 4);
    let mut travel = Traverse::start(tree, root);
    let hop = travel.traverse(2, Op::Equal).unwrap();
    travel.tree().content(hop).unwrap()();
    let hop = travel.traverse(3, Op::Equal).unwrap();
    travel.tree().content(hop).unwrap()();
}
