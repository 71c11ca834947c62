use cdt::{Op, Traverse, DT};

/// A root with one child per decision, ids "c0", "c1", ... in order.
fn fan(decisions: &[i32]) -> (DT<&'static str, i32>, Vec<usize>) {
    let mut tree = DT::init();
    let root = tree.root().unwrap();
    let mut handles = Vec::new();
    for (k, dv) in decisions.iter().enumerate() {
        let id = format!("c{}", k);
        tree.append(root, &id, "payload", *dv);
        handles.push(tree.latest_child(root).unwrap());
    }
    (tree, handles)
}

fn child_decisions(tree: &DT<&'static str, i32>, n: usize) -> Vec<i32> {
    let mut out = Vec::new();
    for k in 0..tree.len(n) {
        out.push(tree.decision(tree.child_index(n, k).unwrap()).unwrap());
    }
    out
}

#[test]
fn handles_compare_by_identity() {
    let mut tree = DT::init();
    let root = tree.root().unwrap();
    tree.append(root, "x", "same", 1);
    let first = tree.latest_child(root).unwrap();
    tree.append(root, "y", "same", 1);
    let second = tree.latest_child(root).unwrap();
    let copy = first;
    assert_eq!(copy, first);
    assert_ne!(first, second);
    assert_eq!(tree.content(first), tree.content(second));
    assert_eq!(tree.decision(first), tree.decision(second));
}

#[test]
fn append_creates_a_new_child_never_the_parent() {
    let mut tree = DT::init();
    let root = tree.root().unwrap();
    let r = tree.append(root, "a", 1u8, 1);
    assert_eq!(r, root);
    let child = tree.latest_child(root).unwrap();
    assert_ne!(child, root);
    assert_eq!(tree.first(root), Some(child));
    assert_eq!(tree.first(child), None);
}

#[test]
fn parent_and_children_agree() {
    let mut tree = DT::init();
    let root = tree.root().unwrap();
    tree.append(root, "a", (), 1);
    tree.append(root, "b", (), 2);
    let a = tree.find("a").unwrap();
    tree.append(a, "c", (), 3);
    for n in 0..tree.tree_len() {
        for k in 0..tree.len(n) {
            let c = tree.child_index(n, k).unwrap();
            assert_eq!(tree.latest_parent(c), Some(n));
        }
        if let Some(p) = tree.latest_parent(n) {
            assert!((0..tree.len(p)).any(|k| tree.child_index(p, k) == Some(n)));
        }
    }
}

#[test]
fn equal_takes_the_first_match() {
    let (tree, handles) = fan(&[2, 5, 5, 9]);
    let mut travel = Traverse::start(tree, 0);
    assert_eq!(travel.traverse(5, Op::Equal), Some(handles[1]));
    assert_eq!(travel.dt(), handles[1]);
}

#[test]
fn min_is_strict() {
    let (tree, handles) = fan(&[7, 3, 9]);
    let mut travel = Traverse::start(tree, 0);
    assert_eq!(travel.traverse(3, Op::Min), None);
    assert_eq!(travel.dt(), 0);
    assert_eq!(travel.traverse(2, Op::Min), Some(handles[1]));
}

#[test]
fn max_is_strict() {
    let (tree, handles) = fan(&[3, 9, 7]);
    let mut travel = Traverse::start(tree, 0);
    assert_eq!(travel.traverse(9, Op::Max), None);
    assert_eq!(travel.traverse(10, Op::Max), Some(handles[1]));
}

#[test]
fn min_keeps_the_earlier_child_on_a_tie() {
    let (tree, handles) = fan(&[4, 3, 3]);
    let mut travel = Traverse::start(tree, 0);
    assert_eq!(travel.traverse(1, Op::Min), Some(handles[1]));
}

#[test]
fn median_takes_the_upper_middle_and_sorts() {
    let (tree, _) = fan(&[9, 4, 1, 4]);
    let mut travel = Traverse::start(tree, 0);
    let hop = travel.traverse(4, Op::Median);
    assert!(hop.is_some());
    assert_eq!(travel.tree().decision(hop.unwrap()), Some(4));
    assert_eq!(child_decisions(travel.tree(), 0), vec![1, 4, 4, 9]);
}

#[test]
fn median_miss_still_sorts() {
    let (tree, _) = fan(&[9, 4, 1]);
    let mut travel = Traverse::start(tree, 0);
    assert_eq!(travel.traverse(1, Op::Median), None);
    assert_eq!(travel.dt(), 0);
    assert_eq!(child_decisions(travel.tree(), 0), vec![1, 4, 9]);
}

#[test]
fn median_of_no_children_is_none() {
    let tree: DT<(), i32> = DT::init();
    let mut travel = Traverse::start(tree, 0);
    assert_eq!(travel.traverse(0, Op::Median), None);
}

#[test]
fn ordering_operators() {
    let (tree, h) = fan(&[5, 3, 8]);
    let mut travel = Traverse::start(tree, 0);
    assert_eq!(travel.traverse(4, Op::Greater), Some(h[1]));
    let tree = travel.into_tree();
    let mut travel = Traverse::start(tree, 0);
    assert_eq!(travel.traverse(5, Op::GreaterEqual), Some(h[0]));
    let tree = travel.into_tree();
    let mut travel = Traverse::start(tree, 0);
    assert_eq!(travel.traverse(6, Op::Less), Some(h[2]));
    let tree = travel.into_tree();
    let mut travel = Traverse::start(tree, 0);
    assert_eq!(travel.traverse(3, Op::LessEqual), Some(h[0]));
    let tree = travel.into_tree();
    let mut travel = Traverse::start(tree, 0);
    assert_eq!(travel.traverse(9, Op::LessEqual), None);
    assert_eq!(travel.traverse(2, Op::GreaterEqual), None);
    assert_eq!(travel.dt(), 0);
}

#[test]
fn no_children_means_no_match() {
    let tree: DT<(), i32> = DT::init();
    let mut travel = Traverse::start(tree, 0);
    assert_eq!(travel.traverse(1, Op::Equal), None);
    assert_eq!(travel.traverse(1, Op::Min), None);
    assert_eq!(travel.traverse(1, Op::Max), None);
}

#[test]
fn ids_are_unique_and_counted() {
    let mut tree = DT::init();
    assert_eq!(tree.tree_len(), 1);
    assert!(tree.contains("root"));
    tree.append(0, "a", 'a', 1);
    tree.append(0, "b", 'b', 2);
    assert_eq!(tree.tree_len(), 3);
    assert!(tree.contains("a"));
    assert!(!tree.contains("z"));
    assert_eq!(tree.find("z"), None);
    assert_eq!(tree.find("b"), Some(2));
}

#[test]
fn forward_then_back_returns_to_root() {
    let mut tree = DT::init();
    let root = tree.root().unwrap();
    tree.append(root, "a", (), 1);
    tree.append(root, "b", (), 2);
    let a = tree.find("a").unwrap();
    tree.append(a, "c", (), 3);
    let c = tree.find("c").unwrap();
    tree.append(c, "d", (), 4);
    for k in 0..4 {
        let down = tree.forward_first(root, k).unwrap();
        assert_eq!(tree.back(down, k), Some(root));
    }
    assert_eq!(tree.forward_first(root, 3), tree.find("d"));
    assert_eq!(tree.forward_first(root, 4), None);
    assert_eq!(tree.forward_last(root, 1), tree.find("b"));
    assert_eq!(tree.forward_last(root, 2), None);
}

#[test]
fn back_stops_at_the_root() {
    let mut tree = DT::init();
    tree.append(0, "a", (), 1);
    let a = tree.find("a").unwrap();
    assert_eq!(tree.back(a, 0), Some(a));
    assert_eq!(tree.back(a, 1), Some(0));
    assert_eq!(tree.back(a, 2), None);
}

#[test]
fn child_access() {
    let (tree, h) = fan(&[1, 2, 3]);
    assert_eq!(tree.first(0), Some(h[0]));
    assert_eq!(tree.last(0), Some(h[2]));
    assert_eq!(tree.child_index(0, 1), Some(h[1]));
    assert_eq!(tree.child_index(0, 3), None);
    assert_eq!(tree.last(h[0]), None);
    assert_eq!(tree.latest_child(0), Some(h[2]));
    assert_eq!(tree.latest_child(h[0]), None);
    assert!(tree.has_children(0));
    assert!(!tree.has_children(h[1]));
    assert!(tree.is_root(0));
    assert!(!tree.has_parent(0));
    assert!(tree.has_parent(h[1]));
    assert!(!tree.is_root(h[1]));
    assert_eq!(tree.latest_parent(0), None);
    assert_eq!(tree.decision(0), None);
    assert_eq!(tree.content(0), None);
}

#[test]
fn payload_read_and_write() {
    let mut tree = DT::init();
    tree.append(0, "a", String::from("old"), 1);
    let a = tree.find("a").unwrap();
    assert_eq!(tree.read(a).as_deref(), Some("old"));
    tree.write(a, String::from("new"));
    assert_eq!(tree.read(a).as_deref(), Some("new"));
    assert_eq!(tree.read(0), &None);
}
