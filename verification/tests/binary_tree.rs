use kernel::binary_tree::BinaryTree;
use kernel::binary_tree::BinaryTreeNode;
use kernel::binary_tree::TraversalType;

fn check_links(b: &BinaryTree<i32>) {
    for (i, slot) in b.nodes.iter().enumerate() {
        if let Some(n) = slot {
            if let Some(l) = n.get_left() {
                assert_eq!(b.nodes[l].as_ref().unwrap().get_parent(), Some(i));
                assert!(b.nodes[l].as_ref().unwrap().value <= n.value);
            }
            if let Some(r) = n.get_right() {
                assert_eq!(b.nodes[r].as_ref().unwrap().get_parent(), Some(i));
                assert!(b.nodes[r].as_ref().unwrap().value >= n.value);
            }
            if n.get_parent().is_none() {
                assert_eq!(b.root, Some(i));
            }
        }
    }
}

fn check_links_under_root(b: &BinaryTree<i32>) {
    for i in b.traverse(TraversalType::PreOrder) {
        let n = b.nodes[i].as_ref().unwrap();
        if let Some(l) = n.get_left() {
            assert_eq!(b.nodes[l].as_ref().unwrap().get_parent(), Some(i));
        }
        if let Some(r) = n.get_right() {
            assert_eq!(b.nodes[r].as_ref().unwrap().get_parent(), Some(i));
        }
        if n.get_parent().is_none() {
            assert_eq!(b.root, Some(i));
        }
    }
}

#[test]
fn binary_tree0() {
    let b = BinaryTree::<i32>::new();
    assert!(b.get(0).is_none());
    assert!(b.is_empty());
    assert_eq!(b.nodes_count(), 0);
    assert_eq!(b.get_depth(), 0);
}

#[test]
fn binary_tree_insert0() {
    let mut b = BinaryTree::<i32>::new();
    b.insert(0).unwrap();
    assert_eq!(*b.get(0).unwrap(), 0);
    assert!(!b.is_empty());
    assert_eq!(b.nodes_count(), 1);
    assert_eq!(b.get_depth(), 1);
}

#[test]
fn binary_tree_insert1() {
    let mut b = BinaryTree::<i32>::new();
    for i in 0..10 {
        b.insert(i).unwrap();
        check_links(&b);
    }
    for i in 0..10 {
        assert_eq!(*b.get(i).unwrap(), i);
    }
    assert!(b.get(10).is_none());
    assert_eq!(b.nodes_count(), 10);
}

#[test]
fn binary_tree_insert2() {
    let mut b = BinaryTree::<i32>::new();
    for i in -9..10 {
        b.insert(i).unwrap();
    }
    for i in -9..10 {
        assert_eq!(*b.get(i).unwrap(), i);
    }
    check_links(&b);
}

#[test]
fn binary_tree_remove0() {
    let mut b = BinaryTree::<i32>::new();
    for i in -9..10 {
        b.insert(i).unwrap();
    }
    for i in -9..10 {
        assert_eq!(*b.get(i).unwrap(), i);
        b.remove(i);
        assert!(b.get(i).is_none());
        check_links(&b);
    }
    assert!(b.is_empty());
}

#[test]
fn binary_tree_remove_in_another_order() {
    let mut b = BinaryTree::<i32>::new();
    let values = [5, 3, 8, 1, 4, 7, 9, 2, 6, 0];
    for v in values {
        b.insert(v).unwrap();
    }
    for v in [4, 0, 9, 5, 3, 8, 1, 7, 2, 6] {
        assert_eq!(*b.get(v).unwrap(), v);
        b.remove(v);
        assert!(b.get(v).is_none());
        check_links(&b);
    }
    assert!(b.is_empty());
    assert_eq!(b.nodes_count(), 0);
}

#[test]
fn binary_tree_holds_equal_values() {
    let mut b = BinaryTree::<i32>::new();
    b.insert(7).unwrap();
    b.insert(7).unwrap();
    b.insert(3).unwrap();
    assert_eq!(b.nodes_count(), 3);
    b.remove(7);
    assert_eq!(b.nodes_count(), 2);
    assert_eq!(*b.get(7).unwrap(), 7);
    b.remove(7);
    assert!(b.get(7).is_none());
    assert_eq!(b.nodes_count(), 1);
    b.remove(7);
    assert_eq!(b.nodes_count(), 1);
}

#[test]
fn binary_tree_stays_shallow_after_ordered_insertions() {
    let mut b = BinaryTree::<i32>::new();
    for i in 0..1000 {
        b.insert(i).unwrap();
    }
    assert_eq!(b.nodes_count(), 1000);
    // A red-black tree of 1000 nodes is at most 2 * log2(1001) deep.
    assert!(b.get_depth() <= 20);
    let root = b.root.unwrap();
    assert!(b.nodes[root].as_ref().unwrap().is_black());
    assert!(!b.nodes[root].as_ref().unwrap().is_red());
    assert_eq!(BinaryTreeNode::get_node_depth(&b, root), 0);
    assert_eq!(BinaryTreeNode::get_node_black_depth(&b, root), 1);
    assert_eq!(BinaryTreeNode::nodes_count(&b, root), 1000);
}

#[test]
fn binary_tree_relatives() {
    let mut b = BinaryTree::<i32>::new();
    for v in [2, 1, 3] {
        b.insert(v).unwrap();
    }
    let root = b.root.unwrap();
    let left = b.nodes[root].as_ref().unwrap().get_left().unwrap();
    let right = b.nodes[root].as_ref().unwrap().get_right().unwrap();
    assert_eq!(b.nodes[left].as_ref().unwrap().value, 1);
    assert_eq!(b.nodes[right].as_ref().unwrap().value, 3);
    assert!(BinaryTreeNode::is_left_child(&b, left));
    assert!(!BinaryTreeNode::is_right_child(&b, left));
    assert!(BinaryTreeNode::is_right_child(&b, right));
    assert!(!BinaryTreeNode::is_left_child(&b, root));
    assert_eq!(BinaryTreeNode::get_sibling(&b, left), Some(right));
    assert_eq!(BinaryTreeNode::get_sibling(&b, root), None);
    assert_eq!(BinaryTreeNode::get_grandparent(&b, left), None);
    assert_eq!(BinaryTreeNode::get_uncle(&b, left), None);
    assert!(!BinaryTreeNode::is_triangle(&b, left));
    assert!(!BinaryTreeNode::is_line(&b, left));

    b.insert(4).unwrap();
    let four = b.nodes[right].as_ref().unwrap().get_right().unwrap();
    assert_eq!(BinaryTreeNode::get_grandparent(&b, four), Some(root));
    assert_eq!(BinaryTreeNode::get_uncle(&b, four), Some(left));
    assert!(BinaryTreeNode::is_line(&b, four));
    assert!(!BinaryTreeNode::is_triangle(&b, four));
    assert_eq!(BinaryTreeNode::get_node_depth(&b, four), 2);
    assert_eq!(BinaryTreeNode::get_depth(&b, root), 3);
    assert_eq!(BinaryTreeNode::get_depth(&b, four), 1);
    let _ = TraversalType::InOrder;
}

#[test]
fn binary_tree_traversals() {
    let mut b = BinaryTree::<i32>::new();
    assert!(b.traverse(TraversalType::InOrder).is_empty());
    for v in [2, 1, 3] {
        b.insert(v).unwrap();
    }
    let values = |b: &BinaryTree<i32>, order: TraversalType| -> Vec<i32> {
        b.traverse(order).iter().map(|i| *b.get_value(*i).unwrap()).collect()
    };
    assert_eq!(values(&b, TraversalType::PreOrder), vec![2, 1, 3]);
    assert_eq!(values(&b, TraversalType::InOrder), vec![1, 2, 3]);
    assert_eq!(values(&b, TraversalType::ReverseInOrder), vec![3, 2, 1]);
    assert_eq!(values(&b, TraversalType::PostOrder), vec![1, 3, 2]);
    for v in [9, -4, 7, 0, 7, 12, -8] {
        b.insert(v).unwrap();
    }
    assert_eq!(values(&b, TraversalType::InOrder), vec![-8, -4, 0, 1, 2, 3, 7, 7, 9, 12]);
    assert_eq!(values(&b, TraversalType::ReverseInOrder), vec![12, 9, 7, 7, 3, 2, 1, 0, -4, -8]);
    assert_eq!(b.traverse(TraversalType::PreOrder)[0], b.root.unwrap());
    assert_eq!(*b.traverse(TraversalType::PostOrder).last().unwrap(), b.root.unwrap());
    assert!(b.get_value(1000).is_none());
}

#[test]
fn binary_tree_unlink_by_node() {
    let mut b = BinaryTree::<i32>::new();
    for v in [5, 3, 8, 1, 4] {
        b.insert(v).unwrap();
    }
    let order = b.traverse(TraversalType::InOrder);
    let (one, three, four, five, eight) = (order[0], order[1], order[2], order[3], order[4]);
    assert_eq!(b.nodes[three].as_ref().unwrap().get_parent(), Some(five));
    assert_eq!(b.nodes[three].as_ref().unwrap().get_left(), Some(one));
    assert_eq!(b.nodes[three].as_ref().unwrap().get_right(), Some(four));
    let black = b.nodes[three].as_ref().unwrap().is_black();
    BinaryTreeNode::unlink(&mut b, three);
    // The node is still there, alone.
    let n = b.nodes[three].as_ref().unwrap();
    assert_eq!(*b.get_value(three).unwrap(), 3);
    assert_eq!(n.is_black(), black);
    assert_eq!(n.get_parent(), None);
    assert_eq!(n.get_left(), None);
    assert_eq!(n.get_right(), None);
    // Its parent forgot it and kept its other child.
    let p = b.nodes[five].as_ref().unwrap();
    assert_eq!(p.get_left(), None);
    assert_eq!(p.get_right(), Some(eight));
    assert_eq!(p.get_parent(), None);
    // Its children have no parent, and are otherwise as they were.
    for c in [one, four] {
        let child = b.nodes[c].as_ref().unwrap();
        assert_eq!(child.get_parent(), None);
        assert_eq!(child.get_left(), None);
        assert_eq!(child.get_right(), None);
    }
    assert_eq!(*b.get_value(one).unwrap(), 1);
    assert_eq!(*b.get_value(four).unwrap(), 4);
    // The tree under the root holds what was outside the subtree of the node.
    assert_eq!(b.root, Some(five));
    let left: Vec<i32> =
        b.traverse(TraversalType::InOrder).iter().map(|i| *b.get_value(*i).unwrap()).collect();
    assert_eq!(left, vec![5, 8]);
    assert!(b.get(3).is_none());
    assert!(b.get(1).is_none());
    assert_eq!(b.nodes_count(), 2);
    // No place of the arena was freed: a new value gets a new place.
    b.insert(6).unwrap();
    assert_eq!(*b.get_value(three).unwrap(), 3);
    assert_eq!(*b.get(6).unwrap(), 6);
    let grown: Vec<i32> =
        b.traverse(TraversalType::InOrder).iter().map(|i| *b.get_value(*i).unwrap()).collect();
    assert_eq!(grown, vec![5, 6, 8]);
}

#[test]
fn binary_tree_unlink_the_root() {
    let mut b = BinaryTree::<i32>::new();
    for v in [2, 1, 3] {
        b.insert(v).unwrap();
    }
    let root = b.root.unwrap();
    let order = b.traverse(TraversalType::InOrder);
    assert_eq!(order[1], root);
    BinaryTreeNode::unlink(&mut b, root);
    assert_eq!(b.root, Some(root));
    let n = b.nodes[root].as_ref().unwrap();
    assert_eq!(n.get_left(), None);
    assert_eq!(n.get_right(), None);
    assert_eq!(n.get_parent(), None);
    assert_eq!(b.nodes[order[0]].as_ref().unwrap().get_parent(), None);
    assert_eq!(b.nodes[order[2]].as_ref().unwrap().get_parent(), None);
    assert_eq!(*b.get_value(order[0]).unwrap(), 1);
    assert_eq!(*b.get_value(order[2]).unwrap(), 3);
    assert_eq!(b.traverse(TraversalType::InOrder), vec![root]);
    assert_eq!(b.nodes_count(), 1);
    assert!(b.get(1).is_none());
    assert_eq!(*b.get(2).unwrap(), 2);
}

#[test]
fn binary_tree_unlink_a_leaf() {
    let mut b = BinaryTree::<i32>::new();
    for v in [2, 1, 3] {
        b.insert(v).unwrap();
    }
    let order = b.traverse(TraversalType::InOrder);
    BinaryTreeNode::unlink(&mut b, order[2]);
    let root = b.nodes[order[1]].as_ref().unwrap();
    assert_eq!(root.get_left(), Some(order[0]));
    assert_eq!(root.get_right(), None);
    assert_eq!(*b.get_value(order[2]).unwrap(), 3);
    assert_eq!(b.traverse(TraversalType::InOrder), vec![order[0], order[1]]);
    check_links_under_root(&b);
}

#[test]
fn binary_tree_remove_by_node() {
    let mut b = BinaryTree::<i32>::new();
    for v in [5, 3, 8, 1, 4] {
        b.insert(v).unwrap();
    }
    let order = b.traverse(TraversalType::InOrder);
    let three = order[1];
    assert_eq!(*b.get_value(three).unwrap(), 3);
    b.remove_node(three);
    assert!(b.get_value(three).is_none());
    assert!(b.get(3).is_none());
    let left: Vec<i32> =
        b.traverse(TraversalType::InOrder).iter().map(|i| *b.get_value(*i).unwrap()).collect();
    assert_eq!(left, vec![1, 4, 5, 8]);
    check_links(&b);
    // Every other node kept its place and its value.
    assert_eq!(*b.get_value(order[0]).unwrap(), 1);
    assert_eq!(*b.get_value(order[2]).unwrap(), 4);
    assert_eq!(*b.get_value(order[3]).unwrap(), 5);
    assert_eq!(*b.get_value(order[4]).unwrap(), 8);
    // The place of the node is used again.
    b.insert(6).unwrap();
    assert_eq!(*b.get_value(three).unwrap(), 6);
    assert_eq!(*b.get_value(order[0]).unwrap(), 1);
}

#[test]
fn binary_tree_nodes_keep_their_places() {
    let mut b = BinaryTree::<i32>::new();
    let mut places: Vec<(usize, i32)> = Vec::new();
    for v in [10, 20, 30, 40, 50, 60, 70] {
        b.insert(v).unwrap();
        let at = b
            .traverse(TraversalType::InOrder)
            .into_iter()
            .find(|i| *b.get_value(*i).unwrap() == v)
            .unwrap();
        places.push((at, v));
        for (place, value) in places.iter() {
            assert_eq!(*b.get_value(*place).unwrap(), *value);
        }
    }
    b.remove(40);
    for (place, value) in places.iter() {
        if *value == 40 {
            assert!(b.get_value(*place).is_none());
        } else {
            assert_eq!(*b.get_value(*place).unwrap(), *value);
        }
    }
}

#[test]
fn binary_tree_of_unsigned_values() {
    let mut b = BinaryTree::<u64>::new();
    for v in [u64::MAX, 0, 1 << 40] {
        b.insert(v).unwrap();
    }
    assert_eq!(*b.get(u64::MAX).unwrap(), u64::MAX);
    assert!(b.get(5).is_none());
    let mut c = BinaryTree::<usize>::new();
    c.insert(3).unwrap();
    assert!(c.get(3).is_some());
    let mut d = BinaryTree::<u32>::new();
    d.insert(3).unwrap();
    d.remove(3);
    assert!(d.is_empty());
    let mut e = BinaryTree::<i64>::new();
    e.insert(-3).unwrap();
    assert_eq!(*e.get(-3).unwrap(), -3);
}

fn black_height(b: &BinaryTree<i32>, node: Option<usize>) -> usize {
    match node {
        None => 0,
        Some(i) => {
            let n = b.nodes[i].as_ref().unwrap();
            let left = black_height(b, n.get_left());
            let right = black_height(b, n.get_right());
            assert_eq!(left, right);
            if n.is_red() {
                for child in [n.get_left(), n.get_right()].into_iter().flatten() {
                    assert!(b.nodes[child].as_ref().unwrap().is_black());
                }
                left
            } else {
                left + 1
            }
        },
    }
}

#[test]
fn binary_tree_insertions_keep_the_tree_red_black() {
    let mut b = BinaryTree::<i32>::new();
    let mut seed: u32 = 12345;
    for round in 0..500 {
        seed = seed.wrapping_mul(1103515245).wrapping_add(12345);
        let value = ((seed >> 8) % 200) as i32 - 100;
        b.insert(value).unwrap();
        let root = b.root.unwrap();
        assert!(b.nodes[root].as_ref().unwrap().is_black());
        let height = black_height(&b, b.root);
        assert!(b.get_depth() <= 2 * height);
        assert!((1usize << height) <= b.nodes_count() + 1);
        assert_eq!(b.nodes_count(), round + 1);
        check_links(&b);
    }
    let in_order: Vec<i32> = b
        .traverse(TraversalType::InOrder)
        .iter()
        .map(|i| *b.get_value(*i).unwrap())
        .collect();
    let mut sorted = in_order.clone();
    sorted.sort();
    assert_eq!(in_order, sorted);
}

#[test]
fn binary_tree_rotations_keep_the_order() {
    let mut b = BinaryTree::<i32>::new();
    for v in [4, 2, 6, 1, 3, 5, 7] {
        b.insert(v).unwrap();
    }
    assert!(b.check());
    let values = |b: &BinaryTree<i32>| -> Vec<i32> {
        b.traverse(TraversalType::InOrder).iter().map(|i| *b.get_value(*i).unwrap()).collect()
    };
    let before = values(&b);
    let root = b.root.unwrap();
    let right = b.nodes[root].as_ref().unwrap().get_right().unwrap();
    let inner = b.nodes[right].as_ref().unwrap().get_left();
    BinaryTreeNode::left_rotate(&mut b, right);
    assert_eq!(b.root, Some(right));
    assert_eq!(b.nodes[right].as_ref().unwrap().get_left(), Some(root));
    assert_eq!(b.nodes[right].as_ref().unwrap().get_parent(), None);
    assert_eq!(b.nodes[root].as_ref().unwrap().get_parent(), Some(right));
    assert_eq!(b.nodes[root].as_ref().unwrap().get_right(), inner);
    assert_eq!(values(&b), before);
    assert!(b.check());
    check_links(&b);
    BinaryTreeNode::right_rotate(&mut b, root);
    assert_eq!(b.root, Some(root));
    assert_eq!(b.nodes[root].as_ref().unwrap().get_right(), Some(right));
    assert_eq!(b.nodes[right].as_ref().unwrap().get_left(), inner);
    assert_eq!(values(&b), before);
    assert!(b.check());
    // A broken link is found.
    let left = b.nodes[root].as_ref().unwrap().get_left().unwrap();
    b.nodes[left].as_mut().unwrap().parent = Some(right);
    assert!(!b.check());
}

fn place_of(b: &BinaryTree<i32>, value: i32) -> usize {
    b.traverse(TraversalType::InOrder).into_iter().find(|i| *b.get_value(*i).unwrap() == value).unwrap()
}

fn in_order(b: &BinaryTree<i32>) -> Vec<i32> {
    b.traverse(TraversalType::InOrder).iter().map(|i| *b.get_value(*i).unwrap()).collect()
}

#[test]
fn binary_tree_insert_left_takes_over_the_left_child() {
    let mut b = BinaryTree::<i32>::new();
    for v in [10, 5, 15, 7] {
        b.insert(v).unwrap();
    }
    let (five, seven, ten) = (place_of(&b, 5), place_of(&b, 7), place_of(&b, 10));
    assert_eq!(b.nodes[five].as_ref().unwrap().get_right(), Some(seven));
    BinaryTreeNode::unlink(&mut b, seven);
    assert_eq!(in_order(&b), vec![5, 10, 15]);
    assert_eq!(b.nodes[ten].as_ref().unwrap().get_left(), Some(five));
    BinaryTreeNode::insert_left(&mut b, ten, seven);
    assert_eq!(in_order(&b), vec![5, 7, 10, 15]);
    assert_eq!(b.nodes[ten].as_ref().unwrap().get_left(), Some(seven));
    let n = b.nodes[seven].as_ref().unwrap();
    assert_eq!(n.get_parent(), Some(ten));
    assert_eq!(n.get_left(), Some(five));
    assert_eq!(n.get_right(), None);
    assert_eq!(b.nodes[five].as_ref().unwrap().get_parent(), Some(seven));
    assert_eq!(*b.get(7).unwrap(), 7);
    assert_eq!(b.nodes_count(), 4);
    check_links_under_root(&b);
}

#[test]
fn binary_tree_insert_right_takes_over_the_right_child() {
    let mut b = BinaryTree::<i32>::new();
    for v in [10, 5, 15, 12] {
        b.insert(v).unwrap();
    }
    let (twelve, fifteen, ten) = (place_of(&b, 12), place_of(&b, 15), place_of(&b, 10));
    BinaryTreeNode::unlink(&mut b, twelve);
    assert_eq!(in_order(&b), vec![5, 10, 15]);
    BinaryTreeNode::insert_right(&mut b, ten, twelve);
    assert_eq!(in_order(&b), vec![5, 10, 12, 15]);
    assert_eq!(b.nodes[ten].as_ref().unwrap().get_right(), Some(twelve));
    let n = b.nodes[twelve].as_ref().unwrap();
    assert_eq!(n.get_parent(), Some(ten));
    assert_eq!(n.get_left(), None);
    assert_eq!(n.get_right(), Some(fifteen));
    assert_eq!(b.nodes[fifteen].as_ref().unwrap().get_parent(), Some(twelve));
    assert_eq!(*b.get(12).unwrap(), 12);
    check_links_under_root(&b);
}

#[test]
fn binary_tree_insert_left_and_right_under_a_leaf() {
    let mut b = BinaryTree::<i32>::new();
    for v in [2, 1, 3] {
        b.insert(v).unwrap();
    }
    let (one, two, three) = (place_of(&b, 1), place_of(&b, 2), place_of(&b, 3));
    BinaryTreeNode::unlink(&mut b, one);
    BinaryTreeNode::unlink(&mut b, three);
    assert_eq!(in_order(&b), vec![2]);
    BinaryTreeNode::insert_right(&mut b, two, three);
    assert_eq!(in_order(&b), vec![2, 3]);
    BinaryTreeNode::insert_left(&mut b, two, one);
    assert_eq!(in_order(&b), vec![1, 2, 3]);
    assert_eq!(b.nodes[two].as_ref().unwrap().get_left(), Some(one));
    assert_eq!(b.nodes[two].as_ref().unwrap().get_right(), Some(three));
    assert_eq!(b.nodes[one].as_ref().unwrap().get_parent(), Some(two));
    assert_eq!(b.nodes[three].as_ref().unwrap().get_parent(), Some(two));
    check_links_under_root(&b);
    b.remove(2);
    assert_eq!(in_order(&b), vec![1, 3]);
}

#[test]
fn binary_tree_unlink_a_node_that_is_apart() {
    let mut b = BinaryTree::<i32>::new();
    for v in [4, 2, 6, 1, 3, 5, 7] {
        b.insert(v).unwrap();
    }
    let places: Vec<usize> = (1..=7).map(|v| place_of(&b, v)).collect();
    let at = |v: usize| places[v - 1];
    assert_eq!(b.root, Some(at(4)));
    // Unlinking the root leaves it alone in the tree; its children keep theirs.
    BinaryTreeNode::unlink(&mut b, at(4));
    assert!(b.check());
    assert_eq!(in_order(&b), vec![4]);
    assert_eq!(b.nodes[at(2)].as_ref().unwrap().get_parent(), None);
    assert_eq!(b.nodes[at(2)].as_ref().unwrap().get_left(), Some(at(1)));
    assert_eq!(b.nodes[at(2)].as_ref().unwrap().get_right(), Some(at(3)));
    assert_eq!(b.nodes[at(6)].as_ref().unwrap().get_left(), Some(at(5)));
    // A node that is apart from the tree can be unlinked from its own relatives.
    BinaryTreeNode::unlink(&mut b, at(2));
    assert!(b.check());
    assert_eq!(in_order(&b), vec![4]);
    assert_eq!(b.nodes[at(2)].as_ref().unwrap().get_left(), None);
    assert_eq!(b.nodes[at(2)].as_ref().unwrap().get_right(), None);
    assert_eq!(b.nodes[at(1)].as_ref().unwrap().get_parent(), None);
    assert_eq!(b.nodes[at(3)].as_ref().unwrap().get_parent(), None);
    assert_eq!(b.nodes[at(6)].as_ref().unwrap().get_right(), Some(at(7)));
    BinaryTreeNode::unlink(&mut b, at(5));
    assert_eq!(b.nodes[at(6)].as_ref().unwrap().get_left(), None);
    assert_eq!(b.nodes[at(6)].as_ref().unwrap().get_right(), Some(at(7)));
    assert_eq!(b.nodes[at(5)].as_ref().unwrap().get_parent(), None);
    for v in 1..=7 {
        assert_eq!(*b.get_value(at(v)).unwrap(), v as i32);
    }
    // The nodes without a relative can be hung in the tree again.
    BinaryTreeNode::insert_left(&mut b, at(4), at(2));
    BinaryTreeNode::insert_left(&mut b, at(2), at(1));
    BinaryTreeNode::insert_right(&mut b, at(4), at(5));
    assert_eq!(in_order(&b), vec![1, 2, 4, 5]);
    assert!(b.check());
    check_links_under_root(&b);
}
