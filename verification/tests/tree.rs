use rbtree::utils::read_blocks_from_bytes;
use rbtree::{NodeDirection, RbNode, RbTrait, RbTree};

#[derive(PartialOrd, PartialEq)]
struct Test {
    key: i32,
}

impl RbTrait<i32> for Test {
    fn new(key: i32) -> Self {
        Test { key }
    }

    fn get(&self) -> i32 {
        self.key
    }

    fn set(&mut self, key: i32) {
        self.key = key
    }
}

/// A small generator of pseudo-random bytes (xorshift), so that the tests
/// need no byte source outside the process.
fn random_bytes(seed: u64, len: usize) -> Vec<u8> {
    let mut state = seed | 1;
    let mut out = Vec::with_capacity(len);
    while out.len() < len {
        state ^= state << 13;
        state ^= state >> 7;
        state ^= state << 17;
        out.extend_from_slice(&state.to_le_bytes());
    }
    out.truncate(len);
    out
}

fn keys_in_order(tree: &RbTree<i32, Test>, nodes: &[RbNode<i32, Test>]) -> Vec<i32> {
    tree.traversal_inorder(nodes).iter().map(|h| nodes[*h].val().key).collect()
}

fn dump(tree: &RbTree<i32, Test>, nodes: &[RbNode<i32, Test>]) {
    for h in tree.traversal_preorder(nodes, tree.get_root()) {
        let node = &nodes[h];
        let color = if node.is_red() { 'R' } else { 'B' };
        let show = |link: Option<usize>| match link {
            Some(k) => format!("{}", nodes[k].val().key),
            None => format!("nil"),
        };
        println!(
            "{}({}): parent: {}, left: {}, right: {}",
            color,
            node.val().key,
            show(node.get_parent()),
            show(node.get_child(NodeDirection::LeftChild)),
            show(node.get_child(NodeDirection::RightChild))
        );
    }
}

/// Whether parent and child links agree below `h`, and how many nodes
/// hang there.
fn links_agree(nodes: &[RbNode<i32, Test>], h: Option<usize>, parent: Option<usize>) -> usize {
    match h {
        None => 0,
        Some(h) => {
            assert_eq!(nodes[h].get_parent(), parent);
            1 + links_agree(nodes, nodes[h].get_child(NodeDirection::LeftChild), Some(h))
                + links_agree(nodes, nodes[h].get_child(NodeDirection::RightChild), Some(h))
        }
    }
}

fn permutations(n: usize) -> Vec<Vec<usize>> {
    if n == 0 {
        return vec![Vec::new()];
    }
    let mut out = Vec::new();
    for p in permutations(n - 1) {
        for at in 0..n {
            let mut q = p.clone();
            q.insert(at, n - 1);
            out.push(q);
        }
    }
    out
}

#[test]
fn every_order_of_six_inserts_and_deletes() {
    let all = permutations(6);
    assert_eq!(all.len(), 720);
    for (round, p) in all.iter().enumerate() {
        let mut nodes: Vec<RbNode<i32, Test>> =
            (0..6).map(|k| RbNode::<i32, Test>::new(10 * k)).collect();
        let mut tree = RbTree::<i32, Test>::new();
        let mut present: Vec<usize> = Vec::new();
        for h in p {
            tree.insert(&mut nodes, *h);
            present.push(*h);
            present.sort();
            assert!(tree.verify_tree(&nodes));
            assert_eq!(tree.traversal_inorder(&nodes), present);
            assert_eq!(links_agree(&nodes, tree.get_root(), None), present.len());
        }
        // Delete in another order each round.
        let q = &all[(round * 7 + 3) % all.len()];
        for h in q {
            tree.delete(&mut nodes, *h);
            present.retain(|x| x != h);
            assert!(tree.verify_tree(&nodes));
            assert_eq!(tree.traversal_inorder(&nodes), present);
            assert_eq!(links_agree(&nodes, tree.get_root(), None), present.len());
            assert!(nodes[*h].is_red());
            assert_eq!(nodes[*h].get_parent(), None);
        }
        assert_eq!(tree.get_root(), None);
    }
}

#[test]
fn deleting_a_red_leaf_changes_nothing_else() {
    let keys = [20, 10, 30];
    let mut nodes: Vec<RbNode<i32, Test>> =
        keys.iter().map(|k| RbNode::<i32, Test>::new(*k)).collect();
    let mut tree = RbTree::<i32, Test>::new();
    for h in 0..3 {
        tree.insert(&mut nodes, h);
    }
    tree.delete(&mut nodes, 1);
    assert_eq!(tree.traversal_preorder(&nodes, tree.get_root()), vec![0, 2]);
    assert!(nodes[0].is_black());
    assert!(nodes[2].is_red());
    assert_eq!(nodes[0].get_child(NodeDirection::LeftChild), None);
    assert_eq!(nodes[0].get_child(NodeDirection::RightChild), Some(2));
}

#[test]
fn deleting_a_node_with_one_child_promotes_the_child() {
    let keys = [20, 10, 30, 40];
    let mut nodes: Vec<RbNode<i32, Test>> =
        keys.iter().map(|k| RbNode::<i32, Test>::new(*k)).collect();
    let mut tree = RbTree::<i32, Test>::new();
    for h in 0..4 {
        tree.insert(&mut nodes, h);
    }
    // 30 is black with the one red child 40.
    assert!(nodes[2].is_black());
    assert_eq!(nodes[2].get_child(NodeDirection::RightChild), Some(3));
    tree.delete(&mut nodes, 2);
    assert_eq!(tree.traversal_preorder(&nodes, tree.get_root()), vec![0, 1, 3]);
    assert!(nodes[3].is_black());
    assert_eq!(nodes[3].get_parent(), Some(0));
    assert_eq!(nodes[0].get_child(NodeDirection::RightChild), Some(3));
    assert!(tree.verify_tree(&nodes));
}

#[test]
fn deleting_a_node_with_two_children_promotes_its_successor() {
    let keys = [20, 10, 30, 25, 40];
    let mut nodes: Vec<RbNode<i32, Test>> =
        keys.iter().map(|k| RbNode::<i32, Test>::new(*k)).collect();
    let mut tree = RbTree::<i32, Test>::new();
    for h in 0..5 {
        tree.insert(&mut nodes, h);
    }
    assert_eq!(tree.traversal_preorder(&nodes, tree.get_root()), vec![0, 1, 2, 3, 4]);
    // The root has two children; its successor is 25, deep in its right subtree.
    tree.delete(&mut nodes, 0);
    assert_eq!(tree.get_root(), Some(3));
    assert_eq!(tree.traversal_preorder(&nodes, tree.get_root()), vec![3, 1, 2, 4]);
    assert!(nodes[3].is_black());
    assert_eq!(nodes[3].get_parent(), None);
    assert_eq!(nodes[2].get_child(NodeDirection::LeftChild), None);
    assert!(tree.verify_tree(&nodes));
    // Now the successor of the root is its right child.
    tree.delete(&mut nodes, 3);
    assert_eq!(tree.get_root(), Some(2));
    assert_eq!(tree.traversal_preorder(&nodes, tree.get_root()), vec![2, 1, 4]);
    assert!(tree.verify_tree(&nodes));
}

#[test]
fn deleting_a_black_leaf_repairs_the_black_heights() {
    let keys = [20, 10, 30];
    let mut nodes: Vec<RbNode<i32, Test>> =
        keys.iter().map(|k| RbNode::<i32, Test>::new(*k)).collect();
    let mut tree = RbTree::<i32, Test>::new();
    for h in 0..3 {
        tree.insert(&mut nodes, h);
    }
    // Make both children black: insert and delete a fourth node below them.
    nodes.push(RbNode::<i32, Test>::new(5));
    tree.insert(&mut nodes, 3);
    tree.delete(&mut nodes, 3);
    assert!(nodes[1].is_black());
    assert!(nodes[2].is_black());
    // The black leaf 10 leaves; its sibling 30 turns red under the root.
    tree.delete(&mut nodes, 1);
    assert_eq!(tree.traversal_preorder(&nodes, tree.get_root()), vec![0, 2]);
    assert!(nodes[0].is_black());
    assert!(nodes[2].is_red());
    assert!(tree.verify_tree(&nodes));
}

#[test]
fn stress() {
    let mut array = [0i32; 1000];
    let mut tree = RbTree::<i32, Test>::new();
    let mut nodes: Vec<RbNode<i32, Test>> = (0..1000).map(|_| RbNode::<i32, Test>::new(0)).collect();

    let bytes = random_bytes(0x2545_f491_4f6c_dd1d, 4000);
    let _ = read_blocks_from_bytes(&bytes, &mut array, 1000);
    for i in 0..1000 {
        nodes[i].set(array[i]);
        tree.insert(&mut nodes, i);
        assert!(tree.verify_tree(&nodes));
    }

    for i in 0..1000 {
        tree.delete(&mut nodes, i);
        assert!(tree.verify_tree(&nodes));
    }
    assert!(tree.traversal_inorder(&nodes).is_empty());
    assert!(tree.verify_tree(&nodes));
}

#[test]
fn debug() {
    let keys = [1, 3, 8, 6, 5, 10, -1, 158, 10, 166, -56, 28, -158];
    let mut nodes: Vec<RbNode<i32, Test>> =
        keys.iter().map(|k| RbNode::<i32, Test>::new(*k)).collect();
    let (a, b, c, d, e, f, g, h, i, j, k, l, m) = (0, 1, 2, 3, 4, 5, 6, 7, 8, 9, 10, 11, 12);

    let mut tree = RbTree::<i32, Test>::new();

    tree.insert(&mut nodes, a)
        .insert(&mut nodes, b)
        .insert(&mut nodes, c)
        .insert(&mut nodes, d)
        .insert(&mut nodes, e)
        .insert(&mut nodes, f)
        .insert(&mut nodes, g)
        .insert(&mut nodes, h)
        .insert(&mut nodes, i)
        .insert(&mut nodes, j)
        .insert(&mut nodes, k)
        .insert(&mut nodes, l)
        .insert(&mut nodes, m);

    assert!(tree.verify_tree(&nodes));

    dump(&tree, &nodes);

    tree.delete(&mut nodes, a)
        .delete(&mut nodes, d)
        .delete(&mut nodes, h)
        .delete(&mut nodes, m)
        .delete(&mut nodes, k)
        .delete(&mut nodes, b)
        .delete(&mut nodes, i)
        .delete(&mut nodes, c)
        .delete(&mut nodes, j)
        .delete(&mut nodes, l)
        .delete(&mut nodes, e)
        .delete(&mut nodes, g)
        .delete(&mut nodes, f);

    dump(&tree, &nodes);
}

#[test]
fn worked_scenario_checked_after_every_step() {
    let keys = [1, 3, 8, 6, 5, 10, -1, 158, 10, 166, -56, 28, -158];
    let mut nodes: Vec<RbNode<i32, Test>> =
        keys.iter().map(|k| RbNode::<i32, Test>::new(*k)).collect();
    let mut tree = RbTree::<i32, Test>::new();
    assert!(tree.verify_tree(&nodes));
    for h in 0..nodes.len() {
        tree.insert(&mut nodes, h);
        assert!(tree.verify_tree(&nodes));
    }
    assert_eq!(
        keys_in_order(&tree, &nodes),
        vec![-158, -56, -1, 1, 3, 5, 6, 8, 10, 10, 28, 158, 166]
    );
    // Of the two nodes with equal payloads, the one inserted later stands behind.
    let order = tree.traversal_inorder(&nodes);
    assert_eq!(order[8], 5);
    assert_eq!(order[9], 8);

    let mut left: Vec<i32> = keys_in_order(&tree, &nodes);
    for h in [0usize, 3, 7, 12, 10, 1, 8, 2, 9, 11, 4, 6, 5] {
        let at = tree.traversal_inorder(&nodes).iter().position(|x| *x == h).unwrap();
        tree.delete(&mut nodes, h);
        left.remove(at);
        assert!(tree.verify_tree(&nodes));
        assert_eq!(keys_in_order(&tree, &nodes), left);
    }
    assert!(tree.traversal_inorder(&nodes).is_empty());
    assert!(tree.verify_tree(&nodes));
}

#[test]
fn empty_tree_is_valid() {
    let nodes: Vec<RbNode<i32, Test>> = Vec::new();
    let tree = RbTree::<i32, Test>::new();
    assert!(tree.verify_tree(&nodes));
    assert!(tree.verify_bst(&nodes));
    assert!(tree.traversal_inorder(&nodes).is_empty());
    assert!(tree.traversal_preorder(&nodes, None).is_empty());
    assert_eq!(tree.get_root(), None);
}

#[test]
fn new_node_is_red_and_unlinked() {
    let node = RbNode::<i32, Test>::new(7);
    assert!(node.is_red());
    assert!(!node.is_black());
    assert_eq!(node.get_parent(), None);
    assert_eq!(node.get_child(NodeDirection::LeftChild), None);
    assert_eq!(node.get_child(NodeDirection::RightChild), None);
    assert_eq!(node.val().key, 7);
    assert_eq!(node.val().get(), 7);
}

#[test]
fn set_replaces_the_key_and_keeps_the_links() {
    let mut node = RbNode::<i32, Test>::new(7);
    node.set(-3);
    assert_eq!(node.val().key, -3);
    assert!(node.is_red());
    assert_eq!(node.get_parent(), None);
}

#[test]
fn first_node_becomes_a_black_root() {
    let mut nodes = vec![RbNode::<i32, Test>::new(5)];
    let mut tree = RbTree::<i32, Test>::new();
    tree.insert(&mut nodes, 0);
    assert!(nodes[0].is_black());
    assert_eq!(nodes[0].get_parent(), None);
    assert_eq!(tree.get_root(), Some(0));
    assert_eq!(tree.traversal_inorder(&nodes), vec![0]);
    assert_eq!(tree.traversal_preorder(&nodes, Some(0)), vec![0]);
}

#[test]
fn root_is_black_after_every_operation() {
    let keys = [50, 20, 70, 10, 30, 60, 80, 5, 15, 25, 35, 1];
    let mut nodes: Vec<RbNode<i32, Test>> =
        keys.iter().map(|k| RbNode::<i32, Test>::new(*k)).collect();
    let mut tree = RbTree::<i32, Test>::new();
    for h in 0..nodes.len() {
        tree.insert(&mut nodes, h);
        let root = tree.get_root().unwrap();
        assert!(nodes[root].is_black());
        assert_eq!(nodes[root].get_parent(), None);
    }
    for h in [0usize, 5, 1, 11, 7, 2] {
        tree.delete(&mut nodes, h);
        let root = tree.get_root().unwrap();
        assert!(nodes[root].is_black());
        assert_eq!(nodes[root].get_parent(), None);
    }
}

#[test]
fn ascending_keys_rotate_into_a_balanced_tree() {
    let mut nodes: Vec<RbNode<i32, Test>> = (1..=3).map(|k| RbNode::<i32, Test>::new(k)).collect();
    let mut tree = RbTree::<i32, Test>::new();
    tree.insert(&mut nodes, 0).insert(&mut nodes, 1).insert(&mut nodes, 2);
    // 2 is the black root, 1 and 3 are its red children.
    assert_eq!(tree.traversal_preorder(&nodes, Some(1)), vec![1, 0, 2]);
    assert!(nodes[1].is_black());
    assert!(nodes[0].is_red());
    assert!(nodes[2].is_red());
    assert_eq!(nodes[1].get_child(NodeDirection::LeftChild), Some(0));
    assert_eq!(nodes[1].get_child(NodeDirection::RightChild), Some(2));
    assert_eq!(nodes[0].get_parent(), Some(1));
    assert_eq!(nodes[2].get_parent(), Some(1));
    assert_eq!(nodes[1].get_parent(), None);
}

#[test]
fn zig_zag_insert_rotates_twice() {
    let keys = [10, 30, 20];
    let mut nodes: Vec<RbNode<i32, Test>> =
        keys.iter().map(|k| RbNode::<i32, Test>::new(*k)).collect();
    let mut tree = RbTree::<i32, Test>::new();
    tree.insert(&mut nodes, 0).insert(&mut nodes, 1).insert(&mut nodes, 2);
    assert_eq!(tree.traversal_preorder(&nodes, Some(2)), vec![2, 0, 1]);
    assert!(nodes[2].is_black());
    assert!(nodes[0].is_red());
    assert!(nodes[1].is_red());
    assert!(tree.verify_tree(&nodes));
}

#[test]
fn red_uncle_flips_colours() {
    let keys = [20, 10, 30, 5];
    let mut nodes: Vec<RbNode<i32, Test>> =
        keys.iter().map(|k| RbNode::<i32, Test>::new(*k)).collect();
    let mut tree = RbTree::<i32, Test>::new();
    for h in 0..4 {
        tree.insert(&mut nodes, h);
    }
    assert_eq!(tree.traversal_preorder(&nodes, Some(0)), vec![0, 1, 3, 2]);
    assert!(nodes[0].is_black());
    assert!(nodes[1].is_black());
    assert!(nodes[2].is_black());
    assert!(nodes[3].is_red());
}

#[test]
fn equal_payloads_enter_behind_their_equals() {
    let mut nodes: Vec<RbNode<i32, Test>> = (0..5).map(|_| RbNode::<i32, Test>::new(4)).collect();
    let mut tree = RbTree::<i32, Test>::new();
    for h in 0..5 {
        tree.insert(&mut nodes, h);
        assert!(tree.verify_tree(&nodes));
    }
    assert_eq!(tree.traversal_inorder(&nodes), vec![0, 1, 2, 3, 4]);
}

#[test]
fn delete_removes_exactly_one_handle() {
    let keys = [8, 3, 10, 1, 6, 14, 4, 7, 13];
    let mut nodes: Vec<RbNode<i32, Test>> =
        keys.iter().map(|k| RbNode::<i32, Test>::new(*k)).collect();
    let mut tree = RbTree::<i32, Test>::new();
    for h in 0..nodes.len() {
        tree.insert(&mut nodes, h);
    }
    let before = tree.traversal_inorder(&nodes);
    assert_eq!(keys_in_order(&tree, &nodes), vec![1, 3, 4, 6, 7, 8, 10, 13, 14]);
    // A node with two children.
    tree.delete(&mut nodes, 1);
    let after = tree.traversal_inorder(&nodes);
    let expected: Vec<usize> = before.iter().copied().filter(|h| *h != 1).collect();
    assert_eq!(after, expected);
    assert_eq!(keys_in_order(&tree, &nodes), vec![1, 4, 6, 7, 8, 10, 13, 14]);
    assert!(tree.verify_tree(&nodes));
}

#[test]
fn deleted_node_is_unlinked_and_can_be_inserted_again() {
    let keys = [8, 3, 10, 1, 6];
    let mut nodes: Vec<RbNode<i32, Test>> =
        keys.iter().map(|k| RbNode::<i32, Test>::new(*k)).collect();
    let mut tree = RbTree::<i32, Test>::new();
    for h in 0..nodes.len() {
        tree.insert(&mut nodes, h);
    }
    tree.delete(&mut nodes, 0);
    assert!(nodes[0].is_red());
    assert_eq!(nodes[0].get_parent(), None);
    assert_eq!(nodes[0].get_child(NodeDirection::LeftChild), None);
    assert_eq!(nodes[0].get_child(NodeDirection::RightChild), None);
    assert_eq!(keys_in_order(&tree, &nodes), vec![1, 3, 6, 10]);

    nodes[0].set(5);
    tree.insert(&mut nodes, 0);
    assert_eq!(keys_in_order(&tree, &nodes), vec![1, 3, 5, 6, 10]);
    assert!(tree.verify_tree(&nodes));
}

#[test]
fn deleting_the_last_node_empties_the_tree() {
    let mut nodes = vec![RbNode::<i32, Test>::new(5)];
    let mut tree = RbTree::<i32, Test>::new();
    tree.insert(&mut nodes, 0);
    tree.delete(&mut nodes, 0);
    assert!(tree.traversal_inorder(&nodes).is_empty());
    assert!(tree.verify_tree(&nodes));
    tree.insert(&mut nodes, 0);
    assert_eq!(tree.traversal_inorder(&nodes), vec![0]);
}

#[test]
fn nodes_outside_the_tree_are_not_touched() {
    let keys = [8, 3, 10, 1, 6, 99];
    let mut nodes: Vec<RbNode<i32, Test>> =
        keys.iter().map(|k| RbNode::<i32, Test>::new(*k)).collect();
    let mut tree = RbTree::<i32, Test>::new();
    for h in 0..5 {
        tree.insert(&mut nodes, h);
    }
    tree.delete(&mut nodes, 2);
    assert!(nodes[5].is_red());
    assert_eq!(nodes[5].get_parent(), None);
    assert_eq!(nodes[5].val().key, 99);
    assert_eq!(tree.traversal_inorder(&nodes).len(), 4);
}

#[test]
fn a_changed_key_is_found_out_of_order() {
    let keys = [8, 3, 10];
    let mut nodes: Vec<RbNode<i32, Test>> =
        keys.iter().map(|k| RbNode::<i32, Test>::new(*k)).collect();
    let mut tree = RbTree::<i32, Test>::new();
    for h in 0..3 {
        tree.insert(&mut nodes, h);
    }
    assert!(tree.verify_bst(&nodes));
    nodes[1].set(9);
    assert!(!tree.verify_bst(&nodes));
    assert!(!tree.verify_tree(&nodes));
    nodes[1].set(8);
    assert!(tree.verify_tree(&nodes));
    nodes[2].set(7);
    assert!(!tree.verify_tree(&nodes));
}

#[test]
fn preorder_of_a_subtree() {
    let keys = [50, 20, 70, 10, 30, 60, 80];
    let mut nodes: Vec<RbNode<i32, Test>> =
        keys.iter().map(|k| RbNode::<i32, Test>::new(*k)).collect();
    let mut tree = RbTree::<i32, Test>::new();
    for h in 0..nodes.len() {
        tree.insert(&mut nodes, h);
    }
    assert_eq!(tree.traversal_preorder(&nodes, Some(0)), vec![0, 1, 3, 4, 2, 5, 6]);
    assert_eq!(tree.traversal_preorder(&nodes, Some(1)), vec![1, 3, 4]);
    assert_eq!(tree.traversal_preorder(&nodes, Some(6)), vec![6]);
    assert_eq!(tree.traversal_inorder(&nodes), vec![3, 1, 4, 0, 5, 2, 6]);
}

#[test]
fn distinct_values_come_out_ascending() {
    let bytes = random_bytes(42, 4 * 300);
    let mut array = vec![0i32; 300];
    assert_eq!(read_blocks_from_bytes(&bytes, &mut array, 300), Ok(()));
    let mut distinct: Vec<i32> = array.clone();
    distinct.sort();
    distinct.dedup();
    let mut nodes: Vec<RbNode<i32, Test>> = Vec::new();
    let mut tree = RbTree::<i32, Test>::new();
    let mut seen = std::collections::BTreeSet::new();
    for v in array {
        if seen.insert(v) {
            nodes.push(RbNode::<i32, Test>::new(v));
            let h = nodes.len() - 1;
            tree.insert(&mut nodes, h);
        }
    }
    assert_eq!(keys_in_order(&tree, &nodes), distinct);
}

#[test]
fn descending_deletes_keep_the_tree_valid() {
    let mut nodes: Vec<RbNode<i32, Test>> = (0..200).map(|k| RbNode::<i32, Test>::new(k)).collect();
    let mut tree = RbTree::<i32, Test>::new();
    for h in 0..200 {
        tree.insert(&mut nodes, h);
    }
    for h in (0..200).rev() {
        tree.delete(&mut nodes, h);
        assert!(tree.verify_tree(&nodes));
        assert_eq!(tree.traversal_inorder(&nodes), (0..h).collect::<Vec<usize>>());
    }
}

#[test]
fn directions_convert() {
    assert_eq!(usize::from(NodeDirection::LeftChild), 0);
    assert_eq!(usize::from(NodeDirection::RightChild), 1);
    assert_eq!(NodeDirection::from(false), NodeDirection::LeftChild);
    assert_eq!(NodeDirection::from(true), NodeDirection::RightChild);
    assert_eq!(NodeDirection::LeftChild.opposite(), NodeDirection::RightChild);
    assert_eq!(NodeDirection::RightChild.opposite(), NodeDirection::LeftChild);
}

#[test]
fn colours_have_letters() {
    assert_eq!(rbtree::NodeColor::Red.letter(), 'R');
    assert_eq!(rbtree::NodeColor::Black.letter(), 'B');
}
