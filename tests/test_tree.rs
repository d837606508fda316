use links::tree::TreeNode;
use quickcheck::quickcheck;
use std::collections::HashSet;

fn validate<T: Ord>(node: &TreeNode<T>) -> bool {
    fn property1<T: Ord>(tree: &TreeNode<T>, min: Option<&T>, max: Option<&T>) -> bool {
        match tree {
            TreeNode::Leaf => true,
            TreeNode::Node(value, left, right) => {
                min.map_or(true, |min| value > min)
                    && max.map_or(true, |max| value < max)
                    && property1(left, min, Some(value))
                    && property1(right, Some(value), max)
            }
        }
    }
    fn property2<T: Ord>(tree: &TreeNode<T>) -> Option<i32> {
        match tree {
            TreeNode::Leaf => Some(0),
            TreeNode::Node(_, left, right) => {
                let x = property2(left)?;
                let y = property2(right)?;
                Some((x - y).abs()).filter(|x| x <= &1).map(|_| 1 + x.max(y))
            }
        }
    }
    property1(node, None, None) && property2(node).is_some()
}

fn leaf() -> TreeNode<i32> {
    TreeNode::Leaf
}

fn single(v: i32) -> TreeNode<i32> {
    TreeNode::node(v, leaf(), leaf())
}

#[test]
fn test_rebalance_root_5() {
    {
        let mut t = TreeNode::new();

        t.insert(1);
        assert!(validate(&t));
        t.insert(0);
        assert!(validate(&t));
        t.insert(-1);
        assert!(validate(&t));
    }

    {
        let mut t = TreeNode::new();
        t.insert(1);
        assert!(validate(&t));
        t.insert(2);
        assert!(validate(&t));
        t.insert(3);
        assert!(validate(&t));
    }
}

#[test]
fn test_insert_5() {
    fn insert_is_valid(v: Vec<i32>) -> bool {
        let mut t = TreeNode::new();
        for x in v.iter() {
            t.insert(*x);
            if !validate(&t) {
                return false;
            }
        }
        return true;
    }
    quickcheck(insert_is_valid as fn(Vec<i32>) -> bool);
}

#[test]
fn insert_roundtrip_is_sorted_and_distinct() {
    fn roundtrip(v: Vec<i32>) -> bool {
        let mut t = TreeNode::new();
        for x in v.iter() {
            t.insert(*x);
        }
        let v2: Vec<i32> = t.into_vec();
        let set: HashSet<i32> = v.iter().cloned().collect();
        let mut expected: Vec<i32> = set.into_iter().collect();
        expected.sort();
        v2 == expected
    }
    quickcheck(roundtrip as fn(Vec<i32>) -> bool);
}

#[test]
fn insert_same_value_keeps_one_node() {
    let mut t = TreeNode::new();
    t.insert(1);
    t.insert(1);
    t.insert(1);
    t.insert(1);
    assert_eq!(t, single(1));
}

#[test]
fn rotate_right_literal_case() {
    let mut t = TreeNode::node(1, TreeNode::node(2, single(3), leaf()), leaf());
    t.right_rotate();
    assert_eq!(t, TreeNode::node(2, single(3), single(1)));
}

#[test]
fn rotate_left_literal_case() {
    let mut t = TreeNode::node(1, leaf(), TreeNode::node(2, leaf(), single(3)));
    t.left_rotate();
    assert_eq!(t, TreeNode::node(2, single(1), single(3)));
}

#[test]
fn rotations_without_child_do_nothing() {
    let mut t = TreeNode::node(5, leaf(), single(7));
    t.right_rotate();
    assert_eq!(t, TreeNode::node(5, leaf(), single(7)));
    let mut u = TreeNode::node(5, single(3), leaf());
    u.left_rotate();
    assert_eq!(u, TreeNode::node(5, single(3), leaf()));
    let mut e = leaf();
    e.left_rotate();
    e.right_rotate();
    assert_eq!(e, leaf());
}

#[test]
fn ascending_inserts_rotate_root_to_middle() {
    let mut t = TreeNode::new();
    t.insert(1);
    assert!(t.validate());
    t.insert(2);
    assert!(t.validate());
    t.insert(3);
    assert!(t.validate());
    assert_eq!(t, TreeNode::node(2, single(1), single(3)));
}

#[test]
fn double_rotation_on_zigzag_inserts() {
    let mut t = TreeNode::new();
    t.insert(3);
    t.insert(1);
    t.insert(2);
    assert_eq!(t, TreeNode::node(2, single(1), single(3)));
    let mut u = TreeNode::new();
    u.insert(1);
    u.insert(3);
    u.insert(2);
    assert_eq!(u, TreeNode::node(2, single(1), single(3)));
}

#[test]
fn height_of_trees() {
    assert_eq!(leaf().height(), 0);
    assert_eq!(single(4).height(), 1);
    assert_eq!(TreeNode::node(1, TreeNode::node(2, single(3), leaf()), leaf()).height(), 3);
}

#[test]
fn height_stays_logarithmic() {
    let values: Vec<i32> = (0..1000).collect();
    let t = TreeNode::from_vec(values);
    assert!(t.validate());
    // 2^(h / 2) <= n + 1 gives h <= 19 for n = 1000.
    assert!(t.height() <= 19);
    assert!(t.height() >= 10);
}

#[test]
fn validate_rejects_unordered_and_unbalanced() {
    let unordered = TreeNode::node(1, single(2), leaf());
    assert!(!unordered.validate());
    assert!(unordered.is_balanced());
    let deep_right = TreeNode::node(3, single(1), single(5));
    assert!(deep_right.validate());
    let unbalanced = TreeNode::node(1, TreeNode::node(2, single(3), leaf()), leaf());
    assert!(!unbalanced.is_balanced());
    assert!(!unbalanced.validate());
    let far = TreeNode::node(5, TreeNode::node(2, leaf(), single(7)), single(9));
    assert!(far.is_balanced());
    assert!(!far.validate());
    assert!(leaf().validate());
}

#[test]
fn from_and_into_vec() {
    let t: TreeNode<i32> = TreeNode::from(vec![5, 3, 8, 3, 1, 5]);
    assert!(t.validate());
    assert_eq!(t.into_vec(), vec![1, 3, 5, 8]);
    let e: TreeNode<i32> = TreeNode::from(Vec::new());
    assert_eq!(e, leaf());
    assert_eq!(e.into_vec(), Vec::<i32>::new());
}

#[test]
fn default_tree_is_leaf() {
    let t: TreeNode<i32> = TreeNode::default();
    assert_eq!(t, leaf());
}

#[test]
fn show_lays_out_levels_centred() {
    let t = TreeNode::node(2, single(1), single(3));
    assert_eq!(t.show(3), "    2    \n 1     3 ");
}

#[test]
fn show_of_small_trees() {
    assert_eq!(leaf().show(3), "");
    assert_eq!(single(7).show(1), "7");
    let t = TreeNode::node(5, single(4), leaf());
    assert_eq!(t.show(1), " 5 \n4  ");
}

#[test]
fn clone_and_equality() {
    let t = TreeNode::node(2, single(1), single(3));
    let c = t.clone();
    assert_eq!(t, c);
    assert_ne!(t, TreeNode::node(2, single(1), leaf()));
    assert_ne!(t, TreeNode::node(-2, single(1), single(3)));
    assert_ne!(leaf(), single(0));
}
