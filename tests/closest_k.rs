use closest_bst_values::closest::{ClosestKError, Solution};
use closest_bst_values::target::{Target, scaled_distance};
use closest_bst_values::tree::{TestFixtures, TreeNode};

fn balanced(lo: i32, hi: i32) -> Option<Box<TreeNode>> {
    if lo > hi {
        return None;
    }
    let mid = lo + (hi - lo) / 2;
    let mut node = TreeNode::new(mid);
    node.left = balanced(lo, mid - 1);
    node.right = balanced(mid + 1, hi);
    TreeNode::to_sub_tree(node)
}

fn values(t: &Option<Box<TreeNode>>, out: &mut Vec<i32>) {
    if let Some(n) = t {
        values(&n.left, out);
        out.push(n.val);
        values(&n.right, out);
    }
}

fn brute_force(all: &[i32], target: Target, k: usize) -> Vec<i32> {
    let mut sorted: Vec<i32> = all.to_vec();
    sorted.sort_by_key(|&v| (scaled_distance(v, target), v));
    let mut picked: Vec<i32> = sorted[..k].to_vec();
    picked.sort();
    picked
}

#[test]
fn sample_1() {
    let result = Solution::closest_k_values(
        &TestFixtures::test_fixture_1(),
        Target { num: 3714286, den: 1000000 },
        2,
    );
    assert_eq!(result, Ok(vec![3, 4]));
}

#[test]
fn sample_2() {
    let result = Solution::closest_k_values(&TestFixtures::test_fixture_2(), Target { num: 0, den: 1 }, 1);
    assert_eq!(result, Ok(vec![1]));
}

#[test]
fn empty_tree_is_refused() {
    let result = Solution::closest_k_values(&None, Target { num: 1, den: 1 }, 1);
    assert_eq!(result, Err(ClosestKError::EmptyTree));
}

#[test]
fn zero_k_is_refused() {
    let result = Solution::closest_k_values(&TestFixtures::test_fixture_1(), Target { num: 1, den: 1 }, 0);
    assert_eq!(result, Err(ClosestKError::InvalidK));
}

#[test]
fn k_above_node_count_is_refused() {
    let result = Solution::closest_k_values(&TestFixtures::test_fixture_1(), Target { num: 1, den: 1 }, 6);
    assert_eq!(result, Err(ClosestKError::InvalidK));
}

#[test]
fn single_node_any_target() {
    for num in [-1000i64, -1, 0, 7, 42, 1_000_000_000] {
        let tree = TreeNode::to_sub_tree(TreeNode::new(7));
        let result = Solution::closest_k_values(&tree, Target { num, den: 3 }, 1);
        assert_eq!(result, Ok(vec![7]));
    }
}

#[test]
fn repeated_query_gives_same_answer() {
    let tree = balanced(1, 31);
    let target = Target { num: 41, den: 4 };
    let first = Solution::closest_k_values(&tree, target, 5);
    let second = Solution::closest_k_values(&tree, target, 5);
    assert_eq!(first, Ok(vec![8, 9, 10, 11, 12]));
    assert_eq!(first, second);
}

#[test]
fn k_equal_to_node_count_returns_all_values() {
    let tree = balanced(1, 15);
    let all: Vec<i32> = (1..=15).collect();
    for num in [-50i64, 0, 8, 100] {
        let result = Solution::closest_k_values(&tree, Target { num, den: 1 }, 15);
        assert_eq!(result, Ok(all.clone()));
    }
}

#[test]
fn result_matches_brute_force() {
    let tree = balanced(-20, 20);
    let mut all = Vec::new();
    values(&tree, &mut all);
    for num in [-100i64, -41, -3, 0, 1, 17, 39, 40, 100] {
        for k in [1usize, 2, 5, 10, 41] {
            let target = Target { num, den: 2 };
            let result = Solution::closest_k_values(&tree, target, k).unwrap();
            assert_eq!(result.len(), k);
            assert!(result.windows(2).all(|w| w[0] < w[1]));
            assert!(result.iter().all(|v| all.contains(v)));
            let best = brute_force(&all, target, k);
            let worst_kept = result.iter().map(|&v| scaled_distance(v, target)).max().unwrap();
            let worst_best = best.iter().map(|&v| scaled_distance(v, target)).max().unwrap();
            assert_eq!(worst_kept, worst_best);
            for v in all.iter().filter(|v| !result.contains(v)) {
                assert!(result.iter().all(|&r| scaled_distance(r, target) <= scaled_distance(*v, target)));
            }
        }
    }
}

#[test]
fn tie_keeps_smaller_value() {
    let result = Solution::closest_k_values(&TestFixtures::test_fixture_1(), Target { num: 5, den: 2 }, 1);
    assert_eq!(result, Ok(vec![2]));
}

#[test]
fn stops_early_when_closest_values_are_on_the_left() {
    let tree = balanced(1, 15);
    let (result, read) = Solution::closest_k_values_counted(&tree, Target { num: 3, den: 1 }, 3);
    assert_eq!(result, Ok(vec![2, 3, 4]));
    assert_eq!(read, 5);
    assert!(read < 15);
}

#[test]
fn reads_every_value_when_closest_are_on_the_right() {
    let tree = balanced(1, 15);
    let (result, read) = Solution::closest_k_values_counted(&tree, Target { num: 29, den: 2 }, 2);
    assert_eq!(result, Ok(vec![14, 15]));
    assert_eq!(read, 15);
}

#[test]
fn scaled_distance_values() {
    assert_eq!(scaled_distance(3, Target { num: 3714286, den: 1000000 }), 714286);
    assert_eq!(scaled_distance(-5, Target { num: 7, den: 2 }), 17);
    assert_eq!(scaled_distance(i32::MIN, Target { num: i64::MAX, den: u64::MAX }),
        (i32::MIN as i128 * u64::MAX as i128 - i64::MAX as i128).abs());
}

#[test]
fn constructors_place_children() {
    let both = TreeNode::new_left_right(2, 1, 3);
    assert_eq!(both.val, 2);
    assert_eq!(both.left.as_ref().unwrap().val, 1);
    assert_eq!(both.right.as_ref().unwrap().val, 3);
    let left = TreeNode::new_left(5, 4);
    assert_eq!(left.left.as_ref().unwrap().val, 4);
    assert!(left.right.is_none());
    let right = TreeNode::new_right(5, 6);
    assert!(right.left.is_none());
    assert_eq!(right.right.as_ref().unwrap().val, 6);
    let tree = TreeNode::to_sub_tree(right);
    let result = Solution::closest_k_values(&tree, Target { num: 6, den: 1 }, 1);
    assert_eq!(result, Ok(vec![6]));
}

#[test]
fn negative_target_on_left_leaning_tree() {
    let mut root = TreeNode::new_left(0, -10);
    root.left.as_mut().unwrap().right = TreeNode::to_sub_tree(TreeNode::new(-5));
    let tree = TreeNode::to_sub_tree(root);
    let result = Solution::closest_k_values(&tree, Target { num: -7, den: 1 }, 2);
    assert_eq!(result, Ok(vec![-10, -5]));
}
