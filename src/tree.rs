use vstd::prelude::*;

verus! {

/// One node of a binary search tree; each child is owned by its parent.
#[derive(Debug, PartialEq)]
pub struct TreeNode {
    pub val: i32,
    pub left: Option<Box<TreeNode>>,
    pub right: Option<Box<TreeNode>>,
}

/// The values of a (possibly empty) tree, read in in-order sequence.
pub open spec fn inorder(t: Option<Box<TreeNode>>) -> Seq<i32>
    decreases t,
{
    match t {
        None => Seq::empty(),
        Some(n) => inorder(n.left) + seq![n.val] + inorder(n.right),
    }
}

/// Number of nodes of a (possibly empty) tree.
pub open spec fn node_count(t: Option<Box<TreeNode>>) -> nat {
    inorder(t).len()
}

/// Every node's left subtree holds only smaller values and its right subtree only larger ones.
pub open spec fn is_bst(t: Option<Box<TreeNode>>) -> bool
    decreases t,
{
    match t {
        None => true,
        Some(n) => {
            &&& is_bst(n.left)
            &&& is_bst(n.right)
            &&& forall|i: int| 0 <= i < inorder(n.left).len() ==> inorder(n.left)[i] < n.val
            &&& forall|i: int| 0 <= i < inorder(n.right).len() ==> n.val < inorder(n.right)[i]
        },
    }
}

/// A sequence whose values rise strictly from left to right.
pub open spec fn strictly_ascending(s: Seq<i32>) -> bool {
    forall|i: int, j: int| 0 <= i < j < s.len() ==> s[i] < s[j]
}

/// The in-order values of a binary search tree rise strictly.
pub proof fn lemma_bst_inorder_ascending(t: Option<Box<TreeNode>>)
    requires
        is_bst(t),
    ensures
        strictly_ascending(inorder(t)),
    decreases t,
{
    if let Some(n) = t {
        lemma_bst_inorder_ascending(n.left);
        lemma_bst_inorder_ascending(n.right);
        let l = inorder(n.left);
        let r = inorder(n.right);
        let s = inorder(t);
        assert(s == l + seq![n.val] + r);
        assert forall|i: int, j: int| 0 <= i < j < s.len() implies s[i] < s[j] by {
            if j < l.len() {
            } else if j == l.len() {
            } else if i < l.len() {
                assert(s[i] == l[i]);
                assert(s[j] == r[j - l.len() - 1]);
            } else if i == l.len() {
                assert(s[j] == r[j - l.len() - 1]);
            } else {
                assert(s[i] == r[i - l.len() - 1]);
                assert(s[j] == r[j - l.len() - 1]);
            }
        }
    }
}

/// A subtree made of a single node holding `v`.
pub open spec fn leaf(v: i32) -> Option<Box<TreeNode>> {
    Some(Box::new(TreeNode { val: v, left: None, right: None }))
}

/// A single node lists its own value and is a binary search tree.
pub proof fn lemma_leaf(v: i32)
    ensures
        inorder(leaf(v)) == seq![v],
        is_bst(leaf(v)),
{
    assert(is_bst(None));
    assert(inorder(None) =~= Seq::<i32>::empty());
    assert(inorder(leaf(v)) =~= seq![v]);
}

impl TreeNode {
    /// A leaf holding `val`.
    pub fn new(val: i32) -> (r: TreeNode)
        ensures
            r.val == val,
            r.left is None,
            r.right is None,
            Some(Box::new(r)) == leaf(val),
            inorder(leaf(val)) == seq![val],
    {
        let r = TreeNode { val, left: None, right: None };
        proof {
            lemma_leaf(val);
        }
        r
    }

    /// Wraps a node as a subtree that a parent can own.
    pub fn to_sub_tree(node: TreeNode) -> (r: Option<Box<TreeNode>>)
        ensures
            r == Some(Box::new(node)),
    {
        Some(Box::new(node))
    }

    /// A node holding `val` with a leaf `left` below it on the left and a leaf
    /// `right` on the right.
    pub fn new_left_right(val: i32, left: i32, right: i32) -> (r: TreeNode)
        ensures
            r.val == val,
            r.left == leaf(left),
            r.right == leaf(right),
    {
        TreeNode {
            val,
            left: Self::to_sub_tree(Self::new(left)),
            right: Self::to_sub_tree(Self::new(right)),
        }
    }

    /// A node holding `val` with a leaf `left` below it on the left only.
    pub fn new_left(val: i32, left: i32) -> (r: TreeNode)
        ensures
            r.val == val,
            r.left == leaf(left),
            r.right is None,
    {
        TreeNode { val, left: Self::to_sub_tree(Self::new(left)), right: None }
    }

    /// A node holding `val` with a leaf `right` below it on the right only.
    pub fn new_right(val: i32, right: i32) -> (r: TreeNode)
        ensures
            r.val == val,
            r.left is None,
            r.right == leaf(right),
    {
        let right = Self::new(right);
        TreeNode { val, left: None, right: Some(Box::new(right)) }
    }
}

/// Ready-made trees for exercising the query.
pub struct TestFixtures {}

impl TestFixtures {
    /// The tree with root 4, whose left child 2 has children 1 and 3, and whose
    /// right child is 5.
    pub fn test_fixture_1() -> (r: Option<Box<TreeNode>>)
        ensures
            r == Some(
                Box::new(
                    TreeNode {
                        val: 4,
                        left: Some(Box::new(TreeNode { val: 2, left: leaf(1), right: leaf(3) })),
                        right: leaf(5),
                    },
                ),
            ),
            inorder(r) == seq![1i32, 2, 3, 4, 5],
            is_bst(r),
    {
        let left = TreeNode::new_left_right(2, 1, 3);
        let right = TreeNode::new(5);
        let mut root = TreeNode::new(4);
        root.left = TreeNode::to_sub_tree(left);
        root.right = TreeNode::to_sub_tree(right);
        let r = TreeNode::to_sub_tree(root);
        proof {
            lemma_leaf(1);
            lemma_leaf(3);
            lemma_leaf(5);
            let l = Some(Box::new(TreeNode { val: 2, left: leaf(1), right: leaf(3) }));
            assert(inorder(l) =~= seq![1i32, 2, 3]);
            assert(inorder(r) =~= seq![1i32, 2, 3, 4, 5]);
            assert(is_bst(l));
        }
        r
    }

    /// The tree of one node holding 1.
    pub fn test_fixture_2() -> (r: Option<Box<TreeNode>>)
        ensures
            r == leaf(1),
            inorder(r) == seq![1i32],
            is_bst(r),
    {
        let root = TreeNode::new(1);
        proof {
            lemma_leaf(1);
        }
        TreeNode::to_sub_tree(root)
    }
}

} // verus!
