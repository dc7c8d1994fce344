use vstd::prelude::*;
use crate::closest::{ClosestKError, closest_result, closest_window, lemma_window_start_facts, window_start};
use crate::target::{Target, dist};
use crate::tree::{TreeNode, inorder, is_bst, leaf, lemma_bst_inorder_ascending, lemma_leaf, node_count, strictly_ascending};

verus! {

proof fn lemma_scale_le(a: int, b: int, d: int)
    requires
        a <= b,
        d >= 0,
    ensures
        a * d <= b * d,
{
    assert(a * d <= b * d) by (nonlinear_arith)
        requires
            a <= b,
            d >= 0,
    ;
}

proof fn lemma_scale_lt(a: int, b: int, d: int)
    requires
        a < b,
        d > 0,
    ensures
        a * d < b * d,
{
    assert(a * d < b * d) by (nonlinear_arith)
        requires
            a < b,
            d > 0,
    ;
}

/// On a binary search tree with `1 <= k <= node_count`, the query succeeds
/// with exactly `k` values, each a value of the tree, in strictly ascending order.
pub proof fn lemma_result_shape(root: Option<Box<TreeNode>>, t: Target, k: int)
    requires
        is_bst(root),
        1 <= k <= node_count(root),
    ensures
        closest_result(root, t, k) matches Ok(w) && {
            &&& w.len() == k
            &&& forall|i: int| 0 <= i < w.len() ==> inorder(root).contains(#[trigger] w[i])
            &&& strictly_ascending(w)
        },
{
    let s = inorder(root);
    assert(root is Some);
    lemma_window_start_facts(s, t, k, 0);
    lemma_bst_inorder_ascending(root);
    let st = window_start(s, t, k, 0);
    let w = closest_window(s, t, k);
    assert forall|i: int| 0 <= i < w.len() implies s.contains(#[trigger] w[i]) by {
        assert(w[i] == s[st + i]);
    }
    assert forall|i: int, j: int| 0 <= i < j < w.len() implies w[i] < w[j] by {
        assert(w[i] == s[st + i]);
        assert(w[j] == s[st + j]);
    }
}

/// On a binary search tree and a target with a positive denominator, no
/// returned value is farther from the target than any tree value left out.
pub proof fn lemma_result_is_closest(root: Option<Box<TreeNode>>, t: Target, k: int)
    requires
        is_bst(root),
        t.wf(),
        1 <= k <= node_count(root),
    ensures
        closest_result(root, t, k) matches Ok(w) && forall|i: int, j: int|
            0 <= i < w.len() && 0 <= j < inorder(root).len() && !w.contains(
                #[trigger] inorder(root)[j],
            ) ==> dist(#[trigger] w[i] as int, t) <= dist(inorder(root)[j] as int, t),
{
    let s = inorder(root);
    assert(root is Some);
    lemma_window_start_facts(s, t, k, 0);
    lemma_bst_inorder_ascending(root);
    let st = window_start(s, t, k, 0);
    let w = closest_window(s, t, k);
    let d = t.den as int;
    let n = t.num as int;
    assert forall|i: int, j: int|
        0 <= i < w.len() && 0 <= j < s.len() && !w.contains(
            #[trigger] s[j],
        ) implies dist(#[trigger] w[i] as int, t) <= dist(s[j] as int, t) by {
        let m = st + i;
        assert(w[i] == s[m]);
        if st <= j < st + k {
            assert(w[j - st] == s[j]);
        }
        let x = s[m] as int;
        let y = s[j] as int;
        if j < st {
            let lo = s[st - 1] as int;
            let hi = s[st - 1 + k] as int;
            assert(dist(hi, t) < dist(lo, t));
            lemma_scale_lt(lo, hi, d);
            lemma_scale_le(y, lo, d);
            lemma_scale_le(x, hi, d);
            lemma_scale_lt(y, x, d);
        } else {
            assert(j >= st + k);
            let lo = s[st] as int;
            let hi = s[st + k] as int;
            assert(dist(hi, t) >= dist(lo, t));
            lemma_scale_lt(lo, hi, d);
            lemma_scale_le(lo, x, d);
            lemma_scale_le(hi, y, d);
            lemma_scale_lt(x, y, d);
        }
    }
}

/// The query reads the tree without changing it, so two queries with the
/// same tree, target and `k` give the same answer.
pub proof fn lemma_query_repeatable(
    root: Option<Box<TreeNode>>,
    t: Target,
    k: int,
    first: Result<Seq<i32>, ClosestKError>,
    second: Result<Seq<i32>, ClosestKError>,
)
    requires
        first == closest_result(root, t, k),
        second == closest_result(root, t, k),
    ensures
        first == second,
{
}

/// A one-node tree queried with `k == 1` yields that node's value, whatever the target.
pub proof fn lemma_single_node(v: i32, t: Target)
    ensures
        closest_result(
            leaf(v),
            t,
            1,
        ) == Ok::<Seq<i32>, ClosestKError>(seq![v]),
{
    let root = leaf(v);
    lemma_leaf(v);
    assert(window_start(inorder(root), t, 1, 0) == 0);
    assert(closest_window(inorder(root), t, 1) =~= seq![v]);
}

/// With `k` equal to the number of nodes, the query yields every value of
/// the tree in in-order sequence.
pub proof fn lemma_all_nodes(root: Option<Box<TreeNode>>, t: Target)
    requires
        root is Some,
    ensures
        closest_result(root, t, node_count(root) as int) == Ok::<Seq<i32>, ClosestKError>(
            inorder(root),
        ),
{
    let s = inorder(root);
    let n = node_count(root) as int;
    let r = root.unwrap();
    assert(s == inorder(r.left) + seq![r.val] + inorder(r.right));
    assert(n >= 1);
    assert(window_start(s, t, n, 0) == 0);
    assert(closest_window(s, t, n) =~= s);
}

} // verus!
