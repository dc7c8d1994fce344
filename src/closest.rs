use vstd::prelude::*;
use std::collections::VecDeque;
use crate::target::{Target, dist, scaled_distance};
use crate::tree::{TreeNode, inorder, node_count};

verus! {

/// Why a query could not be answered.
#[derive(Debug, Clone, Copy, PartialEq, Eq, Structural)]
pub enum ClosestKError {
    /// The tree has no root.
    EmptyTree,
    /// `k` is zero or larger than the number of nodes.
    InvalidK,
}

/// Start of the window that the sliding rule settles on, searching from `i`:
/// the window `s[i..i+k]` is kept once it reaches the end of `s`, or once the
/// value just after it is not strictly closer to the target than its front.
pub open spec fn window_start(s: Seq<i32>, t: Target, k: int, i: int) -> int
    decreases s.len() - k - i,
{
    if i < 0 || i + k >= s.len() {
        i
    } else if dist(s[i + k] as int, t) >= dist(s[i] as int, t) {
        i
    } else {
        window_start(s, t, k, i + 1)
    }
}

/// The settled start lies between `i` and `s.len() - k`; every window that
/// it slid past had a strictly closer value just after it, and, unless it
/// reached the end, the value just after the settled window is not closer.
pub proof fn lemma_window_start_facts(s: Seq<i32>, t: Target, k: int, i: int)
    requires
        0 <= i,
        i + k <= s.len(),
    ensures
        i <= window_start(s, t, k, i) <= s.len() - k,
        forall|j: int|
            i <= j < window_start(s, t, k, i) ==> #[trigger] dist(s[j + k] as int, t) < dist(
                s[j] as int,
                t,
            ),
        window_start(s, t, k, i) + k < s.len() ==> dist(
            s[window_start(s, t, k, i) + k] as int,
            t,
        ) >= dist(s[window_start(s, t, k, i)] as int, t),
    decreases s.len() - k - i,
{
    if i + k < s.len() && dist(s[i + k] as int, t) < dist(s[i] as int, t) {
        lemma_window_start_facts(s, t, k, i + 1);
    }
}

/// The `k` values that the query returns, given the in-order values `s`.
pub open spec fn closest_window(s: Seq<i32>, t: Target, k: int) -> Seq<i32> {
    let i = window_start(s, t, k, 0);
    s.subrange(i, i + k)
}

/// How many values the traversal reads before it stops: one past the window
/// when it stops early, all of them otherwise.
pub open spec fn values_read(s: Seq<i32>, t: Target, k: int) -> int {
    let i = window_start(s, t, k, 0);
    if i + k < s.len() {
        i + k + 1
    } else {
        s.len() as int
    }
}

/// What a query on `root` yields: an error for an empty tree or an unusable
/// `k`, the settled window otherwise.
pub open spec fn closest_result(root: Option<Box<TreeNode>>, t: Target, k: int) -> Result<
    Seq<i32>,
    ClosestKError,
> {
    if root is None {
        Err(ClosestKError::EmptyTree)
    } else if k < 1 || k > node_count(root) {
        Err(ClosestKError::InvalidK)
    } else {
        Ok(closest_window(inorder(root), t, k))
    }
}

/// Values still to be read from a traversal stack (top last): each node's
/// own value, then its right subtree, then what lies below it.
spec fn stack_rest(stack: Seq<&Box<TreeNode>>) -> Seq<i32>
    decreases stack.len(),
{
    if stack.len() == 0 {
        Seq::empty()
    } else {
        let top = stack.last();
        seq![top.val] + inorder(top.right) + stack_rest(stack.drop_last())
    }
}

/// Pushes `cur` and its chain of left descendants onto `stack`.
fn descend<'a>(cur: &'a Option<Box<TreeNode>>, stack: &mut Vec<&'a Box<TreeNode>>)
    ensures
        stack_rest(final(stack)@) == inorder(*cur) + stack_rest(old(stack)@),
        cur is Some ==> final(stack)@.len() > 0,
        cur is None ==> final(stack)@ == old(stack)@,
{
    let mut c = cur;
    let ghost start = old(stack)@;
    while c.is_some()
        invariant
            inorder(*c) + stack_rest(stack@) == inorder(*cur) + stack_rest(start),
            cur is Some ==> stack@.len() > 0 || c is Some,
            cur is None ==> stack@ == start,
        decreases node_count(*c),
    {
        let node = c.as_ref().unwrap();
        let ghost before = stack@;
        stack.push(node);
        proof {
            assert(stack@.drop_last() =~= before);
            assert(inorder(*c) == inorder(node.left) + seq![node.val] + inorder(node.right));
            assert(inorder(node.left) + stack_rest(stack@) =~= inorder(*c) + stack_rest(before));
        }
        c = &node.left;
    }
    proof {
        assert(inorder(*c) =~= Seq::<i32>::empty());
        assert(stack_rest(stack@) =~= inorder(*c) + stack_rest(stack@));
    }
}

/// Holder of the query.
pub struct Solution {}

impl Solution {
    /// Returns the `k` tree values nearest to `target`, in in-order sequence.
    /// The traversal walks the tree in order with an explicit stack, keeps a
    /// window of the last `k` values, slides it while the next value is
    /// strictly closer than the window's front, and stops at the first value
    /// that is not.
    pub fn closest_k_values(root: &Option<Box<TreeNode>>, target: Target, k: usize) -> (r: Result<
        Vec<i32>,
        ClosestKError,
    >)
        requires
            node_count(*root) <= usize::MAX,
        ensures
            r matches Ok(v) ==> closest_result(*root, target, k as int) == Ok::<Seq<i32>, ClosestKError>(v@),
            r matches Err(e) ==> closest_result(*root, target, k as int) == Err::<Seq<i32>, ClosestKError>(e),
    {
        Self::closest_k_values_counted(root, target, k).0
    }

    /// Runs the query and also reports how many tree values it read before it
    /// stopped; on success that count is `values_read` of the in-order values.
    pub fn closest_k_values_counted(root: &Option<Box<TreeNode>>, target: Target, k: usize) -> (r: (
        Result<Vec<i32>, ClosestKError>,
        usize,
    ))
        requires
            node_count(*root) <= usize::MAX,
        ensures
            r.0 matches Ok(v) ==> closest_result(*root, target, k as int) == Ok::<Seq<i32>, ClosestKError>(v@),
            r.0 matches Err(e) ==> closest_result(*root, target, k as int) == Err::<Seq<i32>, ClosestKError>(e),
            r.0 is Ok ==> r.1 == values_read(inorder(*root), target, k as int),
    {
        if root.is_none() {
            return (Err(ClosestKError::EmptyTree), 0);
        }
        if k == 0 {
            return (Err(ClosestKError::InvalidK), 0);
        }
        let ghost s = inorder(*root);
        let ghost kk = k as int;
        let mut window: VecDeque<i32> = VecDeque::new();
        let mut stack: Vec<&Box<TreeNode>> = Vec::new();
        let mut visited: usize = 0;
        let mut stopped = false;
        descend(root, &mut stack);
        proof {
            assert(stack_rest(Seq::<&Box<TreeNode>>::empty()) =~= Seq::<i32>::empty());
            assert(s.subrange(0, s.len() as int) =~= s);
            assert(window@.len() == 0);
            assert(window@ =~= s.subrange(0, 0));
        }
        while !stopped && stack.len() > 0
            invariant
                s == inorder(*root),
                s.len() <= usize::MAX,
                kk == k,
                k >= 1,
                visited <= s.len(),
                !stopped ==> stack_rest(stack@) == s.subrange(visited as int, s.len() as int),
                !stopped ==> window@.len() == (if visited < k { visited as int } else { kk }),
                !stopped ==> window@ == s.subrange(visited - window@.len(), visited as int),
                !stopped && visited >= k ==> window_start(s, target, kk, 0) == window_start(
                    s,
                    target,
                    kk,
                    visited - kk,
                ),
                stopped ==> visited >= k + 1,
                stopped ==> window@ == s.subrange(visited - 1 - kk, visited - 1),
                stopped ==> window_start(s, target, kk, 0) == visited - 1 - kk,
            decreases s.len() - visited,
        {
            let ghost before = stack@;
            let node = stack.pop().unwrap();
            proof {
                assert(stack@ == before.drop_last());
                assert(stack_rest(before) == seq![node.val] + inorder(node.right) + stack_rest(stack@));
                assert(s.subrange(visited as int, s.len() as int)[0] == node.val);
                assert(s[visited as int] == node.val);
            }
            let v = node.val;
            if window.len() < k {
                window.push_back(v);
                proof {
                    assert(window@ =~= s.subrange(visited + 1 - window@.len(), visited + 1));
                }
            } else {
                let front = window[0];
                proof {
                    assert(front == s[visited - kk]);
                }
                if scaled_distance(front, target) > scaled_distance(v, target) {
                    window.pop_front();
                    window.push_back(v);
                    proof {
                        assert(window@ =~= s.subrange(visited + 1 - kk, visited + 1));
                        assert(window_start(s, target, kk, visited - kk) == window_start(
                            s,
                            target,
                            kk,
                            visited + 1 - kk,
                        ));
                    }
                } else {
                    stopped = true;
                    proof {
                        assert(window_start(s, target, kk, visited - kk) == visited - kk);
                    }
                }
            }
            visited = visited + 1;
            if !stopped {
                let ghost mid = stack@;
                descend(&node.right, &mut stack);
                proof {
                    let full = s.subrange(visited - 1, s.len() as int);
                    let tail = inorder(node.right) + stack_rest(mid);
                    assert(full == seq![node.val] + tail);
                    assert(full.subrange(1, full.len() as int) =~= tail);
                    assert(full.subrange(1, full.len() as int) =~= s.subrange(
                        visited as int,
                        s.len() as int,
                    ));
                }
            }
        }
        if !stopped {
            proof {
                assert(s.subrange(visited as int, s.len() as int).len() == 0);
            }
            if window.len() < k {
                return (Err(ClosestKError::InvalidK), visited);
            }
            proof {
                assert(window_start(s, target, kk, visited - kk) == visited - kk);
            }
        }
        let mut out: Vec<i32> = Vec::new();
        let mut i: usize = 0;
        while i < window.len()
            invariant
                i <= window@.len(),
                out@ == window@.subrange(0, i as int),
            decreases window@.len() - i,
        {
            out.push(window[i]);
            i = i + 1;
            proof {
                assert(out@ =~= window@.subrange(0, i as int));
            }
        }
        proof {
            assert(out@ =~= window@);
        }
        (Ok(out), visited)
    }
}

} // verus!
