//! Bookkeeping of an iterative depth-first search over a graph given as adjacency lists.
//!
//! Nodes are `0..n`; node `i` lists its targets in `adj[i]`, which may name nodes outside the
//! graph. States are 0 for unvisited, 1 for on the current path and 2 for finished. The
//! invariant `dfs_inv` ties the frame stack to the states and records a finishing rank that
//! decreases along every edge of a finished node, which is what rules out cycles.

use vstd::prelude::*;

use crate::compiler::traversal::spec_count;

verus! {

/// Whether `b` is among the targets of node `a`.
pub open spec fn spec_adj_edge(adj: Seq<Seq<int>>, a: int, b: int) -> bool {
    0 <= a < adj.len() && adj[a].contains(b)
}

/// Whether `cycle` lists nodes, each with an edge to the next, that return to the first.
pub open spec fn spec_adj_cycle(adj: Seq<Seq<int>>, cycle: Seq<int>) -> bool {
    &&& cycle.len() >= 2
    &&& cycle[0] == cycle.last()
    &&& forall|i: int| 0 <= i < cycle.len() - 1 ==> spec_adj_edge(adj, #[trigger] cycle[i], cycle[i + 1])
}

/// One frame of an iterative depth-first search: a node and the next of its targets to visit.
pub(crate) struct VisitFrame {
    pub(crate) node: usize,
    pub(crate) next: usize,
}

pub(crate) open spec fn target_of(adj: Seq<Seq<int>>, frame: VisitFrame, m: int) -> int {
    adj[frame.node as int][m]
}

/// Frames name gray nodes with targets left to visit.
#[verifier::opaque]
pub(crate) open spec fn inv_frames(n: int, adj: Seq<Seq<int>>, states: Seq<u8>, stack: Seq<VisitFrame>) -> bool {
    forall|k: int| 0 <= k < stack.len() ==> {
        &&& 0 <= (#[trigger] stack[k]).node < n
        &&& states[stack[k].node as int] == 1
        &&& stack[k].next <= adj[stack[k].node as int].len()
    }
}

/// Each gray node is on the frame stack, at its recorded position.
#[verifier::opaque]
pub(crate) open spec fn inv_gray(n: int, states: Seq<u8>, positions: Seq<usize>, stack: Seq<VisitFrame>) -> bool {
    &&& forall|i: int| 0 <= i < n && #[trigger] states[i] == 1
        ==> positions[i] < stack.len() && stack[positions[i] as int].node == i
    &&& forall|k: int| 0 <= k < stack.len() ==> positions[(#[trigger] stack[k]).node as int] == k
}

/// Each frame was entered from the target the frame below it visited last.
#[verifier::opaque]
pub(crate) open spec fn inv_path(adj: Seq<Seq<int>>, stack: Seq<VisitFrame>) -> bool {
    forall|k: int| 0 <= k < stack.len() - 1 ==> {
        &&& (#[trigger] stack[k]).next >= 1
        &&& stack[k + 1].node == target_of(adj, stack[k], stack[k].next - 1)
    }
}

/// Visited targets are finished, except the one each lower frame is exploring.
#[verifier::opaque]
pub(crate) open spec fn inv_visited(n: int, adj: Seq<Seq<int>>, states: Seq<u8>, stack: Seq<VisitFrame>) -> bool {
    forall|k: int, m: int| 0 <= k < stack.len() && 0 <= m < stack[k].next ==> {
        let t = #[trigger] target_of(adj, stack[k], m);
        &&& 0 <= t < n
        &&& (states[t] == 2 || (m == stack[k].next - 1 && k < stack.len() - 1))
    }
}

/// Every finished node was finished after all its targets.
#[verifier::opaque]
pub(crate) open spec fn inv_sound(n: int, adj: Seq<Seq<int>>, states: Seq<u8>, rank: Seq<int>, counter: int) -> bool {
    forall|i: int| 0 <= i < n && #[trigger] states[i] == 2 ==> {
        &&& 0 <= rank[i] < counter
        &&& forall|m: int| 0 <= m < adj[i].len() ==> {
            let t = #[trigger] adj[i][m];
            0 <= t < n && states[t] == 2 && rank[t] < rank[i]
        }
    }
}

pub(crate) open spec fn dfs_inv(
    n: int, adj: Seq<Seq<int>>, states: Seq<u8>, stack: Seq<VisitFrame>, positions: Seq<usize>,
    rank: Seq<int>, counter: int,
) -> bool {
    &&& states.len() == n
    &&& positions.len() == n
    &&& rank.len() == n
    &&& adj.len() == n
    &&& forall|i: int| 0 <= i < n ==> #[trigger] states[i] <= 2
    &&& n <= usize::MAX
    &&& counter >= 0
    &&& inv_frames(n, adj, states, stack)
    &&& inv_gray(n, states, positions, stack)
    &&& inv_path(adj, stack)
    &&& inv_visited(n, adj, states, stack)
    &&& inv_sound(n, adj, states, rank, counter)
}

/// The frame stack after the top frame moves on to its next target.
pub(crate) open spec fn advanced(stack: Seq<VisitFrame>) -> Seq<VisitFrame> {
    let top = stack.len() - 1;
    stack.update(top, VisitFrame { node: stack[top].node, next: (stack[top].next + 1) as usize })
}

/// The top frame's next target is `t`.
pub(crate) open spec fn next_is(adj: Seq<Seq<int>>, stack: Seq<VisitFrame>, t: int) -> bool {
    let top = stack.len() - 1;
    &&& stack.len() > 0
    &&& stack[top].next < usize::MAX
    &&& stack[top].next < adj[stack[top].node as int].len()
    &&& t == target_of(adj, stack[top], stack[top].next as int)
}

pub(crate) proof fn lemma_push_root(
    n: int, adj: Seq<Seq<int>>, states: Seq<u8>, positions: Seq<usize>, rank: Seq<int>, counter: int, r: int,
)
    requires
        dfs_inv(n, adj, states, Seq::empty(), positions, rank, counter),
        0 <= r < n,
        states[r] == 0,
    ensures
        dfs_inv(n, adj, states.update(r, 1), seq![VisitFrame { node: r as usize, next: 0 }],
            positions.update(r, 0), rank, counter),
{
    let new_states = states.update(r, 1);
    let stack = seq![VisitFrame { node: r as usize, next: 0 }];
    let new_positions = positions.update(r, 0);
    assert(inv_frames(n, adj, new_states, stack)) by {
        reveal(inv_frames);
    }
    assert(inv_gray(n, new_states, new_positions, stack)) by {
        reveal(inv_gray);
        assert forall|i: int| 0 <= i < n && #[trigger] new_states[i] == 1
            implies new_positions[i] < stack.len() && stack[new_positions[i] as int].node == i by {
            if i != r {
                assert(states[i] == 1);
                assert(positions[i] < 0);
            }
        }
    }
    assert(inv_path(adj, stack)) by {
        reveal(inv_path);
    }
    assert(inv_visited(n, adj, new_states, stack)) by {
        reveal(inv_visited);
    }
    assert(inv_sound(n, adj, new_states, rank, counter)) by {
        reveal(inv_sound);
        assert forall|i: int| 0 <= i < n && #[trigger] new_states[i] == 2 implies {
            &&& 0 <= rank[i] < counter
            &&& forall|m: int| 0 <= m < adj[i].len() ==> {
                let t = #[trigger] adj[i][m];
                0 <= t < n && new_states[t] == 2 && rank[t] < rank[i]
            }
        } by {
            assert(states[i] == 2);
            assert forall|m: int| 0 <= m < adj[i].len() implies {
                let t = #[trigger] adj[i][m];
                0 <= t < n && new_states[t] == 2 && rank[t] < rank[i]
            } by {
                let t = adj[i][m];
                assert(states[t] == 2);
            }
        }
    }
}

pub(crate) proof fn lemma_white_stack(
    n: int, adj: Seq<Seq<int>>, states: Seq<u8>, stack: Seq<VisitFrame>, positions: Seq<usize>,
    rank: Seq<int>, counter: int, t: int,
)
    requires
        dfs_inv(n, adj, states, stack, positions, rank, counter),
        next_is(adj, stack, t),
        0 <= t < n,
        states[t] == 0,
        stack.len() < usize::MAX,
    ensures
        ({
            let new_states = states.update(t, 1);
            let new_stack = advanced(stack).push(VisitFrame { node: t as usize, next: 0 });
            let new_positions = positions.update(t, stack.len() as usize);
            &&& inv_frames(n, adj, new_states, new_stack)
            &&& inv_gray(n, new_states, new_positions, new_stack)
            &&& inv_path(adj, new_stack)
        }),
{
    let top = stack.len() - 1;
    let new_states = states.update(t, 1);
    let new_stack = advanced(stack).push(VisitFrame { node: t as usize, next: 0 });
    let new_positions = positions.update(t, stack.len() as usize);
    assert(0 <= stack[top].node < n) by {
        reveal(inv_frames);
    }
    assert forall|k: int| 0 <= k < stack.len() implies (#[trigger] stack[k]).node != t by {
        reveal(inv_frames);
        assert(states[stack[k].node as int] == 1);
    }
    assert(inv_frames(n, adj, new_states, new_stack)) by {
        reveal(inv_frames);
        assert forall|k: int| 0 <= k < new_stack.len() implies {
            &&& 0 <= (#[trigger] new_stack[k]).node < n
            &&& new_states[new_stack[k].node as int] == 1
            &&& new_stack[k].next <= adj[new_stack[k].node as int].len()
        } by {
            if k < stack.len() {
                assert(new_stack[k].node == stack[k].node);
            }
        }
    }
    assert(inv_gray(n, new_states, new_positions, new_stack)) by {
        reveal(inv_gray);
        assert forall|i: int| 0 <= i < n && #[trigger] new_states[i] == 1
            implies new_positions[i] < new_stack.len() && new_stack[new_positions[i] as int].node == i by {
            if i != t {
                assert(states[i] == 1);
                assert(new_stack[positions[i] as int].node == stack[positions[i] as int].node);
            }
        }
        assert forall|k: int| 0 <= k < new_stack.len() implies new_positions[(#[trigger] new_stack[k]).node as int] == k by {
            if k < stack.len() {
                assert(new_stack[k].node == stack[k].node);
                assert(positions[stack[k].node as int] == k);
                assert(stack[k].node != t);
                assert(0 <= stack[k].node < n) by {
                    reveal(inv_frames);
                }
            } else {
                assert(new_stack[k].node == t);
            }
        }
    }
    assert(inv_path(adj, new_stack)) by {
        reveal(inv_path);
        assert forall|k: int| 0 <= k < new_stack.len() - 1 implies {
            &&& (#[trigger] new_stack[k]).next >= 1
            &&& new_stack[k + 1].node == target_of(adj, new_stack[k], new_stack[k].next - 1)
        } by {
            if k < top {
                assert(new_stack[k] == stack[k]);
                assert(new_stack[k + 1].node == stack[k + 1].node);
            }
        }
    }
}

pub(crate) proof fn lemma_white_rest(
    n: int, adj: Seq<Seq<int>>, states: Seq<u8>, stack: Seq<VisitFrame>, positions: Seq<usize>,
    rank: Seq<int>, counter: int, t: int,
)
    requires
        dfs_inv(n, adj, states, stack, positions, rank, counter),
        next_is(adj, stack, t),
        0 <= t < n,
        states[t] == 0,
    ensures
        ({
            let new_states = states.update(t, 1);
            let new_stack = advanced(stack).push(VisitFrame { node: t as usize, next: 0 });
            &&& inv_visited(n, adj, new_states, new_stack)
            &&& inv_sound(n, adj, new_states, rank, counter)
        }),
{
    let top = stack.len() - 1;
    let next = stack[top].next;
    let new_states = states.update(t, 1);
    let new_stack = advanced(stack).push(VisitFrame { node: t as usize, next: 0 });
    assert(0 <= stack[top].node < n) by {
        reveal(inv_frames);
    }
    assert(inv_visited(n, adj, new_states, new_stack)) by {
        reveal(inv_visited);
        assert forall|k: int, m: int| 0 <= k < new_stack.len() && 0 <= m < new_stack[k].next implies {
            let tt = #[trigger] target_of(adj, new_stack[k], m);
            &&& 0 <= tt < n
            &&& (new_states[tt] == 2 || (m == new_stack[k].next - 1 && k < new_stack.len() - 1))
        } by {
            if k < top {
                assert(new_stack[k] == stack[k]);
            } else if k == top {
                assert(target_of(adj, stack[k], m) == target_of(adj, new_stack[k], m));
            }
        }
    }
    assert(inv_sound(n, adj, new_states, rank, counter)) by {
        reveal(inv_sound);
        assert forall|i: int| 0 <= i < n && #[trigger] new_states[i] == 2 implies {
            &&& 0 <= rank[i] < counter
            &&& forall|m: int| 0 <= m < adj[i].len() ==> {
                let tt = #[trigger] adj[i][m];
                0 <= tt < n && new_states[tt] == 2 && rank[tt] < rank[i]
            }
        } by {
            assert(states[i] == 2);
            assert forall|m: int| 0 <= m < adj[i].len() implies {
                let tt = #[trigger] adj[i][m];
                0 <= tt < n && new_states[tt] == 2 && rank[tt] < rank[i]
            } by {
                let tt = adj[i][m];
                assert(states[tt] == 2);
            }
        }
    }
}

pub(crate) proof fn lemma_black(
    n: int, adj: Seq<Seq<int>>, states: Seq<u8>, stack: Seq<VisitFrame>, positions: Seq<usize>,
    rank: Seq<int>, counter: int, t: int,
)
    requires
        dfs_inv(n, adj, states, stack, positions, rank, counter),
        next_is(adj, stack, t),
        0 <= t < n,
        states[t] == 2,
    ensures
        dfs_inv(n, adj, states, advanced(stack), positions, rank, counter),
{
    let top = stack.len() - 1;
    let new_stack = advanced(stack);
    assert(0 <= stack[top].node < n) by {
        reveal(inv_frames);
    }
    assert(inv_frames(n, adj, states, new_stack)) by {
        reveal(inv_frames);
        assert forall|k: int| 0 <= k < new_stack.len() implies {
            &&& 0 <= (#[trigger] new_stack[k]).node < n
            &&& states[new_stack[k].node as int] == 1
            &&& new_stack[k].next <= adj[new_stack[k].node as int].len()
        } by {
            assert(new_stack[k].node == stack[k].node);
        }
    }
    assert(inv_gray(n, states, positions, new_stack)) by {
        reveal(inv_gray);
        assert forall|i: int| 0 <= i < n && #[trigger] states[i] == 1
            implies positions[i] < new_stack.len() && new_stack[positions[i] as int].node == i by {
            assert(new_stack[positions[i] as int].node == stack[positions[i] as int].node);
        }
        assert forall|k: int| 0 <= k < new_stack.len() implies positions[(#[trigger] new_stack[k]).node as int] == k by {
            assert(new_stack[k].node == stack[k].node);
            assert(positions[stack[k].node as int] == k);
        }
    }
    assert(inv_path(adj, new_stack)) by {
        reveal(inv_path);
        assert forall|k: int| 0 <= k < new_stack.len() - 1 implies {
            &&& (#[trigger] new_stack[k]).next >= 1
            &&& new_stack[k + 1].node == target_of(adj, new_stack[k], new_stack[k].next - 1)
        } by {
            assert(new_stack[k] == stack[k]);
            assert(new_stack[k + 1].node == stack[k + 1].node);
        }
    }
    assert(inv_visited(n, adj, states, new_stack)) by {
        reveal(inv_visited);
        assert forall|k: int, m: int| 0 <= k < new_stack.len() && 0 <= m < new_stack[k].next implies {
            let tt = #[trigger] target_of(adj, new_stack[k], m);
            &&& 0 <= tt < n
            &&& (states[tt] == 2 || (m == new_stack[k].next - 1 && k < new_stack.len() - 1))
        } by {
            if k < top {
                assert(new_stack[k] == stack[k]);
            } else {
                assert(target_of(adj, stack[k], m) == target_of(adj, new_stack[k], m));
            }
        }
    }
}

pub(crate) proof fn lemma_finish(
    n: int, adj: Seq<Seq<int>>, states: Seq<u8>, stack: Seq<VisitFrame>, positions: Seq<usize>,
    rank: Seq<int>, counter: int,
)
    requires
        dfs_inv(n, adj, states, stack, positions, rank, counter),
        stack.len() > 0,
        stack[stack.len() - 1].next >= adj[stack[stack.len() - 1].node as int].len(),
    ensures
        ({
            let v = stack[stack.len() - 1].node as int;
            &&& 0 <= v < n
            &&& states[v] == 1
            &&& dfs_inv(n, adj, states.update(v, 2), stack.drop_last(), positions, rank.update(v, counter), counter + 1)
        }),
{
    let top = stack.len() - 1;
    let v = stack[top].node as int;
    let new_states = states.update(v, 2);
    let new_stack = stack.drop_last();
    let new_rank = rank.update(v, counter);
    assert(0 <= v < n && states[v] == 1 && stack[top].next == adj[v].len()) by {
        reveal(inv_frames);
    }
    assert forall|k: int| 0 <= k < top implies (#[trigger] stack[k]).node != v by {
        reveal(inv_gray);
        assert(positions[stack[k].node as int] == k);
        assert(positions[stack[top].node as int] == top);
    }
    assert forall|m: int| 0 <= m < adj[v].len() implies {
        let tt = #[trigger] adj[v][m];
        0 <= tt < n && states[tt] == 2
    } by {
        reveal(inv_visited);
        assert(target_of(adj, stack[top], m) == adj[v][m]);
    }
    assert(inv_frames(n, adj, new_states, new_stack)) by {
        reveal(inv_frames);
        assert forall|k: int| 0 <= k < new_stack.len() implies {
            &&& 0 <= (#[trigger] new_stack[k]).node < n
            &&& new_states[new_stack[k].node as int] == 1
            &&& new_stack[k].next <= adj[new_stack[k].node as int].len()
        } by {
            assert(new_stack[k] == stack[k]);
        }
    }
    assert(inv_gray(n, new_states, positions, new_stack)) by {
        reveal(inv_gray);
        assert forall|i: int| 0 <= i < n && #[trigger] new_states[i] == 1
            implies positions[i] < new_stack.len() && new_stack[positions[i] as int].node == i by {
            assert(states[i] == 1);
            assert(positions[i] != top);
            assert(new_stack[positions[i] as int] == stack[positions[i] as int]);
        }
        assert forall|k: int| 0 <= k < new_stack.len() implies positions[(#[trigger] new_stack[k]).node as int] == k by {
            assert(new_stack[k] == stack[k]);
            assert(positions[stack[k].node as int] == k);
        }
    }
    assert(inv_path(adj, new_stack)) by {
        reveal(inv_path);
        assert forall|k: int| 0 <= k < new_stack.len() - 1 implies {
            &&& (#[trigger] new_stack[k]).next >= 1
            &&& new_stack[k + 1].node == target_of(adj, new_stack[k], new_stack[k].next - 1)
        } by {
            assert(new_stack[k] == stack[k]);
            assert(new_stack[k + 1] == stack[k + 1]);
        }
    }
    assert forall|k: int, m: int| 0 <= k < new_stack.len() && 0 <= m < new_stack[k].next implies {
        let tt = #[trigger] target_of(adj, new_stack[k], m);
        &&& 0 <= tt < n
        &&& (new_states[tt] == 2 || (m == new_stack[k].next - 1 && k < new_stack.len() - 1))
    } by {
        assert(new_stack[k] == stack[k]);
        let tt = target_of(adj, stack[k], m);
        assert(0 <= tt < n && (states[tt] == 2 || (m == stack[k].next - 1 && k < stack.len() - 1))) by {
            reveal(inv_visited);
        }
        if !(states[tt] == 2) && k == top - 1 {
            assert(stack[k + 1].node == tt) by {
                reveal(inv_path);
            }
        }
    }
    assert(inv_visited(n, adj, new_states, new_stack)) by {
        reveal(inv_visited);
    }
    assert(inv_sound(n, adj, new_states, new_rank, counter + 1)) by {
        reveal(inv_sound);
        assert forall|i: int| 0 <= i < n && #[trigger] new_states[i] == 2 implies {
            &&& 0 <= new_rank[i] < counter + 1
            &&& forall|m: int| 0 <= m < adj[i].len() ==> {
                let tt = #[trigger] adj[i][m];
                0 <= tt < n && new_states[tt] == 2 && new_rank[tt] < new_rank[i]
            }
        } by {
            if i == v {
                assert forall|m: int| 0 <= m < adj[i].len() implies {
                    let tt = #[trigger] adj[i][m];
                    0 <= tt < n && new_states[tt] == 2 && new_rank[tt] < new_rank[i]
                } by {
                    let tt = adj[i][m];
                    assert(states[tt] == 2);
                    assert(tt != v);
                }
            } else {
                assert(states[i] == 2);
                assert forall|m: int| 0 <= m < adj[i].len() implies {
                    let tt = #[trigger] adj[i][m];
                    0 <= tt < n && new_states[tt] == 2 && new_rank[tt] < new_rank[i]
                } by {
                    let tt = adj[i][m];
                    assert(states[tt] == 2);
                    assert(tt != v);
                }
            }
        }
    }
}

/// In a table of unvisited entries, no entry is gray.
pub(crate) proof fn lemma_count_zero(states: Seq<u8>)
    requires
        forall|i: int| 0 <= i < states.len() ==> states[i] == 0,
    ensures
        spec_count(states, 1) == 0,
    decreases states.len(),
{
    if states.len() > 0 {
        lemma_count_zero(states.drop_last());
    }
}

/// A state missing from one entry occurs fewer times than there are entries.
pub(crate) proof fn lemma_count_strict(states: Seq<u8>, state: u8, i: int)
    requires
        0 <= i < states.len(),
        states[i] != state,
    ensures
        spec_count(states, state) < states.len(),
    decreases states.len(),
{
    lemma_count_bound(states.drop_last(), state);
    if i < states.len() - 1 {
        lemma_count_strict(states.drop_last(), state, i);
    }
}

/// No state occurs more often than there are entries.
pub(crate) proof fn lemma_count_bound(states: Seq<u8>, state: u8)
    ensures
        spec_count(states, state) <= states.len(),
    decreases states.len(),
{
    if states.len() > 0 {
        lemma_count_bound(states.drop_last(), state);
    }
}

pub(crate) open spec fn remaining(adj: Seq<Seq<int>>, stack: Seq<VisitFrame>) -> nat
    decreases stack.len(),
{
    if stack.len() == 0 {
        0
    } else {
        let length = adj[stack.last().node as int].len();
        remaining(adj, stack.drop_last())
            + if stack.last().next <= length { (length - stack.last().next) as nat } else { 0nat }
    }
}

pub(crate) proof fn lemma_remaining_step(adj: Seq<Seq<int>>, stack: Seq<VisitFrame>, t: int)
    requires
        next_is(adj, stack, t),
    ensures
        remaining(adj, advanced(stack)) + 1 == remaining(adj, stack),
{
    let updated = advanced(stack);
    assert(updated.drop_last() =~= stack.drop_last());
}


/// The invariant holds before the search starts.
pub(crate) proof fn lemma_start(n: int, adj: Seq<Seq<int>>, states: Seq<u8>, positions: Seq<usize>, rank: Seq<int>)
    requires
        states.len() == n,
        positions.len() == n,
        rank.len() == n,
        adj.len() == n,
        n <= usize::MAX,
        forall|i: int| 0 <= i < n ==> #[trigger] states[i] == 0,
    ensures
        dfs_inv(n, adj, states, Seq::empty(), positions, rank, 0),
{
    reveal(inv_frames);
    reveal(inv_gray);
    reveal(inv_path);
    reveal(inv_visited);
    reveal(inv_sound);
}

/// With an empty frame stack, no node is on the current path.
pub(crate) proof fn lemma_no_gray(
    n: int, adj: Seq<Seq<int>>, states: Seq<u8>, positions: Seq<usize>, rank: Seq<int>, counter: int, i: int,
)
    requires
        dfs_inv(n, adj, states, Seq::empty(), positions, rank, counter),
        0 <= i < n,
    ensures
        states[i] != 1,
{
    reveal(inv_gray);
}

/// The top frame names a node of the graph that is on the current path, at the top position.
pub(crate) proof fn lemma_top(
    n: int, adj: Seq<Seq<int>>, states: Seq<u8>, stack: Seq<VisitFrame>, positions: Seq<usize>, rank: Seq<int>,
    counter: int,
)
    requires
        dfs_inv(n, adj, states, stack, positions, rank, counter),
        stack.len() > 0,
    ensures
        0 <= stack[stack.len() - 1].node < n,
        states[stack[stack.len() - 1].node as int] == 1,
        forall|k: int| 0 <= k < stack.len() ==> 0 <= (#[trigger] stack[k]).node < n,
        forall|k: int| 0 <= k < stack.len() ==> positions[(#[trigger] stack[k]).node as int] == k,
        forall|i: int| 0 <= i < n && #[trigger] states[i] == 1
            ==> positions[i] < stack.len() && stack[positions[i] as int].node == i,
{
    reveal(inv_frames);
    reveal(inv_gray);
}

/// A target on the current path closes a cycle through the frames from its own to the top.
pub(crate) proof fn lemma_cycle(
    n: int, adj: Seq<Seq<int>>, states: Seq<u8>, stack: Seq<VisitFrame>, positions: Seq<usize>, rank: Seq<int>,
    counter: int, t: int,
)
    requires
        dfs_inv(n, adj, states, stack, positions, rank, counter),
        next_is(adj, stack, t),
        0 <= t < n,
        states[t] == 1,
    ensures
        ({
            let start = positions[t] as int;
            let cycle = Seq::new((stack.len() - start) as nat, |j: int| stack[start + j].node as int).push(t);
            &&& 0 <= start < stack.len()
            &&& stack[start].node == t
            &&& spec_adj_cycle(adj, cycle)
        }),
{
    reveal(inv_frames);
    reveal(inv_path);
    reveal(inv_gray);
    let top = stack.len() - 1;
    let start = positions[t] as int;
    let cycle = Seq::new((stack.len() - start) as nat, |j: int| stack[start + j].node as int).push(t);
    assert forall|i: int| 0 <= i < cycle.len() - 1 implies spec_adj_edge(adj, #[trigger] cycle[i], cycle[i + 1]) by {
        let k = start + i;
        assert(cycle[i] == stack[k].node as int);
        let a = stack[k].node as int;
        if k < top {
            assert(cycle[i + 1] == stack[k + 1].node as int);
            assert(adj[a][stack[k].next - 1] == cycle[i + 1]);
            assert(adj[a].contains(cycle[i + 1]));
        } else {
            assert(cycle[i + 1] == t);
            assert(adj[a][stack[k].next as int] == t);
            assert(adj[a].contains(t));
        }
    }
}

/// When every node is finished, every target lies in the graph and no cycle exists.
pub(crate) proof fn lemma_all_finished(
    n: int, adj: Seq<Seq<int>>, states: Seq<u8>, stack: Seq<VisitFrame>, positions: Seq<usize>, rank: Seq<int>,
    counter: int,
)
    requires
        dfs_inv(n, adj, states, stack, positions, rank, counter),
        forall|i: int| 0 <= i < n ==> #[trigger] states[i] == 2,
    ensures
        forall|i: int, m: int| 0 <= i < n && 0 <= m < adj[i].len() ==> {
            let t = #[trigger] adj[i][m];
            0 <= t < n && rank[t] < rank[i]
        },
        forall|i: int| 0 <= i < n ==> 0 <= #[trigger] rank[i] < counter,
        forall|cycle: Seq<int>| !spec_adj_cycle(adj, cycle),
{
    reveal(inv_sound);
    assert forall|i: int, m: int| 0 <= i < n && 0 <= m < adj[i].len() implies {
        let t = #[trigger] adj[i][m];
        0 <= t < n && rank[t] < rank[i]
    } by {
        assert(states[i] == 2);
    }
    assert forall|i: int| 0 <= i < n implies 0 <= #[trigger] rank[i] < counter by {
        assert(states[i] == 2);
    }
    assert forall|cycle: Seq<int>| !spec_adj_cycle(adj, cycle) by {
        if spec_adj_cycle(adj, cycle) {
            lemma_rank_descends(n, adj, states, rank, counter, cycle, cycle.len() - 1);
        }
    }
}

/// A state held by no entry has a count of zero.
pub(crate) proof fn lemma_count_absent(states: Seq<u8>, state: u8)
    requires
        forall|i: int| 0 <= i < states.len() ==> states[i] != state,
    ensures
        spec_count(states, state) == 0,
    decreases states.len(),
{
    if states.len() > 0 {
        lemma_count_absent(states.drop_last(), state);
    }
}

/// In a table whose entries all hold one state, that state occurs once per entry.
pub(crate) proof fn lemma_count_all(states: Seq<u8>, state: u8)
    requires
        forall|i: int| 0 <= i < states.len() ==> states[i] == state,
    ensures
        spec_count(states, state) == states.len(),
    decreases states.len(),
{
    if states.len() > 0 {
        lemma_count_all(states.drop_last(), state);
    }
}

/// Ranks strictly decrease along the edges of a cycle among finished nodes.
proof fn lemma_rank_descends(n: int, adj: Seq<Seq<int>>, states: Seq<u8>, rank: Seq<int>, counter: int, cycle: Seq<int>, j: int)
    requires
        states.len() == n,
        inv_sound(n, adj, states, rank, counter),
        forall|i: int| 0 <= i < n ==> #[trigger] states[i] == 2,
        spec_adj_cycle(adj, cycle),
        adj.len() == n,
        1 <= j < cycle.len(),
    ensures
        0 <= cycle[j] < n,
        rank[cycle[j]] < rank[cycle[0]],
    decreases j,
{
    reveal(inv_sound);
    let a = cycle[j - 1];
    let b = cycle[j];
    assert(spec_adj_edge(adj, cycle[j - 1], cycle[j]));
    let m = choose|m: int| 0 <= m < adj[a].len() && adj[a][m] == b;
    assert(adj[a][m] == b);
    assert(states[a] == 2);
    assert(rank[b] < rank[a]);
    if j > 1 {
        lemma_rank_descends(n, adj, states, rank, counter, cycle, j - 1);
    }
}

/// Whether `walk` follows edges from each node to the next.
pub open spec fn spec_adj_walk(adj: Seq<Seq<int>>, walk: Seq<int>) -> bool {
    &&& walk.len() >= 1
    &&& forall|i: int| 0 <= i < walk.len() - 1 ==> spec_adj_edge(adj, #[trigger] walk[i], walk[i + 1])
}

/// Whether some walk from `r` reaches a node of some cycle.
pub open spec fn spec_leads_to_cycle(adj: Seq<Seq<int>>, r: int) -> bool {
    exists|walk: Seq<int>, cycle: Seq<int>|
        #[trigger] spec_adj_walk(adj, walk) && walk[0] == r && #[trigger] spec_adj_cycle(adj, cycle) && cycle[0] == walk.last()
}

/// A walk from a finished node stays among finished nodes, with ranks decreasing along it.
proof fn lemma_finished_walk(n: int, adj: Seq<Seq<int>>, states: Seq<u8>, rank: Seq<int>, counter: int, walk: Seq<int>)
    requires
        states.len() == n,
        adj.len() == n,
        inv_sound(n, adj, states, rank, counter),
        spec_adj_walk(adj, walk),
        0 <= walk[0] < n,
        states[walk[0]] == 2,
    ensures
        0 <= walk.last() < n,
        states[walk.last()] == 2,
        walk.len() >= 2 ==> rank[walk.last()] < rank[walk[0]],
    decreases walk.len(),
{
    if walk.len() >= 2 {
        let prefix = walk.drop_last();
        assert forall|i: int| 0 <= i < prefix.len() - 1 implies spec_adj_edge(adj, #[trigger] prefix[i], prefix[i + 1]) by {
            assert(prefix[i] == walk[i] && prefix[i + 1] == walk[i + 1]);
            assert(spec_adj_edge(adj, walk[i], walk[i + 1]));
        }
        lemma_finished_walk(n, adj, states, rank, counter, prefix);
        let a = prefix.last();
        let b = walk.last();
        assert(spec_adj_edge(adj, walk[walk.len() - 2], walk[walk.len() - 1]));
        let m = choose|m: int| 0 <= m < adj[a].len() && adj[a][m] == b;
        reveal(inv_sound);
        assert(adj[a][m] == b);
    }
}

/// No walk from a finished node reaches a cycle.
pub(crate) proof fn lemma_finished_no_cycle(
    n: int, adj: Seq<Seq<int>>, states: Seq<u8>, stack: Seq<VisitFrame>, positions: Seq<usize>, rank: Seq<int>,
    counter: int, r: int,
)
    requires
        dfs_inv(n, adj, states, stack, positions, rank, counter),
        0 <= r < n,
        states[r] == 2,
    ensures
        !spec_leads_to_cycle(adj, r),
{
    if spec_leads_to_cycle(adj, r) {
        let (walk, cycle) = choose|walk: Seq<int>, cycle: Seq<int>|
            #[trigger] spec_adj_walk(adj, walk) && walk[0] == r && #[trigger] spec_adj_cycle(adj, cycle) && cycle[0] == walk.last();
        lemma_finished_walk(n, adj, states, rank, counter, walk);
        assert(spec_adj_walk(adj, cycle));
        lemma_finished_walk(n, adj, states, rank, counter, cycle);
    }
}

/// The frames on the stack form a walk without repeats from the bottom frame; a target on
/// the current path closes a cycle through its suffix, so the bottom frame leads to a cycle.
pub(crate) proof fn lemma_cycle_on_path(
    n: int, adj: Seq<Seq<int>>, states: Seq<u8>, stack: Seq<VisitFrame>, positions: Seq<usize>, rank: Seq<int>,
    counter: int, t: int,
)
    requires
        dfs_inv(n, adj, states, stack, positions, rank, counter),
        next_is(adj, stack, t),
        0 <= t < n,
        states[t] == 1,
    ensures
        ({
            let start = positions[t] as int;
            let walk = Seq::new(stack.len(), |k: int| stack[k].node as int);
            let cycle = Seq::new((stack.len() - start) as nat, |j: int| stack[start + j].node as int).push(t);
            &&& spec_adj_walk(adj, walk)
            &&& forall|i: int, j: int| 0 <= i < walk.len() && 0 <= j < walk.len() && i != j ==> #[trigger] walk[i] != #[trigger] walk[j]
            &&& cycle.drop_last() == walk.subrange(start, walk.len() as int)
            &&& spec_leads_to_cycle(adj, walk[0])
        }),
{
    lemma_cycle(n, adj, states, stack, positions, rank, counter, t);
    reveal(inv_frames);
    reveal(inv_path);
    reveal(inv_gray);
    let start = positions[t] as int;
    let walk = Seq::new(stack.len(), |k: int| stack[k].node as int);
    let cycle = Seq::new((stack.len() - start) as nat, |j: int| stack[start + j].node as int).push(t);
    assert forall|i: int| 0 <= i < walk.len() - 1 implies spec_adj_edge(adj, #[trigger] walk[i], walk[i + 1]) by {
        let a = stack[i].node as int;
        assert(adj[a][stack[i].next - 1] == walk[i + 1]);
        assert(adj[a].contains(walk[i + 1]));
    }
    assert forall|i: int, j: int| 0 <= i < walk.len() && 0 <= j < walk.len() && i != j implies #[trigger] walk[i] != #[trigger] walk[j] by {
        assert(positions[stack[i].node as int] == i);
        assert(positions[stack[j].node as int] == j);
    }
    assert(cycle.drop_last() =~= walk.subrange(start, walk.len() as int));
    let prefix = walk.subrange(0, start + 1);
    assert forall|i: int| 0 <= i < prefix.len() - 1 implies spec_adj_edge(adj, #[trigger] prefix[i], prefix[i + 1]) by {
        assert(prefix[i] == walk[i] && prefix[i + 1] == walk[i + 1]);
        assert(spec_adj_edge(adj, walk[i], walk[i + 1]));
    }
    assert(spec_adj_walk(adj, prefix));
    assert(prefix.last() == t && cycle[0] == t);
}

} // verus!
