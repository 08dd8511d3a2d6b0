//! Iterative dependency ordering of the semantic graph.

use vstd::prelude::*;

use crate::diagnostic::{decimal, Diagnostic};
use crate::model::ValueRef;
use crate::semantic::{spec_dependencies, spec_missing_reference, DraftNode, SemanticNodeKind};
use crate::source::SourceSpan;

verus! {

/// The graph position of a value.
pub open spec fn spec_id(value: ValueRef) -> int {
    value.id.0 as int
}

/// The dependencies of node `i`.
#[verifier::opaque]
pub open spec fn spec_deps(nodes: Seq<DraftNode>, symbols: Seq<ValueRef>, i: int) -> Seq<ValueRef> {
    spec_dependencies(nodes[i].kind, symbols)
}

/// Whether node `a` consumes node `b`.
pub open spec fn spec_edge(nodes: Seq<DraftNode>, symbols: Seq<ValueRef>, a: int, b: int) -> bool {
    exists|m: int| 0 <= m < spec_deps(nodes, symbols, a).len() && spec_id(#[trigger] spec_deps(nodes, symbols, a)[m]) == b
}

/// Whether `path` is a dependency cycle: it follows edges and returns to its start.
pub open spec fn spec_is_cycle(nodes: Seq<DraftNode>, symbols: Seq<ValueRef>, path: Seq<int>) -> bool {
    &&& path.len() >= 2
    &&& path[0] == path.last()
    &&& forall|i: int| 0 <= i < path.len() - 1 ==> 0 <= #[trigger] path[i] < nodes.len()
        && spec_edge(nodes, symbols, path[i], path[i + 1])
}

/// Whether `order` lists graph values without repetition, each after every value it consumes.
pub open spec fn spec_is_dependency_order(nodes: Seq<DraftNode>, symbols: Seq<ValueRef>, order: Seq<ValueRef>) -> bool {
    &&& forall|p: int| 0 <= p < order.len() ==> 0 <= #[trigger] spec_id(order[p]) < nodes.len()
    &&& forall|p: int, q: int| 0 <= p < order.len() && 0 <= q < order.len() && p != q
        ==> spec_id(#[trigger] order[p]) != spec_id(#[trigger] order[q])
    &&& forall|p: int, m: int| 0 <= p < order.len() && 0 <= m < spec_deps(nodes, symbols, spec_id(order[p])).len()
        ==> spec_listed_before(order, p, spec_id(#[trigger] spec_deps(nodes, symbols, spec_id(order[p]))[m]))
}

/// Whether a value with graph position `id` occurs in `order` before position `p`.
pub open spec fn spec_listed_before(order: Seq<ValueRef>, p: int, id: int) -> bool {
    exists|q: int| 0 <= q < p && spec_id(#[trigger] order[q]) == id
}

/// Whether `value` is one of `roots` or a value that some node consumes.
pub open spec fn spec_from_graph(nodes: Seq<DraftNode>, symbols: Seq<ValueRef>, roots: Seq<ValueRef>, value: ValueRef) -> bool {
    ||| roots.contains(value)
    ||| exists|i: int, m: int| 0 <= i < nodes.len() && 0 <= m < spec_deps(nodes, symbols, i).len()
        && #[trigger] spec_deps(nodes, symbols, i)[m] == value
}

/// Whether `walk` lists graph positions, each consuming the next.
pub open spec fn spec_is_walk(nodes: Seq<DraftNode>, symbols: Seq<ValueRef>, walk: Seq<int>) -> bool {
    &&& walk.len() >= 1
    &&& forall|i: int| 0 <= i < walk.len() ==> 0 <= #[trigger] walk[i] < nodes.len()
    &&& forall|i: int| 0 <= i < walk.len() - 1 ==> spec_edge(nodes, symbols, #[trigger] walk[i], walk[i + 1])
}

/// Whether graph position `id` is reached from one of `roots` by following what values consume.
pub open spec fn spec_reachable(nodes: Seq<DraftNode>, symbols: Seq<ValueRef>, roots: Seq<ValueRef>, id: int) -> bool {
    exists|walk: Seq<int>, r: int| #![trigger spec_is_walk(nodes, symbols, walk), roots[r]]
        spec_is_walk(nodes, symbols, walk) && 0 <= r < roots.len() && walk[0] == spec_id(roots[r]) && walk.last() == id
}

/// Whether ordering the values reachable from `roots` meets a fault: a root outside the graph,
/// a reachable reference to no symbol, a reachable value consuming a value outside the graph,
/// or a dependency cycle through a reachable value.
pub open spec fn spec_reachable_fault(nodes: Seq<DraftNode>, symbols: Seq<ValueRef>, roots: Seq<ValueRef>) -> bool {
    ||| exists|r: int| 0 <= r < roots.len() && spec_id(#[trigger] roots[r]) >= nodes.len()
    ||| exists|i: int| #[trigger] spec_reachable(nodes, symbols, roots, i) && spec_missing_reference(nodes[i].kind, symbols)
    ||| exists|i: int, m: int| #[trigger] spec_reachable(nodes, symbols, roots, i) && 0 <= m < spec_deps(nodes, symbols, i).len()
        && spec_id(#[trigger] spec_deps(nodes, symbols, i)[m]) >= nodes.len()
    ||| exists|path: Seq<int>| #[trigger] spec_is_cycle(nodes, symbols, path) && spec_reachable(nodes, symbols, roots, path[0])
}

/// A root inside the graph is reachable.
proof fn lemma_root_reachable(nodes: Seq<DraftNode>, symbols: Seq<ValueRef>, roots: Seq<ValueRef>, r: int)
    requires
        0 <= r < roots.len(),
        0 <= spec_id(roots[r]) < nodes.len(),
    ensures
        spec_reachable(nodes, symbols, roots, spec_id(roots[r])),
{
    let walk = seq![spec_id(roots[r])];
    assert(spec_is_walk(nodes, symbols, walk));
}

/// A value consumed by a reachable value inside the graph is reachable.
proof fn lemma_reachable_step(nodes: Seq<DraftNode>, symbols: Seq<ValueRef>, roots: Seq<ValueRef>, a: int, b: int)
    requires
        spec_reachable(nodes, symbols, roots, a),
        0 <= b < nodes.len(),
        spec_edge(nodes, symbols, a, b),
    ensures
        spec_reachable(nodes, symbols, roots, b),
{
    let (walk, r) = choose|walk: Seq<int>, r: int| #![trigger spec_is_walk(nodes, symbols, walk), roots[r]]
        spec_is_walk(nodes, symbols, walk) && 0 <= r < roots.len() && walk[0] == spec_id(roots[r]) && walk.last() == a;
    let longer = walk.push(b);
    assert forall|i: int| 0 <= i < longer.len() - 1 implies spec_edge(nodes, symbols, #[trigger] longer[i], longer[i + 1]) by {
        if i < walk.len() - 1 {
            assert(longer[i] == walk[i] && longer[i + 1] == walk[i + 1]);
        } else {
            assert(longer[i] == a && longer[i + 1] == b);
        }
    }
    assert forall|i: int| 0 <= i < longer.len() implies 0 <= #[trigger] longer[i] < nodes.len() by {
        if i < walk.len() {
            assert(longer[i] == walk[i]);
        }
    }
    assert(spec_is_walk(nodes, symbols, longer));
    assert(longer[0] == spec_id(roots[r]));
}

/// Return the graph position of `value`, or `E_INVALID_GRAPH` outside the graph.
pub fn node_index(value: ValueRef, count: usize) -> (result: Result<usize, Diagnostic>)
    ensures
        spec_id(value) < count ==> result == Ok::<usize, Diagnostic>(value.id.0 as usize),
        spec_id(value) >= count ==> (result matches Err(error) && error.code@ == "E_INVALID_GRAPH"@),
{
    let index = value.id.0 as usize;
    if index < count {
        Ok(index)
    } else {
        let mut message = String::from_str("semantic value ");
        let id = decimal(value.id.0 as u64);
        message.append(id.as_str());
        message.append(" is outside the graph of ");
        let total = decimal(count as u64);
        message.append(total.as_str());
        message.append(" values");
        Err(Diagnostic::new("E_INVALID_GRAPH", message, SourceSpan::file_start("<semantic-graph>")))
    }
}

/// Return the dependency of `node` at position `index`, if there is one.
///
/// A reference to a symbol outside `symbols` fails with `E_MISSING_REFERENCE`.
pub fn dependency_at(node: &DraftNode, symbols: &[ValueRef], index: usize) -> (result: Result<Option<ValueRef>, Diagnostic>)
    ensures
        spec_missing_reference(node.kind, symbols@) && index == 0
            ==> (result matches Err(error) && error.code@ == "E_MISSING_REFERENCE"@),
        result matches Ok(Some(_)) ==> index < usize::MAX,
        !(spec_missing_reference(node.kind, symbols@) && index == 0) ==> result == Ok::<Option<ValueRef>, Diagnostic>(
            if (index as int) < spec_dependencies(node.kind, symbols@).len() {
                Some(spec_dependencies(node.kind, symbols@)[index as int])
            } else {
                None
            }),
{
    match &node.kind {
        SemanticNodeKind::Reference { symbol } => {
            if index != 0 {
                return Ok(None);
            }
            let position = symbol.index();
            if position < symbols.len() {
                Ok(Some(symbols[position]))
            } else {
                let mut message = String::from_str("reference names unknown symbol ");
                let id = decimal(position as u64);
                message.append(id.as_str());
                Err(Diagnostic::new("E_MISSING_REFERENCE", message, node.origin.span.clone_span()))
            }
        },
        SemanticNodeKind::Repeat { input, .. }
        | SemanticNodeKind::AudioRepeat { input, .. }
        | SemanticNodeKind::AudioSlice { input }
        | SemanticNodeKind::Zoom { input }
        | SemanticNodeKind::Wobble { input }
        | SemanticNodeKind::Slice { input, .. }
        | SemanticNodeKind::ExtractAudio { video: input }
        | SemanticNodeKind::AudioOnBlack { audio: input } => {
            if index == 0 { Ok(Some(*input)) } else { Ok(None) }
        },
        SemanticNodeKind::Concat { inputs }
        | SemanticNodeKind::AudioConcat { inputs }
        | SemanticNodeKind::ExternalVideo { inputs, .. } => {
            if index < inputs.len() { Ok(Some(inputs[index])) } else { Ok(None) }
        },
        SemanticNodeKind::FlashJoin { before: first, after: second, .. }
        | SemanticNodeKind::ReplaceRange { base: first, replacement: second, .. }
        | SemanticNodeKind::SetAudio { audio: first, video: second } => {
            if index == 0 {
                Ok(Some(*first))
            } else if index == 1 {
                Ok(Some(*second))
            } else {
                Ok(None)
            }
        },
        SemanticNodeKind::ImageVideo { .. }
        | SemanticNodeKind::VideoSource { .. }
        | SemanticNodeKind::AudioSource { .. } => Ok(None),
    }
}

struct Frame {
    value: ValueRef,
    next_dependency: usize,
}

/// The number of entries of `states` equal to `state`.
pub open spec fn spec_count(states: Seq<u8>, state: u8) -> nat
    decreases states.len(),
{
    if states.len() == 0 {
        0
    } else {
        spec_count(states.drop_last(), state) + if states.last() == state { 1nat } else { 0nat }
    }
}

/// Changing one entry moves it between the counts of its old and new state.
pub proof fn lemma_count_update(states: Seq<u8>, i: int, value: u8, state: u8)
    requires
        0 <= i < states.len(),
    ensures
        spec_count(states.update(i, value), state) + (if states[i] == state { 1nat } else { 0nat })
            == spec_count(states, state) + (if value == state { 1nat } else { 0nat }),
    decreases states.len(),
{
    if i < states.len() - 1 {
        assert(states.update(i, value).drop_last() =~= states.drop_last().update(i, value));
        lemma_count_update(states.drop_last(), i, value, state);
    } else {
        assert(states.update(i, value).drop_last() =~= states.drop_last());
    }
}

spec fn remaining(nodes: Seq<DraftNode>, symbols: Seq<ValueRef>, stack: Seq<Frame>) -> nat
    decreases stack.len(),
{
    if stack.len() == 0 {
        0
    } else {
        let length = spec_deps(nodes, symbols, spec_id(stack.last().value)).len();
        remaining(nodes, symbols, stack.drop_last())
            + if stack.last().next_dependency <= length { (length - stack.last().next_dependency) as nat } else { 0nat }
    }
}

spec fn frame_dep(nodes: Seq<DraftNode>, symbols: Seq<ValueRef>, frame: Frame, m: int) -> ValueRef {
    spec_deps(nodes, symbols, spec_id(frame.value))[m]
}

spec fn is_gray(states: Seq<u8>, i: int) -> bool {
    states[i] == 1
}

spec fn is_black(states: Seq<u8>, i: int) -> bool {
    states[i] == 2
}

/// Frames are gray nodes of the graph with dependencies left to visit.
#[verifier::opaque]
spec fn inv_frames(nodes: Seq<DraftNode>, symbols: Seq<ValueRef>, states: Seq<u8>, stack: Seq<Frame>) -> bool {
    forall|k: int| 0 <= k < stack.len() ==> {
        &&& 0 <= spec_id(#[trigger] stack[k].value) < nodes.len()
        &&& states[spec_id(stack[k].value)] == 1
        &&& stack[k].next_dependency <= spec_deps(nodes, symbols, spec_id(stack[k].value)).len()
    }
}

/// No node has two frames.
#[verifier::opaque]
spec fn inv_distinct(stack: Seq<Frame>) -> bool {
    forall|k1: int, k2: int| 0 <= k1 < stack.len() && 0 <= k2 < stack.len() && k1 != k2
        ==> spec_id(#[trigger] stack[k1].value) != spec_id(#[trigger] stack[k2].value)
}

/// Every gray node has a frame.
#[verifier::opaque]
spec fn inv_gray(states: Seq<u8>, stack: Seq<Frame>, n: int) -> bool {
    forall|i: int| 0 <= i < n && #[trigger] is_gray(states, i)
        ==> exists|k: int| 0 <= k < stack.len() && spec_id(#[trigger] stack[k].value) == i
}

/// Each frame was reached through the last dependency visited by the frame below it.
#[verifier::opaque]
spec fn inv_path(nodes: Seq<DraftNode>, symbols: Seq<ValueRef>, stack: Seq<Frame>) -> bool {
    forall|k: int| 0 <= k < stack.len() - 1 ==> {
        &&& (#[trigger] stack[k]).next_dependency >= 1
        &&& stack[k + 1].value == spec_deps(nodes, symbols, spec_id(stack[k].value))[stack[k].next_dependency - 1]
    }
}

/// Visited dependencies are finished, except the one each lower frame is exploring.
#[verifier::opaque]
spec fn inv_visited(nodes: Seq<DraftNode>, symbols: Seq<ValueRef>, states: Seq<u8>, stack: Seq<Frame>) -> bool {
    forall|k: int, m: int| 0 <= k < stack.len() && 0 <= m < stack[k].next_dependency ==> {
        let d = #[trigger] frame_dep(nodes, symbols, stack[k], m);
        &&& 0 <= spec_id(d) < nodes.len()
        &&& (states[spec_id(d)] == 2 || (m == stack[k].next_dependency - 1 && k < stack.len() - 1))
    }
}

/// Every ordered node is finished.
#[verifier::opaque]
spec fn inv_order_black(states: Seq<u8>, order: Seq<ValueRef>) -> bool {
    forall|p: int| 0 <= p < order.len() ==> states[spec_id(#[trigger] order[p])] == 2
}

/// Every finished node is ordered at its recorded position.
#[verifier::opaque]
spec fn inv_black(states: Seq<u8>, order: Seq<ValueRef>, position: Seq<int>, n: int) -> bool {
    forall|i: int| 0 <= i < n && #[trigger] is_black(states, i)
        ==> 0 <= position[i] < order.len() && spec_id(order[position[i]]) == i
}

/// Ordered nodes lie in the graph at their recorded positions.
#[verifier::opaque]
spec fn inv_order(order: Seq<ValueRef>, position: Seq<int>, n: int) -> bool {
    forall|p: int| 0 <= p < order.len() ==> 0 <= spec_id(#[trigger] order[p]) < n && position[spec_id(order[p])] == p
}

/// Every ordered node follows its dependencies.
#[verifier::opaque]
spec fn inv_sound(nodes: Seq<DraftNode>, symbols: Seq<ValueRef>, states: Seq<u8>, order: Seq<ValueRef>, position: Seq<int>) -> bool {
    forall|p: int, m: int| 0 <= p < order.len() && 0 <= m < spec_deps(nodes, symbols, spec_id(order[p])).len() ==> {
        let d = #[trigger] order_dep(nodes, symbols, order, p, m);
        &&& 0 <= spec_id(d) < nodes.len()
        &&& states[spec_id(d)] == 2
        &&& position[spec_id(d)] < p
    }
}

spec fn order_dep(nodes: Seq<DraftNode>, symbols: Seq<ValueRef>, order: Seq<ValueRef>, p: int, m: int) -> ValueRef {
    spec_deps(nodes, symbols, spec_id(order[p]))[m]
}

/// The DFS invariant over node states, the frame stack, and the finished order.
spec fn dfs_inv(nodes: Seq<DraftNode>, symbols: Seq<ValueRef>, states: Seq<u8>, stack: Seq<Frame>, order: Seq<ValueRef>, position: Seq<int>) -> bool {
    &&& states.len() == nodes.len()
    &&& position.len() == nodes.len()
    &&& forall|i: int| 0 <= i < states.len() ==> #[trigger] states[i] <= 2
    &&& inv_frames(nodes, symbols, states, stack)
    &&& inv_distinct(stack)
    &&& inv_gray(states, stack, nodes.len() as int)
    &&& inv_path(nodes, symbols, stack)
    &&& inv_visited(nodes, symbols, states, stack)
    &&& inv_order_black(states, order)
    &&& inv_black(states, order, position, nodes.len() as int)
    &&& inv_order(order, position, nodes.len() as int)
    &&& inv_sound(nodes, symbols, states, order, position)
}

/// Order every value reachable from `roots` after the values it consumes.
///
/// Succeeds exactly when no fault is reachable from `roots`; the order then lists exactly the
/// values reachable from `roots`. Fails with `E_DEPENDENCY_CYCLE` when a reachable value
/// depends on itself, `E_MISSING_REFERENCE` when a reachable reference names no symbol, and
/// `E_INVALID_GRAPH` when a root or a value a reachable value consumes lies outside the graph.
#[verifier::rlimit(40)]
pub fn topological_order(nodes: &[DraftNode], symbols: &[ValueRef], roots: &[ValueRef]) -> (result: Result<Vec<ValueRef>, Diagnostic>)
    ensures
        result is Ok <==> !spec_reachable_fault(nodes@, symbols@, roots@),
        result matches Ok(order) ==> {
            &&& spec_is_dependency_order(nodes@, symbols@, order@)
            &&& forall|r: int| 0 <= r < roots@.len()
                ==> spec_listed_before(order@, order@.len() as int, spec_id(#[trigger] roots@[r]))
            &&& forall|p: int| 0 <= p < order@.len() ==> spec_from_graph(nodes@, symbols@, roots@, #[trigger] order@[p])
            &&& forall|p: int| 0 <= p < order@.len() ==> spec_reachable(nodes@, symbols@, roots@, spec_id(#[trigger] order@[p]))
            &&& forall|i: int| #[trigger] spec_reachable(nodes@, symbols@, roots@, i)
                ==> spec_listed_before(order@, order@.len() as int, i)
        },
        result matches Err(error) ==> {
            ||| error.code@ == "E_DEPENDENCY_CYCLE"@ && exists|path: Seq<int>|
                #[trigger] spec_is_cycle(nodes@, symbols@, path) && spec_reachable(nodes@, symbols@, roots@, path[0])
            ||| error.code@ == "E_MISSING_REFERENCE"@ && exists|i: int|
                #[trigger] spec_reachable(nodes@, symbols@, roots@, i) && spec_missing_reference(nodes@[i].kind, symbols@)
            ||| error.code@ == "E_INVALID_GRAPH"@ && (
                (exists|r: int| 0 <= r < roots@.len() && spec_id(#[trigger] roots@[r]) >= nodes@.len())
                || exists|i: int, m: int| #[trigger] spec_reachable(nodes@, symbols@, roots@, i)
                    && 0 <= m < spec_deps(nodes@, symbols@, i).len()
                    && spec_id(#[trigger] spec_deps(nodes@, symbols@, i)[m]) >= nodes@.len())
        },
{
    let n = nodes.len();
    let ghost g = nodes@;
    let ghost sy = symbols@;
    let mut states: Vec<u8> = Vec::new();
    while states.len() < n
        invariant
            states@.len() <= n,
            forall|i: int| 0 <= i < states@.len() ==> states@[i] == 0,
        decreases n - states@.len(),
    {
        states.push(0);
    }
    let mut order: Vec<ValueRef> = Vec::new();
    let mut stack: Vec<Frame> = Vec::new();
    let ghost mut position: Seq<int> = Seq::new(n as nat, |i: int| 0);
    proof {
        lemma_init(g, sy, states@, position);
    }
    let mut r: usize = 0;
    while r < roots.len()
        invariant
            g == nodes@,
            sy == symbols@,
            n == g.len(),
            r <= roots@.len(),
            stack@.len() == 0,
            forall|p: int| 0 <= p < order@.len() ==> spec_from_graph(g, sy, roots@, #[trigger] order@[p]),
            forall|p: int| 0 <= p < order@.len() ==> spec_reachable(g, sy, roots@, spec_id(#[trigger] order@[p])),
            forall|i: int| 0 <= i < n && #[trigger] states@[i] == 2 ==> !spec_missing_reference(g[i].kind, sy),
            dfs_inv(g, sy, states@, stack@, order@, position),
            forall|r2: int| 0 <= r2 < r
                ==> spec_listed_before(order@, order@.len() as int, spec_id(#[trigger] roots@[r2])),
        decreases roots@.len() - r,
    {
        let root = roots[r];
        let root_index = match node_index(root, n) {
            Ok(index) => index,
            Err(error) => {
                proof {
                    assert(spec_id(roots@[r as int]) >= nodes@.len());
                }
                return Err(error);
            },
        };
        let ghost start_order = order@;
        proof {
            lemma_root_reachable(g, sy, roots@, r as int);
        }
        if states[root_index] != 2 {
            proof {
                if states@[root_index as int] == 1 {
                    reveal(inv_gray);
                    assert(is_gray(states@, root_index as int));
                }
                lemma_count_update(states@, root_index as int, 1, 0);
                lemma_count_update(states@, root_index as int, 1, 1);
                assert(stack@ =~= Seq::<Frame>::empty());
                lemma_push_root(g, sy, states@, order@, position, root);
            }
            states.set(root_index, 1);
            stack.push(Frame { value: root, next_dependency: 0 });
            assert(stack@ =~= seq![Frame { value: root, next_dependency: 0 }]);
            while stack.len() > 0
                invariant
                    g == nodes@,
                    sy == symbols@,
                    n == g.len(),
                    dfs_inv(g, sy, states@, stack@, order@, position),
                    0 <= spec_id(root) < n,
                    states@[spec_id(root)] != 0,
                    stack@.len() > 0 ==> spec_id(stack@[0].value) == spec_id(root),
                    stack@.len() == 0 ==> states@[spec_id(root)] == 2,
                    start_order.len() <= order@.len(),
                    forall|p: int| 0 <= p < order@.len() ==> spec_from_graph(g, sy, roots@, #[trigger] order@[p]),
                    forall|k: int| 0 <= k < stack@.len() ==> spec_from_graph(g, sy, roots@, (#[trigger] stack@[k]).value),
                    forall|p: int| 0 <= p < order@.len() ==> spec_reachable(g, sy, roots@, spec_id(#[trigger] order@[p])),
                    forall|k: int| 0 <= k < stack@.len() ==> spec_reachable(g, sy, roots@, spec_id((#[trigger] stack@[k]).value)),
                    forall|i: int| 0 <= i < n && #[trigger] states@[i] == 2 ==> !spec_missing_reference(g[i].kind, sy),
                    forall|p: int| 0 <= p < start_order.len() ==> order@[p] == start_order[p],
                decreases spec_count(states@, 0), spec_count(states@, 1), remaining(g, sy, stack@),
            {
                let top = stack.len() - 1;
                let value = stack[top].value;
                let next = stack[top].next_dependency;
                proof {
                    reveal(inv_frames);
                    reveal(spec_deps);
                    assert(0 <= spec_id(stack@[top as int].value) < n);
                }
                let index = value.id.0 as usize;
                let ghost frames = stack@;
                let ghost before = states@;
                let dependency = match dependency_at(&nodes[index], symbols, next) {
                    Ok(dependency) => dependency,
                    Err(error) => {
                        proof {
                            assert(spec_reachable(g, sy, roots@, spec_id(frames[top as int].value)));
                            assert(spec_missing_reference(g[index as int].kind, sy));
                        }
                        return Err(error);
                    },
                };
                match dependency {
                    Some(dependency) => {
                        stack.set(top, Frame { value, next_dependency: next + 1 });
                        proof {
                            lemma_remaining_step(g, sy, frames, next);
                        }
                        let dependency_index = match node_index(dependency, n) {
                            Ok(dependency_index) => dependency_index,
                            Err(error) => {
                                proof {
                                    assert(spec_id(spec_deps(g, sy, index as int)[next as int]) >= g.len());
                                    assert(spec_reachable(g, sy, roots@, spec_id(frames[top as int].value)));
                                }
                                return Err(error);
                            },
                        };
                        proof {
                            reveal(spec_deps);
                            assert(spec_id(spec_deps(g, sy, index as int)[next as int]) == dependency_index);
                            assert(spec_reachable(g, sy, roots@, spec_id(frames[top as int].value)));
                            lemma_reachable_step(g, sy, roots@, index as int, dependency_index as int);
                        }
                        if states[dependency_index] == 0 {
                            proof {
                                lemma_count_update(states@, dependency_index as int, 1, 0);
                                lemma_count_update(states@, dependency_index as int, 1, 1);
                                lemma_visit_white(g, sy, before, frames, order@, position, dependency);
                            }
                            states.set(dependency_index, 1);
                            stack.push(Frame { value: dependency, next_dependency: 0 });
                            assert(stack@ =~= advanced(frames).push(Frame { value: dependency, next_dependency: 0 }));
                        } else if states[dependency_index] == 1 {
                            proof {
                                reveal(inv_gray);
                                assert(is_gray(before, dependency_index as int));
                                let k = choose|k: int| 0 <= k < frames.len() && spec_id(#[trigger] frames[k].value) == dependency_index;
                                lemma_cycle(g, sy, before, frames, order@, position, k, dependency);
                                assert(spec_reachable(g, sy, roots@, spec_id(frames[k].value)));
                            }
                            return Err(Diagnostic::new(
                                "E_DEPENDENCY_CYCLE",
                                String::from_str("semantic graph contains a dependency cycle"),
                                nodes[dependency_index].origin.span.clone_span(),
                            ));
                        } else {
                            proof {
                                lemma_visit_black(g, sy, states@, frames, order@, position, dependency);
                            }
                        }
                    },
                    None => {
                        let ghost old_order = order@;
                        proof {
                            reveal(inv_frames);
                            reveal(spec_deps);
                            assert(frames[top as int].next_dependency <= spec_dependencies(g[index as int].kind, sy).len());
                            assert(!spec_missing_reference(g[index as int].kind, sy));
                            assert(spec_reachable(g, sy, roots@, spec_id(frames[top as int].value)));
                            lemma_count_update(states@, index as int, 2, 0);
                            lemma_count_update(states@, index as int, 2, 1);
                            lemma_finish(g, sy, before, frames, old_order, position);
                        }
                        states.set(index, 2);
                        order.push(value);
                        stack.pop();
                        proof {
                            position = position.update(index as int, old_order.len() as int);
                            assert(stack@ =~= frames.drop_last());
                            if stack@.len() > 0 {
                                assert(stack@[0] == frames[0]);
                            }
                        }
                    },
                }
            }
        }
        proof {
            let i = spec_id(root);
            reveal(inv_black);
            assert(is_black(states@, i));
            let p = position[i];
            assert(spec_id(order@[p]) == spec_id(roots@[r as int]));
            assert forall|r2: int| 0 <= r2 < r + 1
                implies spec_listed_before(order@, order@.len() as int, spec_id(#[trigger] roots@[r2])) by {
                if r2 < r {
                    assert(spec_listed_before(start_order, start_order.len() as int, spec_id(roots@[r2])));
                    let p2 = choose|p2: int| 0 <= p2 < start_order.len() && spec_id(#[trigger] start_order[p2]) == spec_id(roots@[r2]);
                    assert(order@[p2] == start_order[p2]);
                } else {
                    assert(spec_id(order@[p]) == spec_id(roots@[r2]));
                }
            }
        }
        r = r + 1;
    }
    proof {
        lemma_sound(g, sy, states@, order@, position);
        lemma_no_reachable_fault(g, sy, roots@, states@, order@, position);
    }
    Ok(order)
}

/// Following a consumed value from a finished value reaches a finished value listed earlier.
proof fn lemma_black_edge(
    nodes: Seq<DraftNode>, symbols: Seq<ValueRef>, states: Seq<u8>, order: Seq<ValueRef>, position: Seq<int>, a: int, b: int,
)
    requires
        inv_black(states, order, position, nodes.len() as int),
        inv_sound(nodes, symbols, states, order, position),
        0 <= a < nodes.len(),
        states[a] == 2,
        spec_edge(nodes, symbols, a, b),
    ensures
        0 <= b < nodes.len(),
        states[b] == 2,
        position[b] < position[a],
{
    reveal(inv_black);
    reveal(inv_sound);
    assert(is_black(states, a));
    let p = position[a];
    let m = choose|m: int| 0 <= m < spec_deps(nodes, symbols, a).len() && spec_id(#[trigger] spec_deps(nodes, symbols, a)[m]) == b;
    let d = order_dep(nodes, symbols, order, p, m);
    assert(spec_id(order[p]) == a);
    assert(spec_id(d) == b);
}

/// Every value along a walk from a finished value is finished.
proof fn lemma_walk_black(
    nodes: Seq<DraftNode>, symbols: Seq<ValueRef>, states: Seq<u8>, order: Seq<ValueRef>, position: Seq<int>, walk: Seq<int>,
)
    requires
        inv_black(states, order, position, nodes.len() as int),
        inv_sound(nodes, symbols, states, order, position),
        spec_is_walk(nodes, symbols, walk),
        states[walk[0]] == 2,
    ensures
        states[walk.last()] == 2,
    decreases walk.len(),
{
    if walk.len() > 1 {
        let prefix = walk.drop_last();
        assert forall|i: int| 0 <= i < prefix.len() - 1 implies spec_edge(nodes, symbols, #[trigger] prefix[i], prefix[i + 1]) by {
            assert(prefix[i] == walk[i] && prefix[i + 1] == walk[i + 1]);
        }
        assert forall|i: int| 0 <= i < prefix.len() implies 0 <= #[trigger] prefix[i] < nodes.len() by {
            assert(prefix[i] == walk[i]);
        }
        lemma_walk_black(nodes, symbols, states, order, position, prefix);
        assert(spec_edge(nodes, symbols, walk[walk.len() - 2], walk[walk.len() - 1]));
        lemma_black_edge(nodes, symbols, states, order, position, walk[walk.len() - 2], walk.last());
    }
}

/// Along a cycle from a finished value, positions in the order strictly decrease.
proof fn lemma_cycle_descends(
    nodes: Seq<DraftNode>, symbols: Seq<ValueRef>, states: Seq<u8>, order: Seq<ValueRef>, position: Seq<int>,
    path: Seq<int>, j: int,
)
    requires
        inv_black(states, order, position, nodes.len() as int),
        inv_sound(nodes, symbols, states, order, position),
        spec_is_cycle(nodes, symbols, path),
        states[path[0]] == 2,
        1 <= j < path.len(),
    ensures
        0 <= path[j] < nodes.len(),
        states[path[j]] == 2,
        position[path[j]] < position[path[0]],
    decreases j,
{
    if j > 1 {
        lemma_cycle_descends(nodes, symbols, states, order, position, path, j - 1);
    }
    assert(0 <= path[j - 1] < nodes.len() && spec_edge(nodes, symbols, path[j - 1], path[j]));
    lemma_black_edge(nodes, symbols, states, order, position, path[j - 1], path[j]);
}

/// Once every root is ordered, every reachable value is ordered and no fault is reachable.
proof fn lemma_no_reachable_fault(
    nodes: Seq<DraftNode>, symbols: Seq<ValueRef>, roots: Seq<ValueRef>, states: Seq<u8>, order: Seq<ValueRef>, position: Seq<int>,
)
    requires
        states.len() == nodes.len(),
        inv_order(order, position, nodes.len() as int),
        inv_order_black(states, order),
        inv_black(states, order, position, nodes.len() as int),
        inv_sound(nodes, symbols, states, order, position),
        forall|r: int| 0 <= r < roots.len() ==> spec_listed_before(order, order.len() as int, spec_id(#[trigger] roots[r])),
        forall|i: int| 0 <= i < nodes.len() && #[trigger] states[i] == 2 ==> !spec_missing_reference(nodes[i].kind, symbols),
    ensures
        !spec_reachable_fault(nodes, symbols, roots),
        forall|i: int| #[trigger] spec_reachable(nodes, symbols, roots, i) ==> spec_listed_before(order, order.len() as int, i),
{
    assert forall|r: int| 0 <= r < roots.len() implies 0 <= spec_id(#[trigger] roots[r]) < nodes.len()
        && states[spec_id(roots[r])] == 2 by {
        reveal(inv_order);
        reveal(inv_order_black);
        assert(spec_listed_before(order, order.len() as int, spec_id(roots[r])));
        let q = choose|q: int| 0 <= q < order.len() && spec_id(#[trigger] order[q]) == spec_id(roots[r]);
        assert(spec_id(order[q]) == spec_id(roots[r]));
    }
    assert forall|i: int| #[trigger] spec_reachable(nodes, symbols, roots, i) implies 0 <= i < nodes.len() && states[i] == 2 by {
        let (walk, r) = choose|walk: Seq<int>, r: int| #![trigger spec_is_walk(nodes, symbols, walk), roots[r]]
            spec_is_walk(nodes, symbols, walk) && 0 <= r < roots.len() && walk[0] == spec_id(roots[r]) && walk.last() == i;
        assert(states[spec_id(roots[r])] == 2);
        lemma_walk_black(nodes, symbols, states, order, position, walk);
    }
    assert forall|i: int| #[trigger] spec_reachable(nodes, symbols, roots, i) implies spec_listed_before(order, order.len() as int, i) by {
        reveal(inv_black);
        assert(is_black(states, i));
        assert(spec_id(order[position[i]]) == i);
    }
    assert forall|i: int, m: int| #[trigger] spec_reachable(nodes, symbols, roots, i) && 0 <= m < spec_deps(nodes, symbols, i).len()
        implies spec_id(#[trigger] spec_deps(nodes, symbols, i)[m]) < nodes.len() by {
        reveal(inv_black);
        reveal(inv_sound);
        assert(is_black(states, i));
        let p = position[i];
        assert(spec_id(order[p]) == i);
        let d = order_dep(nodes, symbols, order, p, m);
        assert(d == spec_deps(nodes, symbols, i)[m]);
    }
    assert forall|path: Seq<int>| #[trigger] spec_is_cycle(nodes, symbols, path) implies !spec_reachable(nodes, symbols, roots, path[0]) by {
        if spec_reachable(nodes, symbols, roots, path[0]) {
            lemma_cycle_descends(nodes, symbols, states, order, position, path, path.len() - 1);
        }
    }
}

proof fn lemma_sound(nodes: Seq<DraftNode>, symbols: Seq<ValueRef>, states: Seq<u8>, order: Seq<ValueRef>, position: Seq<int>)
    requires
        inv_order(order, position, nodes.len() as int),
        inv_black(states, order, position, nodes.len() as int),
        inv_sound(nodes, symbols, states, order, position),
    ensures
        spec_is_dependency_order(nodes, symbols, order),
{
    reveal(inv_order);
    reveal(inv_black);
    reveal(inv_sound);
    assert forall|p: int, q: int| 0 <= p < order.len() && 0 <= q < order.len() && p != q
        implies spec_id(#[trigger] order[p]) != spec_id(#[trigger] order[q]) by {
        assert(position[spec_id(order[p])] == p);
        assert(position[spec_id(order[q])] == q);
    }
    assert forall|p: int, m: int| 0 <= p < order.len() && 0 <= m < spec_deps(nodes, symbols, spec_id(order[p])).len()
        implies spec_listed_before(order, p, spec_id(#[trigger] spec_deps(nodes, symbols, spec_id(order[p]))[m])) by {
        let d = order_dep(nodes, symbols, order, p, m);
        assert(is_black(states, spec_id(d)));
        let q = position[spec_id(d)];
        assert(spec_id(order[q]) == spec_id(d));
        assert(0 <= q < p);
    }
}

proof fn lemma_init(nodes: Seq<DraftNode>, symbols: Seq<ValueRef>, states: Seq<u8>, position: Seq<int>)
    requires
        states.len() == nodes.len(),
        position.len() == nodes.len(),
        forall|i: int| 0 <= i < states.len() ==> states[i] == 0,
    ensures
        dfs_inv(nodes, symbols, states, Seq::empty(), Seq::empty(), position),
{
    reveal(inv_frames);
    reveal(inv_distinct);
    reveal(inv_gray);
    reveal(inv_path);
    reveal(inv_visited);
    reveal(inv_order_black);
    reveal(inv_black);
    reveal(inv_order);
    reveal(inv_sound);
}

proof fn lemma_push_root(nodes: Seq<DraftNode>, symbols: Seq<ValueRef>, states: Seq<u8>, order: Seq<ValueRef>, position: Seq<int>, root: ValueRef)
    requires
        dfs_inv(nodes, symbols, states, Seq::empty(), order, position),
        0 <= spec_id(root) < nodes.len(),
        states[spec_id(root)] == 0,
    ensures
        dfs_inv(nodes, symbols, states.update(spec_id(root), 1), seq![Frame { value: root, next_dependency: 0 }], order, position),
{
    let new_states = states.update(spec_id(root), 1);
    let stack = seq![Frame { value: root, next_dependency: 0 }];
    assert(inv_frames(nodes, symbols, new_states, stack)) by {
        reveal(inv_frames);
    }
    assert(inv_distinct(stack)) by {
        reveal(inv_distinct);
    }
    assert(inv_path(nodes, symbols, stack)) by {
        reveal(inv_path);
    }
    assert(inv_visited(nodes, symbols, new_states, stack)) by {
        reveal(inv_visited);
    }
    assert(inv_gray(new_states, stack, nodes.len() as int)) by {
        reveal(inv_gray);
        assert forall|i: int| 0 <= i < nodes.len() && #[trigger] is_gray(new_states, i)
            implies exists|k: int| 0 <= k < stack.len() && spec_id(#[trigger] stack[k].value) == i by {
            if i != spec_id(root) {
                assert(is_gray(states, i));
                let k = choose|k: int| 0 <= k < 0 && spec_id(#[trigger] Seq::<Frame>::empty()[k].value) == i;
            }
            assert(spec_id(stack[0].value) == spec_id(root));
        }
    }
    lemma_order_kept(nodes, symbols, states, new_states, order, position);
}

/// Changing node states without finishing or unfinishing any node keeps the order invariants.
proof fn lemma_order_kept(
    nodes: Seq<DraftNode>, symbols: Seq<ValueRef>,
    states: Seq<u8>, new_states: Seq<u8>, order: Seq<ValueRef>, position: Seq<int>,
)
    requires
        states.len() == nodes.len(),
        new_states.len() == nodes.len(),
        forall|i: int| 0 <= i < nodes.len() ==> (#[trigger] new_states[i] == 2) == (states[i] == 2),
        inv_order_black(states, order),
        inv_black(states, order, position, nodes.len() as int),
        inv_order(order, position, nodes.len() as int),
        inv_sound(nodes, symbols, states, order, position),
    ensures
        inv_order_black(new_states, order),
        inv_black(new_states, order, position, nodes.len() as int),
        inv_sound(nodes, symbols, new_states, order, position),
{
    let n = nodes.len();
    assert(inv_order_black(new_states, order)) by {
        reveal(inv_order_black);
        reveal(inv_order);
        assert forall|p: int| 0 <= p < order.len() implies new_states[spec_id(#[trigger] order[p])] == 2 by {
            assert(states[spec_id(order[p])] == 2);
        }
    }
    assert(inv_black(new_states, order, position, n as int)) by {
        reveal(inv_black);
        assert forall|i: int| 0 <= i < n && #[trigger] is_black(new_states, i)
            implies 0 <= position[i] < order.len() && spec_id(order[position[i]]) == i by {
            assert(is_black(states, i));
        }
    }
    assert(inv_sound(nodes, symbols, new_states, order, position)) by {
        reveal(inv_sound);
        assert forall|p: int, m: int| 0 <= p < order.len() && 0 <= m < spec_deps(nodes, symbols, spec_id(order[p])).len() implies {
            let dd = #[trigger] order_dep(nodes, symbols, order, p, m);
            &&& 0 <= spec_id(dd) < nodes.len()
            &&& new_states[spec_id(dd)] == 2
            &&& position[spec_id(dd)] < p
        } by {
            let dd = order_dep(nodes, symbols, order, p, m);
            assert(states[spec_id(dd)] == 2);
        }
    }
}

proof fn lemma_remaining_step(nodes: Seq<DraftNode>, symbols: Seq<ValueRef>, stack: Seq<Frame>, next: usize)
    requires
        stack.len() > 0,
        stack.last().next_dependency == next,
        next < usize::MAX,
        (next as int) < spec_deps(nodes, symbols, spec_id(stack.last().value)).len(),
    ensures
        remaining(nodes, symbols, stack.update(stack.len() - 1, Frame { value: stack.last().value, next_dependency: (next + 1) as usize }))
            + 1 == remaining(nodes, symbols, stack),
{
    let updated = stack.update(stack.len() - 1, Frame { value: stack.last().value, next_dependency: (next + 1) as usize });
    assert(updated.drop_last() =~= stack.drop_last());
    assert(updated.last() == Frame { value: stack.last().value, next_dependency: (next + 1) as usize });
}

/// The frame stack after the top frame moves on to its next dependency.
spec fn advanced(stack: Seq<Frame>) -> Seq<Frame> {
    let top = stack.len() - 1;
    stack.update(top, Frame { value: stack[top].value, next_dependency: (stack[top].next_dependency + 1) as usize })
}

/// The state in which the top frame's next dependency is an unvisited node.
spec fn white_step(
    nodes: Seq<DraftNode>, symbols: Seq<ValueRef>,
    states: Seq<u8>, stack: Seq<Frame>, order: Seq<ValueRef>, position: Seq<int>, dependency: ValueRef,
) -> bool {
    let top = stack.len() - 1;
    let next = stack[top].next_dependency;
    &&& dfs_inv(nodes, symbols, states, stack, order, position)
    &&& stack.len() > 0
    &&& next < usize::MAX
    &&& (next as int) < spec_deps(nodes, symbols, spec_id(stack[top].value)).len()
    &&& dependency == spec_deps(nodes, symbols, spec_id(stack[top].value))[next as int]
    &&& 0 <= spec_id(dependency) < nodes.len()
    &&& states[spec_id(dependency)] == 0
}

proof fn lemma_white_frames(
    nodes: Seq<DraftNode>, symbols: Seq<ValueRef>,
    states: Seq<u8>, stack: Seq<Frame>, order: Seq<ValueRef>, position: Seq<int>, dependency: ValueRef,
)
    requires
        white_step(nodes, symbols, states, stack, order, position, dependency),
    ensures
        inv_frames(nodes, symbols, states.update(spec_id(dependency), 1),
            advanced(stack).push(Frame { value: dependency, next_dependency: 0 })),
        forall|k: int| 0 <= k < stack.len() ==> spec_id(#[trigger] stack[k].value) != spec_id(dependency),
{
    reveal(inv_frames);
    let n = nodes.len();
    let d = spec_id(dependency);
    let new_states = states.update(d, 1);
    let new_stack = advanced(stack).push(Frame { value: dependency, next_dependency: 0 });
    assert forall|k: int| 0 <= k < stack.len() implies spec_id(#[trigger] stack[k].value) != d by {
        assert(states[spec_id(stack[k].value)] == 1);
    }
    assert forall|k: int| 0 <= k < new_stack.len() implies {
        &&& 0 <= spec_id(#[trigger] new_stack[k].value) < n
        &&& new_states[spec_id(new_stack[k].value)] == 1
        &&& new_stack[k].next_dependency <= spec_deps(nodes, symbols, spec_id(new_stack[k].value)).len()
    } by {
        if k < stack.len() {
            assert(new_stack[k].value == stack[k].value);
        }
    }
}

proof fn lemma_white_distinct(
    nodes: Seq<DraftNode>, symbols: Seq<ValueRef>,
    states: Seq<u8>, stack: Seq<Frame>, order: Seq<ValueRef>, position: Seq<int>, dependency: ValueRef,
)
    requires
        white_step(nodes, symbols, states, stack, order, position, dependency),
        forall|k: int| 0 <= k < stack.len() ==> spec_id(#[trigger] stack[k].value) != spec_id(dependency),
    ensures
        inv_distinct(advanced(stack).push(Frame { value: dependency, next_dependency: 0 })),
{
    reveal(inv_distinct);
    let new_stack = advanced(stack).push(Frame { value: dependency, next_dependency: 0 });
    assert forall|k1: int, k2: int| 0 <= k1 < new_stack.len() && 0 <= k2 < new_stack.len() && k1 != k2
        implies spec_id(#[trigger] new_stack[k1].value) != spec_id(#[trigger] new_stack[k2].value) by {
        if k1 < stack.len() {
            assert(new_stack[k1].value == stack[k1].value);
        }
        if k2 < stack.len() {
            assert(new_stack[k2].value == stack[k2].value);
        }
    }
}

proof fn lemma_white_gray(
    nodes: Seq<DraftNode>, symbols: Seq<ValueRef>,
    states: Seq<u8>, stack: Seq<Frame>, order: Seq<ValueRef>, position: Seq<int>, dependency: ValueRef,
)
    requires
        white_step(nodes, symbols, states, stack, order, position, dependency),
    ensures
        inv_gray(states.update(spec_id(dependency), 1),
            advanced(stack).push(Frame { value: dependency, next_dependency: 0 }), nodes.len() as int),
{
    reveal(inv_gray);
    let n = nodes.len();
    let d = spec_id(dependency);
    let new_states = states.update(d, 1);
    let new_stack = advanced(stack).push(Frame { value: dependency, next_dependency: 0 });
    assert forall|i: int| 0 <= i < n && #[trigger] is_gray(new_states, i) implies
        exists|k: int| 0 <= k < new_stack.len() && spec_id(#[trigger] new_stack[k].value) == i by {
        if i == d {
            assert(spec_id(new_stack[stack.len() as int].value) == i);
        } else {
            assert(is_gray(states, i));
            let k = choose|k: int| 0 <= k < stack.len() && spec_id(#[trigger] stack[k].value) == i;
            assert(new_stack[k].value == stack[k].value);
        }
    }
}

proof fn lemma_white_path(
    nodes: Seq<DraftNode>, symbols: Seq<ValueRef>,
    states: Seq<u8>, stack: Seq<Frame>, order: Seq<ValueRef>, position: Seq<int>, dependency: ValueRef,
)
    requires
        white_step(nodes, symbols, states, stack, order, position, dependency),
    ensures
        inv_path(nodes, symbols, advanced(stack).push(Frame { value: dependency, next_dependency: 0 })),
{
    reveal(inv_path);
    let top = stack.len() - 1;
    let new_stack = advanced(stack).push(Frame { value: dependency, next_dependency: 0 });
    assert forall|k: int| 0 <= k < new_stack.len() - 1 implies {
        &&& (#[trigger] new_stack[k]).next_dependency >= 1
        &&& new_stack[k + 1].value == spec_deps(nodes, symbols, spec_id(new_stack[k].value))[new_stack[k].next_dependency - 1]
    } by {
        if k < top {
            assert(new_stack[k] == stack[k]);
            assert(new_stack[k + 1].value == stack[k + 1].value);
        }
    }
}

proof fn lemma_white_visited(
    nodes: Seq<DraftNode>, symbols: Seq<ValueRef>,
    states: Seq<u8>, stack: Seq<Frame>, order: Seq<ValueRef>, position: Seq<int>, dependency: ValueRef,
)
    requires
        white_step(nodes, symbols, states, stack, order, position, dependency),
    ensures
        inv_visited(nodes, symbols, states.update(spec_id(dependency), 1),
            advanced(stack).push(Frame { value: dependency, next_dependency: 0 })),
{
    reveal(inv_visited);
    let n = nodes.len();
    let top = stack.len() - 1;
    let next = stack[top].next_dependency;
    let new_states = states.update(spec_id(dependency), 1);
    let new_stack = advanced(stack).push(Frame { value: dependency, next_dependency: 0 });
    assert forall|k: int, m: int| 0 <= k < new_stack.len() && 0 <= m < new_stack[k].next_dependency implies {
        let dd = #[trigger] frame_dep(nodes, symbols, new_stack[k], m);
        &&& 0 <= spec_id(dd) < n
        &&& (new_states[spec_id(dd)] == 2 || (m == new_stack[k].next_dependency - 1 && k < new_stack.len() - 1))
    } by {
        if k < top {
            assert(new_stack[k] == stack[k]);
            assert(frame_dep(nodes, symbols, stack[k], m) == frame_dep(nodes, symbols, new_stack[k], m));
        } else if k == top && m < next {
            assert(frame_dep(nodes, symbols, stack[k], m) == frame_dep(nodes, symbols, new_stack[k], m));
        }
    }
}

/// Entering an unvisited dependency keeps the DFS invariant.
proof fn lemma_visit_white(
    nodes: Seq<DraftNode>, symbols: Seq<ValueRef>,
    states: Seq<u8>, stack: Seq<Frame>, order: Seq<ValueRef>, position: Seq<int>, dependency: ValueRef,
)
    requires
        white_step(nodes, symbols, states, stack, order, position, dependency),
    ensures
        dfs_inv(nodes, symbols, states.update(spec_id(dependency), 1),
            advanced(stack).push(Frame { value: dependency, next_dependency: 0 }), order, position),
{
    lemma_white_frames(nodes, symbols, states, stack, order, position, dependency);
    lemma_white_distinct(nodes, symbols, states, stack, order, position, dependency);
    lemma_white_gray(nodes, symbols, states, stack, order, position, dependency);
    lemma_white_path(nodes, symbols, states, stack, order, position, dependency);
    lemma_white_visited(nodes, symbols, states, stack, order, position, dependency);
    lemma_order_kept(nodes, symbols, states, states.update(spec_id(dependency), 1), order, position);
}

#[verifier::rlimit(50)]
proof fn lemma_visit_black(
    nodes: Seq<DraftNode>, symbols: Seq<ValueRef>,
    states: Seq<u8>, stack: Seq<Frame>, order: Seq<ValueRef>, position: Seq<int>, dependency: ValueRef,
)
    requires
        dfs_inv(nodes, symbols, states, stack, order, position),
        stack.len() > 0,
        stack[stack.len() - 1].next_dependency < usize::MAX,
        ({
            let top = stack.len() - 1;
            let next = stack[top].next_dependency;
            &&& (next as int) < spec_deps(nodes, symbols, spec_id(stack[top].value)).len()
            &&& dependency == spec_deps(nodes, symbols, spec_id(stack[top].value))[next as int]
            &&& 0 <= spec_id(dependency) < nodes.len()
            &&& states[spec_id(dependency)] == 2
        }),
    ensures
        ({
            let top = stack.len() - 1;
            let next = stack[top].next_dependency;
            dfs_inv(nodes, symbols, states,
                stack.update(top, Frame { value: stack[top].value, next_dependency: (next + 1) as usize }), order, position)
        }),
{
    let top = stack.len() - 1;
    let next = stack[top].next_dependency;
    let new_stack = stack.update(top, Frame { value: stack[top].value, next_dependency: (next + 1) as usize });
    assert(inv_frames(nodes, symbols, states, new_stack)) by {
        reveal(inv_frames);
        assert forall|k: int| 0 <= k < new_stack.len() implies {
            &&& 0 <= spec_id(#[trigger] new_stack[k].value) < nodes.len()
            &&& states[spec_id(new_stack[k].value)] == 1
            &&& new_stack[k].next_dependency <= spec_deps(nodes, symbols, spec_id(new_stack[k].value)).len()
        } by {
            assert(new_stack[k].value == stack[k].value);
        }
    }
    assert(inv_distinct(new_stack)) by {
        reveal(inv_distinct);
        assert forall|k1: int, k2: int| 0 <= k1 < new_stack.len() && 0 <= k2 < new_stack.len() && k1 != k2
            implies spec_id(#[trigger] new_stack[k1].value) != spec_id(#[trigger] new_stack[k2].value) by {
            assert(new_stack[k1].value == stack[k1].value);
            assert(new_stack[k2].value == stack[k2].value);
        }
    }
    assert(inv_gray(states, new_stack, nodes.len() as int)) by {
        reveal(inv_gray);
        assert forall|i: int| 0 <= i < nodes.len() && #[trigger] is_gray(states, i) implies
            exists|k: int| 0 <= k < new_stack.len() && spec_id(#[trigger] new_stack[k].value) == i by {
            let k = choose|k: int| 0 <= k < stack.len() && spec_id(#[trigger] stack[k].value) == i;
            assert(new_stack[k].value == stack[k].value);
        }
    }
    assert(inv_path(nodes, symbols, new_stack)) by {
        reveal(inv_path);
        assert forall|k: int| 0 <= k < new_stack.len() - 1 implies {
            &&& (#[trigger] new_stack[k]).next_dependency >= 1
            &&& new_stack[k + 1].value == spec_deps(nodes, symbols, spec_id(new_stack[k].value))[new_stack[k].next_dependency - 1]
        } by {
            assert(new_stack[k] == stack[k]);
            assert(new_stack[k + 1].value == stack[k + 1].value);
        }
    }
    assert(inv_visited(nodes, symbols, states, new_stack)) by {
        reveal(inv_visited);
        assert forall|k: int, m: int| 0 <= k < new_stack.len() && 0 <= m < new_stack[k].next_dependency implies {
            let dd = #[trigger] frame_dep(nodes, symbols, new_stack[k], m);
            &&& 0 <= spec_id(dd) < nodes.len()
            &&& (states[spec_id(dd)] == 2 || (m == new_stack[k].next_dependency - 1 && k < new_stack.len() - 1))
        } by {
            if k < top {
                assert(new_stack[k] == stack[k]);
                assert(frame_dep(nodes, symbols, stack[k], m) == frame_dep(nodes, symbols, new_stack[k], m));
            } else if m < next {
                assert(frame_dep(nodes, symbols, stack[k], m) == frame_dep(nodes, symbols, new_stack[k], m));
            }
        }
    }
}

/// The state in which the top frame has no dependency left to visit.
spec fn finish_step(
    nodes: Seq<DraftNode>, symbols: Seq<ValueRef>,
    states: Seq<u8>, stack: Seq<Frame>, order: Seq<ValueRef>, position: Seq<int>,
) -> bool {
    &&& dfs_inv(nodes, symbols, states, stack, order, position)
    &&& stack.len() > 0
    &&& stack[stack.len() - 1].next_dependency >= spec_deps(nodes, symbols, spec_id(stack[stack.len() - 1].value)).len()
}

/// What the finishing node is: a gray node in the graph, on no other frame and not yet ordered,
/// whose dependencies are all finished.
proof fn lemma_finish_facts(
    nodes: Seq<DraftNode>, symbols: Seq<ValueRef>,
    states: Seq<u8>, stack: Seq<Frame>, order: Seq<ValueRef>, position: Seq<int>,
)
    requires
        finish_step(nodes, symbols, states, stack, order, position),
    ensures
        ({
            let top = stack.len() - 1;
            let v = spec_id(stack[top].value);
            &&& 0 <= v < nodes.len()
            &&& states[v] == 1
            &&& stack[top].next_dependency == spec_deps(nodes, symbols, v).len()
            &&& forall|p: int| 0 <= p < order.len() ==> spec_id(#[trigger] order[p]) != v
            &&& forall|k: int| 0 <= k < top ==> spec_id(#[trigger] stack[k].value) != v
            &&& forall|m: int| 0 <= m < spec_deps(nodes, symbols, v).len() ==> {
                let dd = #[trigger] spec_deps(nodes, symbols, v)[m];
                0 <= spec_id(dd) < nodes.len() && states[spec_id(dd)] == 2
            }
        }),
{
    let n = nodes.len();
    let top = stack.len() - 1;
    let v = spec_id(stack[top].value);
    assert(0 <= v < n && states[v] == 1 && stack[top].next_dependency == spec_deps(nodes, symbols, v).len()) by {
        reveal(inv_frames);
    }
    assert forall|p: int| 0 <= p < order.len() implies spec_id(#[trigger] order[p]) != v by {
        reveal(inv_order_black);
        assert(states[spec_id(order[p])] == 2);
    }
    assert forall|k: int| 0 <= k < top implies spec_id(#[trigger] stack[k].value) != v by {
        reveal(inv_distinct);
    }
    assert forall|m: int| 0 <= m < spec_deps(nodes, symbols, v).len() implies {
        let dd = #[trigger] spec_deps(nodes, symbols, v)[m];
        0 <= spec_id(dd) < n && states[spec_id(dd)] == 2
    } by {
        reveal(inv_visited);
        assert(frame_dep(nodes, symbols, stack[top], m) == spec_deps(nodes, symbols, v)[m]);
    }
}

proof fn lemma_finish_stack(
    nodes: Seq<DraftNode>, symbols: Seq<ValueRef>,
    states: Seq<u8>, stack: Seq<Frame>, order: Seq<ValueRef>, position: Seq<int>,
)
    requires
        finish_step(nodes, symbols, states, stack, order, position),
    ensures
        ({
            let new_states = states.update(spec_id(stack[stack.len() - 1].value), 2);
            &&& inv_frames(nodes, symbols, new_states, stack.drop_last())
            &&& inv_distinct(stack.drop_last())
            &&& inv_gray(new_states, stack.drop_last(), nodes.len() as int)
            &&& inv_path(nodes, symbols, stack.drop_last())
        }),
{
    lemma_finish_facts(nodes, symbols, states, stack, order, position);
    let n = nodes.len();
    let top = stack.len() - 1;
    let v = spec_id(stack[top].value);
    let new_states = states.update(v, 2);
    let new_stack = stack.drop_last();
    assert(inv_frames(nodes, symbols, new_states, new_stack)) by {
        reveal(inv_frames);
        assert forall|k: int| 0 <= k < new_stack.len() implies {
            &&& 0 <= spec_id(#[trigger] new_stack[k].value) < n
            &&& new_states[spec_id(new_stack[k].value)] == 1
            &&& new_stack[k].next_dependency <= spec_deps(nodes, symbols, spec_id(new_stack[k].value)).len()
        } by {
            assert(new_stack[k] == stack[k]);
        }
    }
    assert(inv_distinct(new_stack)) by {
        reveal(inv_distinct);
        assert forall|k1: int, k2: int| 0 <= k1 < new_stack.len() && 0 <= k2 < new_stack.len() && k1 != k2
            implies spec_id(#[trigger] new_stack[k1].value) != spec_id(#[trigger] new_stack[k2].value) by {
            assert(new_stack[k1] == stack[k1]);
            assert(new_stack[k2] == stack[k2]);
        }
    }
    assert(inv_gray(new_states, new_stack, n as int)) by {
        reveal(inv_gray);
        assert forall|i: int| 0 <= i < n && #[trigger] is_gray(new_states, i) implies
            exists|k: int| 0 <= k < new_stack.len() && spec_id(#[trigger] new_stack[k].value) == i by {
            assert(is_gray(states, i));
            let k = choose|k: int| 0 <= k < stack.len() && spec_id(#[trigger] stack[k].value) == i;
            assert(k != top);
            assert(new_stack[k] == stack[k]);
        }
    }
    assert(inv_path(nodes, symbols, new_stack)) by {
        reveal(inv_path);
        assert forall|k: int| 0 <= k < new_stack.len() - 1 implies {
            &&& (#[trigger] new_stack[k]).next_dependency >= 1
            &&& new_stack[k + 1].value == spec_deps(nodes, symbols, spec_id(new_stack[k].value))[new_stack[k].next_dependency - 1]
        } by {
            assert(new_stack[k] == stack[k]);
            assert(new_stack[k + 1] == stack[k + 1]);
        }
    }
}

proof fn lemma_finish_visited(
    nodes: Seq<DraftNode>, symbols: Seq<ValueRef>,
    states: Seq<u8>, stack: Seq<Frame>, order: Seq<ValueRef>, position: Seq<int>,
)
    requires
        finish_step(nodes, symbols, states, stack, order, position),
    ensures
        inv_visited(nodes, symbols, states.update(spec_id(stack[stack.len() - 1].value), 2), stack.drop_last()),
{
    let n = nodes.len();
    let top = stack.len() - 1;
    let v = spec_id(stack[top].value);
    let new_states = states.update(v, 2);
    let new_stack = stack.drop_last();
    assert(0 <= v < n) by {
        reveal(inv_frames);
    }
    assert forall|k: int, m: int| 0 <= k < new_stack.len() && 0 <= m < new_stack[k].next_dependency implies {
        let dd = #[trigger] frame_dep(nodes, symbols, new_stack[k], m);
        &&& 0 <= spec_id(dd) < n
        &&& (new_states[spec_id(dd)] == 2 || (m == new_stack[k].next_dependency - 1 && k < new_stack.len() - 1))
    } by {
        assert(new_stack[k] == stack[k]);
        let dd = frame_dep(nodes, symbols, stack[k], m);
        assert(0 <= spec_id(dd) < n
            && (states[spec_id(dd)] == 2 || (m == stack[k].next_dependency - 1 && k < stack.len() - 1))) by {
            reveal(inv_visited);
        }
        if !(states[spec_id(dd)] == 2) && k == top - 1 {
            assert(stack[k + 1].value == dd) by {
                reveal(inv_path);
            }
        }
    }
    assert(inv_visited(nodes, symbols, new_states, new_stack)) by {
        reveal(inv_visited);
    }
}

proof fn lemma_finish_order(
    nodes: Seq<DraftNode>, symbols: Seq<ValueRef>,
    states: Seq<u8>, stack: Seq<Frame>, order: Seq<ValueRef>, position: Seq<int>,
)
    requires
        finish_step(nodes, symbols, states, stack, order, position),
    ensures
        ({
            let value = stack[stack.len() - 1].value;
            let new_states = states.update(spec_id(value), 2);
            let new_order = order.push(value);
            let new_position = position.update(spec_id(value), order.len() as int);
            &&& inv_order_black(new_states, new_order)
            &&& inv_black(new_states, new_order, new_position, nodes.len() as int)
            &&& inv_order(new_order, new_position, nodes.len() as int)
        }),
{
    lemma_finish_facts(nodes, symbols, states, stack, order, position);
    let n = nodes.len();
    let top = stack.len() - 1;
    let value = stack[top].value;
    let v = spec_id(value);
    let new_states = states.update(v, 2);
    let new_order = order.push(value);
    let new_position = position.update(v, order.len() as int);
    assert(inv_order_black(new_states, new_order)) by {
        reveal(inv_order_black);
        reveal(inv_order);
        assert forall|p: int| 0 <= p < new_order.len() implies new_states[spec_id(#[trigger] new_order[p])] == 2 by {
            if p < order.len() {
                assert(new_order[p] == order[p]);
                assert(states[spec_id(order[p])] == 2);
            }
        }
    }
    assert(inv_black(new_states, new_order, new_position, n as int)) by {
        reveal(inv_black);
        assert forall|i: int| 0 <= i < n && #[trigger] is_black(new_states, i)
            implies 0 <= new_position[i] < new_order.len() && spec_id(new_order[new_position[i]]) == i by {
            if i != v {
                assert(is_black(states, i));
                assert(new_order[position[i]] == order[position[i]]);
            }
        }
    }
    assert(inv_order(new_order, new_position, n as int)) by {
        reveal(inv_order);
        assert forall|p: int| 0 <= p < new_order.len() implies 0 <= spec_id(#[trigger] new_order[p]) < n
            && new_position[spec_id(new_order[p])] == p by {
            if p < order.len() {
                assert(new_order[p] == order[p]);
            }
        }
    }
}

proof fn lemma_finish_sound(
    nodes: Seq<DraftNode>, symbols: Seq<ValueRef>,
    states: Seq<u8>, stack: Seq<Frame>, order: Seq<ValueRef>, position: Seq<int>,
)
    requires
        finish_step(nodes, symbols, states, stack, order, position),
    ensures
        ({
            let value = stack[stack.len() - 1].value;
            inv_sound(nodes, symbols, states.update(spec_id(value), 2), order.push(value),
                position.update(spec_id(value), order.len() as int))
        }),
{
    lemma_finish_facts(nodes, symbols, states, stack, order, position);
    let top = stack.len() - 1;
    let value = stack[top].value;
    let v = spec_id(value);
    let new_states = states.update(v, 2);
    let new_order = order.push(value);
    let new_position = position.update(v, order.len() as int);
    reveal(inv_sound);
    assert forall|p: int, m: int| 0 <= p < new_order.len() && 0 <= m < spec_deps(nodes, symbols, spec_id(new_order[p])).len() implies {
        let dd = #[trigger] order_dep(nodes, symbols, new_order, p, m);
        &&& 0 <= spec_id(dd) < nodes.len()
        &&& new_states[spec_id(dd)] == 2
        &&& new_position[spec_id(dd)] < p
    } by {
        if p < order.len() {
            assert(new_order[p] == order[p]);
            assert(order_dep(nodes, symbols, new_order, p, m) == order_dep(nodes, symbols, order, p, m));
            let dd = order_dep(nodes, symbols, order, p, m);
            assert(states[spec_id(dd)] == 2);
        } else {
            let dd = spec_deps(nodes, symbols, v)[m];
            assert(order_dep(nodes, symbols, new_order, p, m) == dd);
            assert(states[spec_id(dd)] == 2);
            reveal(inv_black);
            assert(is_black(states, spec_id(dd)));
        }
    }
}

/// Finishing the top frame keeps the DFS invariant.
proof fn lemma_finish(
    nodes: Seq<DraftNode>, symbols: Seq<ValueRef>,
    states: Seq<u8>, stack: Seq<Frame>, order: Seq<ValueRef>, position: Seq<int>,
)
    requires
        finish_step(nodes, symbols, states, stack, order, position),
    ensures
        ({
            let value = stack[stack.len() - 1].value;
            dfs_inv(nodes, symbols, states.update(spec_id(value), 2), stack.drop_last(), order.push(value),
                position.update(spec_id(value), order.len() as int))
        }),
{
    lemma_finish_facts(nodes, symbols, states, stack, order, position);
    lemma_finish_stack(nodes, symbols, states, stack, order, position);
    lemma_finish_visited(nodes, symbols, states, stack, order, position);
    lemma_finish_order(nodes, symbols, states, stack, order, position);
    lemma_finish_sound(nodes, symbols, states, stack, order, position);
}

#[verifier::spinoff_prover]
#[verifier::rlimit(100)]
proof fn lemma_cycle(
    nodes: Seq<DraftNode>, symbols: Seq<ValueRef>,
    states: Seq<u8>, stack: Seq<Frame>, order: Seq<ValueRef>, position: Seq<int>,
    j: int, dependency: ValueRef,
)
    requires
        dfs_inv(nodes, symbols, states, stack, order, position),
        0 <= j < stack.len(),
        spec_id(stack[j].value) == spec_id(dependency),
        ({
            let top = stack.len() - 1;
            let next = stack[top].next_dependency;
            &&& (next as int) < spec_deps(nodes, symbols, spec_id(stack[top].value)).len()
            &&& dependency == spec_deps(nodes, symbols, spec_id(stack[top].value))[next as int]
        }),
    ensures
        exists|path: Seq<int>| #[trigger] spec_is_cycle(nodes, symbols, path) && path[0] == spec_id(stack[j].value),
{
    reveal(inv_frames);
    reveal(inv_path);
    let top = stack.len() - 1;
    let path = Seq::new((stack.len() - j) as nat, |t: int| spec_id(stack[j + t].value)).push(spec_id(dependency));
    assert forall|i: int| 0 <= i < path.len() - 1 implies 0 <= #[trigger] path[i] < nodes.len()
        && spec_edge(nodes, symbols, path[i], path[i + 1]) by {
        let k = j + i;
        assert(path[i] == spec_id(stack[k].value));
        if k < top {
            assert(path[i + 1] == spec_id(stack[k + 1].value));
            let m = stack[k].next_dependency - 1;
            assert(spec_id(spec_deps(nodes, symbols, spec_id(stack[k].value))[m]) == path[i + 1]);
        } else {
            assert(path[i + 1] == spec_id(dependency));
            let m = stack[top].next_dependency as int;
            assert(spec_id(spec_deps(nodes, symbols, spec_id(stack[k].value))[m]) == path[i + 1]);
        }
    }
    assert(spec_is_cycle(nodes, symbols, path));
}

} // verus!
