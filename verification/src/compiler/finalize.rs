//! Finalization: reference validation, named-value cycle detection, and the
//! assembly of the compiled program from an evaluated graph.

use vstd::prelude::*;

use crate::compiler::domain::{infer_domains, lemma_infer_defined, spec_infer, spec_reported, spec_typed_graph, spec_typed_node, spec_typed_ref, spec_reports, DomainKnowledge};
use crate::compiler::traversal::{spec_from_graph, spec_is_cycle, spec_is_dependency_order, spec_listed_before, spec_reachable, spec_reachable_fault, topological_order};
use crate::compiler::{CompiledProgram, ExplainEntry, ExplainOutput};
use crate::diagnostic::{decimal, spec_decimal, Diagnostic};
use crate::compiler::dfs::{
    advanced, dfs_inv, lemma_all_finished, lemma_black, lemma_count_absent, lemma_count_bound, lemma_count_strict,
    lemma_cycle, lemma_cycle_on_path, lemma_finish, lemma_finished_no_cycle, lemma_no_gray, lemma_push_root,
    lemma_remaining_step, lemma_start, lemma_top, lemma_white_rest, lemma_white_stack, next_is, remaining,
    spec_adj_cycle, spec_adj_edge, spec_adj_walk, spec_leads_to_cycle, VisitFrame,
};
use crate::compiler::traversal::{lemma_count_update, spec_count, spec_id};
use crate::model::{spec_value_type_label, AudioSpec, SymbolId, ValueId, ValueRef, ValueType, VideoDomain, VideoSpec};
use crate::semantic::{spec_dependencies, spec_missing_reference, CompiledNode, DraftNode, SemanticNodeKind};
use crate::source::{SourceSpan, Spanned};

verus! {

/// A named value collected during evaluation.
#[derive(Clone, Debug)]
pub struct Symbol {
    pub name: String,
    pub declared_at: SourceSpan,
    pub value: Option<ValueRef>,
    pub value_type: ValueType,
}

/// What is wrong with a reference node, if anything: the diagnostic code and message.
pub open spec fn spec_reference_problem(node: DraftNode, symbols: Seq<Symbol>) -> Option<(Seq<char>, Seq<char>)> {
    match node.kind {
        SemanticNodeKind::Reference { symbol } => {
            let index = symbol.0 as int;
            if index >= symbols.len() {
                Some(("E_MISSING_REFERENCE"@, "reference names unknown symbol "@ + spec_decimal(symbol.0 as u64)))
            } else if symbols[index].value is None {
                Some(("E_MISSING_REFERENCE"@, "name `"@ + symbols[index].name@ + "` has no compiled value"@))
            } else if symbols[index].value_type != node.value_type {
                Some(("E_TYPE_MISMATCH"@, "reference `$"@ + symbols[index].name@ + "` has type "@
                    + spec_value_type_label(symbols[index].value_type) + ", but its expression was recorded as "@
                    + spec_value_type_label(node.value_type)))
            } else {
                None
            }
        },
        _ => None,
    }
}

/// The position of the first node among the first `k` with a reference problem.
pub open spec fn spec_first_reference_problem(nodes: Seq<DraftNode>, symbols: Seq<Symbol>, k: nat) -> Option<int>
    decreases k,
{
    if k == 0 {
        None
    } else {
        match spec_first_reference_problem(nodes, symbols, (k - 1) as nat) {
            Some(i) => Some(i),
            None => if spec_reference_problem(nodes[k - 1], symbols) is Some { Some(k - 1) } else { None },
        }
    }
}

/// Once a problem is found, later prefixes report the same one.
proof fn lemma_first_reference_stays(nodes: Seq<DraftNode>, symbols: Seq<Symbol>, k: nat, j: nat)
    requires
        k <= j,
        spec_first_reference_problem(nodes, symbols, k) is Some,
    ensures
        spec_first_reference_problem(nodes, symbols, j) == spec_first_reference_problem(nodes, symbols, k),
    decreases j,
{
    if j > k {
        lemma_first_reference_stays(nodes, symbols, k, (j - 1) as nat);
    }
}

/// The first-problem search finds the earliest problem, and none exists when it finds none.
proof fn lemma_first_reference_problem(nodes: Seq<DraftNode>, symbols: Seq<Symbol>, k: nat)
    requires
        k <= nodes.len(),
    ensures
        spec_first_reference_problem(nodes, symbols, k) matches Some(i)
            ==> 0 <= i < k && spec_reference_problem(nodes[i], symbols) is Some
                && forall|j: int| 0 <= j < i ==> spec_reference_problem(#[trigger] nodes[j], symbols) is None,
        spec_first_reference_problem(nodes, symbols, k) is None
            ==> forall|j: int| 0 <= j < k ==> spec_reference_problem(#[trigger] nodes[j], symbols) is None,
    decreases k,
{
    if k > 0 {
        lemma_first_reference_problem(nodes, symbols, (k - 1) as nat);
    }
}

/// Require every reference to name a symbol that was evaluated with the reference's type.
///
/// Fails at the first reference, in node order, that names an unknown symbol or a symbol
/// without a value (`E_MISSING_REFERENCE`), or a symbol of another type (`E_TYPE_MISMATCH`).
pub fn validate_references(nodes: &[DraftNode], symbols: &[Symbol]) -> (result: Result<(), Diagnostic>)
    ensures
        result is Ok <==> forall|i: int| 0 <= i < nodes@.len() ==> spec_reference_problem(#[trigger] nodes@[i], symbols@) is None,
        result matches Err(error) ==> ({
            let i = spec_first_reference_problem(nodes@, symbols@, nodes@.len())->0;
            let (code, message) = spec_reference_problem(nodes@[i], symbols@)->0;
            &&& 0 <= i < nodes@.len()
            &&& forall|j: int| 0 <= j < i ==> spec_reference_problem(#[trigger] nodes@[j], symbols@) is None
            &&& error.code@ == code
            &&& error.message@ == message
            &&& error.span == nodes@[i].origin.span
        }),
{
    proof {
        lemma_first_reference_problem(nodes@, symbols@, nodes@.len());
    }
    let mut i: usize = 0;
    while i < nodes.len()
        invariant
            i <= nodes@.len(),
            spec_first_reference_problem(nodes@, symbols@, i as nat) is None,
        decreases nodes@.len() - i,
    {
        proof {
            lemma_first_reference_problem(nodes@, symbols@, i as nat);
        }
        let node = &nodes[i];
        proof {
            if spec_reference_problem(nodes@[i as int], symbols@) is Some {
                lemma_first_reference_stays(nodes@, symbols@, (i + 1) as nat, nodes@.len());
            }
        }
        if let SemanticNodeKind::Reference { symbol } = &node.kind {
            let index = symbol.index();
            if index >= symbols.len() {
                let mut message = String::from_str("reference names unknown symbol ");
                let number = decimal(index as u64);
                message.append(number.as_str());
                return Err(Diagnostic::new("E_MISSING_REFERENCE", message, node.origin.span.clone_span()));
            }
            let binding = &symbols[index];
            if binding.value.is_none() {
                let mut message = String::from_str("name `");
                message.append(binding.name.as_str());
                message.append("` has no compiled value");
                return Err(Diagnostic::new("E_MISSING_REFERENCE", message, node.origin.span.clone_span()));
            }
            if binding.value_type != node.value_type {
                let mut message = String::from_str("reference `$");
                message.append(binding.name.as_str());
                message.append("` has type ");
                message.append(binding.value_type.label());
                message.append(", but its expression was recorded as ");
                message.append(node.value_type.label());
                return Err(Diagnostic::new("E_TYPE_MISMATCH", message, node.origin.span.clone_span()));
            }
        }
        i = i + 1;
    }
    proof {
        lemma_first_reference_problem(nodes@, symbols@, nodes@.len());
    }
    Ok(())
}

/// The values a node consumes directly; a reference consumes none, it names a symbol.
pub open spec fn spec_value_deps(kind: SemanticNodeKind) -> Seq<ValueRef> {
    spec_dependencies(kind, Seq::empty())
}

/// Whether node `a` consumes the value at position `b`.
pub open spec fn spec_value_step(nodes: Seq<DraftNode>, a: int, b: int) -> bool {
    &&& 0 <= a < nodes.len()
    &&& exists|m: int| 0 <= m < spec_value_deps(nodes[a].kind).len() && spec_id(#[trigger] spec_value_deps(nodes[a].kind)[m]) == b
}

/// Whether `path` follows consumed values from its first position to its last.
pub open spec fn spec_value_path(nodes: Seq<DraftNode>, path: Seq<int>) -> bool {
    &&& path.len() >= 1
    &&& forall|i: int| 0 <= i < path.len() - 1 ==> spec_value_step(nodes, #[trigger] path[i], path[i + 1])
}

/// Whether the value at position `to` is consumed, directly or transitively, by the one at `from`.
pub open spec fn spec_reaches(nodes: Seq<DraftNode>, from: int, to: int) -> bool {
    exists|path: Seq<int>| spec_value_path(nodes, path) && path[0] == from && path.last() == to
}

/// Whether node `node` is a reference to symbol `symbol`.
pub open spec fn spec_references(node: DraftNode, symbol: int) -> bool {
    node.kind matches SemanticNodeKind::Reference { symbol: s } && s.0 == symbol
}

/// Whether the value at `from` refers to `symbol` without going through another reference.
pub open spec fn spec_direct_reference(nodes: Seq<DraftNode>, from: int, symbol: int) -> bool {
    exists|t: int| spec_reaches(nodes, from, t) && 0 <= t < nodes.len() && spec_references(#[trigger] nodes[t], symbol)
}

/// Whether `symbols` is strictly increasing.
pub open spec fn spec_strictly_sorted(symbols: Seq<SymbolId>) -> bool {
    forall|i: int, j: int| 0 <= i < j < symbols.len() ==> (#[trigger] symbols[i]).0 < (#[trigger] symbols[j]).0
}

/// Every position reaches itself.
proof fn lemma_reaches_self(nodes: Seq<DraftNode>, from: int)
    ensures
        spec_reaches(nodes, from, from),
{
    let path = seq![from];
    assert(spec_value_path(nodes, path) && path[0] == from && path.last() == from);
}

/// Following one more consumed value extends reachability.
proof fn lemma_reaches_step(nodes: Seq<DraftNode>, from: int, a: int, b: int)
    requires
        spec_reaches(nodes, from, a),
        spec_value_step(nodes, a, b),
    ensures
        spec_reaches(nodes, from, b),
{
    let path = choose|path: Seq<int>| spec_value_path(nodes, path) && path[0] == from && path.last() == a;
    let longer = path.push(b);
    assert forall|i: int| 0 <= i < longer.len() - 1 implies spec_value_step(nodes, #[trigger] longer[i], longer[i + 1]) by {
        if i < path.len() - 1 {
            assert(longer[i] == path[i] && longer[i + 1] == path[i + 1]);
        }
    }
    assert(spec_value_path(nodes, longer) && longer[0] == from && longer.last() == b);
}

/// A set of positions that holds `from` and is closed under consumption holds everything `from` reaches.
proof fn lemma_closed_holds_reachable(nodes: Seq<DraftNode>, visited: Seq<bool>, from: int, path: Seq<int>)
    requires
        visited.len() == nodes.len(),
        0 <= from < nodes.len(),
        visited[from],
        forall|i: int, b: int| 0 <= i < nodes.len() && visited[i] && #[trigger] spec_value_step(nodes, i, b)
            ==> 0 <= b < nodes.len() && visited[b],
        spec_value_path(nodes, path),
        path[0] == from,
    ensures
        0 <= path.last() < nodes.len(),
        visited[path.last()],
    decreases path.len(),
{
    if path.len() > 1 {
        let shorter = path.drop_last();
        assert forall|i: int| 0 <= i < shorter.len() - 1 implies spec_value_step(nodes, #[trigger] shorter[i], shorter[i + 1]) by {
            assert(shorter[i] == path[i] && shorter[i + 1] == path[i + 1]);
        }
        lemma_closed_holds_reachable(nodes, visited, from, shorter);
        assert(spec_value_step(nodes, path[path.len() - 2], path[path.len() - 1]));
    }
}

/// Insert `symbol` into a strictly increasing list, keeping it so.
pub fn insert_symbol(symbols: Vec<SymbolId>, symbol: SymbolId) -> (result: Vec<SymbolId>)
    requires
        spec_strictly_sorted(symbols@),
    ensures
        spec_strictly_sorted(result@),
        forall|s: SymbolId| #[trigger] result@.contains(s) <==> (symbols@.contains(s) || s == symbol),
{
    let mut symbols = symbols;
    let ghost before = symbols@;
    let mut i: usize = 0;
    while i < symbols.len() && symbols[i].0 < symbol.0
        invariant
            i <= symbols@.len(),
            symbols@ == before,
            spec_strictly_sorted(symbols@),
            forall|j: int| 0 <= j < i ==> (#[trigger] symbols@[j]).0 < symbol.0,
        decreases symbols@.len() - i,
    {
        i = i + 1;
    }
    if i < symbols.len() && symbols[i].0 == symbol.0 {
        proof {
            assert(symbols@[i as int] == symbol);
            assert(symbols@.contains(symbol));
            assert(forall|s: SymbolId| #[trigger] symbols@.contains(s) <==> (before.contains(s) || s == symbol));
        }
        return symbols;
    }
    proof {
        lemma_insert_sorted(before, i as int, symbol);
    }
    symbols.insert(i, symbol);
    assert(forall|s: SymbolId| #[trigger] symbols@.contains(s) <==> (before.contains(s) || s == symbol));
    symbols
}

/// Inserting a symbol at its sorted position keeps a list strictly increasing and adds just that symbol.
proof fn lemma_insert_sorted(before: Seq<SymbolId>, i: int, symbol: SymbolId)
    requires
        0 <= i <= before.len(),
        spec_strictly_sorted(before),
        forall|j: int| 0 <= j < i ==> (#[trigger] before[j]).0 < symbol.0,
        i < before.len() ==> before[i].0 > symbol.0,
    ensures
        spec_strictly_sorted(before.insert(i, symbol)),
        forall|s: SymbolId| before.insert(i, symbol).contains(s) <==> (before.contains(s) || s == symbol),
{
    let after = before.insert(i, symbol);
    assert forall|a: int, b: int| 0 <= a < b < after.len() implies (#[trigger] after[a]).0 < (#[trigger] after[b]).0 by {
        if a < i && b < i {
            assert(after[a] == before[a] && after[b] == before[b]);
        } else if a < i && b == i {
            assert(after[a] == before[a]);
        } else if a < i {
            assert(after[a] == before[a] && after[b] == before[b - 1]);
        } else if a == i {
            assert(after[b] == before[b - 1]);
        } else {
            assert(after[a] == before[a - 1] && after[b] == before[b - 1]);
        }
    }
    assert forall|s: SymbolId| after.contains(s) <==> (before.contains(s) || s == symbol) by {
        if after.contains(s) {
            let k = choose|k: int| 0 <= k < after.len() && after[k] == s;
            if k < i {
                assert(before[k] == s);
            } else if k > i {
                assert(before[k - 1] == s);
            }
        }
        if before.contains(s) {
            let k = choose|k: int| 0 <= k < before.len() && before[k] == s;
            if k < i {
                assert(after[k] == s);
            } else {
                assert(after[k + 1] == s);
            }
        }
        if s == symbol {
            assert(after[i] == s);
        }
    }
}

/// Push the values a node consumes onto `stack`.
pub fn push_value_dependencies(kind: &SemanticNodeKind, stack: &mut Vec<ValueRef>)
    ensures
        final(stack)@ == old(stack)@ + spec_value_deps(*kind),
{
    match kind {
        SemanticNodeKind::Repeat { input, .. }
        | SemanticNodeKind::AudioRepeat { input, .. }
        | SemanticNodeKind::AudioSlice { input }
        | SemanticNodeKind::Zoom { input }
        | SemanticNodeKind::Wobble { input }
        | SemanticNodeKind::Slice { input, .. }
        | SemanticNodeKind::ExtractAudio { video: input }
        | SemanticNodeKind::AudioOnBlack { audio: input } => {
            stack.push(*input);
        },
        SemanticNodeKind::Concat { inputs }
        | SemanticNodeKind::AudioConcat { inputs }
        | SemanticNodeKind::ExternalVideo { inputs, .. } => {
            let ghost start = stack@;
            let mut i: usize = 0;
            while i < inputs.len()
                invariant
                    i <= inputs@.len(),
                    stack@ == start + inputs@.subrange(0, i as int),
                decreases inputs@.len() - i,
            {
                stack.push(inputs[i]);
                i = i + 1;
                proof {
                    assert(inputs@.subrange(0, i as int) =~= inputs@.subrange(0, i - 1).push(inputs@[i - 1]));
                }
            }
            assert(inputs@.subrange(0, inputs@.len() as int) =~= inputs@);
        },
        SemanticNodeKind::FlashJoin { before: first, after: second, .. }
        | SemanticNodeKind::ReplaceRange { base: first, replacement: second, .. }
        | SemanticNodeKind::SetAudio { audio: first, video: second } => {
            stack.push(*first);
            stack.push(*second);
        },
        SemanticNodeKind::Reference { .. }
        | SemanticNodeKind::ImageVideo { .. }
        | SemanticNodeKind::VideoSource { .. }
        | SemanticNodeKind::AudioSource { .. } => {},
    }
    proof {
        assert(final(stack)@ =~= old(stack)@ + spec_value_deps(*kind));
    }
}

/// Whether a value at position `id` is waiting on `stack`.
pub open spec fn spec_on_stack(stack: Seq<ValueRef>, id: int) -> bool {
    exists|k: int| 0 <= k < stack.len() && spec_id(#[trigger] stack[k]) == id
}

/// The number of positions not yet visited.
pub open spec fn spec_unvisited(visited: Seq<bool>) -> nat
    decreases visited.len(),
{
    if visited.len() == 0 {
        0
    } else {
        spec_unvisited(visited.drop_last()) + if visited.last() { 0nat } else { 1nat }
    }
}

proof fn lemma_unvisited_mark(visited: Seq<bool>, i: int)
    requires
        0 <= i < visited.len(),
        !visited[i],
    ensures
        spec_unvisited(visited.update(i, true)) + 1 == spec_unvisited(visited),
    decreases visited.len(),
{
    if i < visited.len() - 1 {
        assert(visited.update(i, true).drop_last() =~= visited.drop_last().update(i, true));
        lemma_unvisited_mark(visited.drop_last(), i);
    } else {
        assert(visited.update(i, true).drop_last() =~= visited.drop_last());
    }
}

/// The invariant of the reference search from `root`.
spec fn search_inv(
    nodes: Seq<DraftNode>, root: int, visited: Seq<bool>, stack: Seq<ValueRef>, references: Seq<SymbolId>,
) -> bool {
    &&& visited.len() == nodes.len()
    &&& forall|t: int| spec_reaches(nodes, root, t) ==> 0 <= t < nodes.len()
    &&& forall|i: int| 0 <= i < nodes.len() && #[trigger] visited[i] ==> spec_reaches(nodes, root, i)
    &&& forall|k: int| 0 <= k < stack.len() ==> spec_reaches(nodes, root, spec_id(#[trigger] stack[k]))
    &&& forall|i: int, b: int| 0 <= i < nodes.len() && visited[i] && #[trigger] spec_value_step(nodes, i, b)
        ==> 0 <= b < nodes.len() && (visited[b] || spec_on_stack(stack, b))
    &&& 0 <= root < nodes.len() && (visited[root] || spec_on_stack(stack, root))
    &&& spec_strictly_sorted(references)
    &&& forall|s: SymbolId| references.contains(s) <==> exists|t: int| 0 <= t < nodes.len() && visited[t]
        && spec_references(#[trigger] nodes[t], s.0 as int)
}

/// Collect the symbols that `value` refers to without going through another reference,
/// in increasing order.
pub fn collect_direct_references(value: ValueRef, nodes: &[DraftNode]) -> (references: Vec<SymbolId>)
    requires
        forall|t: int| spec_reaches(nodes@, spec_id(value), t) ==> 0 <= t < nodes@.len(),
    ensures
        spec_strictly_sorted(references@),
        forall|s: SymbolId| references@.contains(s) <==> spec_direct_reference(nodes@, spec_id(value), s.0 as int),
{
    let n = nodes.len();
    let ghost root = spec_id(value);
    let mut visited: Vec<bool> = Vec::new();
    while visited.len() < n
        invariant
            visited@.len() <= n,
            forall|i: int| 0 <= i < visited@.len() ==> !visited@[i],
        decreases n - visited@.len(),
    {
        visited.push(false);
    }
    let mut stack: Vec<ValueRef> = Vec::new();
    stack.push(value);
    let mut references: Vec<SymbolId> = Vec::new();
    proof {
        lemma_reaches_self(nodes@, root);
        assert(spec_id(stack@[0]) == root);
        assert forall|s: SymbolId| references@.contains(s) <==> exists|t: int| 0 <= t < nodes@.len() && visited@[t]
            && spec_references(#[trigger] nodes@[t], s.0 as int) by {
            if exists|t: int| 0 <= t < nodes@.len() && visited@[t] && spec_references(#[trigger] nodes@[t], s.0 as int) {
                let t = choose|t: int| 0 <= t < nodes@.len() && visited@[t] && spec_references(#[trigger] nodes@[t], s.0 as int);
                assert(!visited@[t]);
            }
        }
    }
    while stack.len() > 0
        invariant
            n == nodes@.len(),
            search_inv(nodes@, root, visited@, stack@, references@),
        decreases spec_unvisited(visited@), stack@.len(),
    {
        let ghost old_stack = stack@;
        let ghost old_visited = visited@;
        let ghost old_references = references@;
        let current = stack.pop().unwrap();
        proof {
            assert(old_stack[old_stack.len() - 1] == current);
            assert(stack@ =~= old_stack.drop_last());
        }
        let index = current.id.0 as usize;
        if !visited[index] {
            proof {
                lemma_unvisited_mark(visited@, index as int);
            }
            visited.set(index, true);
            if let SemanticNodeKind::Reference { symbol } = &nodes[index].kind {
                references = insert_symbol(references, *symbol);
            }
            let ghost popped = stack@;
            push_value_dependencies(&nodes[index].kind, &mut stack);
            proof {
                lemma_search_visit(nodes@, root, old_visited, old_stack, old_references, visited@, stack@, references@,
                    index as int, popped);
            }
        } else {
            proof {
                lemma_search_skip(nodes@, root, visited@, old_stack, references@, index as int);
            }
        }
    }
    proof {
        assert forall|s: SymbolId| references@.contains(s) <==> spec_direct_reference(nodes@, root, s.0 as int) by {
            if spec_direct_reference(nodes@, root, s.0 as int) {
                let t = choose|t: int| spec_reaches(nodes@, root, t) && 0 <= t < nodes@.len() && spec_references(#[trigger] nodes@[t], s.0 as int);
                let path = choose|path: Seq<int>| spec_value_path(nodes@, path) && path[0] == root && path.last() == t;
                assert(visited@[root]);
                lemma_closed_holds_reachable(nodes@, visited@, root, path);
            }
            if references@.contains(s) {
                let t = choose|t: int| 0 <= t < nodes@.len() && visited@[t] && spec_references(#[trigger] nodes@[t], s.0 as int);
                assert(spec_reaches(nodes@, root, t));
            }
        }
    }
    references
}

/// Skipping an already visited value keeps the search invariant.
proof fn lemma_search_skip(
    nodes: Seq<DraftNode>, root: int, visited: Seq<bool>, old_stack: Seq<ValueRef>, references: Seq<SymbolId>, index: int,
)
    requires
        old_stack.len() > 0,
        spec_id(old_stack.last()) == index,
        search_inv(nodes, root, visited, old_stack, references),
        0 <= index < nodes.len(),
        visited[index],
    ensures
        search_inv(nodes, root, visited, old_stack.drop_last(), references),
{
    let stack = old_stack.drop_last();
    assert forall|k: int| 0 <= k < stack.len() implies spec_reaches(nodes, root, spec_id(#[trigger] stack[k])) by {
        assert(stack[k] == old_stack[k]);
    }
    assert forall|i: int, b: int| 0 <= i < nodes.len() && visited[i] && #[trigger] spec_value_step(nodes, i, b)
        implies 0 <= b < nodes.len() && (visited[b] || spec_on_stack(stack, b)) by {
        if !visited[b] {
            let k = choose|k: int| 0 <= k < old_stack.len() && spec_id(#[trigger] old_stack[k]) == b;
            assert(k != old_stack.len() - 1);
            assert(stack[k] == old_stack[k]);
        }
    }
    if !visited[root] {
        let k = choose|k: int| 0 <= k < old_stack.len() && spec_id(#[trigger] old_stack[k]) == root;
        assert(k != old_stack.len() - 1);
        assert(stack[k] == old_stack[k]);
    }
}

/// Visiting a new value, recording its reference and stacking what it consumes, keeps the search invariant.
proof fn lemma_search_visit(
    nodes: Seq<DraftNode>, root: int,
    old_visited: Seq<bool>, old_stack: Seq<ValueRef>, old_references: Seq<SymbolId>,
    visited: Seq<bool>, stack: Seq<ValueRef>, references: Seq<SymbolId>,
    index: int, popped: Seq<ValueRef>,
)
    requires
        search_inv(nodes, root, old_visited, old_stack, old_references),
        old_stack.len() > 0,
        spec_id(old_stack.last()) == index,
        0 <= index < nodes.len(),
        !old_visited[index],
        visited == old_visited.update(index, true),
        popped == old_stack.drop_last(),
        stack == popped + spec_value_deps(nodes[index].kind),
        spec_strictly_sorted(references),
        nodes[index].kind matches SemanticNodeKind::Reference { symbol }
            ==> forall|s: SymbolId| references.contains(s) <==> (old_references.contains(s) || s == symbol),
        !(nodes[index].kind is Reference) ==> references == old_references,
    ensures
        search_inv(nodes, root, visited, stack, references),
{
    let deps = spec_value_deps(nodes[index].kind);
    assert(spec_reaches(nodes, root, index));
    assert forall|i: int| 0 <= i < nodes.len() && #[trigger] visited[i] implies spec_reaches(nodes, root, i) by {
        if i != index {
            assert(old_visited[i]);
        }
    }
    assert forall|k: int| 0 <= k < stack.len() implies spec_reaches(nodes, root, spec_id(#[trigger] stack[k])) by {
        if k < popped.len() {
            assert(stack[k] == old_stack[k]);
        } else {
            let m = k - popped.len();
            assert(stack[k] == deps[m]);
            assert(spec_value_step(nodes, index, spec_id(deps[m])));
            lemma_reaches_step(nodes, root, index, spec_id(deps[m]));
        }
    }
    assert forall|i: int, b: int| 0 <= i < nodes.len() && visited[i] && #[trigger] spec_value_step(nodes, i, b)
        implies 0 <= b < nodes.len() && (visited[b] || spec_on_stack(stack, b)) by {
        lemma_reaches_step(nodes, root, i, b);
        if i == index {
            let m = choose|m: int| 0 <= m < deps.len() && spec_id(#[trigger] deps[m]) == b;
            assert(stack[popped.len() + m] == deps[m]);
        } else if b != index && !old_visited[b] {
            let k = choose|k: int| 0 <= k < old_stack.len() && spec_id(#[trigger] old_stack[k]) == b;
            assert(k != old_stack.len() - 1);
            assert(stack[k] == old_stack[k]);
        }
    }
    if root != index && !old_visited[root] {
        let k = choose|k: int| 0 <= k < old_stack.len() && spec_id(#[trigger] old_stack[k]) == root;
        assert(k != old_stack.len() - 1);
        assert(stack[k] == old_stack[k]);
    }
    assert forall|s: SymbolId| references.contains(s) <==> exists|t: int| 0 <= t < nodes.len() && visited[t]
        && spec_references(#[trigger] nodes[t], s.0 as int) by {
        if old_references.contains(s) {
            let t = choose|t: int| 0 <= t < nodes.len() && old_visited[t] && spec_references(#[trigger] nodes[t], s.0 as int);
            assert(visited[t]);
        }
        if exists|t: int| 0 <= t < nodes.len() && visited[t] && spec_references(#[trigger] nodes[t], s.0 as int) {
            let t = choose|t: int| 0 <= t < nodes.len() && visited[t] && spec_references(#[trigger] nodes[t], s.0 as int);
            if t != index {
                assert(old_visited[t]);
            }
        }
    }
}

/// Whether named value `b` is referenced by the value of named value `a`.
pub open spec fn spec_symbol_edge(nodes: Seq<DraftNode>, symbols: Seq<Symbol>, a: int, b: int) -> bool {
    &&& 0 <= a < symbols.len()
    &&& symbols[a].value is Some
    &&& spec_direct_reference(nodes, spec_id(symbols[a].value->0), b)
}

/// Whether `cycle` lists named values, each referring to the next, that return to the first.
pub open spec fn spec_symbol_cycle(nodes: Seq<DraftNode>, symbols: Seq<Symbol>, cycle: Seq<int>) -> bool {
    &&& cycle.len() >= 2
    &&& cycle[0] == cycle.last()
    &&& forall|i: int| 0 <= i < cycle.len() - 1 ==> spec_symbol_edge(nodes, symbols, #[trigger] cycle[i], cycle[i + 1])
}

/// Whether `walk` lists named values, each referring to the next.
pub open spec fn spec_symbol_walk(nodes: Seq<DraftNode>, symbols: Seq<Symbol>, walk: Seq<int>) -> bool {
    &&& walk.len() >= 1
    &&& forall|i: int| 0 <= i < walk.len() - 1 ==> spec_symbol_edge(nodes, symbols, #[trigger] walk[i], walk[i + 1])
}

/// Whether following references from named value `r` reaches a cycle.
pub open spec fn spec_symbol_leads_to_cycle(nodes: Seq<DraftNode>, symbols: Seq<Symbol>, r: int) -> bool {
    exists|walk: Seq<int>, cycle: Seq<int>|
        #[trigger] spec_symbol_walk(nodes, symbols, walk) && walk[0] == r
            && #[trigger] spec_symbol_cycle(nodes, symbols, cycle) && cycle[0] == walk.last()
}

/// The names along `cycle`, joined by arrows.
pub open spec fn spec_cycle_text(symbols: Seq<Symbol>, cycle: Seq<int>) -> Seq<char>
    decreases cycle.len(),
{
    if cycle.len() <= 1 {
        if cycle.len() == 1 { symbols[cycle[0]].name@ } else { Seq::empty() }
    } else {
        spec_cycle_text(symbols, cycle.drop_last()) + " -> "@ + symbols[cycle.last()].name@
    }
}

/// What cycle detection needs of the graph: every named value is evaluated, and every value
/// a named value reaches lies in the graph and refers only to existing names.
pub open spec fn spec_cycle_ready(nodes: Seq<DraftNode>, symbols: Seq<Symbol>) -> bool {
    &&& symbols.len() <= u32::MAX + 1
    &&& forall|a: int| 0 <= a < symbols.len() ==> (#[trigger] symbols[a]).value is Some
    &&& forall|a: int, t: int| 0 <= a < symbols.len() && #[trigger] spec_reaches(nodes, spec_id(symbols[a].value->0), t)
        ==> 0 <= t < nodes.len()
    &&& forall|a: int, b: int| #[trigger] spec_symbol_edge(nodes, symbols, a, b) ==> 0 <= b < symbols.len()
}

/// The named values that each named value refers to, as node indices.
spec fn symbol_targets(edges: Seq<Vec<SymbolId>>) -> Seq<Seq<int>> {
    Seq::new(edges.len(), |a: int| Seq::new(edges[a]@.len(), |m: int| edges[a]@[m].0 as int))
}

/// Whether `edges[a]` lists exactly the named values that `a` refers to.
spec fn edges_match(nodes: Seq<DraftNode>, symbols: Seq<Symbol>, edges: Seq<Vec<SymbolId>>) -> bool {
    &&& edges.len() == symbols.len()
    &&& forall|a: int, s: SymbolId| 0 <= a < edges.len()
        ==> (#[trigger] edges[a]@.contains(s) <==> spec_symbol_edge(nodes, symbols, a, s.0 as int))
}

/// A reference between named values is an edge of the target lists, and back.
proof fn lemma_edge_iff(nodes: Seq<DraftNode>, symbols: Seq<Symbol>, edges: Seq<Vec<SymbolId>>, a: int, b: int)
    requires
        edges_match(nodes, symbols, edges),
        spec_cycle_ready(nodes, symbols),
    ensures
        spec_symbol_edge(nodes, symbols, a, b) <==> spec_adj_edge(symbol_targets(edges), a, b),
{
    let adj = symbol_targets(edges);
    if spec_symbol_edge(nodes, symbols, a, b) {
        assert(0 <= b < symbols.len());
        let s = SymbolId(b as u32);
        assert(edges[a]@.contains(s));
        let m = choose|m: int| 0 <= m < edges[a]@.len() && edges[a]@[m] == s;
        assert(adj[a][m] == b);
        assert(adj[a].contains(b));
    }
    if spec_adj_edge(adj, a, b) {
        let m = choose|m: int| 0 <= m < adj[a].len() && adj[a][m] == b;
        let s = edges[a]@[m];
        assert(edges[a]@.contains(s));
        assert(s.0 as int == b);
    }
}

/// Cycles among named values are the cycles of the target lists.
proof fn lemma_cycle_iff(nodes: Seq<DraftNode>, symbols: Seq<Symbol>, edges: Seq<Vec<SymbolId>>, cycle: Seq<int>)
    requires
        edges_match(nodes, symbols, edges),
        spec_cycle_ready(nodes, symbols),
    ensures
        spec_symbol_cycle(nodes, symbols, cycle) <==> spec_adj_cycle(symbol_targets(edges), cycle),
{
    assert forall|i: int| 0 <= i < cycle.len() - 1 implies (spec_symbol_edge(nodes, symbols, #[trigger] cycle[i], cycle[i + 1])
        <==> spec_adj_edge(symbol_targets(edges), cycle[i], cycle[i + 1])) by {
        lemma_edge_iff(nodes, symbols, edges, cycle[i], cycle[i + 1]);
    }
}

/// Walks among named values are the walks of the target lists.
proof fn lemma_walk_iff(nodes: Seq<DraftNode>, symbols: Seq<Symbol>, edges: Seq<Vec<SymbolId>>, walk: Seq<int>)
    requires
        edges_match(nodes, symbols, edges),
        spec_cycle_ready(nodes, symbols),
    ensures
        spec_symbol_walk(nodes, symbols, walk) <==> spec_adj_walk(symbol_targets(edges), walk),
{
    assert forall|i: int| 0 <= i < walk.len() - 1 implies (spec_symbol_edge(nodes, symbols, #[trigger] walk[i], walk[i + 1])
        <==> spec_adj_edge(symbol_targets(edges), walk[i], walk[i + 1])) by {
        lemma_edge_iff(nodes, symbols, edges, walk[i], walk[i + 1]);
    }
}

/// A named value leads to a cycle exactly when its node does in the target lists.
proof fn lemma_leads_iff(nodes: Seq<DraftNode>, symbols: Seq<Symbol>, edges: Seq<Vec<SymbolId>>, r: int)
    requires
        edges_match(nodes, symbols, edges),
        spec_cycle_ready(nodes, symbols),
    ensures
        spec_symbol_leads_to_cycle(nodes, symbols, r) <==> spec_leads_to_cycle(symbol_targets(edges), r),
{
    let adj = symbol_targets(edges);
    if spec_symbol_leads_to_cycle(nodes, symbols, r) {
        let (walk, cycle) = choose|walk: Seq<int>, cycle: Seq<int>|
            #[trigger] spec_symbol_walk(nodes, symbols, walk) && walk[0] == r
                && #[trigger] spec_symbol_cycle(nodes, symbols, cycle) && cycle[0] == walk.last();
        lemma_walk_iff(nodes, symbols, edges, walk);
        lemma_cycle_iff(nodes, symbols, edges, cycle);
        assert(spec_adj_walk(adj, walk) && spec_adj_cycle(adj, cycle));
    }
    if spec_leads_to_cycle(adj, r) {
        let (walk, cycle) = choose|walk: Seq<int>, cycle: Seq<int>|
            #[trigger] spec_adj_walk(adj, walk) && walk[0] == r && #[trigger] spec_adj_cycle(adj, cycle)
                && cycle[0] == walk.last();
        lemma_walk_iff(nodes, symbols, edges, walk);
        lemma_cycle_iff(nodes, symbols, edges, cycle);
        assert(spec_symbol_walk(nodes, symbols, walk) && spec_symbol_cycle(nodes, symbols, cycle));
    }
}

/// Reject a cycle among named values: a name whose value refers, through other names, back to itself.
///
/// Fails with `E_DEPENDENCY_CYCLE`, naming the names along the first cycle that a depth-first
/// search meets: the search starts from the first named value that leads to a cycle at all, and
/// follows a path of distinct names from it until a reference returns onto that path.
#[verifier::spinoff_prover]
#[verifier::rlimit(50)]
pub fn detect_cycles(symbols: &[Symbol], nodes: &[DraftNode]) -> (result: Result<(), Diagnostic>)
    requires
        spec_cycle_ready(nodes@, symbols@),
    ensures
        result is Ok <==> forall|cycle: Seq<int>| !spec_symbol_cycle(nodes@, symbols@, cycle),
        result matches Err(error) ==> error.code@ == "E_DEPENDENCY_CYCLE"@ && exists|path: Seq<int>, cycle: Seq<int>| {
            &&& #[trigger] spec_symbol_cycle(nodes@, symbols@, cycle)
            &&& error.message@ == "named-value dependency cycle: "@ + spec_cycle_text(symbols@, cycle)
            &&& error.span == symbols@[cycle[0]].declared_at
            &&& #[trigger] spec_symbol_walk(nodes@, symbols@, path)
            &&& forall|i: int, j: int| 0 <= i < path.len() && 0 <= j < path.len() && i != j ==> path[i] != path[j]
            &&& cycle.len() <= path.len() + 1
            &&& cycle.drop_last() == path.subrange(path.len() + 1 - cycle.len(), path.len() as int)
            &&& spec_symbol_leads_to_cycle(nodes@, symbols@, path[0])
            &&& forall|s: int| 0 <= s < path[0] ==> !spec_symbol_leads_to_cycle(nodes@, symbols@, s)
        },
{
    let n = symbols.len();
    let mut edges: Vec<Vec<SymbolId>> = Vec::new();
    while edges.len() < n
        invariant
            edges@.len() <= n,
            n == symbols@.len(),
            spec_cycle_ready(nodes@, symbols@),
            forall|a: int, s: SymbolId| 0 <= a < edges@.len()
                ==> (#[trigger] edges@[a]@.contains(s) <==> spec_symbol_edge(nodes@, symbols@, a, s.0 as int)),
        decreases n - edges@.len(),
    {
        let a = edges.len();
        assert(symbols@[a as int].value is Some);
        let value = symbols[a].value.unwrap();
        let references = collect_direct_references(value, nodes);
        edges.push(references);
    }
    let ghost adj = symbol_targets(edges@);
    let mut states: Vec<u8> = Vec::new();
    let mut positions: Vec<usize> = Vec::new();
    while states.len() < n
        invariant
            states@.len() <= n,
            positions@.len() == states@.len(),
            forall|i: int| 0 <= i < states@.len() ==> states@[i] == 0,
        decreases n - states@.len(),
    {
        states.push(0);
        positions.push(0);
    }
    let ghost mut rank: Seq<int> = Seq::new(n as nat, |i: int| 0);
    let ghost mut counter: int = 0;
    proof {
        lemma_count_absent(states@, 1);
        lemma_start(n as int, adj, states@, positions@, rank);
    }
    let mut stack: Vec<VisitFrame> = Vec::new();
    let mut root_index: usize = 0;
    while root_index < n
        invariant
            n == symbols@.len(),
            root_index <= n,
            spec_cycle_ready(nodes@, symbols@),
            edges_match(nodes@, symbols@, edges@),
            adj == symbol_targets(edges@),
            dfs_inv(n as int, adj, states@, stack@, positions@, rank, counter),
            stack@.len() == 0,
            spec_count(states@, 1) == 0,
            forall|r: int| 0 <= r < root_index ==> #[trigger] states@[r] == 2,
        decreases n - root_index,
    {
        if states[root_index] == 0 {
            proof {
                assert(stack@ =~= Seq::<VisitFrame>::empty());
                lemma_push_root(n as int, adj, states@, positions@, rank, counter, root_index as int);
                lemma_count_update(states@, root_index as int, 1, 0);
                lemma_count_update(states@, root_index as int, 1, 1);
            }
            states.set(root_index, 1);
            positions.set(root_index, 0);
            stack.push(VisitFrame { node: root_index, next: 0 });
            proof {
                assert(stack@ =~= seq![VisitFrame { node: root_index, next: 0 }]);
            }
            while stack.len() > 0
                invariant
                    n == symbols@.len(),
                    root_index < n,
                    spec_cycle_ready(nodes@, symbols@),
                    edges_match(nodes@, symbols@, edges@),
                    adj == symbol_targets(edges@),
                    dfs_inv(n as int, adj, states@, stack@, positions@, rank, counter),
                    states@[root_index as int] != 0,
                    stack@.len() == 0 ==> states@[root_index as int] == 2,
                    forall|r: int| 0 <= r < root_index ==> #[trigger] states@[r] == 2,
                    spec_count(states@, 1) == stack@.len(),
                    stack@.len() > 0 ==> stack@[0].node == root_index,
                decreases spec_count(states@, 0), spec_count(states@, 1), remaining(adj, stack@),
            {
                let top = stack.len() - 1;
                let index = stack[top].node;
                let next = stack[top].next;
                let ghost frames = stack@;
                let ghost before = states@;
                proof {
                    lemma_top(n as int, adj, states@, stack@, positions@, rank, counter);
                    lemma_count_bound(states@, 1);
                }
                if next < edges[index].len() {
                    let t = edges[index][next].index();
                    proof {
                        assert(adj[index as int][next as int] == t);
                        assert(spec_adj_edge(adj, index as int, t as int));
                        lemma_edge_iff(nodes@, symbols@, edges@, index as int, t as int);
                        assert(next_is(adj, frames, t as int));
                        lemma_remaining_step(adj, frames, t as int);
                    }
                    stack.set(top, VisitFrame { node: index, next: next + 1 });
                    proof {
                        assert(stack@ =~= advanced(frames));
                    }
                    if states[t] == 0 {
                        proof {
                            lemma_count_strict(states@, 1, t as int);
                            lemma_white_stack(n as int, adj, before, frames, positions@, rank, counter, t as int);
                            lemma_white_rest(n as int, adj, before, frames, positions@, rank, counter, t as int);
                            lemma_count_update(states@, t as int, 1, 0);
                            lemma_count_update(states@, t as int, 1, 1);
                            if states@[root_index as int] == 1 {
                                assert(root_index != t);
                            }
                        }
                        states.set(t, 1);
                        positions.set(t, stack.len());
                        stack.push(VisitFrame { node: t, next: 0 });
                        proof {
                            assert(stack@ =~= advanced(frames).push(VisitFrame { node: t, next: 0 }));
                        }
                    } else if states[t] == 1 {
                        let start = positions[t];
                        let ghost cycle = Seq::new((frames.len() - start) as nat, |j: int| frames[start + j].node as int)
                            .push(t as int);
                        let ghost path = Seq::new(frames.len(), |k: int| frames[k].node as int);
                        proof {
                            lemma_cycle(n as int, adj, before, frames, positions@, rank, counter, t as int);
                            lemma_cycle_on_path(n as int, adj, before, frames, positions@, rank, counter, t as int);
                            assert(Seq::new((stack@.len() - start) as nat, |j: int| stack@[start + j].node as int)
                                .push(t as int) =~= cycle);
                            lemma_cycle_iff(nodes@, symbols@, edges@, cycle);
                            lemma_walk_iff(nodes@, symbols@, edges@, path);
                            lemma_leads_iff(nodes@, symbols@, edges@, path[0]);
                            assert(path[0] == root_index);
                            assert forall|s: int| 0 <= s < path[0] implies !spec_symbol_leads_to_cycle(nodes@, symbols@, s) by {
                                assert(before[s] == 2);
                                lemma_finished_no_cycle(n as int, adj, before, frames, positions@, rank, counter, s);
                                lemma_leads_iff(nodes@, symbols@, edges@, s);
                            }
                        }
                        let error = cycle_failure(symbols, &stack, start, t);
                        proof {
                            assert(spec_symbol_cycle(nodes@, symbols@, cycle));
                            assert(spec_symbol_walk(nodes@, symbols@, path));
                        }
                        return Err(error);
                    } else {
                        proof {
                            lemma_black(n as int, adj, before, frames, positions@, rank, counter, t as int);
                        }
                    }
                } else {
                    proof {
                        lemma_finish(n as int, adj, before, frames, positions@, rank, counter);
                        lemma_count_update(states@, index as int, 2, 0);
                        lemma_count_update(states@, index as int, 2, 1);
                    }
                    stack.pop();
                    states.set(index, 2);
                    proof {
                        rank = rank.update(index as int, counter);
                        counter = counter + 1;
                        assert(stack@ =~= frames.drop_last());
                    }
                }
            }
        }
        proof {
            assert(stack@ =~= Seq::<VisitFrame>::empty());
            if states@[root_index as int] == 1 {
                lemma_no_gray(n as int, adj, states@, positions@, rank, counter, root_index as int);
            }
        }
        root_index = root_index + 1;
    }
    proof {
        lemma_all_finished(n as int, adj, states@, stack@, positions@, rank, counter);
        assert forall|cycle: Seq<int>| !spec_symbol_cycle(nodes@, symbols@, cycle) by {
            lemma_cycle_iff(nodes@, symbols@, edges@, cycle);
        }
    }
    Ok(())
}

/// The diagnostic for a named value that refers back to itself through the names on the
/// search path from `start`, then `target`.
fn cycle_failure(symbols: &[Symbol], stack: &Vec<VisitFrame>, start: usize, target: usize) -> (error: Diagnostic)
    requires
        start < stack@.len(),
        forall|k: int| 0 <= k < stack@.len() ==> (#[trigger] stack@[k]).node < symbols@.len(),
        target < symbols@.len(),
    ensures
        error.code@ == "E_DEPENDENCY_CYCLE"@,
        ({
            let cycle = Seq::new((stack@.len() - start) as nat, |j: int| stack@[start + j].node as int).push(target as int);
            &&& error.message@ == "named-value dependency cycle: "@ + spec_cycle_text(symbols@, cycle)
            &&& error.span == symbols@[target as int].declared_at
        }),
{
    let ghost cycle = Seq::new((stack@.len() - start) as nat, |j: int| stack@[start + j].node as int).push(target as int);
    let length = stack.len();
    let mut message = String::from_str("named-value dependency cycle: ");
    message.append(symbols[stack[start].node].name.as_str());
    let mut k: usize = start + 1;
    proof {
        assert(cycle.subrange(0, 1) =~= seq![cycle[0]]);
    }
    while k < length
        invariant
            start < k <= length,
            length == stack@.len(),
            cycle == Seq::new((stack@.len() - start) as nat, |j: int| stack@[start + j].node as int).push(target as int),
            forall|j: int| 0 <= j < stack@.len() ==> (#[trigger] stack@[j]).node < symbols@.len(),
            message@ == "named-value dependency cycle: "@ + spec_cycle_text(symbols@, cycle.subrange(0, k - start)),
        decreases length - k,
    {
        proof {
            let prefix = cycle.subrange(0, k + 1 - start);
            assert(prefix.drop_last() =~= cycle.subrange(0, k - start));
            assert(prefix.last() == stack@[k as int].node as int);
        }
        message.append(" -> ");
        message.append(symbols[stack[k].node].name.as_str());
        k = k + 1;
    }
    message.append(" -> ");
    message.append(symbols[target].name.as_str());
    proof {
        assert(cycle.drop_last() =~= cycle.subrange(0, k - start));
    }
    Diagnostic::new("E_DEPENDENCY_CYCLE", message, symbols[target].declared_at.clone_span())
}

/// One ordered output of an authored construct, as evaluation recorded it.
pub struct SurfaceOutput {
    pub value: ValueRef,
    pub id: Option<String>,
}

/// An authored construct and the values it produced, as evaluation recorded it.
pub struct SurfaceRecord {
    pub construct: String,
    pub outputs: Vec<SurfaceOutput>,
    pub span: SourceSpan,
}

/// The evaluated semantic graph of an entrypoint program.
pub struct Evaluation {
    /// The semantic nodes, each at the position named by its value ID.
    pub nodes: Vec<DraftNode>,
    /// The named values, by symbol index.
    pub symbols: Vec<Symbol>,
    /// The public names, each with its symbol.
    pub public_symbols: Vec<(String, SymbolId)>,
    /// The authored constructs, in source order.
    pub surface: Vec<SurfaceRecord>,
    /// The program's ordered outputs.
    pub outputs: Vec<ValueRef>,
}

/// The value of each symbol.
pub open spec fn spec_symbol_values(symbols: Seq<Symbol>) -> Seq<ValueRef> {
    symbols.map_values(|symbol: Symbol| symbol.value->0)
}

/// What evaluation guarantees of its graph: every symbol is evaluated to a value of the graph,
/// every node is well typed, outputs and public names name existing values and symbols, and
/// positions fit the identity types.
pub open spec fn spec_evaluated(evaluation: Evaluation) -> bool {
    let nodes = evaluation.nodes@;
    let symbols = evaluation.symbols@;
    &&& nodes.len() <= u32::MAX + 1
    &&& symbols.len() <= u32::MAX + 1
    &&& forall|a: int| 0 <= a < symbols.len() ==> (#[trigger] symbols[a]).value is Some
        && spec_typed_ref(nodes, symbols[a].value->0)
    &&& spec_typed_graph(nodes, spec_symbol_values(symbols))
    &&& forall|o: int| 0 <= o < evaluation.outputs@.len() ==> spec_typed_ref(nodes, #[trigger] evaluation.outputs@[o])
    &&& forall|p: int| 0 <= p < evaluation.public_symbols@.len()
        ==> (((#[trigger] evaluation.public_symbols@[p]).1).0 as int) < symbols.len()
    &&& crate::compiler::entrypoint::spec_distinct_names(evaluation.public_symbols@)
}

/// In a well-typed graph, every value reachable from a graph value lies in the graph.
proof fn lemma_typed_path(nodes: Seq<DraftNode>, values: Seq<ValueRef>, path: Seq<int>)
    requires
        spec_typed_graph(nodes, values),
        spec_value_path(nodes, path),
        0 <= path[0] < nodes.len(),
    ensures
        0 <= path.last() < nodes.len(),
    decreases path.len(),
{
    if path.len() > 1 {
        let shorter = path.drop_last();
        assert forall|i: int| 0 <= i < shorter.len() - 1 implies spec_value_step(nodes, #[trigger] shorter[i], shorter[i + 1]) by {
            assert(shorter[i] == path[i] && shorter[i + 1] == path[i + 1]);
        }
        lemma_typed_path(nodes, values, shorter);
        let a = path[path.len() - 2];
        assert(spec_value_step(nodes, a, path.last()));
        let m = choose|m: int| 0 <= m < spec_value_deps(nodes[a].kind).len()
            && spec_id(#[trigger] spec_value_deps(nodes[a].kind)[m]) == path.last();
        assert(spec_typed_node(nodes, values, a));
        lemma_value_dep_is_dep(nodes[a].kind, values, m);
    }
}

/// A value a node consumes is one of its dependencies.
proof fn lemma_value_dep_is_dep(kind: SemanticNodeKind, values: Seq<ValueRef>, m: int)
    requires
        0 <= m < spec_value_deps(kind).len(),
    ensures
        0 <= m < spec_dependencies(kind, values).len(),
        spec_dependencies(kind, values)[m] == spec_value_deps(kind)[m],
{
}

/// An evaluated graph is ready for cycle detection.
proof fn lemma_evaluated_cycle_ready(evaluation: Evaluation)
    requires
        spec_evaluated(evaluation),
    ensures
        spec_cycle_ready(evaluation.nodes@, evaluation.symbols@),
{
    let nodes = evaluation.nodes@;
    let symbols = evaluation.symbols@;
    let values = spec_symbol_values(symbols);
    assert forall|a: int, t: int| 0 <= a < symbols.len() && #[trigger] spec_reaches(nodes, spec_id(symbols[a].value->0), t)
        implies 0 <= t < nodes.len() by {
        assert(symbols[a].value is Some);
        let path = choose|path: Seq<int>| spec_value_path(nodes, path) && path[0] == spec_id(symbols[a].value->0) && path.last() == t;
        lemma_typed_path(nodes, values, path);
    }
    assert forall|a: int, b: int| #[trigger] spec_symbol_edge(nodes, symbols, a, b) implies 0 <= b < symbols.len() by {
        let t = choose|t: int| spec_reaches(nodes, spec_id(symbols[a].value->0), t) && 0 <= t < nodes.len()
            && spec_references(#[trigger] nodes[t], b);
        assert(spec_typed_node(nodes, values, t));
    }
}

/// Finalize draft nodes in graph order, attaching each node's inferred domain.
fn compile_nodes(nodes: Vec<DraftNode>, domains: &Vec<Option<VideoDomain>>) -> (compiled: Vec<CompiledNode>)
    requires
        nodes@.len() == domains@.len(),
        nodes@.len() <= u32::MAX + 1,
    ensures
        compiled@.len() == nodes@.len(),
        forall|i: int| 0 <= i < nodes@.len() ==> {
            &&& (#[trigger] compiled@[i]).spec_id().0 == i
            &&& compiled@[i].spec_kind() == nodes@[i].kind
            &&& compiled@[i].spec_origin() == nodes@[i].origin
            &&& compiled@[i].spec_value_type() == nodes@[i].value_type
            &&& compiled@[i].spec_domain() == domains@[i]
        },
{
    let ghost initial = nodes@;
    let total = nodes.len();
    let mut drafts = nodes;
    let mut reversed: Vec<CompiledNode> = Vec::new();
    while drafts.len() > 0
        invariant
            total == initial.len(),
            total == domains@.len(),
            total <= u32::MAX + 1,
            drafts@ == initial.subrange(0, drafts@.len() as int),
            reversed@.len() + drafts@.len() == total,
            forall|j: int| 0 <= j < reversed@.len() ==> {
                let i = total - 1 - j;
                &&& (#[trigger] reversed@[j]).spec_id().0 == i
                &&& reversed@[j].spec_kind() == initial[i].kind
                &&& reversed@[j].spec_origin() == initial[i].origin
                &&& reversed@[j].spec_value_type() == initial[i].value_type
                &&& reversed@[j].spec_domain() == domains@[i]
            },
        decreases drafts@.len(),
    {
        let node = drafts.pop().unwrap();
        let index = drafts.len();
        proof {
            assert(node == initial[index as int]);
            assert(drafts@ =~= initial.subrange(0, index as int));
        }
        reversed.push(CompiledNode::from_draft(ValueId::new(index as u32), node, domains[index]));
    }
    let mut compiled: Vec<CompiledNode> = Vec::new();
    while reversed.len() > 0
        invariant
            total == initial.len(),
            total == domains@.len(),
            compiled@.len() + reversed@.len() == total,
            forall|j: int| 0 <= j < reversed@.len() ==> {
                let i = total - 1 - j;
                &&& (#[trigger] reversed@[j]).spec_id().0 == i
                &&& reversed@[j].spec_kind() == initial[i].kind
                &&& reversed@[j].spec_origin() == initial[i].origin
                &&& reversed@[j].spec_value_type() == initial[i].value_type
                &&& reversed@[j].spec_domain() == domains@[i]
            },
            forall|i: int| 0 <= i < compiled@.len() ==> {
                &&& (#[trigger] compiled@[i]).spec_id().0 == i
                &&& compiled@[i].spec_kind() == initial[i].kind
                &&& compiled@[i].spec_origin() == initial[i].origin
                &&& compiled@[i].spec_value_type() == initial[i].value_type
                &&& compiled@[i].spec_domain() == domains@[i]
            },
        decreases reversed@.len(),
    {
        let ghost before = reversed@;
        let node = reversed.pop().unwrap();
        proof {
            assert(node == before[before.len() - 1]);
            assert forall|j: int| 0 <= j < reversed@.len() implies reversed@[j] == before[j] by {}
        }
        compiled.push(node);
    }
    compiled
}

/// Convert recorded construct outputs into explain outputs, in order.
fn explain_outputs(outputs: Vec<SurfaceOutput>) -> (explained: Vec<ExplainOutput>)
    ensures
        explained@.len() == outputs@.len(),
        forall|i: int| 0 <= i < outputs@.len() ==> (#[trigger] explained@[i]).spec_value() == outputs@[i].value
            && explained@[i].spec_id() == outputs@[i].id,
{
    let ghost initial = outputs@;
    let total = outputs.len();
    let mut remaining = outputs;
    let mut reversed: Vec<ExplainOutput> = Vec::new();
    while remaining.len() > 0
        invariant
            total == initial.len(),
            remaining@ == initial.subrange(0, remaining@.len() as int),
            reversed@.len() + remaining@.len() == total,
            forall|j: int| 0 <= j < reversed@.len() ==> (#[trigger] reversed@[j]).spec_value() == initial[total - 1 - j].value
                && reversed@[j].spec_id() == initial[total - 1 - j].id,
        decreases remaining@.len(),
    {
        let output = remaining.pop().unwrap();
        proof {
            assert(output == initial[remaining@.len() as int]);
            assert(remaining@ =~= initial.subrange(0, remaining@.len() as int));
        }
        reversed.push(ExplainOutput::new(output.value, output.id));
    }
    let mut explained: Vec<ExplainOutput> = Vec::new();
    while reversed.len() > 0
        invariant
            total == initial.len(),
            explained@.len() + reversed@.len() == total,
            forall|j: int| 0 <= j < reversed@.len() ==> (#[trigger] reversed@[j]).spec_value() == initial[total - 1 - j].value
                && reversed@[j].spec_id() == initial[total - 1 - j].id,
            forall|i: int| 0 <= i < explained@.len() ==> (#[trigger] explained@[i]).spec_value() == initial[i].value
                && explained@[i].spec_id() == initial[i].id,
        decreases reversed@.len(),
    {
        let ghost before = reversed@;
        let output = reversed.pop().unwrap();
        proof {
            assert(output == before[before.len() - 1]);
            assert forall|j: int| 0 <= j < reversed@.len() implies reversed@[j] == before[j] by {}
        }
        explained.push(output);
    }
    explained
}

/// Whether `entry` explains `record`: the same construct and location, and the same outputs
/// with the same names, in order.
pub open spec fn spec_explains(entry: ExplainEntry, record: SurfaceRecord) -> bool {
    &&& entry.spec_construct() == record.construct@
    &&& entry.spec_span() == record.span
    &&& entry.spec_outputs().len() == record.outputs@.len()
    &&& forall|k: int| 0 <= k < record.outputs@.len() ==> (#[trigger] entry.spec_outputs()[k]).spec_value() == record.outputs@[k].value
        && entry.spec_outputs()[k].spec_id() == record.outputs@[k].id
}

/// Convert recorded constructs into explain entries, in source order.
fn explain_entries(surface: Vec<SurfaceRecord>) -> (entries: Vec<ExplainEntry>)
    ensures
        entries@.len() == surface@.len(),
        forall|i: int| 0 <= i < surface@.len() ==> spec_explains(#[trigger] entries@[i], surface@[i]),
{
    let ghost initial = surface@;
    let total = surface.len();
    let mut remaining = surface;
    let mut reversed: Vec<ExplainEntry> = Vec::new();
    while remaining.len() > 0
        invariant
            total == initial.len(),
            remaining@ == initial.subrange(0, remaining@.len() as int),
            reversed@.len() + remaining@.len() == total,
            forall|j: int| 0 <= j < reversed@.len() ==> spec_explains(#[trigger] reversed@[j], initial[total - 1 - j]),
        decreases remaining@.len(),
    {
        let record = remaining.pop().unwrap();
        proof {
            assert(record == initial[remaining@.len() as int]);
            assert(remaining@ =~= initial.subrange(0, remaining@.len() as int));
        }
        let outputs = explain_outputs(record.outputs);
        reversed.push(ExplainEntry::new(record.construct, outputs, record.span));
    }
    let mut entries: Vec<ExplainEntry> = Vec::new();
    while reversed.len() > 0
        invariant
            total == initial.len(),
            entries@.len() + reversed@.len() == total,
            forall|j: int| 0 <= j < reversed@.len() ==> spec_explains(#[trigger] reversed@[j], initial[total - 1 - j]),
            forall|i: int| 0 <= i < entries@.len() ==> spec_explains(#[trigger] entries@[i], initial[i]),
        decreases reversed@.len(),
    {
        let ghost before = reversed@;
        let entry = reversed.pop().unwrap();
        proof {
            assert(entry == before[before.len() - 1]);
            assert forall|j: int| 0 <= j < reversed@.len() implies reversed@[j] == before[j] by {}
        }
        entries.push(entry);
    }
    entries
}

/// The value of each symbol, by symbol index.
fn symbol_value_table(symbols: &Vec<Symbol>) -> (values: Vec<ValueRef>)
    requires
        forall|b: int| 0 <= b < symbols@.len() ==> (#[trigger] symbols@[b]).value is Some,
    ensures
        values@ == spec_symbol_values(symbols@),
{
    let mut values: Vec<ValueRef> = Vec::new();
    let mut a: usize = 0;
    while a < symbols.len()
        invariant
            a <= symbols@.len(),
            values@ == spec_symbol_values(symbols@).subrange(0, a as int),
            forall|b: int| 0 <= b < symbols@.len() ==> (#[trigger] symbols@[b]).value is Some,
        decreases symbols@.len() - a,
    {
        let value = symbols[a].value.unwrap();
        values.push(value);
        a = a + 1;
        proof {
            assert(values@ =~= spec_symbol_values(symbols@).subrange(0, a as int));
        }
    }
    proof {
        assert(values@ =~= spec_symbol_values(symbols@));
    }
    values
}

/// The values of the public names followed by the outputs, and each public name with its value.
fn graph_roots(public_symbols: &Vec<(String, SymbolId)>, values: &Vec<ValueRef>, outputs: &Vec<ValueRef>)
    -> (result: (Vec<ValueRef>, Vec<(String, ValueRef)>))
    requires
        forall|q: int| 0 <= q < public_symbols@.len() ==> (((#[trigger] public_symbols@[q]).1).0 as int) < values@.len(),
    ensures
        result.0@ == public_symbols@.map_values(|entry: (String, SymbolId)| values@[(entry.1).0 as int]) + outputs@,
        result.1@.len() == public_symbols@.len(),
        forall|q: int| 0 <= q < public_symbols@.len() ==> (#[trigger] result.1@[q]).0@ == public_symbols@[q].0@
            && result.1@[q].1 == values@[(public_symbols@[q].1).0 as int],
{
    let mut roots: Vec<ValueRef> = Vec::new();
    let mut named_values: Vec<(String, ValueRef)> = Vec::new();
    let mut p: usize = 0;
    while p < public_symbols.len()
        invariant
            p <= public_symbols@.len(),
            forall|q: int| 0 <= q < public_symbols@.len() ==> (((#[trigger] public_symbols@[q]).1).0 as int) < values@.len(),
            roots@ == public_symbols@.subrange(0, p as int).map_values(|entry: (String, SymbolId)| values@[(entry.1).0 as int]),
            named_values@.len() == p,
            forall|q: int| 0 <= q < p ==> (#[trigger] named_values@[q]).0@ == public_symbols@[q].0@
                && named_values@[q].1 == values@[(public_symbols@[q].1).0 as int],
        decreases public_symbols@.len() - p,
    {
        let value = values[public_symbols[p].1.index()];
        roots.push(value);
        named_values.push((public_symbols[p].0.clone(), value));
        p = p + 1;
        proof {
            assert(roots@ =~= public_symbols@.subrange(0, p as int).map_values(|entry: (String, SymbolId)| values@[(entry.1).0 as int]));
        }
    }
    let ghost named_roots = roots@;
    proof {
        assert(public_symbols@.subrange(0, public_symbols@.len() as int) =~= public_symbols@);
    }
    let mut o: usize = 0;
    while o < outputs.len()
        invariant
            o <= outputs@.len(),
            roots@ == named_roots + outputs@.subrange(0, o as int),
        decreases outputs@.len() - o,
    {
        roots.push(outputs[o]);
        o = o + 1;
        proof {
            assert(roots@ =~= named_roots + outputs@.subrange(0, o as int));
        }
    }
    proof {
        assert(outputs@.subrange(0, outputs@.len() as int) =~= outputs@);
    }
    (roots, named_values)
}

/// The roots of the compiled graph: the values of the public names, then the outputs.
pub open spec fn spec_roots(evaluation: Evaluation) -> Seq<ValueRef> {
    evaluation.public_symbols@.map_values(|entry: (String, SymbolId)| spec_symbol_values(evaluation.symbols@)[(entry.1).0 as int])
        + evaluation.outputs@
}

/// Whether `order` lists exactly the values reachable from `roots`, each after the values it
/// consumes.
#[verifier::opaque]
pub open spec fn spec_reachable_order(nodes: Seq<DraftNode>, values: Seq<ValueRef>, roots: Seq<ValueRef>, order: Seq<ValueRef>) -> bool {
    &&& spec_is_dependency_order(nodes, values, order)
    &&& forall|p: int| 0 <= p < order.len() ==> spec_reachable(nodes, values, roots, spec_id(#[trigger] order[p]))
    &&& forall|i: int| #[trigger] spec_reachable(nodes, values, roots, i) ==> spec_listed_before(order, order.len() as int, i)
}

/// A well-typed graph is closed: its references name existing symbols, and every value it
/// or its typed roots name lies in the graph.
proof fn lemma_graph_closed(nodes: Seq<DraftNode>, values: Seq<ValueRef>, roots: Seq<ValueRef>)
    requires
        spec_typed_graph(nodes, values),
        forall|r: int| 0 <= r < roots.len() ==> spec_typed_ref(nodes, #[trigger] roots[r]),
    ensures
        forall|i: int| 0 <= i < nodes.len() ==> !spec_missing_reference(#[trigger] nodes[i].kind, values),
        forall|r: int| 0 <= r < roots.len() ==> spec_id(#[trigger] roots[r]) < nodes.len(),
        forall|i: int, m: int| 0 <= i < nodes.len() && 0 <= m < crate::compiler::traversal::spec_deps(nodes, values, i).len()
            ==> spec_id(#[trigger] crate::compiler::traversal::spec_deps(nodes, values, i)[m]) < nodes.len(),
{
    reveal(crate::compiler::traversal::spec_deps);
    assert forall|i: int| 0 <= i < nodes.len() implies !spec_missing_reference(#[trigger] nodes[i].kind, values) by {
        assert(spec_typed_node(nodes, values, i));
    }
    assert forall|i: int, m: int| 0 <= i < nodes.len() && 0 <= m < crate::compiler::traversal::spec_deps(nodes, values, i).len()
        implies spec_id(#[trigger] crate::compiler::traversal::spec_deps(nodes, values, i)[m]) < nodes.len() by {
        assert(spec_typed_node(nodes, values, i));
        assert(spec_typed_ref(nodes, spec_dependencies(nodes[i].kind, values)[m]));
    }
}

/// Finalize an evaluated program.
///
/// References are validated, named-value cycles rejected, and the graph ordered from the
/// public names and outputs; each Video domain known from authored data is then inferred.
/// `structure_hash` is the program's semantic identity and `engine_version` the version of
/// the compiler, both recorded in the compiled program.
#[verifier::spinoff_prover]
#[verifier::rlimit(100)]
pub fn finalize(
    output: Option<Spanned<String>>,
    video: VideoSpec,
    audio: AudioSpec,
    evaluation: Evaluation,
    format_version: u32,
    engine_version: String,
    structure_hash: String,
    entrypoint_source: String,
) -> (result: Result<CompiledProgram, Diagnostic>)
    requires
        spec_evaluated(evaluation),
    ensures
        ({
            let nodes = evaluation.nodes@;
            let symbols = evaluation.symbols@;
            let values = spec_symbol_values(symbols);
            &&& spec_first_reference_problem(nodes, symbols, nodes.len()) matches Some(i) ==> (result matches Err(error)
                && error.code@ == (spec_reference_problem(nodes[i], symbols)->0).0
                && error.message@ == (spec_reference_problem(nodes[i], symbols)->0).1)
            &&& (spec_first_reference_problem(nodes, symbols, nodes.len()) is None
                && exists|cycle: Seq<int>| #[trigger] spec_symbol_cycle(nodes, symbols, cycle))
                ==> (result matches Err(error) && error.code@ == "E_DEPENDENCY_CYCLE"@)
            &&& result matches Err(error) ==> {
                ||| spec_first_reference_problem(nodes, symbols, nodes.len()) is Some
                ||| exists|cycle: Seq<int>| #[trigger] spec_symbol_cycle(nodes, symbols, cycle)
                ||| error.code@ == "E_DEPENDENCY_CYCLE"@ && exists|path: Seq<int>| #[trigger] spec_is_cycle(nodes, values, path)
                    && spec_reachable(nodes, values, spec_roots(evaluation), path[0])
                ||| exists|order: Seq<ValueRef>| {
                    &&& #[trigger] spec_reachable_order(nodes, values, spec_roots(evaluation), order)
                    &&& spec_infer(nodes, values, video, order, order.len()) matches Some(Err(failure))
                    &&& spec_reports(error, failure)
                }
            }
            &&& (spec_first_reference_problem(nodes, symbols, nodes.len()) is None
                && (forall|cycle: Seq<int>| !#[trigger] spec_symbol_cycle(nodes, symbols, cycle))
                && (forall|path: Seq<int>| #[trigger] spec_is_cycle(nodes, values, path)
                    ==> !spec_reachable(nodes, values, spec_roots(evaluation), path[0]))
                && (forall|order: Seq<ValueRef>| #[trigger] spec_reachable_order(nodes, values, spec_roots(evaluation), order)
                    ==> !(spec_infer(nodes, values, video, order, order.len()) matches Some(Err(_)))))
                ==> result is Ok
            &&& result matches Ok(program) ==> {
                &&& forall|i: int| 0 <= i < nodes.len() ==> spec_reference_problem(#[trigger] nodes[i], symbols) is None
                &&& forall|cycle: Seq<int>| !spec_symbol_cycle(nodes, symbols, cycle)
                &&& program.spec_outputs() == evaluation.outputs@
                &&& program.spec_symbol_values() == values
                &&& program.spec_video() == video
                &&& program.spec_audio() == audio
                &&& program.spec_format_version() == format_version
                &&& program.spec_engine_version() == engine_version@
                &&& program.spec_structure_hash() == structure_hash@
                &&& program.spec_output() == output
                &&& program.spec_entrypoint_source() == entrypoint_source@
                &&& program.spec_named_values().len() == evaluation.public_symbols@.len()
                &&& forall|p: int| 0 <= p < evaluation.public_symbols@.len() ==>
                    (#[trigger] program.spec_named_values()[p]).0@ == evaluation.public_symbols@[p].0@
                    && program.spec_named_values()[p].1 == values[(evaluation.public_symbols@[p].1).0 as int]
                &&& program.spec_explain().len() == evaluation.surface@.len()
                &&& forall|i: int| 0 <= i < evaluation.surface@.len()
                    ==> spec_explains(#[trigger] program.spec_explain()[i], evaluation.surface@[i])
                &&& program.spec_nodes().len() == nodes.len()
                &&& forall|i: int| 0 <= i < nodes.len() ==> {
                    &&& (#[trigger] program.spec_nodes()[i]).spec_kind() == nodes[i].kind
                    &&& program.spec_nodes()[i].spec_origin() == nodes[i].origin
                    &&& program.spec_nodes()[i].spec_value_type() == nodes[i].value_type
                }
                &&& exists|order: Seq<ValueRef>| {
                    &&& #[trigger] spec_reachable_order(nodes, values, spec_roots(evaluation), order)
                    &&& forall|r: int| 0 <= r < spec_roots(evaluation).len()
                        ==> spec_listed_before(order, order.len() as int, spec_id(#[trigger] spec_roots(evaluation)[r]))
                    &&& spec_infer(nodes, values, video, order, order.len()) matches Some(Ok(knowledge))
                        && forall|i: int| 0 <= i < nodes.len()
                            ==> (#[trigger] program.spec_nodes()[i]).spec_domain() == spec_reported(knowledge[i])
                }
            }
        }),
{
    proof {
        lemma_first_reference_problem(evaluation.nodes@, evaluation.symbols@, evaluation.nodes@.len());
    }
    match validate_references(evaluation.nodes.as_slice(), evaluation.symbols.as_slice()) {
        Ok(()) => {},
        Err(error) => {
            return Err(error);
        },
    }
    proof {
        lemma_evaluated_cycle_ready(evaluation);
    }
    match detect_cycles(evaluation.symbols.as_slice(), evaluation.nodes.as_slice()) {
        Ok(()) => {},
        Err(error) => {
            return Err(error);
        },
    }
    let ghost all_roots = spec_roots(evaluation);
    let Evaluation { nodes, symbols, public_symbols, surface, outputs } = evaluation;
    let symbol_values = symbol_value_table(&symbols);
    let (roots, named_values) = graph_roots(&public_symbols, &symbol_values, &outputs);
    proof {
        assert(roots@ =~= all_roots);
    }
    let order = match topological_order(nodes.as_slice(), symbol_values.as_slice(), roots.as_slice()) {
        Ok(order) => order,
        Err(error) => {
            proof {
                assert forall|r: int| 0 <= r < roots@.len() implies spec_typed_ref(nodes@, #[trigger] roots@[r]) by {
                    if r >= public_symbols@.len() {
                        assert(roots@[r] == outputs@[r - public_symbols@.len()]);
                    } else {
                        assert(roots@[r] == symbol_values@[(public_symbols@[r].1).0 as int]);
                    }
                }
                lemma_graph_closed(nodes@, symbol_values@, roots@);
                if error.code@ == "E_MISSING_REFERENCE"@ {
                    reveal_strlit("E_MISSING_REFERENCE");
                    reveal_strlit("E_DEPENDENCY_CYCLE");
                }
                if error.code@ == "E_INVALID_GRAPH"@ {
                    reveal_strlit("E_INVALID_GRAPH");
                    reveal_strlit("E_DEPENDENCY_CYCLE");
                    reveal_strlit("E_MISSING_REFERENCE");
                }
            }
            return Err(error);
        },
    };
    proof {
        assert forall|q: int| 0 <= q < order@.len() implies spec_typed_ref(nodes@, #[trigger] order@[q]) by {
            assert(spec_from_graph(nodes@, symbol_values@, roots@, order@[q]));
            if roots@.contains(order@[q]) {
                let r = choose|r: int| 0 <= r < roots@.len() && roots@[r] == order@[q];
                if r >= public_symbols@.len() {
                    assert(roots@[r] == outputs@[r - public_symbols@.len()]);
                } else {
                    assert(roots@[r] == symbol_values@[(public_symbols@[r].1).0 as int]);
                }
            } else {
                reveal(crate::compiler::traversal::spec_deps);
                let (i, m) = choose|i: int, m: int| 0 <= i < nodes@.len()
                    && 0 <= m < crate::compiler::traversal::spec_deps(nodes@, symbol_values@, i).len()
                    && #[trigger] crate::compiler::traversal::spec_deps(nodes@, symbol_values@, i)[m] == order@[q];
                assert(spec_typed_node(nodes@, symbol_values@, i));
            }
        }
        lemma_infer_defined(nodes@, symbol_values@, video, order@);
        assert(spec_reachable_order(nodes@, symbol_values@, roots@, order@)) by {
            reveal(spec_reachable_order);
        }
    }
    let domains = match infer_domains(nodes.as_slice(), symbol_values.as_slice(), &video, order.as_slice()) {
        Ok(domains) => domains,
        Err(error) => {
            return Err(error);
        },
    };
    let ghost draft_nodes = nodes@;
    let compiled = compile_nodes(nodes, &domains);
    let explain = explain_entries(surface);
    proof {
        assert forall|i: int| 0 <= i < outputs@.len() implies #[trigger] outputs@[i].id.0 < compiled@.len() by {
            assert(spec_typed_ref(draft_nodes, outputs@[i]));
        }
        assert forall|i: int| 0 <= i < symbol_values@.len() implies #[trigger] symbol_values@[i].id.0 < compiled@.len() by {
            assert(symbols@[i].value is Some && spec_typed_ref(draft_nodes, symbols@[i].value->0));
        }
        assert forall|i: int| 0 <= i < named_values@.len() implies (#[trigger] named_values@[i]).1.id.0 < compiled@.len() by {
            let s = (public_symbols@[i].1).0 as int;
            assert(named_values@[i].1 == symbol_values@[s]);
            assert(symbol_values@[s].id.0 < compiled@.len());
        }
        assert(crate::compiler::entrypoint::spec_distinct_names(named_values@)) by {
            assert forall|i: int, j: int| 0 <= i < named_values@.len() && 0 <= j < named_values@.len() && i != j
                implies #[trigger] named_values@[i].0@ != #[trigger] named_values@[j].0@ by {
                assert(public_symbols@[i].0@ != public_symbols@[j].0@);
            }
        }
    }
    Ok(CompiledProgram::assemble(
        format_version,
        engine_version,
        structure_hash,
        video,
        audio,
        compiled,
        outputs,
        named_values,
        symbol_values,
        explain,
        output,
        entrypoint_source,
    ))
}

} // verus!
