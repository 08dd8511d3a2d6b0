//! Ordering the units of a source package so that every unit follows the units it imports.

use vstd::prelude::*;

use crate::compiler::dfs::{
    advanced, dfs_inv, lemma_all_finished, lemma_black, lemma_count_all, lemma_count_bound, lemma_count_strict,
    lemma_count_absent, lemma_cycle, lemma_finish, lemma_no_gray, lemma_push_root, lemma_remaining_step, lemma_start,
    lemma_top, lemma_white_rest, lemma_white_stack, next_is, remaining, spec_adj_cycle, VisitFrame,
};
use crate::compiler::traversal::{lemma_count_update, spec_count};
use crate::diagnostic::{decimal, spec_decimal, Diagnostic};
use crate::source::{ResolvedImport, SourcePackage, SourceSpan, SourceUnit, SourceUnitId};

verus! {

/// The import targets of each unit, by index.
pub open spec fn spec_import_targets(units: Seq<SourceUnit>) -> Seq<Seq<int>> {
    Seq::new(units.len(), |i: int| Seq::new(units[i].imports@.len(), |m: int| units[i].imports@[m].target.0 as int))
}

/// Whether `cycle` lists units, each importing the next, that return to the first.
pub open spec fn spec_import_cycle(units: Seq<SourceUnit>, cycle: Seq<int>) -> bool {
    spec_adj_cycle(spec_import_targets(units), cycle)
}

/// Whether every import refers to a unit of the package.
pub open spec fn spec_targets_exist(units: Seq<SourceUnit>) -> bool {
    forall|i: int, m: int| 0 <= i < units.len() && 0 <= m < units[i].imports@.len()
        ==> (#[trigger] units[i].imports@[m]).target.0 < units.len()
}

/// Whether a package links: its root exists, every import refers to a unit, and no unit
/// imports itself through other units.
pub open spec fn spec_linkable(package: SourcePackage) -> bool {
    &&& package.root.0 < package.units@.len()
    &&& spec_targets_exist(package.units@)
    &&& forall|cycle: Seq<int>| !spec_import_cycle(package.units@, cycle)
}

/// Whether `unit` occurs among the first `k` entries of `order`.
pub open spec fn spec_listed_before(order: Seq<SourceUnitId>, unit: SourceUnitId, k: int) -> bool {
    exists|j: int| 0 <= j < k && order[j] == unit
}

/// Whether `order` lists every unit once, each after every unit that it imports.
pub open spec fn spec_dependency_order(units: Seq<SourceUnit>, order: Seq<SourceUnitId>) -> bool {
    &&& order.len() == units.len()
    &&& forall|k: int| 0 <= k < order.len() ==> (#[trigger] order[k]).0 < units.len()
    &&& forall|j: int, k: int| 0 <= j < k < order.len() ==> order[j] != order[k]
    &&& forall|k: int, m: int| 0 <= k < order.len() && 0 <= m < units[order[k].0 as int].imports@.len()
        ==> spec_listed_before(order, (#[trigger] units[order[k].0 as int].imports@[m]).target, k)
}

/// The display paths of the units along `cycle`, joined by arrows.
pub open spec fn spec_unit_path_text(units: Seq<SourceUnit>, cycle: Seq<int>) -> Seq<char>
    decreases cycle.len(),
{
    if cycle.len() <= 1 {
        if cycle.len() == 1 { units[cycle[0]].path@ } else { Seq::empty() }
    } else {
        spec_unit_path_text(units, cycle.drop_last()) + " -> "@ + units[cycle.last()].path@
    }
}

/// What a failure to link `package` reports.
pub open spec fn spec_link_failure(package: SourcePackage, error: Diagnostic) -> bool {
    let units = package.units@;
    &&& error.notes@.len() == 0
    &&& if package.root.0 >= units.len() {
        &&& error.code@ == "E_INTERNAL_PROGRAM_LINK"@
        &&& error.message@ == "source package root refers to missing source unit "@ + spec_decimal(package.root.0 as u64)
        &&& error.span.file@ == (if units.len() > 0 { units[0].path@ } else { "<source-package>"@ })
        &&& error.span.line == 1
        &&& error.span.column == 1
    } else {
        ||| {
            &&& error.code@ == "E_INTERNAL_PROGRAM_LINK"@
            &&& exists|i: int, m: int| 0 <= i < units.len() && 0 <= m < units[i].imports@.len() && {
                let import = #[trigger] units[i].imports@[m];
                &&& import.target.0 >= units.len()
                &&& error.message@ == "import `"@ + import.alias.value@ + "` refers to missing source unit "@
                    + spec_decimal(import.target.0 as u64)
                &&& error.span == import.alias.span
            }
        }
        ||| {
            &&& error.code@ == "E_PROGRAM_IMPORT_CYCLE"@
            &&& exists|cycle: Seq<int>| {
                &&& #[trigger] spec_import_cycle(units, cycle)
                &&& error.message@ == "program import cycle: "@ + spec_unit_path_text(units, cycle)
                &&& exists|m: int| 0 <= m < units[cycle[cycle.len() - 2]].imports@.len() && {
                    let import = #[trigger] units[cycle[cycle.len() - 2]].imports@[m];
                    &&& import.target.0 == cycle[0]
                    &&& error.span == import.alias.span
                }
            }
        }
    }
}

/// The diagnostic for a package whose root is not one of its units.
fn invalid_root(package: &SourcePackage) -> (error: Diagnostic)
    requires
        package.root.0 >= package.units@.len(),
    ensures
        spec_link_failure(*package, error),
{
    let span = if package.units.len() > 0 {
        SourceSpan::file_start(package.units[0].path.as_str())
    } else {
        SourceSpan::file_start("<source-package>")
    };
    let mut message = String::from_str("source package root refers to missing source unit ");
    let number = decimal(package.root.index() as u64);
    message.append(number.as_str());
    Diagnostic::new("E_INTERNAL_PROGRAM_LINK", message, span)
}

/// The diagnostic for an import whose target is not a unit of the package.
fn missing_target(import: &ResolvedImport) -> (error: Diagnostic)
    ensures
        error.code@ == "E_INTERNAL_PROGRAM_LINK"@,
        error.message@ == "import `"@ + import.alias.value@ + "` refers to missing source unit "@
            + spec_decimal(import.target.0 as u64),
        error.span == import.alias.span,
        error.notes@.len() == 0,
{
    let mut message = String::from_str("import `");
    message.append(import.alias.value.as_str());
    message.append("` refers to missing source unit ");
    let number = decimal(import.target.index() as u64);
    message.append(number.as_str());
    Diagnostic::new("E_INTERNAL_PROGRAM_LINK", message, import.alias.span.clone_span())
}

/// The display path of a unit.
fn unit_label(package: &SourcePackage, unit: SourceUnitId) -> (label: &str)
    requires
        unit.0 < package.units@.len(),
    ensures
        label@ == package.units@[unit.0 as int].path@,
{
    package.units[unit.index()].path.as_str()
}

/// The finished units, listed in the order they finished: `rank` gives each its position.
spec fn order_inv(n: int, states: Seq<u8>, order: Seq<SourceUnitId>, rank: Seq<int>, counter: int) -> bool {
    &&& order.len() == counter
    &&& forall|k: int| 0 <= k < counter ==> {
        &&& 0 <= (#[trigger] order[k]).0 < n
        &&& states[order[k].0 as int] == 2
        &&& rank[order[k].0 as int] == k
    }
    &&& forall|i: int| 0 <= i < n && #[trigger] states[i] == 2 ==> 0 <= rank[i] < counter && order[rank[i]].0 == i
}

proof fn lemma_order_keep(n: int, states: Seq<u8>, order: Seq<SourceUnitId>, rank: Seq<int>, counter: int, i: int, value: u8)
    requires
        order_inv(n, states, order, rank, counter),
        states.len() == n,
        0 <= i < n,
        states[i] != 2,
        value != 2,
    ensures
        order_inv(n, states.update(i, value), order, rank, counter),
{
    let new_states = states.update(i, value);
    assert forall|j: int| 0 <= j < n && #[trigger] new_states[j] == 2 implies 0 <= rank[j] < counter && order[rank[j]].0 == j by {
        assert(states[j] == 2);
    }
    assert forall|k: int| 0 <= k < counter implies {
        &&& 0 <= (#[trigger] order[k]).0 < n
        &&& new_states[order[k].0 as int] == 2
        &&& rank[order[k].0 as int] == k
    } by {
        assert(states[order[k].0 as int] == 2);
    }
}

proof fn lemma_order_finish(n: int, states: Seq<u8>, order: Seq<SourceUnitId>, rank: Seq<int>, counter: int, u: int)
    requires
        order_inv(n, states, order, rank, counter),
        states.len() == n,
        rank.len() == n,
        0 <= u < n,
        u <= usize::MAX,
        states[u] == 1,
    ensures
        order_inv(n, states.update(u, 2), order.push(SourceUnitId(u as usize)), rank.update(u, counter), counter + 1),
{
    let new_states = states.update(u, 2);
    let new_order = order.push(SourceUnitId(u as usize));
    let new_rank = rank.update(u, counter);
    assert forall|k: int| 0 <= k < counter + 1 implies {
        &&& 0 <= (#[trigger] new_order[k]).0 < n
        &&& new_states[new_order[k].0 as int] == 2
        &&& new_rank[new_order[k].0 as int] == k
    } by {
        if k < counter {
            assert(new_order[k] == order[k]);
            assert(states[order[k].0 as int] == 2);
            assert(order[k].0 != u);
        }
    }
    assert forall|j: int| 0 <= j < n && #[trigger] new_states[j] == 2
        implies 0 <= new_rank[j] < counter + 1 && new_order[new_rank[j]].0 == j by {
        if j != u {
            assert(states[j] == 2);
            assert(new_order[rank[j]] == order[rank[j]]);
        }
    }
}

/// Once every unit is finished, after its targets, the finishing order is a dependency order.
proof fn lemma_finished_order(units: Seq<SourceUnit>, states: Seq<u8>, order: Seq<SourceUnitId>, rank: Seq<int>, counter: int)
    requires
        states.len() == units.len(),
        forall|i: int| 0 <= i < units.len() ==> #[trigger] states[i] == 2,
        order_inv(units.len() as int, states, order, rank, counter),
        counter == units.len(),
        forall|i: int, m: int| 0 <= i < units.len() && 0 <= m < spec_import_targets(units)[i].len() ==> {
            let t = #[trigger] spec_import_targets(units)[i][m];
            0 <= t < units.len() && rank[t] < rank[i]
        },
    ensures
        spec_targets_exist(units),
        spec_dependency_order(units, order),
{
    let adj = spec_import_targets(units);
    assert forall|i: int, m: int| 0 <= i < units.len() && 0 <= m < units[i].imports@.len()
        implies (#[trigger] units[i].imports@[m]).target.0 < units.len() by {
        assert(adj[i][m] == units[i].imports@[m].target.0 as int);
    }
    assert forall|j: int, k: int| 0 <= j < k < order.len() implies order[j] != order[k] by {
        assert(states[order[j].0 as int] == 2);
        assert(states[order[k].0 as int] == 2);
    }
    assert forall|k: int, m: int| 0 <= k < order.len() && 0 <= m < units[order[k].0 as int].imports@.len()
        implies spec_listed_before(order, (#[trigger] units[order[k].0 as int].imports@[m]).target, k) by {
        let u = order[k].0 as int;
        assert(states[u] == 2);
        let t = adj[u][m];
        assert(t == units[u].imports@[m].target.0);
        assert(states[t] == 2);
        assert(rank[t] < rank[u] && rank[u] == k);
        let j = rank[t];
        assert(0 <= j && order[j].0 == t);
        assert(order[j] == units[u].imports@[m].target);
        assert(0 <= j < k && order[j] == units[order[k].0 as int].imports@[m].target);
    }
}

/// The units on the search path from `start`, followed by `target`.
spec fn path_cycle(stack: Seq<VisitFrame>, start: int, target: int) -> Seq<int> {
    Seq::new((stack.len() - start) as nat, |j: int| stack[start + j].node as int).push(target)
}

/// The message naming the units on the search path from `start`, then `target`.
fn cycle_message(package: &SourcePackage, stack: &Vec<VisitFrame>, start: usize, target: SourceUnitId) -> (message: String)
    requires
        start < stack@.len(),
        forall|k: int| 0 <= k < stack@.len() ==> (#[trigger] stack@[k]).node < package.units@.len(),
        target.0 < package.units@.len(),
    ensures
        message@ == "program import cycle: "@
            + spec_unit_path_text(package.units@, path_cycle(stack@, start as int, target.0 as int)),
{
    let ghost units = package.units@;
    let ghost cycle = path_cycle(stack@, start as int, target.0 as int);
    let length = stack.len();
    let mut message = String::from_str("program import cycle: ");
    message.append(unit_label(package, SourceUnitId(stack[start].node)));
    let mut k: usize = start + 1;
    proof {
        assert(cycle.subrange(0, 1) =~= seq![cycle[0]]);
    }
    while k < length
        invariant
            start < k <= length,
            length == stack@.len(),
            units == package.units@,
            cycle == path_cycle(stack@, start as int, target.0 as int),
            forall|j: int| 0 <= j < stack@.len() ==> (#[trigger] stack@[j]).node < units.len(),
            message@ == "program import cycle: "@ + spec_unit_path_text(units, cycle.subrange(0, k - start)),
        decreases length - k,
    {
        proof {
            let prefix = cycle.subrange(0, k + 1 - start);
            assert(prefix.drop_last() =~= cycle.subrange(0, k - start));
            assert(prefix.last() == stack@[k as int].node as int);
        }
        message.append(" -> ");
        message.append(unit_label(package, SourceUnitId(stack[k].node)));
        k = k + 1;
    }
    message.append(" -> ");
    message.append(unit_label(package, target));
    proof {
        assert(cycle.drop_last() =~= cycle.subrange(0, k - start));
    }
    message
}

/// The diagnostic for a unit that imports itself through the units on the search path from `start`.
fn cycle_failure(package: &SourcePackage, stack: &Vec<VisitFrame>, start: usize, unit: usize, next: usize) -> (error: Diagnostic)
    requires
        package.root.0 < package.units@.len(),
        start < stack@.len(),
        forall|k: int| 0 <= k < stack@.len() ==> (#[trigger] stack@[k]).node < package.units@.len(),
        stack@[stack@.len() - 1].node == unit,
        unit < package.units@.len(),
        next < package.units@[unit as int].imports@.len(),
        spec_import_cycle(package.units@,
            path_cycle(stack@, start as int, package.units@[unit as int].imports@[next as int].target.0 as int)),
    ensures
        spec_link_failure(*package, error),
{
    let ghost units = package.units@;
    let import = &package.units[unit].imports[next];
    let ghost cycle = path_cycle(stack@, start as int, import.target.0 as int);
    proof {
        assert(cycle[cycle.len() - 1] == cycle[0]);
        assert(import.target.0 == cycle[0]);
    }
    let message = cycle_message(package, stack, start, import.target);
    let error = Diagnostic::new("E_PROGRAM_IMPORT_CYCLE", message, import.alias.span.clone_span());
    proof {
        assert(cycle[cycle.len() - 2] == unit as int);
        assert(units[cycle[cycle.len() - 2]].imports@[next as int] == *import);
        assert(spec_import_cycle(units, cycle));
    }
    error
}

/// Order the units of a package so that each follows every unit that it imports.
///
/// Units are searched depth first in storage order, and each is listed once all its imports
/// are. Fails with `E_INTERNAL_PROGRAM_LINK` when the root or an import target is not a unit
/// of the package, and with `E_PROGRAM_IMPORT_CYCLE`, naming the units along the cycle, when a
/// unit imports itself through other units.
#[verifier::spinoff_prover]
#[verifier::rlimit(50)]
pub fn source_unit_order(package: &SourcePackage) -> (result: Result<Vec<SourceUnitId>, Diagnostic>)
    ensures
        result is Ok <==> spec_linkable(*package),
        result matches Ok(order) ==> spec_dependency_order(package.units@, order@),
        result matches Err(error) ==> spec_link_failure(*package, error),
{
    let n = package.units.len();
    if package.root.index() >= n {
        return Err(invalid_root(package));
    }
    let ghost units = package.units@;
    let ghost adj = spec_import_targets(units);
    let mut states: Vec<u8> = Vec::new();
    let mut positions: Vec<usize> = Vec::new();
    while states.len() < n
        invariant
            states@.len() <= n,
            positions@.len() == states@.len(),
            forall|i: int| 0 <= i < states@.len() ==> states@[i] == 0,
        decreases n - states@.len(),
    {
        states.push(0);
        positions.push(0);
    }
    let ghost mut rank: Seq<int> = Seq::new(n as nat, |i: int| 0);
    let ghost mut counter: int = 0;
    proof {
        lemma_count_absent(states@, 1);
        lemma_count_absent(states@, 2);
        lemma_start(n as int, adj, states@, positions@, rank);
    }
    let mut stack: Vec<VisitFrame> = Vec::new();
    let mut order: Vec<SourceUnitId> = Vec::new();
    let mut root_index: usize = 0;
    while root_index < n
        invariant
            n == package.units@.len(),
            units == package.units@,
            adj == spec_import_targets(units),
            package.root.0 < n,
            root_index <= n,
            dfs_inv(n as int, adj, states@, stack@, positions@, rank, counter),
            stack@.len() == 0,
            spec_count(states@, 1) == 0,
            spec_count(states@, 2) == counter,
            forall|r: int| 0 <= r < root_index ==> #[trigger] states@[r] == 2,
            order_inv(n as int, states@, order@, rank, counter),
        decreases n - root_index,
    {
        if states[root_index] == 0 {
            let root = SourceUnitId(root_index);
            proof {
                assert(stack@ =~= Seq::<VisitFrame>::empty());
                lemma_push_root(n as int, adj, states@, positions@, rank, counter, root_index as int);
                lemma_count_update(states@, root_index as int, 1, 0);
                lemma_count_update(states@, root_index as int, 1, 1);
                lemma_count_update(states@, root_index as int, 1, 2);
                lemma_order_keep(n as int, states@, order@, rank, counter, root_index as int, 1);
            }
            states.set(root_index, 1);
            positions.set(root_index, 0);
            stack.push(VisitFrame { node: root_index, next: 0 });
            proof {
                assert(stack@ =~= seq![VisitFrame { node: root_index, next: 0 }]);
            }
            while stack.len() > 0
                invariant
                    n == package.units@.len(),
                    units == package.units@,
                    adj == spec_import_targets(units),
                    package.root.0 < n,
                    root_index < n,
                    dfs_inv(n as int, adj, states@, stack@, positions@, rank, counter),
                    states@[root_index as int] != 0,
                    stack@.len() == 0 ==> states@[root_index as int] == 2,
                    forall|r: int| 0 <= r < root_index ==> #[trigger] states@[r] == 2,
                    spec_count(states@, 1) == stack@.len(),
                    spec_count(states@, 2) == counter,
                    stack@.len() > 0 ==> stack@[0].node == root_index,
                    order_inv(n as int, states@, order@, rank, counter),
                decreases spec_count(states@, 0), spec_count(states@, 1), remaining(adj, stack@),
            {
                let top = stack.len() - 1;
                let unit = stack[top].node;
                let next = stack[top].next;
                let ghost frames = stack@;
                let ghost before = states@;
                proof {
                    lemma_top(n as int, adj, states@, stack@, positions@, rank, counter);
                    lemma_count_bound(states@, 1);
                    assert(adj[unit as int].len() == units[unit as int].imports@.len());
                }
                if next < package.units[unit].imports.len() {
                    let target = package.units[unit].imports[next].target;
                    let t = target.index();
                    if t >= n {
                        proof {
                            assert(!spec_targets_exist(units)) by {
                                assert(units[unit as int].imports@[next as int].target.0 >= units.len());
                            }
                        }
                        return Err(missing_target(&package.units[unit].imports[next]));
                    }
                    proof {
                        assert(adj[unit as int][next as int] == t);
                        assert(next_is(adj, frames, t as int));
                        lemma_remaining_step(adj, frames, t as int);
                    }
                    stack.set(top, VisitFrame { node: unit, next: next + 1 });
                    proof {
                        assert(stack@ =~= advanced(frames));
                    }
                    if states[t] == 0 {
                        proof {
                            lemma_count_strict(states@, 1, t as int);
                            lemma_white_stack(n as int, adj, before, frames, positions@, rank, counter, t as int);
                            lemma_white_rest(n as int, adj, before, frames, positions@, rank, counter, t as int);
                            lemma_count_update(states@, t as int, 1, 0);
                            lemma_count_update(states@, t as int, 1, 1);
                            lemma_count_update(states@, t as int, 1, 2);
                            lemma_order_keep(n as int, states@, order@, rank, counter, t as int, 1);
                            if states@[root_index as int] == 1 {
                                assert(root_index != t);
                            }
                        }
                        states.set(t, 1);
                        positions.set(t, stack.len());
                        stack.push(VisitFrame { node: t, next: 0 });
                        proof {
                            assert(stack@ =~= advanced(frames).push(VisitFrame { node: t, next: 0 }));
                        }
                    } else if states[t] == 1 {
                        proof {
                            lemma_cycle(n as int, adj, before, frames, positions@, rank, counter, t as int);
                            let start = positions@[t as int] as int;
                            assert(path_cycle(stack@, start, t as int) =~= path_cycle(frames, start, t as int));
                        }
                        return Err(cycle_failure(package, &stack, positions[t], unit, next));
                    } else {
                        proof {
                            lemma_black(n as int, adj, before, frames, positions@, rank, counter, t as int);
                        }
                    }
                } else {
                    proof {
                        lemma_finish(n as int, adj, before, frames, positions@, rank, counter);
                        lemma_count_update(states@, unit as int, 2, 0);
                        lemma_count_update(states@, unit as int, 2, 1);
                        lemma_count_update(states@, unit as int, 2, 2);
                        lemma_order_finish(n as int, states@, order@, rank, counter, unit as int);
                    }
                    stack.pop();
                    states.set(unit, 2);
                    order.push(SourceUnitId(unit));
                    proof {
                        rank = rank.update(unit as int, counter);
                        counter = counter + 1;
                        assert(stack@ =~= frames.drop_last());
                        if stack@.len() == 0 {
                            assert(unit == root_index);
                        }
                    }
                }
            }
        }
        proof {
            assert(stack@ =~= Seq::<VisitFrame>::empty());
            if states@[root_index as int] == 1 {
                lemma_no_gray(n as int, adj, states@, positions@, rank, counter, root_index as int);
            }
        }
        root_index = root_index + 1;
    }
    proof {
        lemma_all_finished(n as int, adj, states@, stack@, positions@, rank, counter);
        lemma_count_all(states@, 2);
        lemma_finished_order(package.units@, states@, order@, rank, counter);
    }
    Ok(order)
}

} // verus!
