//! Names local to a program body: their declared or still-inferred types, and the
//! dependencies among the named values whose types are inferred from one another.

use vstd::prelude::*;

use crate::compiler::dfs::{
    advanced, dfs_inv, lemma_all_finished, lemma_black, lemma_count_absent, lemma_count_bound, lemma_count_strict,
    lemma_cycle, lemma_finish, lemma_no_gray, lemma_push_root, lemma_remaining_step, lemma_start, lemma_top,
    lemma_white_rest, lemma_white_stack, next_is, remaining, spec_adj_cycle, spec_adj_edge, VisitFrame,
};
use crate::compiler::traversal::{lemma_count_update, spec_count};
use crate::compiler::entrypoint::{
    spec_text_less,
    find_name, lemma_map_absent, lemma_map_insert, lemma_map_lookup, lemma_sorted_insert, spec_distinct_names,
    spec_entry_map, spec_sorted_names,
};
use crate::diagnostic::{builtin_code, BuiltinDiagnostic, Diagnostic};
use crate::model::ValueType;
use crate::program::ParameterType;
use crate::source::SourceSpan;

verus! {

/// What a local name stands for while a body is checked.
#[derive(Clone, Debug, PartialEq, Eq)]
pub enum LocalType {
    /// A graph value of a known type.
    Value(ValueType),
    /// A scalar parameter.
    Parameter(ParameterType),
    /// A named value whose type follows from the named values it refers to, listed by name.
    Inferred { dependencies: Vec<String>, span: SourceSpan },
}

/// The local names of a body, each bound once, in name order.
#[derive(Debug)]
pub struct LocalTable {
    entries: Vec<(String, LocalType)>,
}

impl LocalTable {
    #[verifier::type_invariant]
    spec fn distinct(self) -> bool {
        spec_distinct_names(self.entries@) && spec_sorted_names(self.entries@)
    }

    /// The bound names with what they stand for, in name order.
    pub closed spec fn spec_entries(self) -> Seq<(String, LocalType)> {
        self.entries@
    }

    /// What each bound name stands for.
    pub open spec fn spec_locals(self) -> Map<Seq<char>, LocalType> {
        spec_entry_map(self.spec_entries())
    }

    /// A table with no names.
    pub fn new() -> (table: Self)
        ensures
            table.spec_entries().len() == 0,
            table.spec_locals() == Map::<Seq<char>, LocalType>::empty(),
    {
        let table = LocalTable { entries: Vec::new() };
        assert(table.spec_locals() =~= Map::<Seq<char>, LocalType>::empty());
        table
    }

    /// The bound names with what they stand for, in name order.
    pub fn entries(&self) -> (entries: &[(String, LocalType)])
        ensures
            entries@ == self.spec_entries(),
            spec_sorted_names(entries@),
    {
        proof {
            use_type_invariant(self);
        }
        self.entries.as_slice()
    }

    /// What `name` stands for, if it is bound.
    pub fn get(&self, name: &str) -> (local: Option<&LocalType>)
        ensures
            self.spec_locals().contains_key(name@) ==> local == Some(&self.spec_locals()[name@]),
            !self.spec_locals().contains_key(name@) ==> local is None,
    {
        proof {
            use_type_invariant(self);
        }
        let (found, _) = find_name(&self.entries, name);
        match found {
            Some(index) => {
                proof {
                    lemma_map_lookup(self.entries@, index as int);
                }
                Some(&self.entries[index].1)
            }
            None => {
                proof {
                    lemma_map_absent(self.entries@, name@);
                }
                None
            }
        }
    }
}

/// Bind a local name.
///
/// Fails with `E_DUPLICATE_NAME` when the name is already bound; as a map insertion does, the
/// new binding then replaces the old one.
pub fn insert_local(locals: &mut LocalTable, name: &str, local: LocalType, span: &SourceSpan) -> (result: Result<(), Diagnostic>)
    ensures
        final(locals).spec_locals() == old(locals).spec_locals().insert(name@, local),
        result is Err <==> old(locals).spec_locals().contains_key(name@),
        result is Ok ==> final(locals).spec_entries().len() == old(locals).spec_entries().len() + 1,
        result is Err ==> final(locals).spec_entries().len() == old(locals).spec_entries().len(),
        result matches Err(error) ==> {
            &&& error.code@ == builtin_code(BuiltinDiagnostic::DuplicateName)
            &&& error.message@ == "duplicate local name `"@ + name@ + "`"@
            &&& error.span == *span
            &&& error.notes@.len() == 0
        },
{
    proof {
        use_type_invariant(&*locals);
    }
    let ghost before = locals.entries@;
    let (found, position) = find_name(&locals.entries, name);
    match found {
        Some(index) => {
            proof {
                lemma_map_lookup(before, index as int);
            }
            let key = locals.entries[index].0.clone();
            let mut entries: Vec<(String, LocalType)> = Vec::new();
            std::mem::swap(&mut entries, &mut locals.entries);
            entries.set(index, (key, local));
            proof {
                lemma_map_replace(before, index as int, entries@[index as int]);
            }
            locals.entries = entries;
            let mut message = String::from_str("duplicate local name `");
            message.append(name);
            message.append("`");
            Err(Diagnostic::builtin(BuiltinDiagnostic::DuplicateName, message, span.clone_span()))
        }
        None => {
            proof {
                lemma_map_absent(before, name@);
            }
            let mut entries: Vec<(String, LocalType)> = Vec::new();
            std::mem::swap(&mut entries, &mut locals.entries);
            entries.insert(position, (name.to_owned(), local));
            proof {
                lemma_map_insert(before, position as int, entries@[position as int]);
                lemma_sorted_insert(before, position as int, entries@[position as int]);
                assert(entries@ == before.insert(position as int, entries@[position as int]));
            }
            locals.entries = entries;
            Ok(())
        }
    }
}

/// Replacing the value of an entry keeps the names and changes that one binding.
proof fn lemma_map_replace(entries: Seq<(String, LocalType)>, index: int, entry: (String, LocalType))
    requires
        spec_distinct_names(entries),
        0 <= index < entries.len(),
        entry.0@ == entries[index].0@,
    ensures
        spec_distinct_names(entries.update(index, entry)),
        spec_sorted_names(entries) ==> spec_sorted_names(entries.update(index, entry)),
        spec_entry_map(entries.update(index, entry)) == spec_entry_map(entries).insert(entry.0@, entry.1),
{
    let updated = entries.update(index, entry);
    if spec_sorted_names(entries) {
        assert forall|i: int, j: int| 0 <= i < j < updated.len()
            implies spec_text_less(#[trigger] updated[i].0@, #[trigger] updated[j].0@) by {
            assert(updated[i].0@ == entries[i].0@);
            assert(updated[j].0@ == entries[j].0@);
        }
    }
    assert forall|i: int, j: int| 0 <= i < updated.len() && 0 <= j < updated.len() && i != j
        implies #[trigger] updated[i].0@ != #[trigger] updated[j].0@ by {
        assert(updated[i].0@ == entries[i].0@);
        assert(updated[j].0@ == entries[j].0@);
    }
    assert forall|name: Seq<char>| #[trigger] spec_entry_map(updated).contains_key(name)
        <==> spec_entry_map(entries).insert(entry.0@, entry.1).contains_key(name) by {
        if exists|i: int| 0 <= i < updated.len() && #[trigger] updated[i].0@ == name {
            let i = choose|i: int| 0 <= i < updated.len() && #[trigger] updated[i].0@ == name;
            assert(entries[i].0@ == name);
        }
        if exists|i: int| 0 <= i < entries.len() && #[trigger] entries[i].0@ == name {
            let i = choose|i: int| 0 <= i < entries.len() && #[trigger] entries[i].0@ == name;
            assert(updated[i].0@ == name);
        }
    }
    assert forall|name: Seq<char>| #[trigger] spec_entry_map(updated).contains_key(name)
        implies spec_entry_map(updated)[name] == spec_entry_map(entries).insert(entry.0@, entry.1)[name] by {
        let i = choose|i: int| 0 <= i < updated.len() && #[trigger] updated[i].0@ == name;
        lemma_map_lookup(updated, i);
        if i != index {
            assert(updated[i] == entries[i]);
            lemma_map_lookup(entries, i);
        }
    }
    assert(spec_entry_map(updated) =~= spec_entry_map(entries).insert(entry.0@, entry.1));
}

/// The message for a reference to a name that nothing binds.
pub open spec fn spec_missing_reference_message(name: Seq<char>) -> Seq<char> {
    "reference `$"@ + name + "` does not name an input, parameter, body alias, or output binding"@
}

/// The diagnostic for a reference to a name that nothing binds.
pub fn missing_reference(name: &str, span: &SourceSpan) -> (error: Diagnostic)
    ensures
        error.code@ == builtin_code(BuiltinDiagnostic::MissingReference),
        error.message@ == spec_missing_reference_message(name@),
        error.span == *span,
        error.notes@.len() == 0,
{
    let mut message = String::from_str("reference `$");
    message.append(name);
    message.append("` does not name an input, parameter, body alias, or output binding");
    Diagnostic::builtin(BuiltinDiagnostic::MissingReference, message, span.clone_span())
}

/// The diagnostic for a named value whose type nothing determines.
pub fn unresolved_local_type(name: &str, span: &SourceSpan) -> (error: Diagnostic)
    ensures
        error.code@ == builtin_code(BuiltinDiagnostic::TypeInferenceDependency),
        error.message@ == "cannot infer the type of named value `$"@ + name@
            + "` from available constraints; add `<Video>` or `<Audio>`"@,
        error.span == *span,
        error.notes@.len() == 0,
{
    let mut message = String::from_str("cannot infer the type of named value `$");
    message.append(name);
    message.append("` from available constraints; add `<Video>` or `<Audio>`");
    Diagnostic::builtin(BuiltinDiagnostic::TypeInferenceDependency, message, span.clone_span())
}

/// The type of the graph value that a local name stands for.
///
/// Fails when the name stands for a parameter (`E_PARAMETER_NOT_VALUE`), for a named value
/// still being inferred (`E_UNRESOLVED_LOCAL_TYPE`), or for nothing (`E_MISSING_REFERENCE`).
pub fn value_local(locals: &LocalTable, name: &str, span: &SourceSpan) -> (result: Result<ValueType, Diagnostic>)
    ensures
        !locals.spec_locals().contains_key(name@) ==> (result matches Err(error)
            && error.code@ == builtin_code(BuiltinDiagnostic::MissingReference)
            && error.message@ == spec_missing_reference_message(name@)
            && error.span == *span),
        locals.spec_locals().contains_key(name@) ==> match locals.spec_locals()[name@] {
            LocalType::Value(value_type) => result == Ok::<ValueType, Diagnostic>(value_type),
            LocalType::Parameter(_) => (result matches Err(error)
                && error.code@ == builtin_code(BuiltinDiagnostic::ParameterNotValue)
                && error.message@ == "parameter `$"@ + name@ + "` is not a graph value"@
                && error.span == *span),
            LocalType::Inferred { .. } => (result matches Err(error)
                && error.code@ == builtin_code(BuiltinDiagnostic::UnresolvedLocalType)
                && error.message@ == "named value `$"@ + name@ + "` has not finished type inference"@
                && error.span == *span),
        },
{
    match locals.get(name) {
        Some(LocalType::Value(value_type)) => Ok(*value_type),
        Some(LocalType::Parameter(_)) => {
            let mut message = String::from_str("parameter `$");
            message.append(name);
            message.append("` is not a graph value");
            Err(Diagnostic::builtin(BuiltinDiagnostic::ParameterNotValue, message, span.clone_span()))
        }
        Some(LocalType::Inferred { .. }) => {
            let mut message = String::from_str("named value `$");
            message.append(name);
            message.append("` has not finished type inference");
            Err(Diagnostic::builtin(BuiltinDiagnostic::UnresolvedLocalType, message, span.clone_span()))
        }
        None => Err(missing_reference(name, span)),
    }
}

/// Whether entry `i` is the first, in name order, whose type is still inferred.
pub open spec fn spec_first_inferred(entries: Seq<(String, LocalType)>, i: int) -> bool {
    &&& 0 <= i < entries.len()
    &&& entries[i].1 is Inferred
    &&& forall|j: int| 0 <= j < i ==> !(#[trigger] entries[j].1 is Inferred)
}

/// Require every local name to have a settled type.
///
/// Fails with `E_TYPE_INFERENCE_DEPENDENCY` for the first name, in name order, whose type is
/// still inferred.
pub fn ensure_local_types_resolved(locals: &LocalTable) -> (result: Result<(), Diagnostic>)
    ensures
        result is Ok <==> forall|j: int| 0 <= j < locals.spec_entries().len() ==> !(#[trigger] locals.spec_entries()[j].1 is Inferred),
        result matches Err(error) ==> exists|i: int| spec_first_inferred(locals.spec_entries(), i) && {
            let entry = #[trigger] locals.spec_entries()[i];
            &&& error.code@ == builtin_code(BuiltinDiagnostic::TypeInferenceDependency)
            &&& error.message@ == "cannot infer the type of named value `$"@ + entry.0@
                + "` from available constraints; add `<Video>` or `<Audio>`"@
            &&& error.span == entry.1->span
        },
{
    let entries = locals.entries();
    let mut i: usize = 0;
    while i < entries.len()
        invariant
            i <= entries@.len(),
            entries@ == locals.spec_entries(),
            forall|j: int| 0 <= j < i ==> !(#[trigger] entries@[j].1 is Inferred),
        decreases entries@.len() - i,
    {
        match &entries[i].1 {
            LocalType::Inferred { span, .. } => {
                proof {
                    assert(spec_first_inferred(entries@, i as int));
                }
                return Err(unresolved_local_type(entries[i].0.as_str(), span));
            }
            _ => {}
        }
        i = i + 1;
    }
    Ok(())
}

/// The names an inferred local depends on; none for other locals.
pub open spec fn spec_local_dependencies(local: LocalType) -> Seq<String> {
    match local {
        LocalType::Inferred { dependencies, .. } => dependencies@,
        _ => Seq::empty(),
    }
}

/// Whether some entry is bound to `name`.
pub open spec fn spec_name_bound(entries: Seq<(String, LocalType)>, name: Seq<char>) -> bool {
    exists|j: int| 0 <= j < entries.len() && #[trigger] entries[j].0@ == name
}

/// Whether every dependency of every inferred local names a bound local.
pub open spec fn spec_dependencies_bound(entries: Seq<(String, LocalType)>) -> bool {
    forall|i: int, m: int| 0 <= i < entries.len() && 0 <= m < spec_local_dependencies(entries[i].1).len()
        ==> spec_name_bound(entries, (#[trigger] spec_local_dependencies(entries[i].1)[m])@)
}

/// Whether inferred entry `a` depends on inferred entry `b`.
pub open spec fn spec_inference_edge(entries: Seq<(String, LocalType)>, a: int, b: int) -> bool {
    &&& 0 <= a < entries.len()
    &&& 0 <= b < entries.len()
    &&& entries[b].1 is Inferred
    &&& exists|m: int| 0 <= m < spec_local_dependencies(entries[a].1).len()
        && (#[trigger] spec_local_dependencies(entries[a].1)[m])@ == entries[b].0@
}

/// Whether `cycle` lists inferred entries, each depending on the next, that return to the first.
pub open spec fn spec_inference_cycle(entries: Seq<(String, LocalType)>, cycle: Seq<int>) -> bool {
    &&& cycle.len() >= 2
    &&& cycle[0] == cycle.last()
    &&& forall|i: int| 0 <= i < cycle.len() - 1 ==> spec_inference_edge(entries, #[trigger] cycle[i], cycle[i + 1])
}

/// The names of the entries along `cycle`, joined by arrows.
pub open spec fn spec_local_names_text(entries: Seq<(String, LocalType)>, cycle: Seq<int>) -> Seq<char>
    decreases cycle.len(),
{
    if cycle.len() <= 1 {
        if cycle.len() == 1 { entries[cycle[0]].0@ } else { Seq::empty() }
    } else {
        spec_local_names_text(entries, cycle.drop_last()) + " -> "@ + entries[cycle.last()].0@
    }
}

/// The inference targets of entry `i`, each with the position of the dependency that names
/// it: an inferred entry, or `entries.len()` for a name nothing binds. Dependencies on
/// locals of settled type are left out.
spec fn targets_of(entries: Seq<(String, LocalType)>, i: int, targets: Seq<(usize, usize)>) -> bool {
    let n = entries.len();
    let dependencies = spec_local_dependencies(entries[i].1);
    &&& forall|x: int| 0 <= x < targets.len() ==> {
        let (t, m) = #[trigger] targets[x];
        &&& m < dependencies.len()
        &&& (t < n && entries[t as int].1 is Inferred && entries[t as int].0@ == dependencies[m as int]@)
            || (t == n && !spec_name_bound(entries, dependencies[m as int]@))
    }
    &&& forall|m: int, j: int| 0 <= m < dependencies.len() && 0 <= j < n && entries[j].1 is Inferred
        && #[trigger] entries[j].0@ == (#[trigger] dependencies[m])@
        ==> exists|x: int| 0 <= x < targets.len() && targets[x].0 == j
    &&& forall|m: int| 0 <= m < dependencies.len() && !spec_name_bound(entries, (#[trigger] dependencies[m])@)
        ==> exists|x: int| 0 <= x < targets.len() && targets[x].0 == n
}

fn inference_targets(entries: &Vec<(String, LocalType)>, i: usize) -> (targets: Vec<(usize, usize)>)
    requires
        spec_distinct_names(entries@),
        i < entries@.len(),
    ensures
        targets_of(entries@, i as int, targets@),
{
    let n = entries.len();
    let mut targets: Vec<(usize, usize)> = Vec::new();
    match &entries[i].1 {
        LocalType::Inferred { dependencies, .. } => {
            let ghost deps = dependencies@;
            let mut m: usize = 0;
            while m < dependencies.len()
                invariant
                    n == entries@.len(),
                    i < n,
                    spec_distinct_names(entries@),
                    deps == dependencies@,
                    deps == spec_local_dependencies(entries@[i as int].1),
                    m <= deps.len(),
                    forall|x: int| 0 <= x < targets@.len() ==> {
                        let (t, k) = #[trigger] targets@[x];
                        &&& k < m
                        &&& (t < n && entries@[t as int].1 is Inferred && entries@[t as int].0@ == deps[k as int]@)
                            || (t == n && !spec_name_bound(entries@, deps[k as int]@))
                    },
                    forall|k: int, j: int| 0 <= k < m && 0 <= j < n && entries@[j].1 is Inferred
                        && #[trigger] entries@[j].0@ == (#[trigger] deps[k])@
                        ==> exists|x: int| 0 <= x < targets@.len() && targets@[x].0 == j,
                    forall|k: int| 0 <= k < m && !spec_name_bound(entries@, (#[trigger] deps[k])@)
                        ==> exists|x: int| 0 <= x < targets@.len() && targets@[x].0 == n,
                decreases deps.len() - m,
            {
                let (found, _) = find_name(entries, dependencies[m].as_str());
                let ghost before = targets@;
                match found {
                    None => {
                        proof {
                            assert(!spec_name_bound(entries@, deps[m as int]@));
                        }
                        targets.push((n, m));
                        proof {
                            assert(targets@[before.len() as int] == (n, m));
                        }
                    }
                    Some(j) => {
                        let inferred = match &entries[j].1 {
                            LocalType::Inferred { .. } => true,
                            _ => false,
                        };
                        if inferred {
                            targets.push((j, m));
                            proof {
                                assert(targets@[before.len() as int] == (j, m));
                            }
                        }
                        proof {
                            assert(spec_name_bound(entries@, deps[m as int]@));
                            assert forall|jj: int| 0 <= jj < n && entries@[jj].1 is Inferred
                                && #[trigger] entries@[jj].0@ == deps[m as int]@
                                implies exists|x: int| 0 <= x < targets@.len() && targets@[x].0 == jj by {
                                if jj != j as int {
                                    assert(entries@[jj].0@ == entries@[j as int].0@);
                                }
                                assert(targets@[before.len() as int].0 == j);
                            }
                        }
                    }
                }
                proof {
                    assert forall|x: int| 0 <= x < before.len() implies targets@[x] == before[x] by {}
                }
                m = m + 1;
            }
        }
        _ => {}
    }
    targets
}

/// The target codes of each entry, as the adjacency lists the search walks.
spec fn target_codes(edges: Seq<Vec<(usize, usize)>>) -> Seq<Seq<int>> {
    Seq::new(edges.len(), |i: int| Seq::new(edges[i]@.len(), |x: int| edges[i]@[x].0 as int))
}

spec fn edges_of(entries: Seq<(String, LocalType)>, edges: Seq<Vec<(usize, usize)>>) -> bool {
    &&& edges.len() == entries.len()
    &&& forall|i: int| 0 <= i < entries.len() ==> targets_of(entries, i, #[trigger] edges[i]@)
}

/// An edge of the target lists inside the table is a dependency between inferred entries, and back.
proof fn lemma_inference_edge_iff(entries: Seq<(String, LocalType)>, edges: Seq<Vec<(usize, usize)>>, a: int, b: int)
    requires
        edges_of(entries, edges),
        0 <= b < entries.len(),
    ensures
        spec_adj_edge(target_codes(edges), a, b) <==> spec_inference_edge(entries, a, b),
{
    let adj = target_codes(edges);
    if spec_adj_edge(adj, a, b) {
        let x = choose|x: int| 0 <= x < adj[a].len() && adj[a][x] == b;
        assert(targets_of(entries, a, edges[a]@));
        let (t, m) = edges[a]@[x];
        assert(t as int == b);
        assert(spec_local_dependencies(entries[a].1)[m as int]@ == entries[b].0@);
    }
    if spec_inference_edge(entries, a, b) {
        let m = choose|m: int| 0 <= m < spec_local_dependencies(entries[a].1).len()
            && (#[trigger] spec_local_dependencies(entries[a].1)[m])@ == entries[b].0@;
        assert(targets_of(entries, a, edges[a]@));
        let x = choose|x: int| 0 <= x < edges[a]@.len() && edges[a]@[x].0 == b;
        assert(adj[a][x] == b);
    }
}

/// Cycles among inferred entries are the cycles of the target lists.
proof fn lemma_inference_cycle_iff(entries: Seq<(String, LocalType)>, edges: Seq<Vec<(usize, usize)>>, cycle: Seq<int>)
    requires
        edges_of(entries, edges),
    ensures
        spec_inference_cycle(entries, cycle) <==> spec_adj_cycle(target_codes(edges), cycle),
{
    let adj = target_codes(edges);
    if spec_inference_cycle(entries, cycle) {
        assert forall|i: int| 0 <= i < cycle.len() - 1 implies spec_adj_edge(adj, #[trigger] cycle[i], cycle[i + 1]) by {
            assert(spec_inference_edge(entries, cycle[i], cycle[i + 1]));
            lemma_inference_edge_iff(entries, edges, cycle[i], cycle[i + 1]);
        }
    }
    if spec_adj_cycle(adj, cycle) {
        assert forall|i: int| 0 <= i < cycle.len() - 1 implies spec_inference_edge(entries, #[trigger] cycle[i], cycle[i + 1]) by {
            assert(spec_adj_edge(adj, cycle[i], cycle[i + 1]));
            let x = choose|x: int| 0 <= x < adj[cycle[i]].len() && adj[cycle[i]][x] == cycle[i + 1];
            assert(targets_of(entries, cycle[i], edges[cycle[i]]@));
            assert(edges[cycle[i]]@[x].0 as int == cycle[i + 1]);
            assert(cycle[i + 1] < entries.len() || edges[cycle[i]]@[x].0 == entries.len());
            if cycle[i + 1] < entries.len() {
                lemma_inference_edge_iff(entries, edges, cycle[i], cycle[i + 1]);
            }
        }
    }
}

/// A local of inferred type: the span where it was bound.
fn inferred_span(local: &LocalType) -> (span: &SourceSpan)
    requires
        local is Inferred,
    ensures
        *span == local->span,
{
    match local {
        LocalType::Inferred { span, .. } => span,
        _ => vstd::pervasive::unreached(),
    }
}

/// A local of inferred type: its dependency at position `m`.
fn dependency_name(local: &LocalType, m: usize) -> (name: &str)
    requires
        m < spec_local_dependencies(*local).len(),
    ensures
        name@ == spec_local_dependencies(*local)[m as int]@,
{
    match local {
        LocalType::Inferred { dependencies, .. } => dependencies[m].as_str(),
        _ => vstd::pervasive::unreached(),
    }
}

/// The diagnostic for an inferred entry that depends on itself through the entries on the
/// search path from `start`, then `target`.
fn inference_cycle_failure(entries: &Vec<(String, LocalType)>, stack: &Vec<VisitFrame>, start: usize, target: usize) -> (error: Diagnostic)
    requires
        start < stack@.len(),
        forall|k: int| 0 <= k < stack@.len() ==> (#[trigger] stack@[k]).node < entries@.len(),
        target < entries@.len(),
        spec_inference_cycle(entries@,
            Seq::new((stack@.len() - start) as nat, |j: int| stack@[start + j].node as int).push(target as int)),
    ensures
        error.code@ == builtin_code(BuiltinDiagnostic::DependencyCycle),
        exists|cycle: Seq<int>| {
            &&& #[trigger] spec_inference_cycle(entries@, cycle)
            &&& error.message@ == "named-value dependency cycle: "@ + spec_local_names_text(entries@, cycle)
            &&& error.span == entries@[cycle[0]].1->span
        },
{
    let ghost cycle = Seq::new((stack@.len() - start) as nat, |j: int| stack@[start + j].node as int).push(target as int);
    let length = stack.len();
    let mut message = String::from_str("named-value dependency cycle: ");
    message.append(entries[stack[start].node].0.as_str());
    let mut k: usize = start + 1;
    proof {
        assert(cycle.subrange(0, 1) =~= seq![cycle[0]]);
    }
    while k < length
        invariant
            start < k <= length,
            length == stack@.len(),
            cycle == Seq::new((stack@.len() - start) as nat, |j: int| stack@[start + j].node as int).push(target as int),
            forall|j: int| 0 <= j < stack@.len() ==> (#[trigger] stack@[j]).node < entries@.len(),
            message@ == "named-value dependency cycle: "@ + spec_local_names_text(entries@, cycle.subrange(0, k - start)),
        decreases length - k,
    {
        proof {
            let prefix = cycle.subrange(0, k + 1 - start);
            assert(prefix.drop_last() =~= cycle.subrange(0, k - start));
            assert(prefix.last() == stack@[k as int].node as int);
        }
        message.append(" -> ");
        message.append(entries[stack[k].node].0.as_str());
        k = k + 1;
    }
    message.append(" -> ");
    message.append(entries[target].0.as_str());
    proof {
        assert(cycle.drop_last() =~= cycle.subrange(0, k - start));
        assert(cycle[0] == target);
        assert(spec_inference_edge(entries@, cycle[cycle.len() - 2], cycle[cycle.len() - 1]));
    }
    let span = inferred_span(&entries[target].1);
    Diagnostic::builtin(BuiltinDiagnostic::DependencyCycle, message, span.clone_span())
}

/// Check the dependencies among named values whose types are inferred from one another:
/// each must name a bound local, and none may lead back to itself.
///
/// The inferred names are searched depth first in name order. Fails with
/// `E_MISSING_REFERENCE` at the dependent's span for a dependency that nothing binds, and with
/// `E_DEPENDENCY_CYCLE`, naming the values along the cycle, at the span of the value that
/// closes it.
#[verifier::spinoff_prover]
#[verifier::rlimit(50)]
pub fn validate_local_dependencies(locals: &LocalTable) -> (result: Result<(), Diagnostic>)
    ensures
        result is Ok <==> spec_dependencies_bound(locals.spec_entries())
            && forall|cycle: Seq<int>| !spec_inference_cycle(locals.spec_entries(), cycle),
        result matches Err(error) ==> {
            let entries = locals.spec_entries();
            ||| {
                &&& error.code@ == builtin_code(BuiltinDiagnostic::MissingReference)
                &&& exists|i: int, m: int| 0 <= i < entries.len() && 0 <= m < spec_local_dependencies(entries[i].1).len() && {
                    let name = (#[trigger] spec_local_dependencies(entries[i].1)[m])@;
                    &&& !spec_name_bound(entries, name)
                    &&& error.message@ == spec_missing_reference_message(name)
                    &&& error.span == entries[i].1->span
                }
            }
            ||| {
                &&& error.code@ == builtin_code(BuiltinDiagnostic::DependencyCycle)
                &&& exists|cycle: Seq<int>| {
                    &&& #[trigger] spec_inference_cycle(entries, cycle)
                    &&& error.message@ == "named-value dependency cycle: "@ + spec_local_names_text(entries, cycle)
                    &&& error.span == entries[cycle[0]].1->span
                }
            }
        },
{
    proof {
        use_type_invariant(locals);
    }
    let entries = &locals.entries;
    let n = entries.len();
    let mut edges: Vec<Vec<(usize, usize)>> = Vec::new();
    while edges.len() < n
        invariant
            n == entries@.len(),
            spec_distinct_names(entries@),
            edges@.len() <= n,
            forall|i: int| 0 <= i < edges@.len() ==> targets_of(entries@, i, #[trigger] edges@[i]@),
        decreases n - edges@.len(),
    {
        let targets = inference_targets(entries, edges.len());
        edges.push(targets);
    }
    let ghost adj = target_codes(edges@);
    let mut states: Vec<u8> = Vec::new();
    let mut positions: Vec<usize> = Vec::new();
    while states.len() < n
        invariant
            states@.len() <= n,
            positions@.len() == states@.len(),
            forall|i: int| 0 <= i < states@.len() ==> states@[i] == 0,
        decreases n - states@.len(),
    {
        states.push(0);
        positions.push(0);
    }
    let ghost mut rank: Seq<int> = Seq::new(n as nat, |i: int| 0);
    let ghost mut counter: int = 0;
    proof {
        lemma_count_absent(states@, 1);
        lemma_start(n as int, adj, states@, positions@, rank);
    }
    let mut stack: Vec<VisitFrame> = Vec::new();
    let mut root_index: usize = 0;
    while root_index < n
        invariant
            n == entries@.len(),
            entries@ == locals.spec_entries(),
            edges_of(entries@, edges@),
            adj == target_codes(edges@),
            root_index <= n,
            dfs_inv(n as int, adj, states@, stack@, positions@, rank, counter),
            stack@.len() == 0,
            spec_count(states@, 1) == 0,
            forall|r: int| 0 <= r < root_index ==> #[trigger] states@[r] == 2,
        decreases n - root_index,
    {
        if states[root_index] == 0 {
            proof {
                assert(stack@ =~= Seq::<VisitFrame>::empty());
                lemma_push_root(n as int, adj, states@, positions@, rank, counter, root_index as int);
                lemma_count_update(states@, root_index as int, 1, 0);
                lemma_count_update(states@, root_index as int, 1, 1);
            }
            states.set(root_index, 1);
            positions.set(root_index, 0);
            stack.push(VisitFrame { node: root_index, next: 0 });
            proof {
                assert(stack@ =~= seq![VisitFrame { node: root_index, next: 0 }]);
            }
            while stack.len() > 0
                invariant
                    n == entries@.len(),
                    entries@ == locals.spec_entries(),
                    edges_of(entries@, edges@),
                    adj == target_codes(edges@),
                    root_index < n,
                    dfs_inv(n as int, adj, states@, stack@, positions@, rank, counter),
                    states@[root_index as int] != 0,
                    stack@.len() == 0 ==> states@[root_index as int] == 2,
                    forall|r: int| 0 <= r < root_index ==> #[trigger] states@[r] == 2,
                    spec_count(states@, 1) == stack@.len(),
                    stack@.len() > 0 ==> stack@[0].node == root_index,
                decreases spec_count(states@, 0), spec_count(states@, 1), remaining(adj, stack@),
            {
                let top = stack.len() - 1;
                let node = stack[top].node;
                let next = stack[top].next;
                let ghost frames = stack@;
                let ghost before = states@;
                proof {
                    lemma_top(n as int, adj, states@, stack@, positions@, rank, counter);
                    lemma_count_bound(states@, 1);
                    assert(targets_of(entries@, node as int, edges@[node as int]@));
                }
                if next < edges[node].len() {
                    let (t, position) = edges[node][next];
                    if t >= n {
                        proof {
                            assert(t == n);
                            let dependencies = spec_local_dependencies(entries@[node as int].1);
                            assert(!spec_name_bound(entries@, dependencies[position as int]@));
                            assert(entries@[node as int].1 is Inferred);
                            assert(!spec_dependencies_bound(entries@));
                        }
                        let name = dependency_name(&entries[node].1, position);
                        let span = inferred_span(&entries[node].1);
                        return Err(missing_reference(name, span));
                    }
                    proof {
                        assert(adj[node as int][next as int] == t);
                        assert(next_is(adj, frames, t as int));
                        lemma_remaining_step(adj, frames, t as int);
                    }
                    stack.set(top, VisitFrame { node, next: next + 1 });
                    proof {
                        assert(stack@ =~= advanced(frames));
                    }
                    if states[t] == 0 {
                        proof {
                            lemma_count_strict(states@, 1, t as int);
                            lemma_white_stack(n as int, adj, before, frames, positions@, rank, counter, t as int);
                            lemma_white_rest(n as int, adj, before, frames, positions@, rank, counter, t as int);
                            lemma_count_update(states@, t as int, 1, 0);
                            lemma_count_update(states@, t as int, 1, 1);
                            if states@[root_index as int] == 1 {
                                assert(root_index != t);
                            }
                        }
                        states.set(t, 1);
                        positions.set(t, stack.len());
                        stack.push(VisitFrame { node: t, next: 0 });
                        proof {
                            assert(stack@ =~= advanced(frames).push(VisitFrame { node: t, next: 0 }));
                        }
                    } else if states[t] == 1 {
                        let start = positions[t];
                        proof {
                            lemma_cycle(n as int, adj, before, frames, positions@, rank, counter, t as int);
                            let cycle = Seq::new((frames.len() - start) as nat, |j: int| frames[start + j].node as int)
                                .push(t as int);
                            assert(Seq::new((stack@.len() - start) as nat, |j: int| stack@[start + j].node as int)
                                .push(t as int) =~= cycle);
                            lemma_inference_cycle_iff(entries@, edges@, cycle);
                        }
                        return Err(inference_cycle_failure(entries, &stack, start, t));
                    } else {
                        proof {
                            lemma_black(n as int, adj, before, frames, positions@, rank, counter, t as int);
                        }
                    }
                } else {
                    proof {
                        lemma_finish(n as int, adj, before, frames, positions@, rank, counter);
                        lemma_count_update(states@, node as int, 2, 0);
                        lemma_count_update(states@, node as int, 2, 1);
                    }
                    stack.pop();
                    states.set(node, 2);
                    proof {
                        rank = rank.update(node as int, counter);
                        counter = counter + 1;
                        assert(stack@ =~= frames.drop_last());
                    }
                }
            }
        }
        proof {
            assert(stack@ =~= Seq::<VisitFrame>::empty());
            if states@[root_index as int] == 1 {
                lemma_no_gray(n as int, adj, states@, positions@, rank, counter, root_index as int);
            }
        }
        root_index = root_index + 1;
    }
    proof {
        lemma_all_finished(n as int, adj, states@, stack@, positions@, rank, counter);
        assert forall|cycle: Seq<int>| !spec_inference_cycle(entries@, cycle) by {
            lemma_inference_cycle_iff(entries@, edges@, cycle);
        }
        assert forall|i: int, m: int| 0 <= i < entries@.len() && 0 <= m < spec_local_dependencies(entries@[i].1).len()
            implies spec_name_bound(entries@, (#[trigger] spec_local_dependencies(entries@[i].1)[m])@) by {
            assert(targets_of(entries@, i, edges@[i]@));
            if !spec_name_bound(entries@, spec_local_dependencies(entries@[i].1)[m]@) {
                let x = choose|x: int| 0 <= x < edges@[i]@.len() && edges@[i]@[x].0 == n;
                assert(adj[i][x] == n);
            }
        }
    }
    Ok(())
}

} // verus!
