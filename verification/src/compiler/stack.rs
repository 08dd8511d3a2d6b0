//! Scoped evaluation stacks and the planner that binds stack values to ports.
//!
//! Every stack value records the depth of the body that produced it. A frame
//! may consume values it owns, or (with visible access) values produced up to
//! the nearest visibility boundary.

use vstd::prelude::*;

use crate::diagnostic::{builtin_code, decimal, spec_decimal, BuiltinDiagnostic, Diagnostic};
use crate::model::{spec_value_type_label, ValueRef, ValueType};
use crate::program::{spec_stack_access_label, Cardinality, InputSlot, StackAccess};
use crate::source::SourceSpan;

verus! {

/// The body whose entry established a stack visibility boundary.
#[derive(Clone, Debug)]
pub struct VisibilityBoundary {
    pub owner: String,
    pub span: SourceSpan,
}

impl VisibilityBoundary {
    /// Construct the boundary established by `owner`'s body at `span`.
    pub fn new(owner: String, span: SourceSpan) -> (boundary: Self)
        ensures
            boundary.owner@ == owner@,
            boundary.span == span,
    {
        VisibilityBoundary { owner, span }
    }

    /// Return the name of the construct that established the boundary.
    pub fn owner(&self) -> (owner: &str)
        ensures
            owner@ == self.owner@,
    {
        self.owner.as_str()
    }

    /// Return where the boundary was established.
    pub fn span(&self) -> (span: &SourceSpan)
        ensures
            *span == self.span,
    {
        &self.span
    }
}

/// The body currently producing and consuming stack values.
#[derive(Clone, Debug)]
pub struct StackFrame {
    /// Nesting depth of the body; the root program has depth zero.
    pub depth: usize,
    /// Shallowest depth whose values are visible from this body.
    pub visible_depth: usize,
    /// The boundary that fixed `visible_depth`.
    pub boundary: VisibilityBoundary,
}

impl StackFrame {
    /// A frame never sees values deeper than itself.
    pub open spec fn wf(&self) -> bool {
        self.visible_depth <= self.depth
    }

    fn root(boundary: VisibilityBoundary) -> (frame: Self)
        ensures
            frame.depth == 0,
            frame.visible_depth == 0,
            frame.boundary.owner@ == boundary.owner@,
            frame.boundary.span == boundary.span,
    {
        StackFrame { depth: 0, visible_depth: 0, boundary }
    }
}

/// How a stack value relates to a port requirement.
#[derive(Clone, Copy, Debug, PartialEq, Eq, Structural)]
pub enum StackCompatibility {
    /// The value can never satisfy the requirement.
    Incompatible,
    /// The value may satisfy the requirement once types are known.
    Possible,
    /// The value satisfies the requirement.
    Definite,
}

/// Values whose compatibility with a port requirement can be decided.
pub trait StackCompatible<R>: Copy + Sized {
    /// The compatibility of this value with `requirement`.
    spec fn spec_compatibility(self, requirement: R) -> StackCompatibility;

    /// Decide the compatibility of this value with `requirement`.
    fn compatibility(self, requirement: R) -> (compatibility: StackCompatibility)
        ensures
            compatibility == self.spec_compatibility(requirement),
    ;
}

impl StackCompatible<ValueType> for ValueRef {
    open spec fn spec_compatibility(self, requirement: ValueType) -> StackCompatibility {
        if self.value_type == requirement {
            StackCompatibility::Definite
        } else {
            StackCompatibility::Incompatible
        }
    }

    /// A value definitely satisfies exactly its own type.
    fn compatibility(self, requirement: ValueType) -> (compatibility: StackCompatibility) {
        if self.value_type == requirement {
            StackCompatibility::Definite
        } else {
            StackCompatibility::Incompatible
        }
    }
}

/// Values whose concrete type may be known.
pub trait StackValue: Copy + Sized {
    /// The concrete type of the value, when known.
    spec fn spec_value_type(self) -> Option<ValueType>;

    /// Return the concrete type of the value, when known.
    fn known_value_type(self) -> (value_type: Option<ValueType>)
        ensures
            value_type == self.spec_value_type(),
    ;
}

impl StackValue for ValueRef {
    open spec fn spec_value_type(self) -> Option<ValueType> {
        Some(self.value_type)
    }

    fn known_value_type(self) -> (value_type: Option<ValueType>) {
        Some(self.value_type)
    }
}

/// One port that a stack plan must bind.
#[derive(Clone, Copy, Debug, PartialEq, Eq)]
pub struct StackBindingInput<R> {
    pub port: InputSlot,
    pub requirement: R,
    pub cardinality: Cardinality,
}

/// The stack positions selected for one port.
#[derive(Clone, Debug, PartialEq, Eq)]
pub struct PlannedStackInput {
    pub port: InputSlot,
    pub indices: Vec<usize>,
}

impl View for PlannedStackInput {
    type V = (InputSlot, Seq<usize>);

    open spec fn view(&self) -> (InputSlot, Seq<usize>) {
        (self.port, self.indices@)
    }
}

/// The positions of every planned port, ordered by port.
#[derive(Clone, Debug, PartialEq, Eq)]
pub struct StackBindingPlan {
    pub inputs: Vec<PlannedStackInput>,
}

impl StackBindingPlan {
    /// The (port, positions) entries of the plan.
    pub open spec fn entries(&self) -> Seq<(InputSlot, Seq<usize>)> {
        self.inputs@.map_values(|input: PlannedStackInput| input@)
    }
}

/// Why a port could not be bound.
#[derive(Clone, Debug, PartialEq, Eq)]
pub struct StackBindingFailure {
    pub port: InputSlot,
    pub available: usize,
    pub selected: Vec<usize>,
}

/// The result of planning stack bindings.
#[derive(Clone, Debug, PartialEq, Eq)]
pub enum StackBindingOutcome {
    Resolved(StackBindingPlan),
    Deferred,
    Impossible(StackBindingFailure),
}

/// Values bound to one port.
#[derive(Clone, Debug, PartialEq, Eq)]
pub struct BoundStackInput<T> {
    pub port: InputSlot,
    pub values: Vec<T>,
}

/// Whether a value produced at depth `owner` may be consumed from `frame`.
pub open spec fn spec_accessible(owner: usize, frame: StackFrame, access: StackAccess) -> bool {
    match access {
        StackAccess::Owned => owner == frame.depth,
        StackAccess::Visible => frame.visible_depth <= owner && owner <= frame.depth,
    }
}

/// The planner's state: (status, available positions, planned entries,
/// failing port, definite values of the failing port). Status 0 continues,
/// 1 defers, and 2 reports an impossible binding.
pub type PlanState = (u8, Seq<bool>, Seq<(InputSlot, Seq<usize>)>, InputSlot, nat);

/// Whether position `i` is still free and reachable from `frame`.
pub open spec fn spec_candidate(owners: Seq<usize>, frame: StackFrame, access: StackAccess, available: Seq<bool>, i: int) -> bool {
    available[i] && spec_accessible(owners[i], frame, access)
}

/// The nearest position below `n` that is a candidate and not incompatible.
pub open spec fn spec_nearest<T: StackCompatible<R>, R>(
    values: Seq<T>, owners: Seq<usize>, frame: StackFrame, access: StackAccess,
    available: Seq<bool>, requirement: R, n: int,
) -> Option<int>
    decreases n,
{
    if n <= 0 {
        None
    } else if spec_candidate(owners, frame, access, available, n - 1)
        && values[n - 1].spec_compatibility(requirement) != StackCompatibility::Incompatible {
        Some(n - 1)
    } else {
        spec_nearest(values, owners, frame, access, available, requirement, n - 1)
    }
}

/// The state after planning every single-value port at position `j` or later,
/// taken from the last port to the first.
pub open spec fn spec_fixed_phase<T: StackCompatible<R>, R>(
    values: Seq<T>, owners: Seq<usize>, frame: StackFrame, access: StackAccess,
    inputs: Seq<StackBindingInput<R>>, j: int,
) -> PlanState
    decreases inputs.len() - j,
{
    if j >= inputs.len() || j < 0 {
        (0, Seq::new(values.len(), |i: int| true), Seq::empty(), InputSlot(0), 0)
    } else {
        let previous = spec_fixed_phase(values, owners, frame, access, inputs, j + 1);
        let input = inputs[j];
        if previous.0 != 0 || input.cardinality != Cardinality::One {
            previous
        } else {
            match spec_nearest(values, owners, frame, access, previous.1, input.requirement, values.len() as int) {
                None => (2, previous.1, previous.2, input.port, 0),
                Some(i) => if values[i].spec_compatibility(input.requirement) == StackCompatibility::Possible {
                    (1, previous.1, previous.2, input.port, 0)
                } else {
                    (0, previous.1.update(i, false), previous.2.push((input.port, seq![i as usize])), input.port, 0)
                },
            }
        }
    }
}

/// The candidate positions below `n` that definitely match, in stack order.
pub open spec fn spec_definite<T: StackCompatible<R>, R>(
    values: Seq<T>, owners: Seq<usize>, frame: StackFrame, access: StackAccess,
    available: Seq<bool>, requirement: R, n: int,
) -> Seq<usize>
    decreases n,
{
    if n <= 0 {
        Seq::empty()
    } else {
        let previous = spec_definite(values, owners, frame, access, available, requirement, n - 1);
        if spec_candidate(owners, frame, access, available, n - 1)
            && values[n - 1].spec_compatibility(requirement) == StackCompatibility::Definite {
            previous.push((n - 1) as usize)
        } else {
            previous
        }
    }
}

/// The number of candidate positions below `n` that may match.
pub open spec fn spec_possible<T: StackCompatible<R>, R>(
    values: Seq<T>, owners: Seq<usize>, frame: StackFrame, access: StackAccess,
    available: Seq<bool>, requirement: R, n: int,
) -> nat
    decreases n,
{
    if n <= 0 {
        0
    } else {
        let previous = spec_possible(values, owners, frame, access, available, requirement, n - 1);
        if spec_candidate(owners, frame, access, available, n - 1)
            && values[n - 1].spec_compatibility(requirement) == StackCompatibility::Possible {
            previous + 1
        } else {
            previous
        }
    }
}

/// `available` with every position in `taken` marked consumed.
pub open spec fn spec_take(available: Seq<bool>, taken: Seq<usize>) -> Seq<bool> {
    Seq::new(available.len(), |i: int| available[i] && !taken.contains(i as usize))
}

/// The state after the fixed phase and after planning every variadic port
/// before position `j`, in port-list order.
pub open spec fn spec_variadic_phase<T: StackCompatible<R>, R>(
    values: Seq<T>, owners: Seq<usize>, frame: StackFrame, access: StackAccess,
    inputs: Seq<StackBindingInput<R>>, j: int,
) -> PlanState
    decreases j,
{
    if j <= 0 {
        spec_fixed_phase(values, owners, frame, access, inputs, 0)
    } else {
        let previous = spec_variadic_phase(values, owners, frame, access, inputs, j - 1);
        let input = inputs[j - 1];
        match input.cardinality {
            Cardinality::One => previous,
            Cardinality::Variadic { min } => if previous.0 != 0 {
                previous
            } else {
                let n = values.len() as int;
                let definite = spec_definite(values, owners, frame, access, previous.1, input.requirement, n);
                let possible = spec_possible(values, owners, frame, access, previous.1, input.requirement, n);
                if definite.len() + possible < min {
                    (2, previous.1, previous.2, input.port, definite.len())
                } else if possible > 0 {
                    (1, previous.1, previous.2, input.port, 0)
                } else {
                    (0, spec_take(previous.1, definite), previous.2.push((input.port, definite)), input.port, 0)
                }
            },
        }
    }
}

/// The position at which a stable sort by port inserts `entry` into `sorted`.
pub open spec fn spec_insert_position(sorted: Seq<(InputSlot, Seq<usize>)>, entry: (InputSlot, Seq<usize>)) -> int
    decreases sorted.len(),
{
    if sorted.len() == 0 {
        0
    } else if sorted.last().0.0 <= entry.0.0 {
        sorted.len() as int
    } else {
        spec_insert_position(sorted.drop_last(), entry)
    }
}

/// The entries stably sorted by port.
pub open spec fn spec_sort_by_port(entries: Seq<(InputSlot, Seq<usize>)>) -> Seq<(InputSlot, Seq<usize>)>
    decreases entries.len(),
{
    if entries.len() == 0 {
        entries
    } else {
        let sorted = spec_sort_by_port(entries.drop_last());
        sorted.insert(spec_insert_position(sorted, entries.last()), entries.last())
    }
}

/// Every position of every entry, in entry order.
pub open spec fn spec_flatten(entries: Seq<(InputSlot, Seq<usize>)>) -> Seq<usize>
    decreases entries.len(),
{
    if entries.len() == 0 {
        Seq::empty()
    } else {
        spec_flatten(entries.drop_last()) + entries.last().1
    }
}

/// The elements of `items` whose `dropped` flag is false, in order.
pub open spec fn spec_retain<A>(items: Seq<A>, dropped: Seq<bool>) -> Seq<A>
    decreases items.len(),
{
    if items.len() == 0 {
        items
    } else {
        let kept = spec_retain(items.drop_last(), dropped.subrange(0, items.len() - 1));
        if dropped[items.len() - 1] {
            kept
        } else {
            kept.push(items.last())
        }
    }
}

/// Retaining by the same flags keeps the same number of elements.
pub proof fn lemma_retain_len<A>(items: Seq<A>, dropped: Seq<bool>)
    requires
        items.len() == dropped.len(),
    ensures
        spec_retain(items, dropped).len() == spec_count_kept(dropped),
    decreases items.len(),
{
    if items.len() > 0 {
        lemma_retain_len::<A>(items.drop_last(), dropped.subrange(0, items.len() - 1));
        assert(dropped.drop_last() =~= dropped.subrange(0, items.len() - 1));
    }
}

/// The number of false flags.
pub open spec fn spec_count_kept(dropped: Seq<bool>) -> nat
    decreases dropped.len(),
{
    if dropped.len() == 0 {
        0
    } else {
        spec_count_kept(dropped.drop_last()) + if dropped.last() { 0nat } else { 1nat }
    }
}

/// The evaluation stack: values in production order, each with the depth of
/// the body that produced it.
#[derive(Debug)]
pub struct EvaluationStack<T> {
    values: Vec<T>,
    owners: Vec<usize>,
}

impl<T> EvaluationStack<T> {
    /// The values in production order.
    pub closed spec fn spec_values(&self) -> Seq<T> {
        self.values@
    }

    /// The producing depth of each value.
    pub closed spec fn spec_owners(&self) -> Seq<usize> {
        self.owners@
    }

    /// Every value has exactly one owner.
    pub open spec fn wf(&self) -> bool {
        self.spec_values().len() == self.spec_owners().len()
    }

    /// Every value always has exactly one owner.
    #[verifier::type_invariant]
    spec fn owners_match(self) -> bool {
        self.wf()
    }

    /// Construct an empty stack and the root frame of `owner`.
    pub fn isolated(owner: String, span: SourceSpan) -> (result: (Self, StackFrame))
        ensures
            result.0.wf(),
            result.0.spec_values().len() == 0,
            result.1.depth == 0,
            result.1.visible_depth == 0,
            result.1.boundary.owner@ == owner@,
            result.1.boundary.span == span,
    {
        let boundary = VisibilityBoundary::new(owner, span);
        (EvaluationStack { values: Vec::new(), owners: Vec::new() }, StackFrame::root(boundary))
    }

    /// Return the number of values on the stack.
    pub fn len(&self) -> (len: usize)
        ensures
            len == self.spec_values().len(),
    {
        self.values.len()
    }

    /// Push a value produced by `frame`'s body.
    pub fn push(&mut self, frame: &StackFrame, value: T)
        ensures
            final(self).spec_values() == old(self).spec_values().push(value),
            final(self).spec_owners() == old(self).spec_owners().push(frame.depth),
    {
        let mut stack = EvaluationStack { values: Vec::new(), owners: Vec::new() };
        std::mem::swap(&mut stack, self);
        proof {
            use_type_invariant(&stack);
        }
        let EvaluationStack { mut values, mut owners } = stack;
        values.push(value);
        owners.push(frame.depth);
        *self = EvaluationStack { values, owners };
    }

    /// Push values produced by `frame`'s body, in order.
    pub fn extend(&mut self, frame: &StackFrame, values: Vec<T>)
        ensures
            final(self).spec_values() == old(self).spec_values() + values@,
            final(self).spec_owners() == old(self).spec_owners() + Seq::new(values@.len(), |i: int| frame.depth),
    {
        let ghost start_values = self.spec_values();
        let ghost start_owners = self.spec_owners();
        for value in it: values
            invariant
                it.seq() == values@,
                self.spec_values() == start_values + values@.take(it.index() as int),
                self.spec_owners() == start_owners + Seq::new(it.index() as nat, |i: int| frame.depth),
        {
            self.push(frame, value);
            assert(values@.take(it.index() as int + 1) =~= values@.take(it.index() as int).push(value));
            assert(Seq::new(it.index() as nat + 1, |i: int| frame.depth)
                =~= Seq::new(it.index() as nat, |i: int| frame.depth).push(frame.depth));
        }
        assert(values@.take(values@.len() as int) =~= values@);
    }

    /// Return the values in production order.
    pub fn values(&self) -> (values: &[T])
        ensures
            values@ == self.spec_values(),
    {
        self.values.as_slice()
    }

    /// Enter the body of an invocation with `access` to the stack.
    ///
    /// An owned body establishes a new visibility boundary; a visible body
    /// shares its parent's boundary.
    pub fn enter_body(parent: &StackFrame, access: StackAccess, owner: String, span: SourceSpan) -> (frame: StackFrame)
        requires
            parent.depth < usize::MAX,
        ensures
            frame.depth == parent.depth + 1,
            access == StackAccess::Owned ==> frame.visible_depth == frame.depth
                && frame.boundary.owner@ == owner@ && frame.boundary.span == span,
            access == StackAccess::Visible ==> frame.visible_depth == parent.visible_depth,
    {
        let depth = parent.depth + 1;
        match access {
            StackAccess::Owned => StackFrame {
                depth,
                visible_depth: depth,
                boundary: VisibilityBoundary::new(owner, span),
            },
            StackAccess::Visible => StackFrame {
                depth,
                visible_depth: parent.visible_depth,
                boundary: parent.boundary.clone(),
            },
        }
    }

    /// Remove and return the values owned by `child`, in production order.
    #[verifier::spinoff_prover]
    pub fn finish_body(&mut self, child: &StackFrame) -> (owned: Vec<T>)
        ensures
            owned@ == spec_retain(old(self).spec_values(),
                old(self).spec_owners().map_values(|owner: usize| owner != child.depth)),
            final(self).spec_values() == spec_retain(old(self).spec_values(),
                old(self).spec_owners().map_values(|owner: usize| owner == child.depth)),
            final(self).spec_owners() == spec_retain(old(self).spec_owners(),
                old(self).spec_owners().map_values(|owner: usize| owner == child.depth)),
    {
        let ghost start_values = self.spec_values();
        let ghost start_owners = self.spec_owners();
        let ghost keep_flags = start_owners.map_values(|owner: usize| owner == child.depth);
        let ghost owned_flags = start_owners.map_values(|owner: usize| owner != child.depth);
        let mut stack = EvaluationStack { values: Vec::new(), owners: Vec::new() };
        std::mem::swap(&mut stack, self);
        proof {
            use_type_invariant(&stack);
        }
        let EvaluationStack { values: old_values, owners: old_owners } = stack;
        let mut kept_values: Vec<T> = Vec::new();
        let mut kept_owners: Vec<usize> = Vec::new();
        let mut owned: Vec<T> = Vec::new();
        let mut index: usize = 0;
        let total = old_values.len();
        for value in it: old_values
            invariant
                it.seq() == start_values,
                total == start_values.len(),
                index <= start_values.len(),
                old_owners@ == start_owners,
                start_values.len() == start_owners.len(),
                index == it.index(),
                keep_flags == start_owners.map_values(|owner: usize| owner == child.depth),
                owned_flags == start_owners.map_values(|owner: usize| owner != child.depth),
                owned@ == spec_retain(start_values.take(index as int), owned_flags.take(index as int)),
                kept_values@ == spec_retain(start_values.take(index as int), keep_flags.take(index as int)),
                kept_owners@ == spec_retain(start_owners.take(index as int), keep_flags.take(index as int)),
        {
            assert(index < old_owners@.len());
            let owner = old_owners[index];
            proof {
                let k = index as int;
                assert(start_values.take(k + 1).drop_last() =~= start_values.take(k));
                assert(start_owners.take(k + 1).drop_last() =~= start_owners.take(k));
                assert(keep_flags.take(k + 1).subrange(0, k) =~= keep_flags.take(k));
                assert(owned_flags.take(k + 1).subrange(0, k) =~= owned_flags.take(k));
                assert(start_values.take(k + 1).last() == value);
            }
            if owner == child.depth {
                owned.push(value);
            } else {
                kept_values.push(value);
                kept_owners.push(owner);
            }
            index = index + 1;
        }
        proof {
            assert(start_values.take(start_values.len() as int) =~= start_values);
            assert(start_owners.take(start_owners.len() as int) =~= start_owners);
            assert(keep_flags.take(keep_flags.len() as int) =~= keep_flags);
            assert(owned_flags.take(owned_flags.len() as int) =~= owned_flags);
            lemma_retain_len(start_values, keep_flags);
            lemma_retain_len(start_owners, keep_flags);
        }
        *self = EvaluationStack { values: kept_values, owners: kept_owners };
        owned
    }

    fn accessible(owner: usize, frame: &StackFrame, access: StackAccess) -> (accessible: bool)
        ensures
            accessible == spec_accessible(owner, *frame, access),
    {
        match access {
            StackAccess::Owned => owner == frame.depth,
            StackAccess::Visible => owner >= frame.visible_depth && owner <= frame.depth,
        }
    }
}

impl<T: Copy> EvaluationStack<T> {
    /// The plan for binding `inputs` from the stack as seen by `frame` with `access`.
    pub open spec fn spec_plan<R>(&self, frame: StackFrame, access: StackAccess, inputs: Seq<StackBindingInput<R>>) -> PlanState
        where T: StackCompatible<R>
    {
        spec_variadic_phase(self.spec_values(), self.spec_owners(), frame, access, inputs, inputs.len() as int)
    }

    /// Plan which stack values bind to `inputs` without changing the stack.
    ///
    /// Single-value ports are planned from the last port to the first, each
    /// taking the nearest remaining candidate; variadic ports then take every
    /// remaining definite candidate in stack order. Planning defers when a
    /// candidate only possibly matches, and reports an impossible binding when
    /// too few candidates remain. A resolved plan lists ports in port order.
    ///
    /// A resolved plan has one entry per input, in port order; no position is planned
    /// twice; every planned position lies in the stack, is reachable from `frame`, and
    /// definitely satisfies the port it is planned for. In planning order, each single-value
    /// port (taken from the last to the first) plans the topmost position it could use that no
    /// earlier entry took, and each variadic port then plans, ascending and at least `min`
    /// strong, every remaining position that definitely satisfies it. Planning defers only
    /// when some reachable value may, but need not, satisfy some port.
    pub fn plan_bindings<R: Copy>(&self, frame: &StackFrame, access: StackAccess, inputs: &[StackBindingInput<R>]) -> (outcome: StackBindingOutcome)
        where T: StackCompatible<R>
        ensures
            ({
                let state = self.spec_plan(*frame, access, inputs@);
                &&& state.0 == 1 ==> outcome == StackBindingOutcome::Deferred
                &&& state.0 == 2 ==> (outcome matches StackBindingOutcome::Impossible(failure)
                    && failure.port == state.3
                    && failure.available == state.4
                    && failure.selected@ == spec_flatten(state.2))
                &&& state.0 == 0 ==> (outcome matches StackBindingOutcome::Resolved(plan)
                    && plan.entries() == spec_sort_by_port(state.2))
            }),
            outcome matches StackBindingOutcome::Resolved(plan)
                ==> spec_plan_law(self.spec_values(), self.spec_owners(), *frame, access, inputs@, plan.entries()),
            outcome is Deferred ==> spec_deferral_cause(self.spec_values(), self.spec_owners(), *frame, access, inputs@),
            outcome is Resolved ==> ({
                let values = self.spec_values();
                let owners = self.spec_owners();
                let planned = self.spec_plan(*frame, access, inputs@).2;
                &&& forall|k: int| 0 <= k < spec_ones_from(inputs@, 0) ==> exists|j: int| 0 <= j < inputs@.len()
                    && inputs@[j].port == (#[trigger] planned[k]).0 && inputs@[j].cardinality == Cardinality::One
                    && spec_topmost(values, owners, *frame, access, planned, k, inputs@[j].requirement)
                &&& forall|k: int| spec_ones_from(inputs@, 0) <= k < planned.len() ==> exists|j: int|
                    0 <= j < inputs@.len() && inputs@[j].port == (#[trigger] planned[k]).0
                    && inputs@[j].cardinality is Variadic
                    && spec_takes_all(values, owners, *frame, access, planned, k, inputs@[j].requirement, inputs@[j].cardinality->min)
            }),
    {
        proof {
            use_type_invariant(self);
        }
        let outcome = self.plan_by_phases(frame, access, inputs);
        let count = self.values.len();
        proof {
            let values = self.spec_values();
            assert(values.len() == count);
            let owners = self.spec_owners();
            let state = self.spec_plan(*frame, access, inputs@);
            lemma_variadic_status(values, owners, *frame, access, inputs@, inputs@.len() as int);
            if state.0 == 0 {
                lemma_single_ports_topmost(values, owners, *frame, access, inputs@);
                lemma_variadic_ports_take_all(values, owners, *frame, access, inputs@);
                lemma_resolved_plan(values, owners, *frame, access, inputs@);
                lemma_sort_by_port(state.2);
                lemma_sort_members(state.2);
                lemma_sort_disjoint(state.2);
                let planned = spec_sort_by_port(state.2);
                assert forall|k: int| 0 <= k < planned.len() implies exists|j: int| 0 <= j < inputs@.len()
                    && inputs@[j].port == (#[trigger] planned[k]).0
                    && forall|a: int| 0 <= a < planned[k].1.len() ==> {
                        let i = #[trigger] planned[k].1[a] as int;
                        &&& i < values.len()
                        &&& spec_accessible(owners[i], *frame, access)
                        &&& values[i].spec_compatibility(inputs@[j].requirement) == StackCompatibility::Definite
                    } by {
                    let q = choose|q: int| 0 <= q < state.2.len() && planned[k] == state.2[q];
                    assert(planned[k] == state.2[q]);
                }
            }
            if state.0 == 1 {
                lemma_variadic_deferred(values, owners, *frame, access, inputs@, inputs@.len() as int);
            }
        }
        outcome
    }

    /// The phases of `plan_bindings`, stated over the planner's state.
    fn plan_by_phases<R: Copy>(&self, frame: &StackFrame, access: StackAccess, inputs: &[StackBindingInput<R>]) -> (outcome: StackBindingOutcome)
        where T: StackCompatible<R>
        requires
            self.wf(),
        ensures
            ({
                let state = self.spec_plan(*frame, access, inputs@);
                &&& state.0 == 1 ==> outcome == StackBindingOutcome::Deferred
                &&& state.0 == 2 ==> (outcome matches StackBindingOutcome::Impossible(failure)
                    && failure.port == state.3
                    && failure.available == state.4
                    && failure.selected@ == spec_flatten(state.2))
                &&& state.0 == 0 ==> (outcome matches StackBindingOutcome::Resolved(plan)
                    && plan.entries() == spec_sort_by_port(state.2))
            }),
    {
        let ghost values = self.spec_values();
        let ghost owners = self.spec_owners();
        let n = self.values.len();
        let mut available: Vec<bool> = Vec::new();
        while available.len() < n
            invariant
                available@.len() <= n,
                forall|i: int| 0 <= i < available@.len() ==> available@[i],
            decreases n - available@.len(),
        {
            available.push(true);
        }
        assert(available@ =~= Seq::new(values.len(), |i: int| true));
        let mut planned: Vec<PlannedStackInput> = Vec::new();
        assert(planned@.map_values(|input: PlannedStackInput| input@) =~= Seq::<(InputSlot, Seq<usize>)>::empty());

        let mut j = inputs.len();
        while j > 0
            invariant
                self.wf(),
                values == self.spec_values(),
                owners == self.spec_owners(),
                n == values.len(),
                j <= inputs@.len(),
                available@.len() == n,
                ({
                    let state = spec_fixed_phase(values, owners, *frame, access, inputs@, j as int);
                    &&& state.0 == 0
                    &&& state.1 == available@
                    &&& state.2 == planned@.map_values(|input: PlannedStackInput| input@)
                }),
            decreases j,
        {
            j = j - 1;
            let input = inputs[j];
            if let Cardinality::One = input.cardinality {
                let found = self.nearest_candidate(frame, access, &available, input.requirement);
                proof {
                    lemma_nearest_bounds(values, owners, *frame, access, available@, input.requirement, n as int);
                }
                match found {
                    None => {
                        proof {
                            lemma_fixed_stopped(values, owners, *frame, access, inputs@, j as int);
                            lemma_variadic_after_stop(values, owners, *frame, access, inputs@, inputs@.len() as int);
                        }
                        let selected = flatten_indices(&planned);
                        return StackBindingOutcome::Impossible(StackBindingFailure {
                            port: input.port,
                            available: 0,
                            selected,
                        });
                    },
                    Some(index) => {
                        let compatibility = self.values[index].compatibility(input.requirement);
                        if let StackCompatibility::Possible = compatibility {
                            proof {
                                lemma_fixed_stopped(values, owners, *frame, access, inputs@, j as int);
                                lemma_variadic_after_stop(values, owners, *frame, access, inputs@, inputs@.len() as int);
                            }
                            return StackBindingOutcome::Deferred;
                        }
                        available.set(index, false);
                        let ghost before = planned@.map_values(|input: PlannedStackInput| input@);
                        let mut indices: Vec<usize> = Vec::new();
                        indices.push(index);
                        let entry = PlannedStackInput { port: input.port, indices };
                        assert(entry@ == (input.port, seq![index]));
                        planned.push(entry);
                        assert(planned@.map_values(|input: PlannedStackInput| input@) =~= before.push(entry@));
                    },
                }
            }
        }

        let mut j: usize = 0;
        while j < inputs.len()
            invariant
                self.wf(),
                values == self.spec_values(),
                owners == self.spec_owners(),
                n == values.len(),
                j <= inputs@.len(),
                available@.len() == n,
                ({
                    let state = spec_variadic_phase(values, owners, *frame, access, inputs@, j as int);
                    &&& state.0 == 0
                    &&& state.1 == available@
                    &&& state.2 == planned@.map_values(|input: PlannedStackInput| input@)
                }),
            decreases inputs@.len() - j,
        {
            let input = inputs[j];
            if let Cardinality::Variadic { min } = input.cardinality {
                let (indices, possible) = self.matching_candidates(frame, access, &available, input.requirement);
                if min > indices.len() && min - indices.len() > possible {
                    proof {
                        lemma_variadic_stopped(values, owners, *frame, access, inputs@, j as int + 1, inputs@.len() as int);
                    }
                    let selected = flatten_indices(&planned);
                    return StackBindingOutcome::Impossible(StackBindingFailure {
                        port: input.port,
                        available: indices.len(),
                        selected,
                    });
                }
                if possible > 0 {
                    proof {
                        lemma_variadic_stopped(values, owners, *frame, access, inputs@, j as int + 1, inputs@.len() as int);
                    }
                    return StackBindingOutcome::Deferred;
                }
                take_positions(&mut available, &indices);
                let ghost before = planned@.map_values(|input: PlannedStackInput| input@);
                let entry = PlannedStackInput { port: input.port, indices };
                planned.push(entry);
                assert(planned@.map_values(|input: PlannedStackInput| input@) =~= before.push(entry@));
            }
            j = j + 1;
        }
        let sorted = sort_by_port(planned);
        StackBindingOutcome::Resolved(StackBindingPlan { inputs: sorted })
    }

    fn nearest_candidate<R: Copy>(&self, frame: &StackFrame, access: StackAccess, available: &Vec<bool>, requirement: R) -> (found: Option<usize>)
        where T: StackCompatible<R>
        requires
            self.wf(),
            available@.len() == self.spec_values().len(),
        ensures
            match spec_nearest(self.spec_values(), self.spec_owners(), *frame, access, available@, requirement, self.spec_values().len() as int) {
                Some(i) => found == Some(i as usize),
                None => found is None,
            },
            found matches Some(i) ==> i < self.spec_values().len(),
    {
        let ghost values = self.spec_values();
        let ghost owners = self.spec_owners();
        let mut index = self.values.len();
        while index > 0
            invariant
                self.wf(),
                values == self.spec_values(),
                owners == self.spec_owners(),
                available@.len() == values.len(),
                index <= values.len(),
                spec_nearest(values, owners, *frame, access, available@, requirement, values.len() as int)
                    == spec_nearest(values, owners, *frame, access, available@, requirement, index as int),
            decreases index,
        {
            index = index - 1;
            if available[index] && Self::accessible(self.owners[index], frame, access) {
                let compatibility = self.values[index].compatibility(requirement);
                if !matches!(compatibility, StackCompatibility::Incompatible) {
                    return Some(index);
                }
            }
        }
        None
    }

    fn matching_candidates<R: Copy>(&self, frame: &StackFrame, access: StackAccess, available: &Vec<bool>, requirement: R) -> (result: (Vec<usize>, usize))
        where T: StackCompatible<R>
        requires
            self.wf(),
            available@.len() == self.spec_values().len(),
        ensures
            result.0@ == spec_definite(self.spec_values(), self.spec_owners(), *frame, access, available@, requirement, self.spec_values().len() as int),
            result.1 == spec_possible(self.spec_values(), self.spec_owners(), *frame, access, available@, requirement, self.spec_values().len() as int),
            forall|k: int| 0 <= k < result.0@.len() ==> #[trigger] result.0@[k] < self.spec_values().len(),
    {
        let ghost values = self.spec_values();
        let ghost owners = self.spec_owners();
        let mut indices: Vec<usize> = Vec::new();
        let mut possible: usize = 0;
        let mut index: usize = 0;
        while index < self.values.len()
            invariant
                self.wf(),
                values == self.spec_values(),
                owners == self.spec_owners(),
                available@.len() == values.len(),
                index <= values.len(),
                possible <= index,
                indices@ == spec_definite(values, owners, *frame, access, available@, requirement, index as int),
                possible == spec_possible(values, owners, *frame, access, available@, requirement, index as int),
                forall|k: int| 0 <= k < indices@.len() ==> #[trigger] indices@[k] < index,
            decreases values.len() - index,
        {
            if available[index] && Self::accessible(self.owners[index], frame, access) {
                match self.values[index].compatibility(requirement) {
                    StackCompatibility::Incompatible => {},
                    StackCompatibility::Possible => {
                        possible = possible + 1;
                    },
                    StackCompatibility::Definite => {
                        indices.push(index);
                    },
                }
            }
            index = index + 1;
        }
        (indices, possible)
    }
}

impl<T: Copy> EvaluationStack<T> {
    /// Remove the values selected by `plan` and return them grouped by port.
    ///
    /// Values that the plan does not select keep their relative order.
    pub fn apply_binding_plan(&mut self, plan: &StackBindingPlan) -> (bound: Vec<BoundStackInput<T>>)
        requires
            forall|k: int, m: int| 0 <= k < plan.inputs@.len() && 0 <= m < plan.inputs@[k].indices@.len()
                ==> #[trigger] plan.inputs@[k].indices@[m] < old(self).spec_values().len(),
        ensures
            bound@.len() == plan.inputs@.len(),
            forall|k: int| 0 <= k < bound@.len() ==> {
                &&& (#[trigger] bound@[k]).port == plan.inputs@[k].port
                &&& bound@[k].values@ == plan.inputs@[k].indices@.map_values(|i: usize| old(self).spec_values()[i as int])
            },
            final(self).spec_values() == spec_retain(old(self).spec_values(),
                spec_consumed(old(self).spec_values().len(), plan.entries())),
            final(self).spec_owners() == spec_retain(old(self).spec_owners(),
                spec_consumed(old(self).spec_values().len(), plan.entries())),
    {
        proof {
            use_type_invariant(&*self);
        }
        let ghost values = self.spec_values();
        let ghost owners = self.spec_owners();
        let n = self.values.len();
        let mut bound: Vec<BoundStackInput<T>> = Vec::new();
        let mut k: usize = 0;
        while k < plan.inputs.len()
            invariant
                self.wf(),
                values == self.spec_values(),
                owners == self.spec_owners(),
                k <= plan.inputs@.len(),
                bound@.len() == k,
                forall|k2: int, m: int| 0 <= k2 < plan.inputs@.len() && 0 <= m < plan.inputs@[k2].indices@.len()
                    ==> #[trigger] plan.inputs@[k2].indices@[m] < values.len(),
                forall|k2: int| 0 <= k2 < k ==> {
                    &&& (#[trigger] bound@[k2]).port == plan.inputs@[k2].port
                    &&& bound@[k2].values@ == plan.inputs@[k2].indices@.map_values(|i: usize| values[i as int])
                },
            decreases plan.inputs@.len() - k,
        {
            let indices = &plan.inputs[k].indices;
            let mut selected: Vec<T> = Vec::new();
            let mut m: usize = 0;
            while m < indices.len()
                invariant
                    self.wf(),
                    values == self.spec_values(),
                    k < plan.inputs@.len(),
                    *indices == plan.inputs@[k as int].indices,
                    m <= indices@.len(),
                    forall|m2: int| 0 <= m2 < indices@.len() ==> #[trigger] indices@[m2] < values.len(),
                    selected@ == indices@.take(m as int).map_values(|i: usize| values[i as int]),
                decreases indices@.len() - m,
            {
                assert(indices@[m as int] < values.len());
                selected.push(self.values[indices[m]]);
                m = m + 1;
                assert(selected@ =~= indices@.take(m as int).map_values(|i: usize| values[i as int]));
            }
            assert(indices@.take(m as int) =~= indices@);
            bound.push(BoundStackInput { port: plan.inputs[k].port, values: selected });
            k = k + 1;
        }

        let mut available: Vec<bool> = Vec::new();
        while available.len() < n
            invariant
                available@.len() <= n,
                forall|i: int| 0 <= i < available@.len() ==> available@[i],
            decreases n - available@.len(),
        {
            available.push(true);
        }
        let flat = flatten_indices(&plan.inputs);
        proof {
            lemma_flatten_bounds(plan.entries(), values.len());
        }
        let ghost all_free = available@;
        take_positions(&mut available, &flat);
        let ghost dropped = spec_consumed(values.len(), plan.entries());
        assert(dropped =~= available@.map_values(|free: bool| !free));

        let mut kept_values: Vec<T> = Vec::new();
        let mut kept_owners: Vec<usize> = Vec::new();
        let mut index: usize = 0;
        while index < n
            invariant
                self.wf(),
                values == self.spec_values(),
                owners == self.spec_owners(),
                n == values.len(),
                index <= n,
                available@.len() == n,
                dropped == available@.map_values(|free: bool| !free),
                kept_values@ == spec_retain(values.take(index as int), dropped.take(index as int)),
                kept_owners@ == spec_retain(owners.take(index as int), dropped.take(index as int)),
            decreases n - index,
        {
            proof {
                let i = index as int;
                assert(values.take(i + 1).drop_last() =~= values.take(i));
                assert(owners.take(i + 1).drop_last() =~= owners.take(i));
                assert(dropped.take(i + 1).subrange(0, i) =~= dropped.take(i));
            }
            if available[index] {
                kept_values.push(self.values[index]);
                kept_owners.push(self.owners[index]);
            }
            index = index + 1;
        }
        proof {
            assert(values.take(n as int) =~= values);
            assert(owners.take(n as int) =~= owners);
            assert(dropped.take(n as int) =~= dropped);
            lemma_retain_len(values, dropped);
            lemma_retain_len(owners, dropped);
        }
        *self = EvaluationStack { values: kept_values, owners: kept_owners };
        bound
    }

    /// Explain why a port could not bind: the message counts the values the
    /// access mode offered; an owned binding notes matching values that are
    /// only visible, and a visible binding names its visibility boundary.
    pub fn underflow(
        &self,
        frame: &StackFrame,
        access: StackAccess,
        diagnostic: BuiltinDiagnostic,
        requirement: &str,
        required: ValueType,
        available: usize,
        selected: &[usize],
        span: SourceSpan,
    ) -> (error: Diagnostic)
        where T: StackValue
        ensures
            error.code@ == builtin_code(diagnostic),
            error.message@ == requirement@ + ", but only "@ + spec_decimal(available as u64) + " "@
                + spec_stack_access_label(access) + " "@ + spec_value_type_label(required)
                + " value(s) are available"@,
            error.span == span,
            access == StackAccess::Owned ==> ({
                let visible = spec_visible_count(self.spec_values(), self.spec_owners(), *frame, selected@, required,
                    self.spec_values().len() as int);
                &&& visible > available ==> error.notes@.len() == 1
                    && error.notes@[0]@ == spec_decimal((visible - available) as u64) + " additional "@
                        + spec_value_type_label(required)
                        + " value(s) are visible outside this invocation's owned values; add `@visible` to permit consuming them"@
                &&& visible <= available ==> error.notes@.len() == 0
            }),
            access == StackAccess::Visible ==> error.notes@.len() == 1
                && error.notes@[0]@ == "the body of `"@ + frame.boundary.owner@ + "` at "@ + frame.boundary.span.file@
                    + ":"@ + spec_decimal(frame.boundary.span.line as u64) + ":"@
                    + spec_decimal(frame.boundary.span.column as u64)
                    + " establishes the nearest stack visibility boundary"@,
    {
        proof {
            use_type_invariant(self);
        }
        let mut message = String::from_str(requirement);
        message.append(", but only ");
        let count = decimal(available as u64);
        message.append(count.as_str());
        message.append(" ");
        message.append(access.label());
        message.append(" ");
        message.append(required.label());
        message.append(" value(s) are available");
        let error = Diagnostic::builtin(diagnostic, message, span);
        match access {
            StackAccess::Owned => {
                let visible = self.visible_matches(frame, selected, required);
                if visible > available {
                    let mut note = decimal((visible - available) as u64);
                    note.append(" additional ");
                    note.append(required.label());
                    note.append(" value(s) are visible outside this invocation's owned values; add `@visible` to permit consuming them");
                    error.note(note)
                } else {
                    error
                }
            },
            StackAccess::Visible => {
                let mut note = String::from_str("the body of `");
                note.append(frame.boundary.owner());
                note.append("` at ");
                note.append(frame.boundary.span.file());
                note.append(":");
                let line = decimal(frame.boundary.span.line as u64);
                note.append(line.as_str());
                note.append(":");
                let column = decimal(frame.boundary.span.column as u64);
                note.append(column.as_str());
                note.append(" establishes the nearest stack visibility boundary");
                error.note(note)
            },
        }
    }

    fn visible_matches(&self, frame: &StackFrame, selected: &[usize], required: ValueType) -> (count: usize)
        where T: StackValue
        requires
            self.wf(),
        ensures
            count == spec_visible_count(self.spec_values(), self.spec_owners(), *frame, selected@, required,
                self.spec_values().len() as int),
    {
        let ghost values = self.spec_values();
        let ghost owners = self.spec_owners();
        let mut count: usize = 0;
        let mut index: usize = 0;
        while index < self.values.len()
            invariant
                self.wf(),
                values == self.spec_values(),
                owners == self.spec_owners(),
                index <= values.len(),
                count <= index,
                count == spec_visible_count(values, owners, *frame, selected@, required, index as int),
            decreases values.len() - index,
        {
            if !slice_contains(selected, index)
                && Self::accessible(self.owners[index], frame, StackAccess::Visible)
                && self.values[index].known_value_type() == Some(required)
            {
                count = count + 1;
            }
            index = index + 1;
        }
        count
    }
}

fn slice_contains(items: &[usize], item: usize) -> (found: bool)
    ensures
        found == items@.contains(item),
{
    let mut index: usize = 0;
    while index < items.len()
        invariant
            index <= items@.len(),
            forall|j: int| 0 <= j < index ==> items@[j] != item,
        decreases items@.len() - index,
    {
        if items[index] == item {
            assert(items@[index as int] == item);
            return true;
        }
        index = index + 1;
    }
    false
}

/// The number of unselected positions below `n` that are visible from `frame`
/// and hold a value of type `required`.
pub open spec fn spec_visible_count<T: StackValue>(
    values: Seq<T>, owners: Seq<usize>, frame: StackFrame, selected: Seq<usize>, required: ValueType, n: int,
) -> nat
    decreases n,
{
    if n <= 0 {
        0
    } else {
        let previous = spec_visible_count(values, owners, frame, selected, required, n - 1);
        if !selected.contains((n - 1) as usize)
            && spec_accessible(owners[n - 1], frame, StackAccess::Visible)
            && values[n - 1].spec_value_type() == Some(required) {
            previous + 1
        } else {
            previous
        }
    }
}

/// Which of `n` positions appear in some entry of a plan.
pub open spec fn spec_consumed(n: nat, entries: Seq<(InputSlot, Seq<usize>)>) -> Seq<bool> {
    Seq::new(n, |i: int| spec_flatten(entries).contains(i as usize))
}

proof fn lemma_flatten_bounds(entries: Seq<(InputSlot, Seq<usize>)>, n: nat)
    requires
        forall|k: int, m: int| 0 <= k < entries.len() && 0 <= m < entries[k].1.len() ==> #[trigger] entries[k].1[m] < n,
    ensures
        forall|m: int| 0 <= m < spec_flatten(entries).len() ==> #[trigger] spec_flatten(entries)[m] < n,
    decreases entries.len(),
{
    if entries.len() > 0 {
        let rest = entries.drop_last();
        assert forall|k: int, m: int| 0 <= k < rest.len() && 0 <= m < rest[k].1.len() implies #[trigger] rest[k].1[m] < n by {
            assert(rest[k] == entries[k]);
        }
        lemma_flatten_bounds(rest, n);
        let last = entries.last();
        assert forall|m: int| 0 <= m < spec_flatten(entries).len() implies #[trigger] spec_flatten(entries)[m] < n by {
            if m >= spec_flatten(rest).len() {
                assert(spec_flatten(entries)[m] == last.1[m - spec_flatten(rest).len()]);
                assert(entries[entries.len() - 1] == last);
            }
        }
    }
}

fn take_positions(available: &mut Vec<bool>, taken: &Vec<usize>)
    requires
        forall|k: int| 0 <= k < taken@.len() ==> #[trigger] taken@[k] < old(available)@.len(),
    ensures
        final(available)@ == spec_take(old(available)@, taken@),
{
    let ghost initial = available@;
    assert(initial.len() == available.len());
    let mut k: usize = 0;
    while k < taken.len()
        invariant
            k <= taken@.len(),
            available@.len() == initial.len(),
            initial.len() <= usize::MAX,
            forall|m: int| 0 <= m < taken@.len() ==> #[trigger] taken@[m] < initial.len(),
            available@ == spec_take(initial, taken@.take(k as int)),
        decreases taken@.len() - k,
    {
        let position = taken[k];
        available.set(position, false);
        assert forall|x: usize| #[trigger] taken@.take(k as int + 1).contains(x)
            == (taken@.take(k as int).contains(x) || x == position) by {
            if x == position {
                assert(taken@.take(k as int + 1)[k as int] == position);
            }
            if taken@.take(k as int + 1).contains(x) {
                let m = choose|m: int| 0 <= m < k + 1 && #[trigger] taken@.take(k as int + 1)[m] == x;
                if m < k {
                    assert(taken@.take(k as int)[m] == x);
                }
            }
            if taken@.take(k as int).contains(x) {
                let m = choose|m: int| 0 <= m < k && #[trigger] taken@.take(k as int)[m] == x;
                assert(taken@.take(k as int + 1)[m] == x);
            }
        }
        assert forall|i: int| 0 <= i < initial.len() implies #[trigger] available@[i]
            == (initial[i] && !taken@.take(k as int + 1).contains(i as usize)) by {
            assert(taken@.take(k as int + 1).contains(i as usize)
                == (taken@.take(k as int).contains(i as usize) || i as usize == position));
        }
        assert(available@ =~= spec_take(initial, taken@.take(k as int + 1)));
        k = k + 1;
    }
    assert(taken@.take(taken@.len() as int) =~= taken@);
}

fn flatten_indices(planned: &Vec<PlannedStackInput>) -> (indices: Vec<usize>)
    ensures
        indices@ == spec_flatten(planned@.map_values(|input: PlannedStackInput| input@)),
{
    let ghost entries = planned@.map_values(|input: PlannedStackInput| input@);
    let mut indices: Vec<usize> = Vec::new();
    let mut k: usize = 0;
    while k < planned.len()
        invariant
            k <= planned@.len(),
            entries == planned@.map_values(|input: PlannedStackInput| input@),
            indices@ == spec_flatten(entries.take(k as int)),
        decreases planned@.len() - k,
    {
        let ghost prefix = indices@;
        let mut m: usize = 0;
        while m < planned[k].indices.len()
            invariant
                k < planned@.len(),
                m <= planned@[k as int].indices@.len(),
                indices@ == prefix + planned@[k as int].indices@.take(m as int),
            decreases planned@[k as int].indices@.len() - m,
        {
            indices.push(planned[k].indices[m]);
            m = m + 1;
            assert(indices@ =~= prefix + planned@[k as int].indices@.take(m as int));
        }
        assert(entries.take(k as int + 1).drop_last() =~= entries.take(k as int));
        assert(planned@[k as int].indices@.take(m as int) =~= planned@[k as int].indices@);
        k = k + 1;
    }
    assert(entries.take(planned@.len() as int) =~= entries);
    indices
}

fn sort_by_port(planned: Vec<PlannedStackInput>) -> (sorted: Vec<PlannedStackInput>)
    ensures
        sorted@.map_values(|input: PlannedStackInput| input@)
            == spec_sort_by_port(planned@.map_values(|input: PlannedStackInput| input@)),
{
    let ghost entries = planned@.map_values(|input: PlannedStackInput| input@);
    let mut sorted: Vec<PlannedStackInput> = Vec::new();
    assert(entries.take(0) =~= Seq::<(InputSlot, Seq<usize>)>::empty());
    assert(sorted@.map_values(|input: PlannedStackInput| input@) =~= Seq::<(InputSlot, Seq<usize>)>::empty());
    for entry in it: planned
        invariant
            it.seq() == planned@,
            entries == planned@.map_values(|input: PlannedStackInput| input@),
            sorted@.map_values(|input: PlannedStackInput| input@) == spec_sort_by_port(entries.take(it.index() as int)),
    {
        let ghost current = sorted@.map_values(|input: PlannedStackInput| input@);
        let mut k = sorted.len();
        assert(current.take(k as int) =~= current);
        while k > 0 && sorted[k - 1].port.0 > entry.port.0
            invariant
                k <= sorted@.len(),
                current == sorted@.map_values(|input: PlannedStackInput| input@),
                spec_insert_position(current, entry@) == spec_insert_position(current.take(k as int), entry@),
            decreases k,
        {
            assert(current.take(k as int).drop_last() =~= current.take(k as int - 1));
            k = k - 1;
        }
        sorted.insert(k, entry);
        proof {
            let i = it.index() as int;
            assert(entries.take(i + 1).drop_last() =~= entries.take(i));
            assert(entries.take(i + 1).last() == entry@);
            if k > 0 {
                assert(current.take(k as int).last() == current[k as int - 1]);
            }
            assert(current.take(0) =~= Seq::<(InputSlot, Seq<usize>)>::empty());
            assert(sorted@.map_values(|input: PlannedStackInput| input@) =~= current.insert(k as int, entry@));
        }
    }
    assert(entries.take(entries.len() as int) =~= entries);
    sorted
}

proof fn lemma_nearest_bounds<T: StackCompatible<R>, R>(
    values: Seq<T>, owners: Seq<usize>, frame: StackFrame, access: StackAccess,
    available: Seq<bool>, requirement: R, n: int,
)
    ensures
        spec_nearest(values, owners, frame, access, available, requirement, n) matches Some(i) ==> 0 <= i < n,
    decreases n,
{
    if n > 0 {
        lemma_nearest_bounds(values, owners, frame, access, available, requirement, n - 1);
    }
}

proof fn lemma_fixed_stopped<T: StackCompatible<R>, R>(
    values: Seq<T>, owners: Seq<usize>, frame: StackFrame, access: StackAccess,
    inputs: Seq<StackBindingInput<R>>, j: int,
)
    requires
        0 <= j <= inputs.len(),
        spec_fixed_phase(values, owners, frame, access, inputs, j).0 != 0,
    ensures
        spec_fixed_phase(values, owners, frame, access, inputs, 0)
            == spec_fixed_phase(values, owners, frame, access, inputs, j),
    decreases j,
{
    if j > 0 {
        lemma_fixed_stopped(values, owners, frame, access, inputs, j - 1);
    }
}

proof fn lemma_variadic_after_stop<T: StackCompatible<R>, R>(
    values: Seq<T>, owners: Seq<usize>, frame: StackFrame, access: StackAccess,
    inputs: Seq<StackBindingInput<R>>, j: int,
)
    requires
        0 <= j <= inputs.len(),
        spec_fixed_phase(values, owners, frame, access, inputs, 0).0 != 0,
    ensures
        spec_variadic_phase(values, owners, frame, access, inputs, j)
            == spec_fixed_phase(values, owners, frame, access, inputs, 0),
    decreases j,
{
    if j > 0 {
        lemma_variadic_after_stop(values, owners, frame, access, inputs, j - 1);
    }
}

proof fn lemma_variadic_stopped<T: StackCompatible<R>, R>(
    values: Seq<T>, owners: Seq<usize>, frame: StackFrame, access: StackAccess,
    inputs: Seq<StackBindingInput<R>>, j: int, k: int,
)
    requires
        0 <= j <= k <= inputs.len(),
        spec_variadic_phase(values, owners, frame, access, inputs, j).0 != 0,
    ensures
        spec_variadic_phase(values, owners, frame, access, inputs, k)
            == spec_variadic_phase(values, owners, frame, access, inputs, j),
    decreases k - j,
{
    if k > j {
        lemma_variadic_stopped(values, owners, frame, access, inputs, j, k - 1);
    }
}

/// Whether every position in `indices` is in the stack, no longer free, reachable from
/// `frame`, and definitely satisfies `requirement`.
pub open spec fn spec_entry_fits<T: StackCompatible<R>, R>(
    values: Seq<T>, owners: Seq<usize>, frame: StackFrame, access: StackAccess, available: Seq<bool>,
    requirement: R, indices: Seq<usize>,
) -> bool {
    forall|a: int| 0 <= a < indices.len() ==> {
        let i = #[trigger] indices[a] as int;
        &&& i < values.len()
        &&& !available[i]
        &&& spec_accessible(owners[i], frame, access)
        &&& values[i].spec_compatibility(requirement) == StackCompatibility::Definite
    }
}

/// Whether `entry` binds the port of some input, with positions that fit that input.
pub open spec fn spec_entry_for<T: StackCompatible<R>, R>(
    values: Seq<T>, owners: Seq<usize>, frame: StackFrame, access: StackAccess, available: Seq<bool>,
    inputs: Seq<StackBindingInput<R>>, entry: (InputSlot, Seq<usize>),
) -> bool {
    exists|j: int| 0 <= j < inputs.len() && inputs[j].port == entry.0
        && #[trigger] spec_entry_fits(values, owners, frame, access, available, inputs[j].requirement, entry.1)
}

/// Whether no stack position is planned twice.
pub open spec fn spec_entries_disjoint(entries: Seq<(InputSlot, Seq<usize>)>) -> bool {
    forall|k1: int, a1: int, k2: int, a2: int|
        0 <= k1 < entries.len() && 0 <= a1 < entries[k1].1.len() && 0 <= k2 < entries.len() && 0 <= a2 < entries[k2].1.len()
            && (k1 != k2 || a1 != a2)
        ==> #[trigger] entries[k1].1[a1] != #[trigger] entries[k2].1[a2]
}

/// Whether a planner state only plans stack positions that fit the ports they are planned
/// for, each at most once.
pub open spec fn spec_plan_sound<T: StackCompatible<R>, R>(
    values: Seq<T>, owners: Seq<usize>, frame: StackFrame, access: StackAccess,
    inputs: Seq<StackBindingInput<R>>, state: PlanState,
) -> bool {
    &&& state.1.len() == values.len()
    &&& forall|k: int| 0 <= k < state.2.len()
        ==> spec_entry_for(values, owners, frame, access, state.1, inputs, #[trigger] state.2[k])
    &&& spec_entries_disjoint(state.2)
}

/// The number of single-value inputs at position `j` or later.
pub open spec fn spec_ones_from<R>(inputs: Seq<StackBindingInput<R>>, j: int) -> nat
    decreases inputs.len() - j,
{
    if j >= inputs.len() || j < 0 {
        0
    } else {
        spec_ones_from(inputs, j + 1) + if inputs[j].cardinality == Cardinality::One { 1nat } else { 0nat }
    }
}

/// The number of variadic inputs before position `j`.
pub open spec fn spec_variadics_before<R>(inputs: Seq<StackBindingInput<R>>, j: int) -> nat
    decreases j,
{
    if j <= 0 {
        0
    } else {
        spec_variadics_before(inputs, j - 1) + if inputs[j - 1].cardinality != Cardinality::One { 1nat } else { 0nat }
    }
}

proof fn lemma_inputs_counted<R>(inputs: Seq<StackBindingInput<R>>, j: int)
    requires
        0 <= j <= inputs.len(),
    ensures
        spec_variadics_before(inputs, j) + spec_ones_from(inputs, 0) == j + spec_ones_from(inputs, j),
    decreases j,
{
    if j > 0 {
        lemma_inputs_counted(inputs, j - 1);
        lemma_ones_step(inputs, 0, j - 1);
    }
}

proof fn lemma_ones_step<R>(inputs: Seq<StackBindingInput<R>>, i: int, j: int)
    requires
        0 <= i <= j < inputs.len(),
    ensures
        spec_ones_from(inputs, i) == spec_ones_from(inputs, j + 1) + (spec_ones_from(inputs, i) - spec_ones_from(inputs, j + 1)),
        spec_ones_from(inputs, j) == spec_ones_from(inputs, j + 1) + if inputs[j].cardinality == Cardinality::One { 1nat } else { 0nat },
{
}

/// The nearest candidate is free, reachable and not incompatible.
proof fn lemma_nearest_fits<T: StackCompatible<R>, R>(
    values: Seq<T>, owners: Seq<usize>, frame: StackFrame, access: StackAccess,
    available: Seq<bool>, requirement: R, n: int,
)
    ensures
        spec_nearest(values, owners, frame, access, available, requirement, n) matches Some(i) ==> {
            &&& 0 <= i < n
            &&& spec_candidate(owners, frame, access, available, i)
            &&& values[i].spec_compatibility(requirement) != StackCompatibility::Incompatible
        },
    decreases n,
{
    if n > 0 {
        lemma_nearest_fits(values, owners, frame, access, available, requirement, n - 1);
    }
}

/// The definite candidates are free, reachable, definitely matching and strictly increasing.
proof fn lemma_definite_fits<T: StackCompatible<R>, R>(
    values: Seq<T>, owners: Seq<usize>, frame: StackFrame, access: StackAccess,
    available: Seq<bool>, requirement: R, n: int,
)
    requires
        n <= usize::MAX,
    ensures
        ({
            let definite = spec_definite(values, owners, frame, access, available, requirement, n);
            &&& forall|a: int| 0 <= a < definite.len() ==> {
                let i = #[trigger] definite[a] as int;
                &&& 0 <= i < n
                &&& spec_candidate(owners, frame, access, available, i)
                &&& values[i].spec_compatibility(requirement) == StackCompatibility::Definite
            }
            &&& forall|a: int, b: int| 0 <= a < b < definite.len() ==> #[trigger] definite[a] < #[trigger] definite[b]
        }),
    decreases n,
{
    if n > 0 {
        lemma_definite_fits(values, owners, frame, access, available, requirement, n - 1);
        let previous = spec_definite(values, owners, frame, access, available, requirement, n - 1);
        let definite = spec_definite(values, owners, frame, access, available, requirement, n);
        if spec_candidate(owners, frame, access, available, n - 1)
            && values[n - 1].spec_compatibility(requirement) == StackCompatibility::Definite {
            assert(definite == previous.push((n - 1) as usize));
            assert forall|a: int, b: int| 0 <= a < b < definite.len() implies #[trigger] definite[a] < #[trigger] definite[b] by {
                assert(definite[a] == previous[a]);
                assert(previous[a] as int >= 0 && (previous[a] as int) < n - 1) by {
                    assert(0 <= a < previous.len());
                }
                if b < previous.len() {
                    assert(definite[b] == previous[b]);
                } else {
                    assert(definite[b] as int == n - 1);
                }
            }
            assert forall|a: int| 0 <= a < definite.len() implies {
                let i = #[trigger] definite[a] as int;
                &&& 0 <= i < n
                &&& spec_candidate(owners, frame, access, available, i)
                &&& values[i].spec_compatibility(requirement) == StackCompatibility::Definite
            } by {
                if a < previous.len() {
                    assert(definite[a] == previous[a]);
                }
            }
        }
    }
}

proof fn lemma_fixed_sound<T: StackCompatible<R>, R>(
    values: Seq<T>, owners: Seq<usize>, frame: StackFrame, access: StackAccess,
    inputs: Seq<StackBindingInput<R>>, j: int,
)
    requires
        0 <= j <= inputs.len(),
        values.len() <= usize::MAX,
    ensures
        ({
            let state = spec_fixed_phase(values, owners, frame, access, inputs, j);
            state.0 == 0 ==> spec_plan_sound(values, owners, frame, access, inputs, state)
                && state.2.len() == spec_ones_from(inputs, j)
        }),
    decreases inputs.len() - j,
{
    let state = spec_fixed_phase(values, owners, frame, access, inputs, j);
    if j < inputs.len() {
        lemma_fixed_sound(values, owners, frame, access, inputs, j + 1);
        let previous = spec_fixed_phase(values, owners, frame, access, inputs, j + 1);
        let input = inputs[j];
        if previous.0 == 0 && input.cardinality == Cardinality::One {
            let n = values.len() as int;
            lemma_nearest_fits(values, owners, frame, access, previous.1, input.requirement, n);
            if let Some(i) = spec_nearest(values, owners, frame, access, previous.1, input.requirement, n) {
                if values[i].spec_compatibility(input.requirement) != StackCompatibility::Possible {
                    let entry = (input.port, seq![i as usize]);
                    assert(state.2 == previous.2.push(entry));
                    assert(state.1 == previous.1.update(i, false));
                    assert forall|k: int| 0 <= k < state.2.len()
                        implies spec_entry_for(values, owners, frame, access, state.1, inputs, #[trigger] state.2[k]) by {
                        if k < previous.2.len() {
                            assert(spec_entry_for(values, owners, frame, access, previous.1, inputs, previous.2[k]));
                            let jj = choose|jj: int| 0 <= jj < inputs.len() && inputs[jj].port == previous.2[k].0
                                && #[trigger] spec_entry_fits(values, owners, frame, access, previous.1, inputs[jj].requirement, previous.2[k].1);
                            assert(state.2[k] == previous.2[k]);
                            assert(spec_entry_fits(values, owners, frame, access, state.1, inputs[jj].requirement, state.2[k].1));
                        } else {
                            assert(state.2[k] == entry);
                            assert(spec_entry_fits(values, owners, frame, access, state.1, inputs[j].requirement, entry.1));
                        }
                    }
                    assert forall|k1: int, a1: int, k2: int, a2: int|
                        0 <= k1 < state.2.len() && 0 <= a1 < state.2[k1].1.len() && 0 <= k2 < state.2.len()
                            && 0 <= a2 < state.2[k2].1.len() && (k1 != k2 || a1 != a2)
                        implies #[trigger] state.2[k1].1[a1] != #[trigger] state.2[k2].1[a2] by {
                        if k1 < previous.2.len() && k2 < previous.2.len() {
                            assert(state.2[k1] == previous.2[k1] && state.2[k2] == previous.2[k2]);
                        } else if k1 < previous.2.len() {
                            assert(spec_entry_for(values, owners, frame, access, previous.1, inputs, previous.2[k1]));
                            let jj = choose|jj: int| 0 <= jj < inputs.len() && inputs[jj].port == previous.2[k1].0
                                && #[trigger] spec_entry_fits(values, owners, frame, access, previous.1, inputs[jj].requirement, previous.2[k1].1);
                            assert(!previous.1[previous.2[k1].1[a1] as int]);
                            assert(state.2[k1] == previous.2[k1]);
                        } else if k2 < previous.2.len() {
                            assert(spec_entry_for(values, owners, frame, access, previous.1, inputs, previous.2[k2]));
                            let jj = choose|jj: int| 0 <= jj < inputs.len() && inputs[jj].port == previous.2[k2].0
                                && #[trigger] spec_entry_fits(values, owners, frame, access, previous.1, inputs[jj].requirement, previous.2[k2].1);
                            assert(!previous.1[previous.2[k2].1[a2] as int]);
                            assert(state.2[k2] == previous.2[k2]);
                        }
                    }
                }
            }
        }
    }
}

proof fn lemma_variadic_sound<T: StackCompatible<R>, R>(
    values: Seq<T>, owners: Seq<usize>, frame: StackFrame, access: StackAccess,
    inputs: Seq<StackBindingInput<R>>, j: int,
)
    requires
        0 <= j <= inputs.len(),
        values.len() <= usize::MAX,
    ensures
        ({
            let state = spec_variadic_phase(values, owners, frame, access, inputs, j);
            state.0 == 0 ==> spec_plan_sound(values, owners, frame, access, inputs, state)
                && state.2.len() == spec_ones_from(inputs, 0) + spec_variadics_before(inputs, j)
        }),
    decreases j,
{
    let state = spec_variadic_phase(values, owners, frame, access, inputs, j);
    if j == 0 {
        lemma_fixed_sound(values, owners, frame, access, inputs, 0);
    } else {
        lemma_variadic_sound(values, owners, frame, access, inputs, j - 1);
        let previous = spec_variadic_phase(values, owners, frame, access, inputs, j - 1);
        let input = inputs[j - 1];
        if let Cardinality::Variadic { min } = input.cardinality {
            if previous.0 == 0 {
                let n = values.len() as int;
                let definite = spec_definite(values, owners, frame, access, previous.1, input.requirement, n);
                let possible = spec_possible(values, owners, frame, access, previous.1, input.requirement, n);
                lemma_definite_fits(values, owners, frame, access, previous.1, input.requirement, n);
                if !(definite.len() + possible < min) && !(possible > 0) {
                    let entry = (input.port, definite);
                    assert(state.2 == previous.2.push(entry));
                    assert(state.1 == spec_take(previous.1, definite));
                    assert forall|a: int| 0 <= a < definite.len() implies !state.1[#[trigger] definite[a] as int] by {
                        assert(definite.contains(definite[a]));
                    }
                    assert forall|k: int| 0 <= k < state.2.len()
                        implies spec_entry_for(values, owners, frame, access, state.1, inputs, #[trigger] state.2[k]) by {
                        if k < previous.2.len() {
                            assert(spec_entry_for(values, owners, frame, access, previous.1, inputs, previous.2[k]));
                            let jj = choose|jj: int| 0 <= jj < inputs.len() && inputs[jj].port == previous.2[k].0
                                && #[trigger] spec_entry_fits(values, owners, frame, access, previous.1, inputs[jj].requirement, previous.2[k].1);
                            assert(state.2[k] == previous.2[k]);
                            assert(spec_entry_fits(values, owners, frame, access, state.1, inputs[jj].requirement, state.2[k].1));
                        } else {
                            assert(state.2[k] == entry);
                            assert(spec_entry_fits(values, owners, frame, access, state.1, inputs[j - 1].requirement, entry.1));
                        }
                    }
                    assert forall|k1: int, a1: int, k2: int, a2: int|
                        0 <= k1 < state.2.len() && 0 <= a1 < state.2[k1].1.len() && 0 <= k2 < state.2.len()
                            && 0 <= a2 < state.2[k2].1.len() && (k1 != k2 || a1 != a2)
                        implies #[trigger] state.2[k1].1[a1] != #[trigger] state.2[k2].1[a2] by {
                        if k1 < previous.2.len() && k2 < previous.2.len() {
                            assert(state.2[k1] == previous.2[k1] && state.2[k2] == previous.2[k2]);
                        } else if k1 < previous.2.len() {
                            assert(spec_entry_for(values, owners, frame, access, previous.1, inputs, previous.2[k1]));
                            let jj = choose|jj: int| 0 <= jj < inputs.len() && inputs[jj].port == previous.2[k1].0
                                && #[trigger] spec_entry_fits(values, owners, frame, access, previous.1, inputs[jj].requirement, previous.2[k1].1);
                            assert(!previous.1[previous.2[k1].1[a1] as int]);
                            assert(state.2[k1] == previous.2[k1]);
                            assert(state.2[k2].1[a2] == definite[a2]);
                        } else if k2 < previous.2.len() {
                            assert(spec_entry_for(values, owners, frame, access, previous.1, inputs, previous.2[k2]));
                            let jj = choose|jj: int| 0 <= jj < inputs.len() && inputs[jj].port == previous.2[k2].0
                                && #[trigger] spec_entry_fits(values, owners, frame, access, previous.1, inputs[jj].requirement, previous.2[k2].1);
                            assert(!previous.1[previous.2[k2].1[a2] as int]);
                            assert(state.2[k2] == previous.2[k2]);
                            assert(state.2[k1].1[a1] == definite[a1]);
                        } else {
                            assert(state.2[k1].1[a1] == definite[a1]);
                            assert(state.2[k2].1[a2] == definite[a2]);
                            if a1 < a2 {
                                assert(definite[a1] < definite[a2]);
                            } else {
                                assert(definite[a2] < definite[a1]);
                            }
                        }
                    }
                }
            }
        }
    }
}

/// Where a stable sort by port inserts `entry`: after every port not above it, before every
/// port above it.
proof fn lemma_insert_position(sorted: Seq<(InputSlot, Seq<usize>)>, entry: (InputSlot, Seq<usize>))
    requires
        forall|a: int, b: int| 0 <= a < b < sorted.len() ==> (#[trigger] sorted[a]).0.0 <= (#[trigger] sorted[b]).0.0,
    ensures
        0 <= spec_insert_position(sorted, entry) <= sorted.len(),
        forall|k: int| 0 <= k < spec_insert_position(sorted, entry) ==> (#[trigger] sorted[k]).0.0 <= entry.0.0,
        forall|k: int| spec_insert_position(sorted, entry) <= k < sorted.len() ==> entry.0.0 < (#[trigger] sorted[k]).0.0,
    decreases sorted.len(),
{
    if sorted.len() > 0 {
        if !(sorted.last().0.0 <= entry.0.0) {
            let rest = sorted.drop_last();
            lemma_insert_position(rest, entry);
            assert forall|k: int| spec_insert_position(sorted, entry) <= k < sorted.len()
                implies entry.0.0 < (#[trigger] sorted[k]).0.0 by {
                if k < rest.len() {
                    assert(sorted[k] == rest[k]);
                }
            }
            assert forall|k: int| 0 <= k < spec_insert_position(sorted, entry) implies (#[trigger] sorted[k]).0.0 <= entry.0.0 by {
                assert(sorted[k] == rest[k]);
            }
        } else {
            assert forall|k: int| 0 <= k < spec_insert_position(sorted, entry) implies (#[trigger] sorted[k]).0.0 <= entry.0.0 by {
                if k < sorted.len() - 1 {
                    assert(sorted[k].0.0 <= sorted[sorted.len() - 1].0.0);
                }
            }
        }
    }
}

/// Sorting by port orders the entries by port and keeps each entry as often as it occurs.
pub proof fn lemma_sort_by_port(entries: Seq<(InputSlot, Seq<usize>)>)
    ensures
        spec_sort_by_port(entries).len() == entries.len(),
        spec_sort_by_port(entries).to_multiset() == entries.to_multiset(),
        forall|a: int, b: int| 0 <= a < b < spec_sort_by_port(entries).len()
            ==> (#[trigger] spec_sort_by_port(entries)[a]).0.0 <= (#[trigger] spec_sort_by_port(entries)[b]).0.0,
    decreases entries.len(),
{
    if entries.len() > 0 {
        let rest = entries.drop_last();
        lemma_sort_by_port(rest);
        let sorted = spec_sort_by_port(rest);
        let entry = entries.last();
        lemma_insert_position(sorted, entry);
        let p = spec_insert_position(sorted, entry);
        let result = sorted.insert(p, entry);
        assert(spec_sort_by_port(entries) == result);
        vstd::seq_lib::to_multiset_insert(sorted, p, entry);
        vstd::seq_lib::to_multiset_build(rest, entry);
        assert(entries == rest.push(entry));
        assert forall|a: int, b: int| 0 <= a < b < result.len() implies (#[trigger] result[a]).0.0 <= (#[trigger] result[b]).0.0 by {
            if b < p {
                assert(result[a] == sorted[a] && result[b] == sorted[b]);
            } else if b == p {
                assert(result[a] == sorted[a]);
            } else if a < p {
                assert(result[a] == sorted[a] && result[b] == sorted[b - 1]);
            } else if a == p {
                assert(result[b] == sorted[b - 1]);
            } else {
                assert(result[a] == sorted[a - 1] && result[b] == sorted[b - 1]);
            }
        }
    }
}

/// A resolved stack plan binds each input once, lists the bound ports in port order, and
/// binds only positions inside the stack that the frame may reach and that definitely satisfy
/// the requirement of the port they are bound to, no position twice.
pub proof fn lemma_resolved_plan<T: StackCompatible<R>, R>(
    values: Seq<T>, owners: Seq<usize>, frame: StackFrame, access: StackAccess, inputs: Seq<StackBindingInput<R>>,
)
    requires
        values.len() <= usize::MAX,
    ensures
        ({
            let state = spec_variadic_phase(values, owners, frame, access, inputs, inputs.len() as int);
            let planned = spec_sort_by_port(state.2);
            state.0 == 0 ==> {
                &&& planned.len() == inputs.len()
                &&& planned.to_multiset() == state.2.to_multiset()
                &&& forall|a: int, b: int| 0 <= a < b < planned.len() ==> (#[trigger] planned[a]).0.0 <= (#[trigger] planned[b]).0.0
                &&& spec_entries_disjoint(state.2)
                &&& forall|k: int| 0 <= k < state.2.len() ==> exists|j: int| 0 <= j < inputs.len() && inputs[j].port == (#[trigger] state.2[k]).0
                    && forall|a: int| 0 <= a < state.2[k].1.len() ==> {
                        let i = #[trigger] state.2[k].1[a] as int;
                        &&& i < values.len()
                        &&& spec_accessible(owners[i], frame, access)
                        &&& values[i].spec_compatibility(inputs[j].requirement) == StackCompatibility::Definite
                    }
            }
        }),
{
    let state = spec_variadic_phase(values, owners, frame, access, inputs, inputs.len() as int);
    lemma_variadic_sound(values, owners, frame, access, inputs, inputs.len() as int);
    lemma_sort_by_port(state.2);
    if state.0 == 0 {
        lemma_inputs_counted(inputs, inputs.len() as int);
        assert(spec_ones_from(inputs, inputs.len() as int) == 0);
        assert forall|k: int| 0 <= k < state.2.len() implies exists|j: int| 0 <= j < inputs.len() && inputs[j].port == (#[trigger] state.2[k]).0
            && forall|a: int| 0 <= a < state.2[k].1.len() ==> {
                let i = #[trigger] state.2[k].1[a] as int;
                &&& i < values.len()
                &&& spec_accessible(owners[i], frame, access)
                &&& values[i].spec_compatibility(inputs[j].requirement) == StackCompatibility::Definite
            } by {
            assert(spec_entry_for(values, owners, frame, access, state.1, inputs, state.2[k]));
            let j = choose|j: int| 0 <= j < inputs.len() && inputs[j].port == state.2[k].0
                && #[trigger] spec_entry_fits(values, owners, frame, access, state.1, inputs[j].requirement, state.2[k].1);
            assert(spec_entry_fits(values, owners, frame, access, state.1, inputs[j].requirement, state.2[k].1));
        }
    }
}


/// Whether entry `k` plans one position, the topmost that could serve `requirement`: every
/// reachable position above it either cannot match or is the position of an earlier entry.
pub open spec fn spec_topmost<T: StackCompatible<R>, R>(
    values: Seq<T>, owners: Seq<usize>, frame: StackFrame, access: StackAccess,
    entries: Seq<(InputSlot, Seq<usize>)>, k: int, requirement: R,
) -> bool {
    &&& entries[k].1.len() == 1
    &&& forall|i: int| entries[k].1[0] < i < values.len() && spec_accessible(owners[i], frame, access)
        && #[trigger] values[i].spec_compatibility(requirement) != StackCompatibility::Incompatible
        ==> exists|k2: int| 0 <= k2 < k && (#[trigger] entries[k2]).1 == seq![i as usize]
}

/// Above the nearest candidate, no position is both a candidate and possibly matching.
proof fn lemma_nearest_topmost<T: StackCompatible<R>, R>(
    values: Seq<T>, owners: Seq<usize>, frame: StackFrame, access: StackAccess,
    available: Seq<bool>, requirement: R, n: int,
)
    ensures
        spec_nearest(values, owners, frame, access, available, requirement, n) matches Some(i) ==>
            forall|h: int| i < h < n ==> !(spec_candidate(owners, frame, access, available, h)
                && #[trigger] values[h].spec_compatibility(requirement) != StackCompatibility::Incompatible),
    decreases n,
{
    if n > 0 {
        lemma_nearest_topmost(values, owners, frame, access, available, requirement, n - 1);
    }
}

/// Whether every position no longer free is the single position of some entry.
spec fn taken_by_entry(available: Seq<bool>, entries: Seq<(InputSlot, Seq<usize>)>) -> bool {
    forall|i: int| 0 <= i < available.len() && !#[trigger] available[i]
        ==> exists|k2: int| 0 <= k2 < entries.len() && (#[trigger] entries[k2]).1 == seq![i as usize]
}

/// Whether each entry belongs to a single-value input and took its topmost position.
spec fn entries_topmost<T: StackCompatible<R>, R>(
    values: Seq<T>, owners: Seq<usize>, frame: StackFrame, access: StackAccess,
    inputs: Seq<StackBindingInput<R>>, entries: Seq<(InputSlot, Seq<usize>)>, count: int,
) -> bool {
    forall|k: int| 0 <= k < count ==> exists|j: int| 0 <= j < inputs.len()
        && inputs[j].port == (#[trigger] entries[k]).0 && inputs[j].cardinality == Cardinality::One
        && spec_topmost(values, owners, frame, access, entries, k, inputs[j].requirement)
}

/// The topmost property depends only on the entries up to the one it speaks of.
proof fn lemma_topmost_prefix<T: StackCompatible<R>, R>(
    values: Seq<T>, owners: Seq<usize>, frame: StackFrame, access: StackAccess,
    first: Seq<(InputSlot, Seq<usize>)>, second: Seq<(InputSlot, Seq<usize>)>, k: int, requirement: R,
)
    requires
        0 <= k < first.len(),
        k < second.len(),
        forall|k2: int| 0 <= k2 <= k ==> first[k2] == second[k2],
        spec_topmost(values, owners, frame, access, first, k, requirement),
    ensures
        spec_topmost(values, owners, frame, access, second, k, requirement),
{
    assert(first[k] == second[k]);
    assert forall|i: int| second[k].1[0] < i < values.len() && spec_accessible(owners[i], frame, access)
        && #[trigger] values[i].spec_compatibility(requirement) != StackCompatibility::Incompatible
        implies exists|k2: int| 0 <= k2 < k && (#[trigger] second[k2]).1 == seq![i as usize] by {
        let k2 = choose|k2: int| 0 <= k2 < k && (#[trigger] first[k2]).1 == seq![i as usize];
        assert(second[k2] == first[k2]);
    }
}

proof fn lemma_fixed_topmost<T: StackCompatible<R>, R>(
    values: Seq<T>, owners: Seq<usize>, frame: StackFrame, access: StackAccess,
    inputs: Seq<StackBindingInput<R>>, j: int,
)
    requires
        0 <= j <= inputs.len(),
        values.len() <= usize::MAX,
    ensures
        ({
            let state = spec_fixed_phase(values, owners, frame, access, inputs, j);
            state.0 == 0 ==> taken_by_entry(state.1, state.2)
                && entries_topmost(values, owners, frame, access, inputs, state.2, state.2.len() as int)
        }),
    decreases inputs.len() - j,
{
    let state = spec_fixed_phase(values, owners, frame, access, inputs, j);
    if j < inputs.len() {
        lemma_fixed_topmost(values, owners, frame, access, inputs, j + 1);
        lemma_fixed_sound(values, owners, frame, access, inputs, j + 1);
        let previous = spec_fixed_phase(values, owners, frame, access, inputs, j + 1);
        let input = inputs[j];
        if previous.0 == 0 && input.cardinality == Cardinality::One {
            let n = values.len() as int;
            lemma_nearest_fits(values, owners, frame, access, previous.1, input.requirement, n);
            lemma_nearest_topmost(values, owners, frame, access, previous.1, input.requirement, n);
            if let Some(i) = spec_nearest(values, owners, frame, access, previous.1, input.requirement, n) {
                if values[i].spec_compatibility(input.requirement) != StackCompatibility::Possible {
                    let entry = (input.port, seq![i as usize]);
                    let last = previous.2.len() as int;
                    assert(state.2 == previous.2.push(entry));
                    assert(state.1 == previous.1.update(i, false));
                    assert forall|h: int| 0 <= h < state.1.len() && !#[trigger] state.1[h]
                        implies exists|k2: int| 0 <= k2 < state.2.len() && (#[trigger] state.2[k2]).1 == seq![h as usize] by {
                        if h == i {
                            assert(state.2[last] == entry);
                        } else {
                            assert(!previous.1[h]);
                            let k2 = choose|k2: int| 0 <= k2 < previous.2.len() && (#[trigger] previous.2[k2]).1 == seq![h as usize];
                            assert(state.2[k2] == previous.2[k2]);
                        }
                    }
                    assert forall|k: int| 0 <= k < state.2.len() implies exists|jj: int| 0 <= jj < inputs.len()
                        && inputs[jj].port == (#[trigger] state.2[k]).0 && inputs[jj].cardinality == Cardinality::One
                        && spec_topmost(values, owners, frame, access, state.2, k, inputs[jj].requirement) by {
                        if k < last {
                            let jj = choose|jj: int| 0 <= jj < inputs.len()
                                && inputs[jj].port == (#[trigger] previous.2[k]).0 && inputs[jj].cardinality == Cardinality::One
                                && spec_topmost(values, owners, frame, access, previous.2, k, inputs[jj].requirement);
                            assert forall|k2: int| 0 <= k2 <= k implies previous.2[k2] == state.2[k2] by {}
                            lemma_topmost_prefix(values, owners, frame, access, previous.2, state.2, k, inputs[jj].requirement);
                        } else {
                            assert(state.2[k] == entry);
                            assert forall|h: int| i < h < values.len() && spec_accessible(owners[h], frame, access)
                                && #[trigger] values[h].spec_compatibility(input.requirement) != StackCompatibility::Incompatible
                                implies exists|k2: int| 0 <= k2 < k && (#[trigger] state.2[k2]).1 == seq![h as usize] by {
                                assert(!previous.1[h]);
                                let k2 = choose|k2: int| 0 <= k2 < previous.2.len() && (#[trigger] previous.2[k2]).1 == seq![h as usize];
                                assert(state.2[k2] == previous.2[k2]);
                            }
                            assert(spec_topmost(values, owners, frame, access, state.2, k, inputs[j].requirement));
                        }
                    }
                }
            }
        }
    } else {
        assert forall|h: int| 0 <= h < state.1.len() implies #[trigger] state.1[h] by {}
    }
}

/// The variadic phase only appends to the entries of the single-value phase.
proof fn lemma_variadic_prefix<T: StackCompatible<R>, R>(
    values: Seq<T>, owners: Seq<usize>, frame: StackFrame, access: StackAccess,
    inputs: Seq<StackBindingInput<R>>, j: int,
)
    requires
        0 <= j <= inputs.len(),
    ensures
        ({
            let fixed = spec_fixed_phase(values, owners, frame, access, inputs, 0);
            let state = spec_variadic_phase(values, owners, frame, access, inputs, j);
            &&& state.0 == 0 ==> fixed.0 == 0
            &&& fixed.2.len() <= state.2.len()
            &&& forall|k: int| 0 <= k < fixed.2.len() ==> state.2[k] == fixed.2[k]
        }),
    decreases j,
{
    if j > 0 {
        lemma_variadic_prefix(values, owners, frame, access, inputs, j - 1);
    }
}

/// A single-value port takes the topmost position it can: in a resolved plan, each of the
/// first entries, one per single-value port, plans one position for such a port, and every
/// reachable position above it either cannot match that port or was planned by an entry
/// before it (for a single-value port later in the port list).
pub proof fn lemma_single_ports_topmost<T: StackCompatible<R>, R>(
    values: Seq<T>, owners: Seq<usize>, frame: StackFrame, access: StackAccess, inputs: Seq<StackBindingInput<R>>,
)
    requires
        values.len() <= usize::MAX,
    ensures
        ({
            let state = spec_variadic_phase(values, owners, frame, access, inputs, inputs.len() as int);
            state.0 == 0 ==> forall|k: int| 0 <= k < spec_ones_from(inputs, 0) ==> exists|j: int| 0 <= j < inputs.len()
                && inputs[j].port == (#[trigger] state.2[k]).0 && inputs[j].cardinality == Cardinality::One
                && spec_topmost(values, owners, frame, access, state.2, k, inputs[j].requirement)
        }),
{
    let state = spec_variadic_phase(values, owners, frame, access, inputs, inputs.len() as int);
    let fixed = spec_fixed_phase(values, owners, frame, access, inputs, 0);
    lemma_variadic_prefix(values, owners, frame, access, inputs, inputs.len() as int);
    if state.0 == 0 {
        lemma_fixed_sound(values, owners, frame, access, inputs, 0);
        lemma_fixed_topmost(values, owners, frame, access, inputs, 0);
        assert forall|k: int| 0 <= k < spec_ones_from(inputs, 0) implies exists|j: int| 0 <= j < inputs.len()
            && inputs[j].port == (#[trigger] state.2[k]).0 && inputs[j].cardinality == Cardinality::One
            && spec_topmost(values, owners, frame, access, state.2, k, inputs[j].requirement) by {
            let j = choose|j: int| 0 <= j < inputs.len()
                && inputs[j].port == (#[trigger] fixed.2[k]).0 && inputs[j].cardinality == Cardinality::One
                && spec_topmost(values, owners, frame, access, fixed.2, k, inputs[j].requirement);
            assert forall|k2: int| 0 <= k2 <= k implies fixed.2[k2] == state.2[k2] by {}
            lemma_topmost_prefix(values, owners, frame, access, fixed.2, state.2, k, inputs[j].requirement);
        }
    }
}


/// Whether `entries` obey the laws of a resolved plan for `inputs`: one entry per input, in
/// port order, no position twice, and every position inside the stack, reachable from `frame`
/// and definitely satisfying the requirement of a port it is planned for.
pub open spec fn spec_plan_law<T: StackCompatible<R>, R>(
    values: Seq<T>, owners: Seq<usize>, frame: StackFrame, access: StackAccess,
    inputs: Seq<StackBindingInput<R>>, entries: Seq<(InputSlot, Seq<usize>)>,
) -> bool {
    &&& entries.len() == inputs.len()
    &&& forall|a: int, b: int| 0 <= a < b < entries.len() ==> (#[trigger] entries[a]).0.0 <= (#[trigger] entries[b]).0.0
    &&& spec_entries_disjoint(entries)
    &&& forall|k: int| 0 <= k < entries.len() ==> exists|j: int| 0 <= j < inputs.len()
        && inputs[j].port == (#[trigger] entries[k]).0
        && forall|a: int| 0 <= a < entries[k].1.len() ==> {
            let i = #[trigger] entries[k].1[a] as int;
            &&& i < values.len()
            &&& spec_accessible(owners[i], frame, access)
            &&& values[i].spec_compatibility(inputs[j].requirement) == StackCompatibility::Definite
        }
}

/// Whether some value reachable from `frame` may, but need not, satisfy some port.
pub open spec fn spec_deferral_cause<T: StackCompatible<R>, R>(
    values: Seq<T>, owners: Seq<usize>, frame: StackFrame, access: StackAccess, inputs: Seq<StackBindingInput<R>>,
) -> bool {
    exists|i: int, j: int| 0 <= i < values.len() && 0 <= j < inputs.len() && spec_accessible(owners[i], frame, access)
        && #[trigger] values[i].spec_compatibility(inputs[j].requirement) == StackCompatibility::Possible
}

/// Every entry of the sorted entries is an entry of the original ones.
proof fn lemma_sort_members(entries: Seq<(InputSlot, Seq<usize>)>)
    ensures
        spec_sort_by_port(entries).len() == entries.len(),
        forall|k: int| 0 <= k < spec_sort_by_port(entries).len()
            ==> exists|q: int| 0 <= q < entries.len() && #[trigger] spec_sort_by_port(entries)[k] == entries[q],
    decreases entries.len(),
{
    if entries.len() > 0 {
        let rest = entries.drop_last();
        lemma_sort_members(rest);
        let sorted = spec_sort_by_port(rest);
        let entry = entries.last();
        lemma_sort_by_port(rest);
        lemma_insert_position(sorted, entry);
        let p = spec_insert_position(sorted, entry);
        let result = sorted.insert(p, entry);
        assert(spec_sort_by_port(entries) == result);
        assert forall|k: int| 0 <= k < result.len() implies exists|q: int| 0 <= q < entries.len() && #[trigger] result[k] == entries[q] by {
            if k == p {
                assert(result[k] == entries[entries.len() - 1]);
            } else {
                let m = if k < p { k } else { k - 1 };
                assert(result[k] == sorted[m]);
                let q = choose|q: int| 0 <= q < rest.len() && #[trigger] sorted[m] == rest[q];
                assert(rest[q] == entries[q]);
            }
        }
    }
}

/// Sorting keeps the entries' positions disjoint.
proof fn lemma_sort_disjoint(entries: Seq<(InputSlot, Seq<usize>)>)
    requires
        spec_entries_disjoint(entries),
    ensures
        spec_entries_disjoint(spec_sort_by_port(entries)),
    decreases entries.len(),
{
    if entries.len() > 0 {
        let rest = entries.drop_last();
        let last = entries.len() - 1;
        assert forall|k1: int, a1: int, k2: int, a2: int|
            0 <= k1 < rest.len() && 0 <= a1 < rest[k1].1.len() && 0 <= k2 < rest.len() && 0 <= a2 < rest[k2].1.len()
                && (k1 != k2 || a1 != a2)
            implies #[trigger] rest[k1].1[a1] != #[trigger] rest[k2].1[a2] by {
            assert(rest[k1] == entries[k1] && rest[k2] == entries[k2]);
            assert(entries[k1].1[a1] != entries[k2].1[a2]);
        }
        lemma_sort_disjoint(rest);
        lemma_sort_members(rest);
        lemma_sort_by_port(rest);
        let sorted = spec_sort_by_port(rest);
        let entry = entries.last();
        lemma_insert_position(sorted, entry);
        let p = spec_insert_position(sorted, entry);
        let result = sorted.insert(p, entry);
        assert(spec_sort_by_port(entries) == result);
        assert forall|m: int, a1: int, a2: int| 0 <= m < sorted.len() && 0 <= a1 < sorted[m].1.len() && 0 <= a2 < entry.1.len()
            implies #[trigger] sorted[m].1[a1] != #[trigger] entry.1[a2] by {
            let q = choose|q: int| 0 <= q < rest.len() && #[trigger] sorted[m] == rest[q];
            assert(rest[q] == entries[q]);
            assert(entries[last] == entry);
            assert(entries[q].1[a1] != entries[last].1[a2]);
        }
        assert forall|a1: int, a2: int| 0 <= a1 < entry.1.len() && 0 <= a2 < entry.1.len() && a1 != a2
            implies #[trigger] entry.1[a1] != #[trigger] entry.1[a2] by {
            assert(entries[last] == entry);
            assert(entries[last].1[a1] != entries[last].1[a2]);
        }
        assert forall|k1: int, a1: int, k2: int, a2: int|
            0 <= k1 < result.len() && 0 <= a1 < result[k1].1.len() && 0 <= k2 < result.len() && 0 <= a2 < result[k2].1.len()
                && (k1 != k2 || a1 != a2)
            implies #[trigger] result[k1].1[a1] != #[trigger] result[k2].1[a2] by {
            let m1 = if k1 < p { k1 } else { k1 - 1 };
            let m2 = if k2 < p { k2 } else { k2 - 1 };
            if k1 == p && k2 == p {
                assert(result[k1] == entry);
            } else if k1 == p {
                assert(result[k1] == entry && result[k2] == sorted[m2]);
                assert(sorted[m2].1[a2] != entry.1[a1]);
            } else if k2 == p {
                assert(result[k2] == entry && result[k1] == sorted[m1]);
                assert(sorted[m1].1[a1] != entry.1[a2]);
            } else {
                assert(result[k1] == sorted[m1] && result[k2] == sorted[m2]);
                assert(m1 != m2 || a1 != a2);
            }
        }
    }
}

/// A variadic port that may take a possibly matching value has one to take.
proof fn lemma_possible_witness<T: StackCompatible<R>, R>(
    values: Seq<T>, owners: Seq<usize>, frame: StackFrame, access: StackAccess,
    available: Seq<bool>, requirement: R, n: int,
)
    requires
        spec_possible(values, owners, frame, access, available, requirement, n) > 0,
    ensures
        exists|i: int| 0 <= i < n && spec_candidate(owners, frame, access, available, i)
            && #[trigger] values[i].spec_compatibility(requirement) == StackCompatibility::Possible,
    decreases n,
{
    if n > 0 {
        if !(spec_candidate(owners, frame, access, available, n - 1)
            && values[n - 1].spec_compatibility(requirement) == StackCompatibility::Possible) {
            lemma_possible_witness(values, owners, frame, access, available, requirement, n - 1);
        }
    }
}

proof fn lemma_fixed_deferred<T: StackCompatible<R>, R>(
    values: Seq<T>, owners: Seq<usize>, frame: StackFrame, access: StackAccess,
    inputs: Seq<StackBindingInput<R>>, j: int,
)
    requires
        0 <= j <= inputs.len(),
        spec_fixed_phase(values, owners, frame, access, inputs, j).0 == 1,
    ensures
        spec_deferral_cause(values, owners, frame, access, inputs),
    decreases inputs.len() - j,
{
    let previous = spec_fixed_phase(values, owners, frame, access, inputs, j + 1);
    if previous.0 != 0 {
        lemma_fixed_deferred(values, owners, frame, access, inputs, j + 1);
    } else {
        let input = inputs[j];
        let n = values.len() as int;
        lemma_nearest_fits(values, owners, frame, access, previous.1, input.requirement, n);
        let i = spec_nearest(values, owners, frame, access, previous.1, input.requirement, n)->0;
        assert(values[i].spec_compatibility(inputs[j].requirement) == StackCompatibility::Possible);
    }
}

proof fn lemma_variadic_deferred<T: StackCompatible<R>, R>(
    values: Seq<T>, owners: Seq<usize>, frame: StackFrame, access: StackAccess,
    inputs: Seq<StackBindingInput<R>>, j: int,
)
    requires
        0 <= j <= inputs.len(),
        spec_variadic_phase(values, owners, frame, access, inputs, j).0 == 1,
    ensures
        spec_deferral_cause(values, owners, frame, access, inputs),
    decreases j,
{
    if j <= 0 {
        lemma_fixed_deferred(values, owners, frame, access, inputs, 0);
    } else {
        let previous = spec_variadic_phase(values, owners, frame, access, inputs, j - 1);
        if previous.0 != 0 || inputs[j - 1].cardinality == Cardinality::One {
            lemma_variadic_deferred(values, owners, frame, access, inputs, j - 1);
        } else {
            let input = inputs[j - 1];
            let n = values.len() as int;
            lemma_possible_witness(values, owners, frame, access, previous.1, input.requirement, n);
            let i = choose|i: int| 0 <= i < n && spec_candidate(owners, frame, access, previous.1, i)
                && #[trigger] values[i].spec_compatibility(input.requirement) == StackCompatibility::Possible;
            assert(values[i].spec_compatibility(inputs[j - 1].requirement) == StackCompatibility::Possible);
        }
    }
}


/// The planner's status is one of continue, defer or impossible.
proof fn lemma_fixed_status<T: StackCompatible<R>, R>(
    values: Seq<T>, owners: Seq<usize>, frame: StackFrame, access: StackAccess,
    inputs: Seq<StackBindingInput<R>>, j: int,
)
    ensures
        spec_fixed_phase(values, owners, frame, access, inputs, j).0 <= 2,
    decreases inputs.len() - j,
{
    if 0 <= j < inputs.len() {
        lemma_fixed_status(values, owners, frame, access, inputs, j + 1);
    }
}

proof fn lemma_variadic_status<T: StackCompatible<R>, R>(
    values: Seq<T>, owners: Seq<usize>, frame: StackFrame, access: StackAccess,
    inputs: Seq<StackBindingInput<R>>, j: int,
)
    ensures
        spec_variadic_phase(values, owners, frame, access, inputs, j).0 <= 2,
    decreases j,
{
    if j <= 0 {
        lemma_fixed_status(values, owners, frame, access, inputs, 0);
    } else {
        lemma_variadic_status(values, owners, frame, access, inputs, j - 1);
    }
}


/// Whether position `i` is planned by some entry before entry `k`.
pub open spec fn spec_planned_before(entries: Seq<(InputSlot, Seq<usize>)>, k: int, i: int) -> bool {
    exists|k2: int, a: int| 0 <= k2 < k && 0 <= a < entries[k2].1.len() && #[trigger] entries[k2].1[a] == i
}

/// Whether entry `k` took, in ascending order, every reachable position that definitely
/// satisfies `requirement` and that no earlier entry planned, and at least `min` of them.
pub open spec fn spec_takes_all<T: StackCompatible<R>, R>(
    values: Seq<T>, owners: Seq<usize>, frame: StackFrame, access: StackAccess,
    entries: Seq<(InputSlot, Seq<usize>)>, k: int, requirement: R, min: usize,
) -> bool {
    &&& entries[k].1.len() >= min
    &&& forall|a: int, b: int| 0 <= a < b < entries[k].1.len() ==> #[trigger] entries[k].1[a] < #[trigger] entries[k].1[b]
    &&& forall|i: int| 0 <= i < values.len() && spec_accessible(owners[i], frame, access)
        && #[trigger] values[i].spec_compatibility(requirement) == StackCompatibility::Definite
        && !spec_planned_before(entries, k, i)
        ==> entries[k].1.contains(i as usize)
}

/// Whether every position no longer free is planned by some entry.
spec fn taken_by_entries(available: Seq<bool>, entries: Seq<(InputSlot, Seq<usize>)>) -> bool {
    forall|i: int| 0 <= i < available.len() && !#[trigger] available[i] ==> spec_planned_before(entries, entries.len() as int, i)
}

/// Every free, reachable, definitely matching position is among the definite candidates.
proof fn lemma_definite_complete<T: StackCompatible<R>, R>(
    values: Seq<T>, owners: Seq<usize>, frame: StackFrame, access: StackAccess,
    available: Seq<bool>, requirement: R, n: int, i: int,
)
    requires
        0 <= i < n,
        spec_candidate(owners, frame, access, available, i),
        values[i].spec_compatibility(requirement) == StackCompatibility::Definite,
    ensures
        spec_definite(values, owners, frame, access, available, requirement, n).contains(i as usize),
    decreases n,
{
    let previous = spec_definite(values, owners, frame, access, available, requirement, n - 1);
    if i == n - 1 {
        let definite = spec_definite(values, owners, frame, access, available, requirement, n);
        assert(definite == previous.push((n - 1) as usize));
        assert(definite[previous.len() as int] == i as usize);
    } else {
        lemma_definite_complete(values, owners, frame, access, available, requirement, n - 1, i);
        let a = choose|a: int| 0 <= a < previous.len() && previous[a] == i as usize;
        let definite = spec_definite(values, owners, frame, access, available, requirement, n);
        if spec_candidate(owners, frame, access, available, n - 1)
            && values[n - 1].spec_compatibility(requirement) == StackCompatibility::Definite {
            assert(definite[a] == previous[a]);
        }
    }
}

/// The entries of single-value ports account for every position taken by the first phase.
proof fn lemma_fixed_taken<T: StackCompatible<R>, R>(
    values: Seq<T>, owners: Seq<usize>, frame: StackFrame, access: StackAccess,
    inputs: Seq<StackBindingInput<R>>,
)
    requires
        values.len() <= usize::MAX,
    ensures
        ({
            let fixed = spec_fixed_phase(values, owners, frame, access, inputs, 0);
            fixed.0 == 0 ==> taken_by_entries(fixed.1, fixed.2)
        }),
{
    let fixed = spec_fixed_phase(values, owners, frame, access, inputs, 0);
    lemma_fixed_topmost(values, owners, frame, access, inputs, 0);
    lemma_fixed_sound(values, owners, frame, access, inputs, 0);
    if fixed.0 == 0 {
        assert forall|i: int| 0 <= i < fixed.1.len() && !#[trigger] fixed.1[i]
            implies spec_planned_before(fixed.2, fixed.2.len() as int, i) by {
            let k2 = choose|k2: int| 0 <= k2 < fixed.2.len() && (#[trigger] fixed.2[k2]).1 == seq![i as usize];
            assert((i as usize) as int == i);
            assert(fixed.2[k2].1[0] == i);
        }
    }
}

/// Planned-before depends only on the entries before the one it speaks of.
proof fn lemma_planned_before_prefix(first: Seq<(InputSlot, Seq<usize>)>, second: Seq<(InputSlot, Seq<usize>)>, k: int, i: int)
    requires
        0 <= k <= first.len(),
        k <= second.len(),
        forall|k2: int| 0 <= k2 < k ==> first[k2] == second[k2],
    ensures
        spec_planned_before(first, k, i) <==> spec_planned_before(second, k, i),
{
    if spec_planned_before(first, k, i) {
        let (k2, a) = choose|k2: int, a: int| 0 <= k2 < k && 0 <= a < first[k2].1.len() && #[trigger] first[k2].1[a] == i;
        assert(second[k2] == first[k2]);
    }
    if spec_planned_before(second, k, i) {
        let (k2, a) = choose|k2: int, a: int| 0 <= k2 < k && 0 <= a < second[k2].1.len() && #[trigger] second[k2].1[a] == i;
        assert(second[k2] == first[k2]);
    }
}

/// Whether each entry from `start` on belongs to a variadic input and took all it could.
spec fn entries_take_all<T: StackCompatible<R>, R>(
    values: Seq<T>, owners: Seq<usize>, frame: StackFrame, access: StackAccess,
    inputs: Seq<StackBindingInput<R>>, entries: Seq<(InputSlot, Seq<usize>)>, start: int,
) -> bool {
    forall|k: int| start <= k < entries.len() ==> exists|j: int| 0 <= j < inputs.len()
        && inputs[j].port == (#[trigger] entries[k]).0 && inputs[j].cardinality is Variadic
        && spec_takes_all(values, owners, frame, access, entries, k, inputs[j].requirement, inputs[j].cardinality->min)
}

proof fn lemma_takes_all_prefix<T: StackCompatible<R>, R>(
    values: Seq<T>, owners: Seq<usize>, frame: StackFrame, access: StackAccess,
    first: Seq<(InputSlot, Seq<usize>)>, second: Seq<(InputSlot, Seq<usize>)>, k: int, requirement: R, min: usize,
)
    requires
        0 <= k < first.len(),
        k < second.len(),
        forall|k2: int| 0 <= k2 <= k ==> first[k2] == second[k2],
        spec_takes_all(values, owners, frame, access, first, k, requirement, min),
    ensures
        spec_takes_all(values, owners, frame, access, second, k, requirement, min),
{
    assert(first[k] == second[k]);
    assert forall|i: int| 0 <= i < values.len() && spec_accessible(owners[i], frame, access)
        && #[trigger] values[i].spec_compatibility(requirement) == StackCompatibility::Definite
        && !spec_planned_before(second, k, i)
        implies second[k].1.contains(i as usize) by {
        lemma_planned_before_prefix(first, second, k, i);
    }
}

proof fn lemma_variadic_take_all<T: StackCompatible<R>, R>(
    values: Seq<T>, owners: Seq<usize>, frame: StackFrame, access: StackAccess,
    inputs: Seq<StackBindingInput<R>>, j: int,
)
    requires
        0 <= j <= inputs.len(),
        values.len() <= usize::MAX,
    ensures
        ({
            let fixed = spec_fixed_phase(values, owners, frame, access, inputs, 0);
            let state = spec_variadic_phase(values, owners, frame, access, inputs, j);
            state.0 == 0 ==> {
                &&& state.1.len() == values.len()
                &&& taken_by_entries(state.1, state.2)
                &&& entries_take_all(values, owners, frame, access, inputs, state.2, fixed.2.len() as int)
            }
        }),
    decreases j,
{
    let fixed = spec_fixed_phase(values, owners, frame, access, inputs, 0);
    let state = spec_variadic_phase(values, owners, frame, access, inputs, j);
    if j <= 0 {
        lemma_fixed_taken(values, owners, frame, access, inputs);
        lemma_fixed_sound(values, owners, frame, access, inputs, 0);
        assert(state == fixed);
        assert(entries_take_all(values, owners, frame, access, inputs, state.2, fixed.2.len() as int));
    } else {
        lemma_variadic_take_all(values, owners, frame, access, inputs, j - 1);
        lemma_variadic_prefix(values, owners, frame, access, inputs, j - 1);
        let previous = spec_variadic_phase(values, owners, frame, access, inputs, j - 1);
        let input = inputs[j - 1];
        if let Cardinality::Variadic { min } = input.cardinality {
            if previous.0 == 0 && state.0 == 0 {
                let n = values.len() as int;
                let definite = spec_definite(values, owners, frame, access, previous.1, input.requirement, n);
                let k = previous.2.len() as int;
                lemma_definite_fits(values, owners, frame, access, previous.1, input.requirement, n);
                assert(state.2 == previous.2.push((input.port, definite)));
                assert(state.1 == spec_take(previous.1, definite));
                assert(state.2[k] == (input.port, definite));
                assert forall|i: int| 0 <= i < state.1.len() && !#[trigger] state.1[i]
                    implies spec_planned_before(state.2, state.2.len() as int, i) by {
                    if !previous.1[i] {
                        let (k2, a) = choose|k2: int, a: int| 0 <= k2 < previous.2.len() && 0 <= a < previous.2[k2].1.len()
                            && #[trigger] previous.2[k2].1[a] == i;
                        assert(state.2[k2] == previous.2[k2]);
                    } else {
                        assert(definite.contains(i as usize));
                        let a = choose|a: int| 0 <= a < definite.len() && definite[a] == i as usize;
                        assert(state.2[k].1[a] == i);
                    }
                }
                assert forall|kk: int| fixed.2.len() <= kk < state.2.len() implies exists|jj: int| 0 <= jj < inputs.len()
                    && inputs[jj].port == (#[trigger] state.2[kk]).0 && inputs[jj].cardinality is Variadic
                    && spec_takes_all(values, owners, frame, access, state.2, kk, inputs[jj].requirement, inputs[jj].cardinality->min) by {
                    if kk < k {
                        let jj = choose|jj: int| 0 <= jj < inputs.len()
                            && inputs[jj].port == (#[trigger] previous.2[kk]).0 && inputs[jj].cardinality is Variadic
                            && spec_takes_all(values, owners, frame, access, previous.2, kk, inputs[jj].requirement, inputs[jj].cardinality->min);
                        let mm = inputs[jj].cardinality->min;
                        assert forall|k2: int| 0 <= k2 <= kk implies previous.2[k2] == state.2[k2] by {}
                        lemma_takes_all_prefix(values, owners, frame, access, previous.2, state.2, kk, inputs[jj].requirement, mm);
                    } else {
                        assert(kk == k);
                        assert forall|i: int| 0 <= i < values.len() && spec_accessible(owners[i], frame, access)
                            && #[trigger] values[i].spec_compatibility(input.requirement) == StackCompatibility::Definite
                            && !spec_planned_before(state.2, k, i)
                            implies state.2[k].1.contains(i as usize) by {
                            lemma_planned_before_prefix(previous.2, state.2, k, i);
                            assert(previous.1[i]);
                            lemma_definite_complete(values, owners, frame, access, previous.1, input.requirement, n, i);
                        }
                        assert(spec_takes_all(values, owners, frame, access, state.2, k, inputs[j - 1].requirement, min));
                    }
                }
                assert(entries_take_all(values, owners, frame, access, inputs, state.2, fixed.2.len() as int));
            }
        } else {
            assert(state == previous);
        }
    }
}

/// A variadic port takes every position it can: in a resolved plan, each entry after those of
/// the single-value ports belongs to a variadic port and lists, in ascending order and at least
/// `min` strong, every reachable position that definitely satisfies that port and that no
/// earlier entry planned.
pub proof fn lemma_variadic_ports_take_all<T: StackCompatible<R>, R>(
    values: Seq<T>, owners: Seq<usize>, frame: StackFrame, access: StackAccess, inputs: Seq<StackBindingInput<R>>,
)
    requires
        values.len() <= usize::MAX,
    ensures
        ({
            let state = spec_variadic_phase(values, owners, frame, access, inputs, inputs.len() as int);
            state.0 == 0 ==> forall|k: int| spec_ones_from(inputs, 0) <= k < state.2.len() ==> exists|j: int|
                0 <= j < inputs.len() && inputs[j].port == (#[trigger] state.2[k]).0
                && inputs[j].cardinality is Variadic
                && spec_takes_all(values, owners, frame, access, state.2, k, inputs[j].requirement, inputs[j].cardinality->min)
        }),
{
    let state = spec_variadic_phase(values, owners, frame, access, inputs, inputs.len() as int);
    lemma_variadic_take_all(values, owners, frame, access, inputs, inputs.len() as int);
    lemma_variadic_prefix(values, owners, frame, access, inputs, inputs.len() as int);
    if state.0 == 0 {
        lemma_fixed_sound(values, owners, frame, access, inputs, 0);
        let fixed = spec_fixed_phase(values, owners, frame, access, inputs, 0);
        assert(fixed.2.len() == spec_ones_from(inputs, 0));
        assert forall|k: int| spec_ones_from(inputs, 0) <= k < state.2.len() implies exists|j: int|
            0 <= j < inputs.len() && inputs[j].port == (#[trigger] state.2[k]).0
            && inputs[j].cardinality is Variadic
            && spec_takes_all(values, owners, frame, access, state.2, k, inputs[j].requirement, inputs[j].cardinality->min) by {
            assert(entries_take_all(values, owners, frame, access, inputs, state.2, fixed.2.len() as int));
            assert(fixed.2.len() <= k < state.2.len());
        }
    }
}

} // verus!
