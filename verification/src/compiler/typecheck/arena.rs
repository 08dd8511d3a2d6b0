//! Monotonic type-variable storage and unification.

use vstd::prelude::*;

use crate::model::ValueType;

verus! {

/// A type variable allocated by a [`TypeArena`].
#[derive(Clone, Copy, Debug, PartialEq, Eq, Structural, PartialOrd, Ord, Hash)]
pub struct TypeVarId(pub u32);

impl TypeVarId {
    /// Return the arena position of the variable.
    pub fn index(self) -> (index: usize)
        ensures
            index == self.0,
    {
        self.0 as usize
    }
}

/// The set of value types a variable may still take, as a bit set.
#[derive(Clone, Copy, Debug, PartialEq, Eq, Structural, Hash)]
pub struct TypeDomain(pub u8);

/// The bit of Video values.
pub const VIDEO_BIT: u8 = 1;
/// The bit of Audio values.
pub const AUDIO_BIT: u8 = 2;

/// The bit set holding exactly `value_type`.
pub open spec fn spec_type_bits(value_type: ValueType) -> u8 {
    match value_type {
        ValueType::Video => VIDEO_BIT,
        ValueType::Audio => AUDIO_BIT,
    }
}

/// The single value type of a one-element domain.
pub open spec fn spec_concrete(domain: TypeDomain) -> Option<ValueType> {
    if domain.0 == VIDEO_BIT {
        Some(ValueType::Video)
    } else if domain.0 == AUDIO_BIT {
        Some(ValueType::Audio)
    } else {
        None
    }
}

/// Whether `domain` admits `value_type`.
pub open spec fn spec_contains(domain: TypeDomain, value_type: ValueType) -> bool {
    domain.0 & spec_type_bits(value_type) == spec_type_bits(value_type)
}

impl TypeDomain {
    /// Every timeline value type.
    pub fn timeline() -> (domain: Self)
        ensures
            domain.0 == VIDEO_BIT | AUDIO_BIT,
    {
        TypeDomain(VIDEO_BIT | AUDIO_BIT)
    }

    /// The domain holding exactly `value_type`.
    pub fn from_value_type(value_type: ValueType) -> (domain: Self)
        ensures
            domain.0 == spec_type_bits(value_type),
    {
        match value_type {
            ValueType::Video => TypeDomain(VIDEO_BIT),
            ValueType::Audio => TypeDomain(AUDIO_BIT),
        }
    }

    /// Whether this domain admits `value_type`.
    pub fn contains(self, value_type: ValueType) -> (contains: bool)
        ensures
            contains == spec_contains(self, value_type),
    {
        let candidate = TypeDomain::from_value_type(value_type);
        candidate.0 != 0 && self.0 & candidate.0 == candidate.0
    }

    /// The types admitted by both domains.
    pub fn intersection(self, other: Self) -> (domain: Self)
        ensures
            domain.0 == self.0 & other.0,
    {
        TypeDomain(self.0 & other.0)
    }

    /// Whether every type of this domain is admitted by `other`.
    pub fn is_subset_of(self, other: Self) -> (subset: bool)
        ensures
            subset == (self.0 & !other.0 == 0),
    {
        self.0 & !other.0 == 0
    }

    /// Whether some type is admitted by both domains.
    pub fn overlaps(self, other: Self) -> (overlaps: bool)
        ensures
            overlaps == (self.0 & other.0 != 0),
    {
        self.0 & other.0 != 0
    }

    /// Whether no type is admitted.
    pub fn is_empty(self) -> (empty: bool)
        ensures
            empty == (self.0 == 0),
    {
        self.0 == 0
    }

    /// Return the single admitted type, if there is exactly one.
    pub fn concrete(self) -> (value_type: Option<ValueType>)
        ensures
            value_type == spec_concrete(self),
    {
        if self.0 == VIDEO_BIT {
            Some(ValueType::Video)
        } else if self.0 == AUDIO_BIT {
            Some(ValueType::Audio)
        } else {
            None
        }
    }
}

impl From<ValueType> for TypeDomain {
    fn from(value_type: ValueType) -> (domain: Self) {
        TypeDomain::from_value_type(value_type)
    }
}

impl vstd::std_specs::convert::FromSpecImpl<ValueType> for TypeDomain {
    open spec fn obeys_from_spec() -> bool {
        true
    }

    open spec fn from_spec(value_type: ValueType) -> TypeDomain {
        TypeDomain(spec_type_bits(value_type))
    }
}

/// The two disjoint domains whose unification failed.
#[derive(Clone, Copy, Debug, PartialEq, Eq, Structural)]
pub struct TypeConflict {
    pub left: TypeDomain,
    pub right: TypeDomain,
}

#[derive(Clone, Debug)]
struct TypeNode {
    parent: TypeVarId,
    domain: TypeDomain,
    rank: u64,
}

/// Union-find storage of type variables with monotonically narrowing domains.
///
/// Each equivalence class of variables shares one domain, stored at its root.
#[derive(Clone, Debug)]
pub struct TypeArena {
    nodes: Vec<TypeNode>,
    revision: u64,
}

impl TypeArena {
    /// The number of allocated variables.
    pub closed spec fn len(&self) -> nat {
        self.nodes@.len()
    }

    /// The change counter of the arena.
    pub closed spec fn spec_revision(&self) -> u64 {
        self.revision
    }

    pub closed spec fn parent(&self, i: int) -> int {
        self.nodes@[i].parent.0 as int
    }

    pub closed spec fn rank(&self, i: int) -> u64 {
        self.nodes@[i].rank
    }

    /// The arena's forest is well formed: parents are allocated, ranks strictly
    /// increase towards roots, and no rank exceeds the revision.
    pub closed spec fn wf(&self) -> bool {
        &&& self.nodes@.len() <= u32::MAX as nat + 1
        &&& forall|i: int| 0 <= i < self.nodes@.len() ==> {
            &&& 0 <= #[trigger] self.parent(i) < self.nodes@.len()
            &&& self.rank(i) <= self.revision
            &&& self.parent(i) != i ==> self.rank(i) < self.rank(self.parent(i))
        }
    }

    /// The root of the class of variable `i`.
    pub closed spec fn root(&self, i: int) -> int
        decreases u64::MAX - self.rank(i),
        when self.wf() && 0 <= i < self.len()
    {
        if self.parent(i) == i {
            i
        } else {
            self.root(self.parent(i))
        }
    }

    /// The domain shared by the class of variable `i`.
    pub open spec fn domain_of(&self, i: int) -> TypeDomain {
        self.root_domain(self.root(i))
    }

    /// The domain stored at position `r`.
    pub closed spec fn root_domain(&self, r: int) -> TypeDomain {
        self.nodes@[r].domain
    }

    /// Whether two variables are in the same class.
    pub open spec fn same_class(&self, a: int, b: int) -> bool {
        self.root(a) == self.root(b)
    }

    proof fn lemma_root_bounds(&self, i: int)
        requires
            self.wf(),
            0 <= i < self.nodes@.len(),
        ensures
            0 <= self.root(i) < self.nodes@.len(),
            self.parent(self.root(i)) == self.root(i),
            self.rank(i) <= self.rank(self.root(i)),
        decreases u64::MAX - self.rank(i),
    {
        if self.parent(i) != i {
            self.lemma_root_bounds(self.parent(i));
        }
    }

    /// The root of every variable lies in the arena and is its own root.
    pub proof fn lemma_root_is_root(&self, i: int)
        requires
            self.wf(),
            0 <= i < self.len(),
        ensures
            0 <= self.root(i) < self.len(),
            self.root(self.root(i)) == self.root(i),
    {
        self.lemma_root_bounds(i);
    }

    /// Construct an empty arena.
    pub fn new() -> (arena: Self)
        ensures
            arena.wf(),
            arena.len() == 0,
            arena.spec_revision() == 0,
    {
        TypeArena { nodes: Vec::new(), revision: 0 }
    }

    /// Allocate a variable that may be any timeline type.
    pub fn allocate(&mut self) -> (variable: TypeVarId)
        requires
            old(self).wf(),
            old(self).len() <= u32::MAX,
            old(self).spec_revision() < u64::MAX,
        ensures
            final(self).allocated_from(*old(self), variable, TypeDomain(VIDEO_BIT | AUDIO_BIT)),
    {
        self.allocate_domain(TypeDomain::timeline())
    }

    /// Allocate a variable fixed to `value_type`.
    pub fn allocate_exact(&mut self, value_type: ValueType) -> (variable: TypeVarId)
        requires
            old(self).wf(),
            old(self).len() <= u32::MAX,
            old(self).spec_revision() < u64::MAX,
        ensures
            final(self).allocated_from(*old(self), variable, TypeDomain(spec_type_bits(value_type))),
    {
        self.allocate_domain(TypeDomain::from_value_type(value_type))
    }

    /// `self` is `old` with one fresh singleton class of `domain` at `variable`.
    pub open spec fn allocated_from(&self, old: TypeArena, variable: TypeVarId, domain: TypeDomain) -> bool {
        &&& self.wf()
        &&& variable.0 == old.len()
        &&& self.len() == old.len() + 1
        &&& self.spec_revision() == old.spec_revision() + 1
        &&& self.domain_of(variable.0 as int) == domain
        &&& forall|a: int| 0 <= a < old.len() ==> #[trigger] self.domain_of(a) == old.domain_of(a)
        &&& forall|a: int, b: int| 0 <= a < old.len() && 0 <= b < old.len()
            ==> (#[trigger] self.same_class(a, b) <==> old.same_class(a, b))
        &&& forall|a: int| 0 <= a < old.len() ==> !#[trigger] self.same_class(a, variable.0 as int)
    }

    /// `self` is `old` unchanged.
    pub open spec fn unchanged_from(&self, old: TypeArena) -> bool {
        &&& self.wf()
        &&& self.len() == old.len()
        &&& self.spec_revision() == old.spec_revision()
        &&& forall|a: int| 0 <= a < old.len() ==> #[trigger] self.domain_of(a) == old.domain_of(a)
        &&& forall|a: int, b: int| 0 <= a < old.len() && 0 <= b < old.len()
            ==> (#[trigger] self.same_class(a, b) <==> old.same_class(a, b))
    }

    /// `self` is `old` with the classes of `left` and `right` merged into one
    /// class whose domain is `domain`.
    pub open spec fn merged_from(&self, old: TypeArena, left: int, right: int, domain: TypeDomain) -> bool {
        &&& self.wf()
        &&& self.len() == old.len()
        &&& forall|a: int| 0 <= a < old.len() ==> #[trigger] self.domain_of(a) == (
            if old.same_class(a, left) || old.same_class(a, right) { domain } else { old.domain_of(a) })
        &&& forall|a: int, b: int| 0 <= a < old.len() && 0 <= b < old.len()
            ==> (#[trigger] self.same_class(a, b) <==> (
                old.same_class(a, b)
                || (old.same_class(a, left) && old.same_class(b, right))
                || (old.same_class(a, right) && old.same_class(b, left))))
    }

    /// `self` is `old` with the class of `variable` narrowed to `domain`.
    pub open spec fn narrowed_from(&self, old: TypeArena, variable: int, domain: TypeDomain) -> bool {
        &&& self.wf()
        &&& self.len() == old.len()
        &&& forall|a: int| 0 <= a < old.len() ==> #[trigger] self.domain_of(a) == (
            if old.same_class(a, variable) { domain } else { old.domain_of(a) })
        &&& forall|a: int, b: int| 0 <= a < old.len() && 0 <= b < old.len()
            ==> (#[trigger] self.same_class(a, b) <==> old.same_class(a, b))
    }

    fn allocate_domain(&mut self, domain: TypeDomain) -> (variable: TypeVarId)
        requires
            old(self).wf(),
            old(self).len() <= u32::MAX,
            old(self).spec_revision() < u64::MAX,
        ensures
            final(self).allocated_from(*old(self), variable, domain),
    {
        let ghost old_arena = *self;
        let raw = self.nodes.len() as u32;
        let variable = TypeVarId(raw);
        self.nodes.push(TypeNode { parent: variable, domain, rank: 0 });
        self.bump_revision();
        proof {
            assert forall|i: int| 0 <= i < self.nodes@.len() implies {
                &&& 0 <= #[trigger] self.parent(i) < self.nodes@.len()
                &&& self.rank(i) <= self.revision
                &&& self.parent(i) != i ==> self.rank(i) < self.rank(self.parent(i))
            } by {
                if i < old_arena.nodes@.len() {
                    assert(self.nodes@[i] == old_arena.nodes@[i]);
                    assert(old_arena.parent(i) < old_arena.nodes@.len());
                    assert(self.nodes@[old_arena.parent(i)] == old_arena.nodes@[old_arena.parent(i)]);
                }
            }
            assert forall|a: int| 0 <= a < old_arena.nodes@.len() implies #[trigger] self.root(a) == old_arena.root(a) by {
                self.lemma_extend_root(old_arena, a);
            }
            assert(self.root(raw as int) == raw as int);
            assert forall|a: int| 0 <= a < old_arena.len() implies #[trigger] self.domain_of(a) == old_arena.domain_of(a) by {
                self.lemma_extend_root(old_arena, a);
                old_arena.lemma_root_bounds(a);
            }
            assert forall|a: int| 0 <= a < old_arena.len() implies !#[trigger] self.same_class(a, raw as int) by {
                self.lemma_extend_root(old_arena, a);
                old_arena.lemma_root_bounds(a);
            }
            assert forall|a: int, b: int| 0 <= a < old_arena.len() && 0 <= b < old_arena.len()
                implies (#[trigger] self.same_class(a, b) <==> old_arena.same_class(a, b)) by {
                self.lemma_extend_root(old_arena, a);
                self.lemma_extend_root(old_arena, b);
            }
        }
        variable
    }

    proof fn lemma_extend_root(&self, old: TypeArena, a: int)
        requires
            old.wf(),
            self.wf(),
            old.nodes@.len() <= self.nodes@.len(),
            forall|i: int| 0 <= i < old.nodes@.len() ==> self.nodes@[i] == old.nodes@[i],
            0 <= a < old.nodes@.len(),
        ensures
            self.root(a) == old.root(a),
        decreases u64::MAX - old.rank(a),
    {
        if old.parent(a) != a {
            self.lemma_extend_root(old, old.parent(a));
        }
    }

    /// Return the root of the class of `variable`.
    fn root_of(&self, variable: TypeVarId) -> (root: TypeVarId)
        requires
            self.wf(),
            variable.0 < self.len(),
        ensures
            root.0 == self.root(variable.0 as int),
            root.0 < self.len(),
            self.parent(root.0 as int) == root.0,
    {
        let mut current = variable;
        proof {
            self.lemma_root_bounds(variable.0 as int);
        }
        loop
            invariant
                self.wf(),
                current.0 < self.nodes@.len(),
                self.root(current.0 as int) == self.root(variable.0 as int),
            decreases u64::MAX - self.rank(current.0 as int),
        {
            let parent = self.nodes[current.index()].parent;
            if parent == current {
                return current;
            }
            current = parent;
        }
    }

    fn bump_revision(&mut self)
        requires
            old(self).revision < u64::MAX,
        ensures
            final(self).revision == old(self).revision + 1,
            final(self).nodes == old(self).nodes,
    {
        self.revision = self.revision + 1;
    }

    /// Return the domain shared by the class of `variable`.
    pub fn domain(&self, variable: TypeVarId) -> (domain: TypeDomain)
        requires
            self.wf(),
            variable.0 < self.len(),
        ensures
            domain == self.domain_of(variable.0 as int),
    {
        let root = self.root_of(variable);
        self.nodes[root.index()].domain
    }

    /// Return the number of changes made to the arena.
    pub fn revision(&self) -> (revision: u64)
        ensures
            revision == self.spec_revision(),
    {
        self.revision
    }

    /// Unify the classes of `left` and `right`, narrowing their shared domain
    /// to the intersection of both domains.
    ///
    /// Fails, leaving the arena unchanged, when the domains are disjoint.
    pub fn equate(&mut self, left: TypeVarId, right: TypeVarId) -> (result: Result<(), TypeConflict>)
        requires
            old(self).wf(),
            left.0 < old(self).len(),
            right.0 < old(self).len(),
            old(self).spec_revision() < u64::MAX,
        ensures
            ({
                let l = old(self).domain_of(left.0 as int);
                let r = old(self).domain_of(right.0 as int);
                &&& l.0 & r.0 == 0 ==> result == Err::<(), TypeConflict>(TypeConflict { left: l, right: r })
                    && final(self).unchanged_from(*old(self))
                &&& l.0 & r.0 != 0 ==> result is Ok
                    && final(self).merged_from(*old(self), left.0 as int, right.0 as int, TypeDomain(l.0 & r.0))
                &&& l.0 & r.0 != 0 && old(self).same_class(left.0 as int, right.0 as int)
                    ==> final(self).spec_revision() == old(self).spec_revision()
                &&& l.0 & r.0 != 0 && !old(self).same_class(left.0 as int, right.0 as int)
                    ==> final(self).spec_revision() == old(self).spec_revision() + 1
            }),
    {
        let ghost old_arena = *self;
        let left_root = self.root_of(left);
        let right_root = self.root_of(right);
        let left_domain = self.nodes[left_root.index()].domain;
        let right_domain = self.nodes[right_root.index()].domain;
        let intersection = left_domain.intersection(right_domain);

        if intersection.is_empty() {
            return Err(TypeConflict { left: left_domain, right: right_domain });
        }
        if left_root == right_root {
            proof {
                assert(left_domain.0 & left_domain.0 == left_domain.0) by (bit_vector);
            }
            return Ok(());
        }

        let left_rank = self.nodes[left_root.index()].rank;
        let right_rank = self.nodes[right_root.index()].rank;
        let (parent, child) = if left_rank < right_rank {
            (right_root, left_root)
        } else {
            (left_root, right_root)
        };
        let parent_rank = self.nodes[parent.index()].rank;
        let new_rank = if left_rank == right_rank { parent_rank + 1 } else { parent_rank };
        self.link(child, parent, intersection, new_rank);
        self.bump_revision();
        proof {
            self.lemma_link_classes(old_arena, child.0 as int, parent.0 as int, intersection);
        }
        Ok(())
    }

    /// Point root `child` at root `parent`, storing `domain` and `rank` at `parent`.
    fn link(&mut self, child: TypeVarId, parent: TypeVarId, domain: TypeDomain, rank: u64)
        requires
            old(self).wf(),
            child.0 < old(self).len(),
            parent.0 < old(self).len(),
            child != parent,
            old(self).parent(child.0 as int) == child.0,
            old(self).parent(parent.0 as int) == parent.0,
            old(self).rank(child.0 as int) < rank,
            old(self).rank(parent.0 as int) <= rank,
            rank <= old(self).revision + 1,
            old(self).revision < u64::MAX,
        ensures
            final(self).revision == old(self).revision,
            final(self).nodes@.len() == old(self).nodes@.len(),
            final(self).nodes@ == old(self).nodes@
                .update(child.0 as int, TypeNode { parent, domain: old(self).nodes@[child.0 as int].domain, rank: old(self).nodes@[child.0 as int].rank })
                .update(parent.0 as int, TypeNode { parent, domain, rank }),
    {
        let child_node = TypeNode {
            parent,
            domain: self.nodes[child.index()].domain,
            rank: self.nodes[child.index()].rank,
        };
        self.nodes.set(child.index(), child_node);
        self.nodes.set(parent.index(), TypeNode { parent, domain, rank });
    }

    proof fn lemma_link_classes(&self, old: TypeArena, child: int, parent: int, domain: TypeDomain)
        requires
            old.wf(),
            0 <= child < old.nodes@.len(),
            0 <= parent < old.nodes@.len(),
            child != parent,
            old.parent(child) == child,
            old.parent(parent) == parent,
            self.revision == old.revision + 1,
            self.nodes@.len() == old.nodes@.len(),
            self.nodes@[child].parent.0 == parent,
            self.nodes@[child].rank == old.nodes@[child].rank,
            self.nodes@[parent].parent.0 == parent,
            self.nodes@[parent].domain == domain,
            old.rank(child) < self.nodes@[parent].rank,
            old.rank(parent) <= self.nodes@[parent].rank,
            self.nodes@[parent].rank <= self.revision,
            forall|i: int| 0 <= i < old.nodes@.len() && i != child && i != parent ==> self.nodes@[i] == old.nodes@[i],
        ensures
            self.wf(),
            forall|a: int| 0 <= a < old.nodes@.len() ==> #[trigger] self.root(a) == (
                if old.root(a) == child { parent } else { old.root(a) }),
            self.merged_from(old, child, parent, domain),
    {
        assert forall|i: int| 0 <= i < self.nodes@.len() implies {
            &&& 0 <= #[trigger] self.parent(i) < self.nodes@.len()
            &&& self.rank(i) <= self.revision
            &&& self.parent(i) != i ==> self.rank(i) < self.rank(self.parent(i))
        } by {
            if i != child && i != parent {
                assert(old.parent(i) < old.nodes@.len());
                if old.parent(i) != i && old.parent(i) != child && old.parent(i) != parent {
                    assert(self.nodes@[old.parent(i)] == old.nodes@[old.parent(i)]);
                }
            }
        }
        assert forall|a: int| 0 <= a < old.nodes@.len() implies #[trigger] self.root(a) == (
            if old.root(a) == child { parent } else { old.root(a) }) by {
            self.lemma_link_root(old, child, parent, a);
        }
        assert forall|a: int| 0 <= a < old.nodes@.len() implies (#[trigger] self.domain_of(a) == (
            if old.same_class(a, child) || old.same_class(a, parent) { domain } else { old.domain_of(a) })) by {
            self.lemma_link_root(old, child, parent, a);
            old.lemma_root_bounds(a);
            assert(old.root(child) == child);
            assert(old.root(parent) == parent);
        }
        assert forall|a: int, b: int| 0 <= a < old.nodes@.len() && 0 <= b < old.nodes@.len()
            implies (#[trigger] self.same_class(a, b) <==> (
                old.same_class(a, b)
                || (old.same_class(a, child) && old.same_class(b, parent))
                || (old.same_class(a, parent) && old.same_class(b, child)))) by {
            self.lemma_link_root(old, child, parent, a);
            self.lemma_link_root(old, child, parent, b);
            old.lemma_root_bounds(a);
            old.lemma_root_bounds(b);
            assert(old.root(child) == child);
            assert(old.root(parent) == parent);
        }
    }

    proof fn lemma_link_root(&self, old: TypeArena, child: int, parent: int, a: int)
        requires
            old.wf(),
            self.wf(),
            0 <= child < old.nodes@.len(),
            0 <= parent < old.nodes@.len(),
            child != parent,
            old.parent(child) == child,
            old.parent(parent) == parent,
            self.nodes@.len() == old.nodes@.len(),
            self.nodes@[child].parent.0 == parent,
            self.nodes@[parent].parent.0 == parent,
            forall|i: int| 0 <= i < old.nodes@.len() && i != child && i != parent ==> self.nodes@[i] == old.nodes@[i],
            0 <= a < old.nodes@.len(),
        ensures
            self.root(a) == (if old.root(a) == child { parent } else { old.root(a) }),
        decreases u64::MAX - old.rank(a),
    {
        if a == child {
            assert(self.root(parent) == parent);
        } else if a == parent {
        } else if old.parent(a) != a {
            self.lemma_link_root(old, child, parent, old.parent(a));
        }
    }

    /// Narrow the class of `variable` to the types also admitted by `value_type`.
    ///
    /// Fails, leaving the arena unchanged, when the class cannot be `value_type`.
    pub fn constrain(&mut self, variable: TypeVarId, value_type: ValueType) -> (result: Result<(), TypeConflict>)
        requires
            old(self).wf(),
            variable.0 < old(self).len(),
            old(self).spec_revision() < u64::MAX,
        ensures
            final(self).constrained_from(*old(self), variable.0 as int, TypeDomain(spec_type_bits(value_type)), result),
    {
        self.constrain_domain(variable, TypeDomain::from_value_type(value_type))
    }

    /// The outcome of narrowing the class of `variable` by `required`.
    pub open spec fn constrained_from(&self, old: TypeArena, variable: int, required: TypeDomain, result: Result<(), TypeConflict>) -> bool {
        let current = old.domain_of(variable);
        let narrowed = TypeDomain(current.0 & required.0);
        &&& narrowed.0 == 0 ==> result == Err::<(), TypeConflict>(TypeConflict { left: current, right: required })
            && self.unchanged_from(old)
        &&& narrowed.0 != 0 && narrowed == current ==> result is Ok && self.unchanged_from(old)
        &&& narrowed.0 != 0 && narrowed != current ==> result is Ok
            && self.narrowed_from(old, variable, narrowed)
            && self.spec_revision() == old.spec_revision() + 1
    }

    /// Narrow the class of `variable` to the types also admitted by `required`.
    ///
    /// Fails, leaving the arena unchanged, when the domains are disjoint.
    pub fn constrain_domain(&mut self, variable: TypeVarId, required: TypeDomain) -> (result: Result<(), TypeConflict>)
        requires
            old(self).wf(),
            variable.0 < old(self).len(),
            old(self).spec_revision() < u64::MAX,
        ensures
            final(self).constrained_from(*old(self), variable.0 as int, required, result),
    {
        let ghost old_arena = *self;
        let root = self.root_of(variable);
        let current = self.nodes[root.index()].domain;
        let intersection = current.intersection(required);

        if intersection.is_empty() {
            return Err(TypeConflict { left: current, right: required });
        }
        if intersection != current {
            let node = TypeNode {
                parent: self.nodes[root.index()].parent,
                domain: intersection,
                rank: self.nodes[root.index()].rank,
            };
            self.nodes.set(root.index(), node);
            self.bump_revision();
            proof {
                self.lemma_narrow(old_arena, root.0 as int, intersection);
            }
        }
        Ok(())
    }

    proof fn lemma_narrow(&self, old: TypeArena, root: int, domain: TypeDomain)
        requires
            old.wf(),
            0 <= root < old.nodes@.len(),
            old.parent(root) == root,
            self.revision == old.revision + 1,
            self.nodes@ == old.nodes@.update(root, TypeNode { parent: old.nodes@[root].parent, domain, rank: old.nodes@[root].rank }),
        ensures
            self.narrowed_from(old, root, domain),
    {
        assert forall|i: int| 0 <= i < self.nodes@.len() implies {
            &&& 0 <= #[trigger] self.parent(i) < self.nodes@.len()
            &&& self.rank(i) <= self.revision
            &&& self.parent(i) != i ==> self.rank(i) < self.rank(self.parent(i))
        } by {
            assert(old.parent(i) < old.nodes@.len());
        }
        assert forall|a: int| 0 <= a < old.nodes@.len() implies #[trigger] self.root(a) == old.root(a) by {
            self.lemma_same_parents_root(old, a);
        }
        assert forall|a: int| 0 <= a < old.nodes@.len() implies #[trigger] self.domain_of(a) == (
            if old.same_class(a, root) { domain } else { old.domain_of(a) }) by {
            self.lemma_same_parents_root(old, a);
            old.lemma_root_bounds(a);
            assert(old.root(root) == root);
        }
        assert forall|a: int, b: int| 0 <= a < old.nodes@.len() && 0 <= b < old.nodes@.len()
            implies (#[trigger] self.same_class(a, b) <==> old.same_class(a, b)) by {
            self.lemma_same_parents_root(old, a);
            self.lemma_same_parents_root(old, b);
        }
    }

    proof fn lemma_same_parents_root(&self, old: TypeArena, a: int)
        requires
            old.wf(),
            self.wf(),
            self.nodes@.len() == old.nodes@.len(),
            forall|i: int| 0 <= i < old.nodes@.len() ==> self.parent(i) == old.parent(i) && self.rank(i) == old.rank(i),
            0 <= a < old.nodes@.len(),
        ensures
            self.root(a) == old.root(a),
        decreases u64::MAX - old.rank(a),
    {
        if old.parent(a) != a {
            self.lemma_same_parents_root(old, old.parent(a));
        }
    }
}

impl Default for TypeArena {
    fn default() -> (arena: Self)
        ensures
            arena.wf(),
            arena.len() == 0,
            arena.spec_revision() == 0,
    {
        TypeArena::new()
    }
}

} // verus!
