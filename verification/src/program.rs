//! Shared vocabulary for authored and registered program signatures.
//!
//! These types describe programs without depending on source-package or
//! semantic-graph implementations.

use vstd::prelude::*;

use crate::model::ValueType;
use crate::text::str_eq;

verus! {

/// The position of an input port in a program descriptor.
#[derive(Clone, Copy, Debug, PartialEq, Eq, Structural, PartialOrd, Ord, Hash)]
pub struct InputSlot(pub usize);

impl InputSlot {
    /// Construct the slot of the input port at `index`.
    pub fn new(index: usize) -> (slot: Self)
        ensures
            slot.0 == index,
    {
        InputSlot(index)
    }

    /// Return the descriptor position of the input port.
    pub fn index(self) -> (index: usize)
        ensures
            index == self.0,
    {
        self.0
    }
}

/// The position of a scalar parameter in a program descriptor.
#[derive(Clone, Copy, Debug, PartialEq, Eq, Structural, PartialOrd, Ord, Hash)]
pub struct ParameterSlot(pub usize);

impl ParameterSlot {
    /// Construct the slot of the parameter at `index`.
    pub fn new(index: usize) -> (slot: Self)
        ensures
            slot.0 == index,
    {
        ParameterSlot(index)
    }

    /// Return the descriptor position of the parameter.
    pub fn index(self) -> (index: usize)
        ensures
            index == self.0,
    {
        self.0
    }
}

/// How many stack values an input port consumes.
#[derive(Clone, Copy, Debug, PartialEq, Eq, Structural)]
pub enum Cardinality {
    One,
    Variadic { min: usize },
}

/// Which stack values an invocation may consume.
#[derive(Clone, Copy, Debug, PartialEq, Eq, Structural)]
pub enum StackAccess {
    /// Only values produced by the current body.
    Owned,
    /// Values up to the nearest visibility boundary.
    Visible,
}

/// The authored label of a stack access mode.
pub open spec fn spec_stack_access_label(access: StackAccess) -> Seq<char> {
    match access {
        StackAccess::Owned => "owned"@,
        StackAccess::Visible => "visible"@,
    }
}

impl StackAccess {
    /// Return the authored label of this access mode.
    pub fn label(self) -> (label: &'static str)
        ensures
            label@ == spec_stack_access_label(self),
    {
        match self {
            StackAccess::Owned => "owned",
            StackAccess::Visible => "visible",
        }
    }
}

/// A port or output type: exact, or the descriptor's one generic type.
#[derive(Clone, Copy, Debug, PartialEq, Eq, Structural)]
pub enum ValueTypeSpec {
    Exact(ValueType),
    Generic,
}

impl ValueTypeSpec {
    /// Return the exact type, if this specification is not generic.
    pub fn exact(self) -> (value_type: Option<ValueType>)
        ensures
            value_type == (match self {
                ValueTypeSpec::Exact(t) => Some(t),
                ValueTypeSpec::Generic => None::<ValueType>,
            }),
    {
        match self {
            ValueTypeSpec::Exact(value_type) => Some(value_type),
            ValueTypeSpec::Generic => None,
        }
    }
}

impl From<ValueType> for ValueTypeSpec {
    fn from(value_type: ValueType) -> (spec: Self) {
        ValueTypeSpec::Exact(value_type)
    }
}

impl vstd::std_specs::convert::FromSpecImpl<ValueType> for ValueTypeSpec {
    open spec fn obeys_from_spec() -> bool {
        true
    }

    open spec fn from_spec(value_type: ValueType) -> ValueTypeSpec {
        ValueTypeSpec::Exact(value_type)
    }
}

/// One declared input port.
#[derive(Clone, Debug, PartialEq, Eq)]
pub struct InputPort {
    pub name: String,
    pub value_type: ValueTypeSpec,
    pub cardinality: Cardinality,
}

/// A descriptor's ports with the generic type substituted.
#[derive(Clone, Debug, PartialEq, Eq)]
pub struct ResolvedSignature {
    pub inputs: Vec<ValueType>,
    pub outputs: Vec<ValueType>,
}

/// The declared type of a scalar parameter.
#[derive(Clone, Debug, PartialEq, Eq)]
pub enum ParameterType {
    Number,
    Integer,
    File,
    Duration,
    TimeRange,
    Keyword(Vec<String>),
}

/// The parameter type named by an authored type name, when the name is known.
pub open spec fn spec_parameter_type_named(name: Seq<char>, has_keywords: bool) -> Option<int> {
    if name == "Number"@ {
        Some(0)
    } else if name == "Integer"@ {
        Some(1)
    } else if name == "File"@ {
        Some(2)
    } else if name == "Duration"@ {
        Some(3)
    } else if name == "TimeRange"@ {
        Some(4)
    } else if name == "Keyword"@ && has_keywords {
        Some(5)
    } else {
        None
    }
}

/// The position of a parameter type in the authored list of type names.
pub open spec fn spec_parameter_type_index(parameter_type: ParameterType) -> int {
    match parameter_type {
        ParameterType::Number => 0,
        ParameterType::Integer => 1,
        ParameterType::File => 2,
        ParameterType::Duration => 3,
        ParameterType::TimeRange => 4,
        ParameterType::Keyword(_) => 5,
    }
}

impl ParameterType {
    /// Map an authored type name to a parameter type; `Keyword` requires its values.
    pub fn from_source_name(name: &str, keyword_values: Option<Vec<String>>) -> (parameter_type: Option<Self>)
        ensures
            match spec_parameter_type_named(name@, keyword_values is Some) {
                Some(index) => parameter_type matches Some(t) && spec_parameter_type_index(t) == index,
                None => parameter_type is None,
            },
            parameter_type matches Some(ParameterType::Keyword(values)) ==> keyword_values == Some(values),
    {
        if str_eq(name, "Number") {
            Some(ParameterType::Number)
        } else if str_eq(name, "Integer") {
            Some(ParameterType::Integer)
        } else if str_eq(name, "File") {
            Some(ParameterType::File)
        } else if str_eq(name, "Duration") {
            Some(ParameterType::Duration)
        } else if str_eq(name, "TimeRange") {
            Some(ParameterType::TimeRange)
        } else if str_eq(name, "Keyword") {
            match keyword_values {
                Some(values) => Some(ParameterType::Keyword(values)),
                None => None,
            }
        } else {
            None
        }
    }
}

/// One declared scalar parameter.
#[derive(Clone, Debug, PartialEq, Eq)]
pub struct ParameterDescriptor {
    pub name: String,
    pub parameter_type: ParameterType,
    pub required: bool,
}

/// The complete signature of a program.
#[derive(Clone, Debug, PartialEq, Eq)]
pub struct ProgramDescriptor {
    pub name: String,
    pub semantic_version: u32,
    pub default_stack_access: StackAccess,
    pub inputs: Vec<InputPort>,
    pub parameters: Vec<ParameterDescriptor>,
    pub outputs: Vec<ValueTypeSpec>,
}

/// Whether `slot` is the first position named `name`, or nothing has that name.
pub open spec fn spec_is_first_named(names: Seq<Seq<char>>, name: Seq<char>, slot: Option<usize>) -> bool {
    match slot {
        Some(index) => {
            &&& index < names.len()
            &&& names[index as int] == name
            &&& forall|j: int| 0 <= j < index ==> names[j] != name
        },
        None => forall|j: int| 0 <= j < names.len() ==> names[j] != name,
    }
}

/// Substitute the generic type into one port specification.
pub open spec fn spec_resolve(spec: ValueTypeSpec, generic: Option<ValueType>) -> ValueType {
    match spec {
        ValueTypeSpec::Exact(value_type) => value_type,
        ValueTypeSpec::Generic => generic.unwrap(),
    }
}

impl ProgramDescriptor {
    /// The names of the input ports, in order.
    pub open spec fn input_names(&self) -> Seq<Seq<char>> {
        self.inputs@.map_values(|port: InputPort| port.name@)
    }

    /// The names of the parameters, in order.
    pub open spec fn parameter_names(&self) -> Seq<Seq<char>> {
        self.parameters@.map_values(|parameter: ParameterDescriptor| parameter.name@)
    }

    /// Whether any input port or output is generic.
    pub open spec fn spec_is_generic(&self) -> bool {
        (exists|i: int| 0 <= i < self.inputs@.len() && self.inputs@[i].value_type == ValueTypeSpec::Generic)
        || (exists|i: int| 0 <= i < self.outputs@.len() && self.outputs@[i] == ValueTypeSpec::Generic)
    }

    /// Return the input port at `slot`.
    pub fn input(&self, slot: InputSlot) -> (port: &InputPort)
        requires
            slot.0 < self.inputs@.len(),
        ensures
            *port == self.inputs@[slot.0 as int],
    {
        &self.inputs[slot.index()]
    }

    /// Return the slot of the first input port named `name`.
    pub fn input_slot(&self, name: &str) -> (slot: Option<InputSlot>)
        ensures
            spec_is_first_named(self.input_names(), name@, match slot {
                Some(s) => Some(s.0),
                None => None::<usize>,
            }),
    {
        let mut index: usize = 0;
        while index < self.inputs.len()
            invariant
                index <= self.inputs@.len(),
                forall|j: int| 0 <= j < index ==> self.input_names()[j] != name@,
            decreases self.inputs@.len() - index,
        {
            if str_eq(self.inputs[index].name.as_str(), name) {
                return Some(InputSlot::new(index));
            }
            index = index + 1;
        }
        None
    }

    /// Return the slot of the first parameter named `name`.
    pub fn parameter_slot(&self, name: &str) -> (slot: Option<ParameterSlot>)
        ensures
            spec_is_first_named(self.parameter_names(), name@, match slot {
                Some(s) => Some(s.0),
                None => None::<usize>,
            }),
    {
        let mut index: usize = 0;
        while index < self.parameters.len()
            invariant
                index <= self.parameters@.len(),
                forall|j: int| 0 <= j < index ==> self.parameter_names()[j] != name@,
            decreases self.parameters@.len() - index,
        {
            if str_eq(self.parameters[index].name.as_str(), name) {
                return Some(ParameterSlot::new(index));
            }
            index = index + 1;
        }
        None
    }

    /// Whether any input port or output uses the generic type.
    pub fn is_generic(&self) -> (generic: bool)
        ensures
            generic == self.spec_is_generic(),
    {
        let mut index: usize = 0;
        while index < self.inputs.len()
            invariant
                index <= self.inputs@.len(),
                forall|j: int| 0 <= j < index ==> self.inputs@[j].value_type != ValueTypeSpec::Generic,
            decreases self.inputs@.len() - index,
        {
            if matches!(self.inputs[index].value_type, ValueTypeSpec::Generic) {
                return true;
            }
            index = index + 1;
        }
        let mut index: usize = 0;
        while index < self.outputs.len()
            invariant
                index <= self.outputs@.len(),
                forall|j: int| 0 <= j < self.inputs@.len() ==> self.inputs@[j].value_type != ValueTypeSpec::Generic,
                forall|j: int| 0 <= j < index ==> self.outputs@[j] != ValueTypeSpec::Generic,
            decreases self.outputs@.len() - index,
        {
            if matches!(self.outputs[index], ValueTypeSpec::Generic) {
                return true;
            }
            index = index + 1;
        }
        false
    }

    /// Substitute `generic` for every generic port and output.
    pub fn resolve_signature(&self, generic: Option<ValueType>) -> (signature: ResolvedSignature)
        requires
            self.spec_is_generic() ==> generic is Some,
        ensures
            signature.inputs@.len() == self.inputs@.len(),
            forall|i: int| 0 <= i < self.inputs@.len()
                ==> signature.inputs@[i] == spec_resolve(#[trigger] self.inputs@[i].value_type, generic),
            signature.outputs@.len() == self.outputs@.len(),
            forall|i: int| 0 <= i < self.outputs@.len()
                ==> signature.outputs@[i] == spec_resolve(#[trigger] self.outputs@[i], generic),
    {
        let mut inputs: Vec<ValueType> = Vec::new();
        let mut index: usize = 0;
        while index < self.inputs.len()
            invariant
                index <= self.inputs@.len(),
                self.spec_is_generic() ==> generic is Some,
                inputs@.len() == index,
                forall|i: int| 0 <= i < index
                    ==> inputs@[i] == spec_resolve(#[trigger] self.inputs@[i].value_type, generic),
            decreases self.inputs@.len() - index,
        {
            let resolved = resolve_spec(self.inputs[index].value_type, generic);
            inputs.push(resolved);
            index = index + 1;
        }
        let mut outputs: Vec<ValueType> = Vec::new();
        let mut index: usize = 0;
        while index < self.outputs.len()
            invariant
                index <= self.outputs@.len(),
                self.spec_is_generic() ==> generic is Some,
                outputs@.len() == index,
                forall|i: int| 0 <= i < index
                    ==> outputs@[i] == spec_resolve(#[trigger] self.outputs@[i], generic),
            decreases self.outputs@.len() - index,
        {
            let resolved = resolve_spec(self.outputs[index], generic);
            outputs.push(resolved);
            index = index + 1;
        }
        ResolvedSignature { inputs, outputs }
    }
}

fn resolve_spec(spec: ValueTypeSpec, generic: Option<ValueType>) -> (value_type: ValueType)
    requires
        spec == ValueTypeSpec::Generic ==> generic is Some,
    ensures
        value_type == spec_resolve(spec, generic),
{
    match spec {
        ValueTypeSpec::Exact(value_type) => value_type,
        ValueTypeSpec::Generic => generic.unwrap(),
    }
}

} // verus!
