//! External values supplied for the root program's declared interface.

use vstd::prelude::*;

use crate::diagnostic::{builtin_code, decimal, spec_decimal, BuiltinDiagnostic, Diagnostic};
use crate::model::{spec_value_type_label, ValueType};
use crate::program::{spec_is_first_named, ProgramDescriptor, ValueTypeSpec};
use crate::source::{SourceSpan, Spanned};
use crate::text::{to_chars, chars_eq};

verus! {

/// A root media input bound to a file path.
#[derive(Clone, Debug)]
pub struct MediaInputBinding {
    pub path: String,
    pub span: SourceSpan,
    pub value_type: ValueType,
}

/// A root scalar parameter bound to its authored text.
#[derive(Clone, Debug)]
pub struct ParameterBinding {
    pub value: String,
    pub span: SourceSpan,
}

/// Whether `a` precedes `b` in lexicographic character order.
pub open spec fn spec_text_less(a: Seq<char>, b: Seq<char>) -> bool
    decreases a.len(),
{
    if a.len() == 0 {
        b.len() > 0
    } else if b.len() == 0 {
        false
    } else if a[0] != b[0] {
        (a[0] as u32) < (b[0] as u32)
    } else {
        spec_text_less(a.drop_first(), b.drop_first())
    }
}

/// Named entries have distinct names.
pub open spec fn spec_distinct_names<B>(entries: Seq<(String, B)>) -> bool {
    forall|i: int, j: int| 0 <= i < entries.len() && 0 <= j < entries.len() && i != j
        ==> #[trigger] entries[i].0@ != #[trigger] entries[j].0@
}

/// Named entries are in strictly increasing name order.
pub open spec fn spec_sorted_names<B>(entries: Seq<(String, B)>) -> bool {
    forall|i: int, j: int| 0 <= i < j < entries.len() ==> spec_text_less(#[trigger] entries[i].0@, #[trigger] entries[j].0@)
}

/// No text precedes itself.
pub proof fn lemma_text_less_irreflexive(a: Seq<char>)
    ensures
        !spec_text_less(a, a),
    decreases a.len(),
{
    if a.len() > 0 {
        lemma_text_less_irreflexive(a.drop_first());
    }
}

/// Of two different texts, one precedes the other.
pub proof fn lemma_text_less_total(a: Seq<char>, b: Seq<char>)
    ensures
        a == b || spec_text_less(a, b) || spec_text_less(b, a),
    decreases a.len(),
{
    if a.len() == 0 || b.len() == 0 {
        if a.len() == 0 && b.len() == 0 {
            assert(a =~= b);
        }
    } else if a[0] == b[0] {
        lemma_text_less_total(a.drop_first(), b.drop_first());
        if a.drop_first() == b.drop_first() {
            assert(a =~= seq![a[0]] + a.drop_first());
            assert(b =~= seq![b[0]] + b.drop_first());
        }
    } else {
        let x = a[0];
        let y = b[0];
        vstd::utf8::char_u32_cast(x, x as u32);
        vstd::utf8::char_u32_cast(y, y as u32);
        assert((x as u32) != (y as u32));
    }
}

/// Text order is transitive.
pub proof fn lemma_text_less_transitive(a: Seq<char>, b: Seq<char>, c: Seq<char>)
    requires
        spec_text_less(a, b),
        spec_text_less(b, c),
    ensures
        spec_text_less(a, c),
    decreases a.len(),
{
    if a.len() > 0 && b.len() > 0 && c.len() > 0 && a[0] == b[0] && b[0] == c[0] {
        lemma_text_less_transitive(a.drop_first(), b.drop_first(), c.drop_first());
    }
}

/// Inserting a name between the names before and after it keeps the order.
pub proof fn lemma_sorted_insert<B>(entries: Seq<(String, B)>, position: int, entry: (String, B))
    requires
        spec_sorted_names(entries),
        0 <= position <= entries.len(),
        forall|i: int| 0 <= i < position ==> spec_text_less(#[trigger] entries[i].0@, entry.0@),
        forall|i: int| position <= i < entries.len() ==> spec_text_less(entry.0@, #[trigger] entries[i].0@),
    ensures
        spec_sorted_names(entries.insert(position, entry)),
{
    let inserted = entries.insert(position, entry);
    assert forall|i: int, j: int| 0 <= i < j < inserted.len()
        implies spec_text_less(#[trigger] inserted[i].0@, #[trigger] inserted[j].0@) by {
        if j < position {
            assert(inserted[i] == entries[i] && inserted[j] == entries[j]);
        } else if j == position {
            assert(inserted[i] == entries[i]);
        } else if i < position {
            assert(inserted[i] == entries[i] && inserted[j] == entries[j - 1]);
            lemma_text_less_transitive(entries[i].0@, entry.0@, entries[j - 1].0@);
        } else if i == position {
            assert(inserted[j] == entries[j - 1]);
        } else {
            assert(inserted[i] == entries[i - 1] && inserted[j] == entries[j - 1]);
        }
    }
}

/// The position of the entry named `name`.
pub open spec fn spec_position<B>(entries: Seq<(String, B)>, name: Seq<char>) -> int {
    choose|i: int| 0 <= i < entries.len() && #[trigger] entries[i].0@ == name
}

/// Named entries as a map from name to entry.
pub open spec fn spec_entry_map<B>(entries: Seq<(String, B)>) -> Map<Seq<char>, B> {
    Map::new(
        |name: Seq<char>| exists|i: int| 0 <= i < entries.len() && #[trigger] entries[i].0@ == name,
        |name: Seq<char>| entries[spec_position(entries, name)].1,
    )
}

/// External values supplied when compiling a root source program.
///
/// Video and Audio inputs and scalar parameters are matched by name against
/// the root program's declared interface. Names are kept in lexicographic order.
#[derive(Debug)]
pub struct EntrypointBindings {
    media_inputs: Vec<(String, MediaInputBinding)>,
    parameters: Vec<(String, ParameterBinding)>,
    output: Option<Spanned<String>>,
}

/// Copy named entries, keeping every name and its position.
fn clone_entries<B: Clone>(entries: &Vec<(String, B)>) -> (copy: Vec<(String, B)>)
    ensures
        copy@.len() == entries@.len(),
        forall|i: int| 0 <= i < entries@.len() ==> (#[trigger] copy@[i]).0 == entries@[i].0,
{
    let mut copy: Vec<(String, B)> = Vec::new();
    let mut i: usize = 0;
    while i < entries.len()
        invariant
            i <= entries@.len(),
            copy@.len() == i,
            forall|k: int| 0 <= k < i ==> (#[trigger] copy@[k]).0 == entries@[k].0,
        decreases entries@.len() - i,
    {
        let name = entries[i].0.clone();
        let binding = entries[i].1.clone();
        copy.push((name, binding));
        i = i + 1;
    }
    copy
}

impl Clone for EntrypointBindings {
    /// A copy with the same names bound, in the same order.
    fn clone(&self) -> (copy: Self)
        ensures
            copy.spec_media_entries().len() == self.spec_media_entries().len(),
            forall|i: int| 0 <= i < self.spec_media_entries().len()
                ==> (#[trigger] copy.spec_media_entries()[i]).0 == self.spec_media_entries()[i].0,
            copy.spec_parameter_entries().len() == self.spec_parameter_entries().len(),
            forall|i: int| 0 <= i < self.spec_parameter_entries().len()
                ==> (#[trigger] copy.spec_parameter_entries()[i]).0 == self.spec_parameter_entries()[i].0,
    {
        proof {
            use_type_invariant(self);
        }
        let media_inputs = clone_entries(&self.media_inputs);
        let parameters = clone_entries(&self.parameters);
        let output = self.output.clone();
        proof {
            assert forall|i: int, j: int| 0 <= i < j < media_inputs@.len()
                implies spec_text_less(#[trigger] media_inputs@[i].0@, #[trigger] media_inputs@[j].0@) by {
                assert(media_inputs@[i].0 == self.media_inputs@[i].0 && media_inputs@[j].0 == self.media_inputs@[j].0);
            }
            assert forall|i: int, j: int| 0 <= i < j < parameters@.len()
                implies spec_text_less(#[trigger] parameters@[i].0@, #[trigger] parameters@[j].0@) by {
                assert(parameters@[i].0 == self.parameters@[i].0 && parameters@[j].0 == self.parameters@[j].0);
            }
            assert forall|i: int, j: int| 0 <= i < media_inputs@.len() && 0 <= j < media_inputs@.len() && i != j
                implies #[trigger] media_inputs@[i].0@ != #[trigger] media_inputs@[j].0@ by {
                assert(media_inputs@[i].0 == self.media_inputs@[i].0 && media_inputs@[j].0 == self.media_inputs@[j].0);
            }
            assert forall|i: int, j: int| 0 <= i < parameters@.len() && 0 <= j < parameters@.len() && i != j
                implies #[trigger] parameters@[i].0@ != #[trigger] parameters@[j].0@ by {
                assert(parameters@[i].0 == self.parameters@[i].0 && parameters@[j].0 == self.parameters@[j].0);
            }
        }
        EntrypointBindings { media_inputs, parameters, output }
    }
}

impl Default for EntrypointBindings {
    /// An empty set of root-program bindings, as `new` gives.
    fn default() -> (bindings: Self)
        ensures
            bindings.wf(),
            bindings.spec_media_entries().len() == 0,
            bindings.spec_parameter_entries().len() == 0,
            bindings.spec_output() is None,
    {
        EntrypointBindings::new()
    }
}

impl EntrypointBindings {
    /// The media input bindings in name order.
    pub closed spec fn spec_media_entries(&self) -> Seq<(String, MediaInputBinding)> {
        self.media_inputs@
    }

    /// The parameter bindings in name order.
    pub closed spec fn spec_parameter_entries(&self) -> Seq<(String, ParameterBinding)> {
        self.parameters@
    }

    /// The publication path override, if any.
    pub closed spec fn spec_output(&self) -> Option<Spanned<String>> {
        self.output
    }

    /// The media input bindings by name.
    pub open spec fn media_inputs(&self) -> Map<Seq<char>, MediaInputBinding> {
        spec_entry_map(self.spec_media_entries())
    }

    /// The parameter bindings by name.
    pub open spec fn parameters(&self) -> Map<Seq<char>, ParameterBinding> {
        spec_entry_map(self.spec_parameter_entries())
    }

    /// Every name is bound at most once per kind, and names are in order.
    pub open spec fn wf(&self) -> bool {
        &&& spec_distinct_names(self.spec_media_entries())
        &&& spec_distinct_names(self.spec_parameter_entries())
        &&& spec_sorted_names(self.spec_media_entries())
        &&& spec_sorted_names(self.spec_parameter_entries())
    }

    /// Bindings are always well formed.
    #[verifier::type_invariant]
    spec fn names_in_order(self) -> bool {
        self.wf()
    }

    /// Construct an empty set of root-program bindings.
    pub fn new() -> (bindings: Self)
        ensures
            bindings.wf(),
            bindings.spec_media_entries().len() == 0,
            bindings.spec_parameter_entries().len() == 0,
            bindings.media_inputs() == Map::<Seq<char>, MediaInputBinding>::empty(),
            bindings.parameters() == Map::<Seq<char>, ParameterBinding>::empty(),
            bindings.spec_output() is None,
    {
        let bindings = EntrypointBindings { media_inputs: Vec::new(), parameters: Vec::new(), output: None };
        assert(bindings.media_inputs() =~= Map::<Seq<char>, MediaInputBinding>::empty());
        assert(bindings.parameters() =~= Map::<Seq<char>, ParameterBinding>::empty());
        bindings
    }

    /// Bind one declared root `Video` input to a video-file path.
    ///
    /// Fails with `E_DUPLICATE_ARGUMENT`, leaving the bindings unchanged, when
    /// the same input name was already supplied.
    pub fn bind_video_input(&mut self, name: String, path: String, span: SourceSpan) -> (result: Result<(), Diagnostic>)
        ensures
            final(self).bound_media_from(*old(self), name@, path@, span, ValueType::Video, result),
    {
        self.bind_media_input(name, path, span, ValueType::Video)
    }

    /// Bind one declared root `Audio` input to an audio-file path.
    ///
    /// Fails with `E_DUPLICATE_ARGUMENT`, leaving the bindings unchanged, when
    /// the same input name was already supplied.
    pub fn bind_audio_input(&mut self, name: String, path: String, span: SourceSpan) -> (result: Result<(), Diagnostic>)
        ensures
            final(self).bound_media_from(*old(self), name@, path@, span, ValueType::Audio, result),
    {
        self.bind_media_input(name, path, span, ValueType::Audio)
    }

    /// The outcome of binding media input `name`.
    pub open spec fn bound_media_from(&self, old: EntrypointBindings, name: Seq<char>, path: Seq<char>,
        span: SourceSpan, value_type: ValueType, result: Result<(), Diagnostic>) -> bool
    {
        &&& old.media_inputs().contains_key(name) ==> {
            &&& result matches Err(error)
            &&& error.code@ == builtin_code(BuiltinDiagnostic::DuplicateArgument)
            &&& error.message@ == "root input `"@ + name + "` was supplied more than once"@
            &&& error.span == span
            &&& error.notes@.len() == 1
            &&& error.notes@[0]@ == spec_previous_note(old.media_inputs()[name].span)
            &&& self.spec_media_entries() == old.spec_media_entries()
        }
        &&& !old.media_inputs().contains_key(name) ==> {
            &&& result is Ok
            &&& self.spec_media_entries().len() == old.spec_media_entries().len() + 1
            &&& self.media_inputs().dom() == old.media_inputs().dom().insert(name)
            &&& self.media_inputs()[name].path@ == path
            &&& self.media_inputs()[name].span == span
            &&& self.media_inputs()[name].value_type == value_type
            &&& forall|other: Seq<char>| old.media_inputs().contains_key(other)
                ==> #[trigger] self.media_inputs()[other] == old.media_inputs()[other]
        }
        &&& self.spec_parameter_entries() == old.spec_parameter_entries()
        &&& self.spec_output() == old.spec_output()
    }

    fn bind_media_input(&mut self, name: String, path: String, span: SourceSpan, value_type: ValueType) -> (result: Result<(), Diagnostic>)
        ensures
            final(self).bound_media_from(*old(self), name@, path@, span, value_type, result),
    {
        proof {
            use_type_invariant(&*self);
        }
        let ghost old_entries = self.media_inputs@;
        let (found, position) = find_name(&self.media_inputs, name.as_str());
        if let Some(index) = found {
            proof {
                lemma_map_lookup(old_entries, index as int);
            }
            let error = duplicate_binding("root input `", name.as_str(), span, &self.media_inputs[index].1.span);
            return Err(error);
        }
        let ghost key = name@;
        let binding = MediaInputBinding { path, span, value_type };
        let ghost entry = (name, binding);
        let mut entries: Vec<(String, MediaInputBinding)> = Vec::new();
        std::mem::swap(&mut entries, &mut self.media_inputs);
        entries.insert(position, (name, binding));
        proof {
            lemma_map_insert(old_entries, position as int, entry);
            lemma_sorted_insert(old_entries, position as int, entry);
        }
        self.media_inputs = entries;
        Ok(())
    }

    /// Bind one declared root scalar parameter from its authored text form.
    ///
    /// Fails with `E_DUPLICATE_ARGUMENT`, leaving the bindings unchanged, when
    /// the same parameter name was already supplied.
    pub fn bind_parameter(&mut self, name: String, value: String, span: SourceSpan) -> (result: Result<(), Diagnostic>)
        ensures
            old(self).parameters().contains_key(name@) ==> {
                &&& result matches Err(error)
                &&& error.code@ == builtin_code(BuiltinDiagnostic::DuplicateArgument)
                &&& error.message@ == "root parameter `"@ + name@ + "` was supplied more than once"@
                &&& error.span == span
                &&& error.notes@.len() == 1
                &&& error.notes@[0]@ == spec_previous_note(old(self).parameters()[name@].span)
                &&& final(self).spec_parameter_entries() == old(self).spec_parameter_entries()
            },
            !old(self).parameters().contains_key(name@) ==> {
                &&& result is Ok
                &&& final(self).spec_parameter_entries().len() == old(self).spec_parameter_entries().len() + 1
                &&& final(self).parameters().dom() == old(self).parameters().dom().insert(name@)
                &&& final(self).parameters()[name@].value@ == value@
                &&& final(self).parameters()[name@].span == span
                &&& forall|other: Seq<char>| old(self).parameters().contains_key(other)
                    ==> #[trigger] final(self).parameters()[other] == old(self).parameters()[other]
            },
            final(self).spec_media_entries() == old(self).spec_media_entries(),
            final(self).spec_output() == old(self).spec_output(),
    {
        proof {
            use_type_invariant(&*self);
        }
        let ghost old_entries = self.parameters@;
        let (found, position) = find_name(&self.parameters, name.as_str());
        if let Some(index) = found {
            proof {
                lemma_map_lookup(old_entries, index as int);
            }
            let error = duplicate_binding("root parameter `", name.as_str(), span, &self.parameters[index].1.span);
            return Err(error);
        }
        let binding = ParameterBinding { value, span };
        let ghost entry = (name, binding);
        let mut entries: Vec<(String, ParameterBinding)> = Vec::new();
        std::mem::swap(&mut entries, &mut self.parameters);
        entries.insert(position, (name, binding));
        proof {
            lemma_map_insert(old_entries, position as int, entry);
            lemma_sorted_insert(old_entries, position as int, entry);
        }
        self.parameters = entries;
        Ok(())
    }

    /// Override the root program's publication path for this compilation.
    pub fn set_output(&mut self, path: String, span: SourceSpan)
        ensures
            final(self).spec_output() == Some(Spanned { value: path, span }),
            final(self).spec_media_entries() == old(self).spec_media_entries(),
            final(self).spec_parameter_entries() == old(self).spec_parameter_entries(),
    {
        proof {
            use_type_invariant(&*self);
        }
        self.output = Some(Spanned::new(path, span));
    }
}

/// The observable parts of a diagnostic: code, message, span, and notes.
pub open spec fn spec_diagnostic_view(error: Diagnostic) -> (Seq<char>, Seq<char>, SourceSpan, Seq<Seq<char>>) {
    (error.code@, error.message@, error.span, error.notes@.map_values(|note: String| note@))
}

/// The first position of `name` in `names`.
pub open spec fn spec_first_index(names: Seq<Seq<char>>, name: Seq<char>) -> Option<int>
    decreases names.len(),
{
    if names.len() == 0 {
        None
    } else if names[0] == name {
        Some(0)
    } else {
        match spec_first_index(names.drop_first(), name) {
            Some(i) => Some(i + 1),
            None => None,
        }
    }
}

/// Why one root media binding does not fit the root program, if it does not.
pub open spec fn spec_media_binding_failure(
    descriptor: ProgramDescriptor,
    parameters: Map<Seq<char>, ParameterBinding>,
    entry: (String, MediaInputBinding),
) -> Option<(Seq<char>, Seq<char>, SourceSpan, Seq<Seq<char>>)> {
    let name = entry.0@;
    let binding = entry.1;
    match spec_first_index(descriptor.input_names(), name) {
        None => Some((builtin_code(BuiltinDiagnostic::UnknownProgramArgument),
            "unknown argument `"@ + name + "` for root program"@, binding.span, Seq::empty())),
        Some(i) => {
            let declared = descriptor.inputs@[i].value_type->Exact_0;
            if declared != binding.value_type {
                Some((builtin_code(BuiltinDiagnostic::InvalidArgumentType),
                    "root input `"@ + name + "` is "@ + spec_value_type_label(declared)
                        + ", but the supplied binding is "@ + spec_value_type_label(binding.value_type),
                    binding.span, Seq::empty()))
            } else if parameters.contains_key(name) {
                Some((builtin_code(BuiltinDiagnostic::DuplicateArgument),
                    "root argument `"@ + name + "` was supplied more than once"@,
                    parameters[name].span, seq![spec_previous_note(binding.span)]))
            } else {
                None
            }
        },
    }
}

/// Why one root parameter binding does not fit the root program, if it does not.
pub open spec fn spec_parameter_binding_failure(
    descriptor: ProgramDescriptor,
    media: Map<Seq<char>, MediaInputBinding>,
    entry: (String, ParameterBinding),
) -> Option<(Seq<char>, Seq<char>, SourceSpan, Seq<Seq<char>>)> {
    let name = entry.0@;
    let binding = entry.1;
    if spec_first_index(descriptor.parameter_names(), name) is None {
        Some((builtin_code(BuiltinDiagnostic::UnknownProgramArgument),
            "unknown argument `"@ + name + "` for root program"@, binding.span, Seq::empty()))
    } else if media.contains_key(name) {
        Some((builtin_code(BuiltinDiagnostic::DuplicateArgument),
            "root argument `"@ + name + "` was supplied more than once"@,
            binding.span, seq![spec_previous_note(media[name].span)]))
    } else {
        None
    }
}

/// The first failure among the first `k` media bindings.
pub open spec fn spec_first_media_failure(
    descriptor: ProgramDescriptor, bindings: EntrypointBindings, k: int,
) -> Option<(Seq<char>, Seq<char>, SourceSpan, Seq<Seq<char>>)>
    decreases k,
{
    if k <= 0 {
        None
    } else {
        match spec_first_media_failure(descriptor, bindings, k - 1) {
            Some(failure) => Some(failure),
            None => spec_media_binding_failure(descriptor, bindings.parameters(), bindings.spec_media_entries()[k - 1]),
        }
    }
}

/// The first failure among the first `k` parameter bindings.
pub open spec fn spec_first_parameter_failure(
    descriptor: ProgramDescriptor, bindings: EntrypointBindings, k: int,
) -> Option<(Seq<char>, Seq<char>, SourceSpan, Seq<Seq<char>>)>
    decreases k,
{
    if k <= 0 {
        None
    } else {
        match spec_first_parameter_failure(descriptor, bindings, k - 1) {
            Some(failure) => Some(failure),
            None => spec_parameter_binding_failure(descriptor, bindings.media_inputs(), bindings.spec_parameter_entries()[k - 1]),
        }
    }
}

/// Why the bindings do not fit the root program's interface, if they do not:
/// media bindings are checked first, then parameter bindings, each in name order.
pub open spec fn spec_root_binding_failure(
    descriptor: ProgramDescriptor, bindings: EntrypointBindings,
) -> Option<(Seq<char>, Seq<char>, SourceSpan, Seq<Seq<char>>)> {
    match spec_first_media_failure(descriptor, bindings, bindings.spec_media_entries().len() as int) {
        Some(failure) => Some(failure),
        None => spec_first_parameter_failure(descriptor, bindings, bindings.spec_parameter_entries().len() as int),
    }
}

/// Check every root binding against the root program's declared inputs and
/// parameters: each media binding must name a declared input of the same type,
/// each parameter binding a declared parameter, and no name may be bound as both.
pub fn validate_root_bindings(descriptor: &ProgramDescriptor, bindings: &EntrypointBindings) -> (result: Result<(), Diagnostic>)
    requires
        forall|i: int| 0 <= i < descriptor.inputs@.len() ==> (#[trigger] descriptor.inputs@[i]).value_type is Exact,
    ensures
        match spec_root_binding_failure(*descriptor, *bindings) {
            None => result is Ok,
            Some(failure) => result matches Err(error) && spec_diagnostic_view(error) == failure,
        },
        result is Ok <==> spec_bindings_fit(*descriptor, *bindings),
        result matches Err(error) ==> spec_first_misfit_reported(*descriptor, *bindings, spec_diagnostic_view(error)),
{
    let result = first_root_binding_failure(descriptor, bindings);
    proof {
        lemma_root_bindings_accepted(*descriptor, *bindings);
        lemma_root_binding_rejection(*descriptor, *bindings);
    }
    result
}

/// The first root binding that does not fit the root program, as a diagnostic.
fn first_root_binding_failure(descriptor: &ProgramDescriptor, bindings: &EntrypointBindings) -> (result: Result<(), Diagnostic>)
    requires
        forall|i: int| 0 <= i < descriptor.inputs@.len() ==> (#[trigger] descriptor.inputs@[i]).value_type is Exact,
    ensures
        match spec_root_binding_failure(*descriptor, *bindings) {
            None => result is Ok,
            Some(failure) => result matches Err(error) && spec_diagnostic_view(error) == failure,
        },
{
    proof {
        use_type_invariant(bindings);
    }
    let mut k: usize = 0;
    while k < bindings.media_inputs.len()
        invariant
            bindings.wf(),
            forall|i: int| 0 <= i < descriptor.inputs@.len() ==> (#[trigger] descriptor.inputs@[i]).value_type is Exact,
            k <= bindings.media_inputs@.len(),
            spec_first_media_failure(*descriptor, *bindings, k as int) is None,
        decreases bindings.media_inputs@.len() - k,
    {
        let name = &bindings.media_inputs[k].0;
        let binding = &bindings.media_inputs[k].1;
        let slot = descriptor.input_slot(name.as_str());
        proof {
            lemma_first_index(descriptor.input_names(), name@, match slot { Some(s) => Some(s.0), None => None::<usize> });
        }
        match slot {
            None => {
                proof {
                    lemma_media_failure_stable(*descriptor, *bindings, k as int + 1, bindings.media_inputs@.len() as int);
                }
                return Err(unknown_binding(name.as_str(), binding.span.clone_span()));
            },
            Some(slot) => {
                let declared = match descriptor.inputs[slot.index()].value_type {
                    ValueTypeSpec::Exact(value_type) => value_type,
                    ValueTypeSpec::Generic => {
                        proof {
                            assert(descriptor.inputs@[slot.0 as int].value_type is Exact);
                        }
                        binding.value_type
                    },
                };
                if declared != binding.value_type {
                    let mut message = String::from_str("root input `");
                    message.append(name.as_str());
                    message.append("` is ");
                    message.append(declared.label());
                    message.append(", but the supplied binding is ");
                    message.append(binding.value_type.label());
                    let error = Diagnostic::builtin(BuiltinDiagnostic::InvalidArgumentType, message, binding.span.clone_span());
                    proof {
                        assert(spec_diagnostic_view(error).3 =~= Seq::<Seq<char>>::empty());
                        lemma_media_failure_stable(*descriptor, *bindings, k as int + 1, bindings.media_inputs@.len() as int);
                    }
                    return Err(error);
                }
                let (found, _) = find_name(&bindings.parameters, name.as_str());
                if let Some(index) = found {
                    proof {
                        lemma_map_lookup(bindings.parameters@, index as int);
                    }
                    let error = duplicate_binding("root argument `", name.as_str(),
                        bindings.parameters[index].1.span.clone_span(), &binding.span);
                    proof {
                        assert(spec_diagnostic_view(error).3 =~= seq![spec_previous_note(binding.span)]);
                        lemma_media_failure_stable(*descriptor, *bindings, k as int + 1, bindings.media_inputs@.len() as int);
                    }
                    return Err(error);
                }
                proof {
                    lemma_map_absent(bindings.parameters@, name@);
                }
            },
        }
        k = k + 1;
    }
    let mut k: usize = 0;
    while k < bindings.parameters.len()
        invariant
            bindings.wf(),
            k <= bindings.parameters@.len(),
            spec_first_media_failure(*descriptor, *bindings, bindings.media_inputs@.len() as int) is None,
            spec_first_parameter_failure(*descriptor, *bindings, k as int) is None,
        decreases bindings.parameters@.len() - k,
    {
        let name = &bindings.parameters[k].0;
        let binding = &bindings.parameters[k].1;
        let slot = descriptor.parameter_slot(name.as_str());
        proof {
            lemma_first_index(descriptor.parameter_names(), name@, match slot { Some(s) => Some(s.0), None => None::<usize> });
        }
        if slot.is_none() {
            proof {
                lemma_parameter_failure_stable(*descriptor, *bindings, k as int + 1, bindings.parameters@.len() as int);
            }
            return Err(unknown_binding(name.as_str(), binding.span.clone_span()));
        }
        let (found, _) = find_name(&bindings.media_inputs, name.as_str());
        if let Some(index) = found {
            proof {
                lemma_map_lookup(bindings.media_inputs@, index as int);
            }
            let error = duplicate_binding("root argument `", name.as_str(), binding.span.clone_span(),
                &bindings.media_inputs[index].1.span);
            proof {
                assert(spec_diagnostic_view(error).3 =~= seq![spec_previous_note(bindings.media_inputs@[index as int].1.span)]);
                lemma_parameter_failure_stable(*descriptor, *bindings, k as int + 1, bindings.parameters@.len() as int);
            }
            return Err(error);
        }
        proof {
            lemma_map_absent(bindings.media_inputs@, name@);
        }
        k = k + 1;
    }
    Ok(())
}

fn unknown_binding(name: &str, span: SourceSpan) -> (error: Diagnostic)
    ensures
        spec_diagnostic_view(error) == (builtin_code(BuiltinDiagnostic::UnknownProgramArgument),
            "unknown argument `"@ + name@ + "` for root program"@, span, Seq::<Seq<char>>::empty()),
{
    let mut message = String::from_str("unknown argument `");
    message.append(name);
    message.append("` for root program");
    let error = Diagnostic::builtin(BuiltinDiagnostic::UnknownProgramArgument, message, span);
    assert(spec_diagnostic_view(error).3 =~= Seq::<Seq<char>>::empty());
    error
}

proof fn lemma_first_index(names: Seq<Seq<char>>, name: Seq<char>, slot: Option<usize>)
    requires
        spec_is_first_named(names, name, slot),
    ensures
        match slot {
            Some(i) => spec_first_index(names, name) == Some(i as int),
            None => spec_first_index(names, name) is None,
        },
    decreases names.len(),
{
    if names.len() > 0 {
        let rest = names.drop_first();
        match slot {
            Some(i) => {
                if i > 0 {
                    assert(names[0] != name);
                    assert forall|j: int| 0 <= j < (i - 1) implies rest[j] != name by {
                        assert(rest[j] == names[j + 1]);
                    }
                    assert(rest[i - 1] == names[i as int]);
                    lemma_first_index(rest, name, Some((i - 1) as usize));
                }
            },
            None => {
                assert forall|j: int| 0 <= j < rest.len() implies rest[j] != name by {
                    assert(rest[j] == names[j + 1]);
                }
                lemma_first_index(rest, name, None);
            },
        }
    }
}

proof fn lemma_media_failure_stable(descriptor: ProgramDescriptor, bindings: EntrypointBindings, k: int, n: int)
    requires
        0 <= k <= n,
        spec_first_media_failure(descriptor, bindings, k) is Some,
    ensures
        spec_first_media_failure(descriptor, bindings, n) == spec_first_media_failure(descriptor, bindings, k),
    decreases n - k,
{
    if n > k {
        lemma_media_failure_stable(descriptor, bindings, k, n - 1);
    }
}

proof fn lemma_parameter_failure_stable(descriptor: ProgramDescriptor, bindings: EntrypointBindings, k: int, n: int)
    requires
        0 <= k <= n,
        spec_first_parameter_failure(descriptor, bindings, k) is Some,
    ensures
        spec_first_parameter_failure(descriptor, bindings, n) == spec_first_parameter_failure(descriptor, bindings, k),
    decreases n - k,
{
    if n > k {
        lemma_parameter_failure_stable(descriptor, bindings, k, n - 1);
    }
}

pub(crate) proof fn lemma_map_absent<B>(entries: Seq<(String, B)>, name: Seq<char>)
    requires
        forall|i: int| 0 <= i < entries.len() ==> #[trigger] entries[i].0@ != name,
    ensures
        !spec_entry_map(entries).contains_key(name),
{
}

/// The note that points at a previous binding.
pub open spec fn spec_previous_note(previous: SourceSpan) -> Seq<char> {
    "the previous binding was supplied at "@ + previous.file@ + ":"@ + spec_decimal(previous.line as u64)
        + ":"@ + spec_decimal(previous.column as u64)
}

fn duplicate_binding(subject: &str, name: &str, span: SourceSpan, previous: &SourceSpan) -> (error: Diagnostic)
    ensures
        error.code@ == builtin_code(BuiltinDiagnostic::DuplicateArgument),
        error.message@ == subject@ + name@ + "` was supplied more than once"@,
        error.span == span,
        error.notes@.len() == 1,
        error.notes@[0]@ == spec_previous_note(*previous),
{
    let mut message = String::from_str(subject);
    message.append(name);
    message.append("` was supplied more than once");
    let mut note = String::from_str("the previous binding was supplied at ");
    note.append(previous.file());
    note.append(":");
    let line = decimal(previous.line as u64);
    note.append(line.as_str());
    note.append(":");
    let column = decimal(previous.column as u64);
    note.append(column.as_str());
    Diagnostic::builtin(BuiltinDiagnostic::DuplicateArgument, message, span).note(note)
}

/// Compare two character sequences lexicographically.
fn chars_less(a: &Vec<char>, b: &Vec<char>) -> (less: bool)
    ensures
        less == spec_text_less(a@, b@),
{
    let mut index: usize = 0;
    assert(a@.skip(0) =~= a@);
    assert(b@.skip(0) =~= b@);
    while index < a.len() && index < b.len() && a[index] == b[index]
        invariant
            index <= a@.len(),
            index <= b@.len(),
            spec_text_less(a@, b@) == spec_text_less(a@.skip(index as int), b@.skip(index as int)),
        decreases a@.len() - index,
    {
        proof {
            assert(a@.skip(index as int).drop_first() =~= a@.skip(index as int + 1));
            assert(b@.skip(index as int).drop_first() =~= b@.skip(index as int + 1));
        }
        index = index + 1;
    }
    if index == a.len() {
        index < b.len()
    } else if index == b.len() {
        false
    } else {
        (a[index] as u32) < (b[index] as u32)
    }
}

/// Find the entry named `name`, or the position that keeps names in order.
pub(crate) fn find_name<B>(entries: &Vec<(String, B)>, name: &str) -> (result: (Option<usize>, usize))
    requires
        spec_distinct_names(entries@),
    ensures
        match result.0 {
            Some(index) => index < entries@.len() && entries@[index as int].0@ == name@,
            None => forall|i: int| 0 <= i < entries@.len() ==> #[trigger] entries@[i].0@ != name@,
        },
        result.1 <= entries@.len(),
        result.0 is None && spec_sorted_names(entries@) ==> {
            &&& forall|i: int| 0 <= i < result.1 ==> spec_text_less(#[trigger] entries@[i].0@, name@)
            &&& forall|i: int| result.1 <= i < entries@.len() ==> spec_text_less(name@, #[trigger] entries@[i].0@)
        },
{
    let target = to_chars(name);
    let mut position = entries.len();
    let mut index: usize = 0;
    while index < entries.len()
        invariant
            index <= entries@.len(),
            position <= entries@.len(),
            target@ == name@,
            forall|i: int| 0 <= i < index ==> #[trigger] entries@[i].0@ != name@,
            forall|i: int| 0 <= i < index && i < position ==> !spec_text_less(name@, #[trigger] entries@[i].0@),
            position < entries@.len() ==> position < index && spec_text_less(name@, entries@[position as int].0@),
        decreases entries@.len() - index,
    {
        let current = to_chars(entries[index].0.as_str());
        if chars_eq(&current, &target) {
            return (Some(index), position);
        }
        if position == entries.len() && chars_less(&target, &current) {
            position = index;
        }
        index = index + 1;
    }
    proof {
        if spec_sorted_names(entries@) {
            assert forall|i: int| 0 <= i < position implies spec_text_less(#[trigger] entries@[i].0@, name@) by {
                lemma_text_less_total(entries@[i].0@, name@);
            }
            assert forall|i: int| position <= i < entries@.len() implies spec_text_less(name@, #[trigger] entries@[i].0@) by {
                if i > position {
                    lemma_text_less_transitive(name@, entries@[position as int].0@, entries@[i].0@);
                }
            }
        }
    }
    (None, position)
}

pub(crate) proof fn lemma_map_lookup<B>(entries: Seq<(String, B)>, index: int)
    requires
        spec_distinct_names(entries),
        0 <= index < entries.len(),
    ensures
        spec_entry_map(entries).contains_key(entries[index].0@),
        spec_entry_map(entries)[entries[index].0@] == entries[index].1,
{
    let name = entries[index].0@;
    assert(entries[index].0@ == name);
    let chosen = spec_position(entries, name);
    assert(entries[chosen].0@ == name);
}

pub(crate) proof fn lemma_map_insert<B>(entries: Seq<(String, B)>, position: int, entry: (String, B))
    requires
        spec_distinct_names(entries),
        0 <= position <= entries.len(),
        forall|i: int| 0 <= i < entries.len() ==> #[trigger] entries[i].0@ != entry.0@,
    ensures
        spec_distinct_names(entries.insert(position, entry)),
        spec_entry_map(entries.insert(position, entry)).dom() == spec_entry_map(entries).dom().insert(entry.0@),
        spec_entry_map(entries.insert(position, entry))[entry.0@] == entry.1,
        forall|other: Seq<char>| spec_entry_map(entries).contains_key(other)
            ==> #[trigger] spec_entry_map(entries.insert(position, entry))[other] == spec_entry_map(entries)[other],
{
    let inserted = entries.insert(position, entry);
    entries.insert_ensures(position, entry);
    assert forall|i: int, j: int| 0 <= i < inserted.len() && 0 <= j < inserted.len() && i != j
        implies #[trigger] inserted[i].0@ != #[trigger] inserted[j].0@ by {
        let oi = if i < position { i } else { i - 1 };
        let oj = if j < position { j } else { j - 1 };
        if i != position && j != position {
            assert(inserted[i] == entries[oi]);
            assert(inserted[j] == entries[oj]);
        } else if i == position {
            assert(inserted[j] == entries[oj]);
        } else {
            assert(inserted[i] == entries[oi]);
        }
    }
    assert forall|name: Seq<char>| #[trigger] spec_entry_map(inserted).dom().contains(name)
        <==> spec_entry_map(entries).dom().insert(entry.0@).contains(name) by {
        if exists|i: int| 0 <= i < inserted.len() && #[trigger] inserted[i].0@ == name {
            let i = choose|i: int| 0 <= i < inserted.len() && #[trigger] inserted[i].0@ == name;
            if i < position {
                assert(entries[i].0@ == name);
            } else if i > position {
                assert(entries[i - 1].0@ == name);
            }
        }
        if exists|i: int| 0 <= i < entries.len() && #[trigger] entries[i].0@ == name {
            let i = choose|i: int| 0 <= i < entries.len() && #[trigger] entries[i].0@ == name;
            if i < position {
                assert(inserted[i].0@ == name);
            } else {
                assert(inserted[i + 1].0@ == name);
            }
        }
        if name == entry.0@ {
            assert(inserted[position].0@ == name);
        }
    }
    assert(spec_entry_map(inserted).dom() =~= spec_entry_map(entries).dom().insert(entry.0@));
    lemma_map_lookup(inserted, position);
    assert forall|other: Seq<char>| spec_entry_map(entries).contains_key(other)
        implies #[trigger] spec_entry_map(inserted)[other] == spec_entry_map(entries)[other] by {
        let i = choose|i: int| 0 <= i < entries.len() && #[trigger] entries[i].0@ == other;
        lemma_map_lookup(entries, i);
        if i < position {
            lemma_map_lookup(inserted, i);
        } else {
            lemma_map_lookup(inserted, i + 1);
        }
    }
}


/// Whether media binding `entry` fits the root program: the first declared input of its name
/// has exactly the binding's value type, and no parameter binding shares the name.
pub open spec fn spec_media_fits(descriptor: ProgramDescriptor, parameters: Map<Seq<char>, ParameterBinding>, entry: (String, MediaInputBinding)) -> bool {
    &&& exists|i: int| 0 <= i < descriptor.inputs@.len() && (#[trigger] descriptor.inputs@[i]).name@ == entry.0@
        && (forall|j: int| 0 <= j < i ==> descriptor.inputs@[j].name@ != entry.0@)
        && descriptor.inputs@[i].value_type == ValueTypeSpec::Exact(entry.1.value_type)
    &&& !parameters.contains_key(entry.0@)
}

/// Whether parameter binding `entry` fits the root program: some declared parameter has its
/// name, and no media binding shares the name.
pub open spec fn spec_parameter_fits(descriptor: ProgramDescriptor, media: Map<Seq<char>, MediaInputBinding>, entry: (String, ParameterBinding)) -> bool {
    &&& exists|i: int| 0 <= i < descriptor.parameters@.len() && (#[trigger] descriptor.parameters@[i]).name@ == entry.0@
    &&& !media.contains_key(entry.0@)
}

/// Whether every root binding fits the root program.
pub open spec fn spec_bindings_fit(descriptor: ProgramDescriptor, bindings: EntrypointBindings) -> bool {
    &&& forall|k: int| 0 <= k < bindings.spec_media_entries().len()
        ==> spec_media_fits(descriptor, bindings.parameters(), #[trigger] bindings.spec_media_entries()[k])
    &&& forall|k: int| 0 <= k < bindings.spec_parameter_entries().len()
        ==> spec_parameter_fits(descriptor, bindings.media_inputs(), #[trigger] bindings.spec_parameter_entries()[k])
}

proof fn lemma_first_index_found(names: Seq<Seq<char>>, name: Seq<char>)
    ensures
        match spec_first_index(names, name) {
            Some(i) => 0 <= i < names.len() && names[i] == name && forall|j: int| 0 <= j < i ==> names[j] != name,
            None => forall|j: int| 0 <= j < names.len() ==> names[j] != name,
        },
    decreases names.len(),
{
    if names.len() > 0 {
        let rest = names.drop_first();
        lemma_first_index_found(rest, name);
        assert forall|j: int| 0 <= j < rest.len() implies rest[j] == names[j + 1] by {}
        if names[0] != name {
            match spec_first_index(rest, name) {
                Some(i) => {
                    assert forall|j: int| 0 <= j < i + 1 implies names[j] != name by {
                        if j > 0 {
                            assert(names[j] == rest[j - 1]);
                        }
                    }
                },
                None => {
                    assert forall|j: int| 0 <= j < names.len() implies names[j] != name by {
                        if j > 0 {
                            assert(names[j] == rest[j - 1]);
                        }
                    }
                },
            }
        }
    }
}

proof fn lemma_media_entry_fits(descriptor: ProgramDescriptor, parameters: Map<Seq<char>, ParameterBinding>, entry: (String, MediaInputBinding))
    requires
        forall|i: int| 0 <= i < descriptor.inputs@.len() ==> (#[trigger] descriptor.inputs@[i]).value_type is Exact,
    ensures
        spec_media_binding_failure(descriptor, parameters, entry) is None <==> spec_media_fits(descriptor, parameters, entry),
{
    let names = descriptor.input_names();
    lemma_first_index_found(names, entry.0@);
    match spec_first_index(names, entry.0@) {
        Some(i) => {
            assert(names[i] == descriptor.inputs@[i].name@);
            if spec_media_fits(descriptor, parameters, entry) {
                let k = choose|k: int| 0 <= k < descriptor.inputs@.len() && (#[trigger] descriptor.inputs@[k]).name@ == entry.0@
                    && (forall|j: int| 0 <= j < k ==> descriptor.inputs@[j].name@ != entry.0@)
                    && descriptor.inputs@[k].value_type == ValueTypeSpec::Exact(entry.1.value_type);
                if k < i {
                    assert(names[k] == descriptor.inputs@[k].name@);
                } else if k > i {
                    assert(descriptor.inputs@[i].name@ != entry.0@);
                }
            }
            if spec_media_binding_failure(descriptor, parameters, entry) is None {
                assert(descriptor.inputs@[i].value_type is Exact);
                assert forall|j: int| 0 <= j < i implies descriptor.inputs@[j].name@ != entry.0@ by {
                    assert(names[j] == descriptor.inputs@[j].name@);
                }
            }
        },
        None => {
            if spec_media_fits(descriptor, parameters, entry) {
                let k = choose|k: int| 0 <= k < descriptor.inputs@.len() && (#[trigger] descriptor.inputs@[k]).name@ == entry.0@
                    && (forall|j: int| 0 <= j < k ==> descriptor.inputs@[j].name@ != entry.0@)
                    && descriptor.inputs@[k].value_type == ValueTypeSpec::Exact(entry.1.value_type);
                assert(names[k] == descriptor.inputs@[k].name@);
            }
        },
    }
}

proof fn lemma_parameter_entry_fits(descriptor: ProgramDescriptor, media: Map<Seq<char>, MediaInputBinding>, entry: (String, ParameterBinding))
    ensures
        spec_parameter_binding_failure(descriptor, media, entry) is None <==> spec_parameter_fits(descriptor, media, entry),
{
    let names = descriptor.parameter_names();
    lemma_first_index_found(names, entry.0@);
    match spec_first_index(names, entry.0@) {
        Some(i) => {
            assert(names[i] == descriptor.parameters@[i].name@);
        },
        None => {
            if spec_parameter_fits(descriptor, media, entry) {
                let k = choose|k: int| 0 <= k < descriptor.parameters@.len() && (#[trigger] descriptor.parameters@[k]).name@ == entry.0@;
                assert(names[k] == descriptor.parameters@[k].name@);
            }
        },
    }
}

proof fn lemma_first_media_none(descriptor: ProgramDescriptor, bindings: EntrypointBindings, k: int)
    requires
        0 <= k <= bindings.spec_media_entries().len(),
        forall|i: int| 0 <= i < descriptor.inputs@.len() ==> (#[trigger] descriptor.inputs@[i]).value_type is Exact,
    ensures
        spec_first_media_failure(descriptor, bindings, k) is None
            <==> forall|m: int| 0 <= m < k ==> spec_media_fits(descriptor, bindings.parameters(), #[trigger] bindings.spec_media_entries()[m]),
    decreases k,
{
    if k > 0 {
        lemma_first_media_none(descriptor, bindings, k - 1);
        lemma_media_entry_fits(descriptor, bindings.parameters(), bindings.spec_media_entries()[k - 1]);
    }
}

proof fn lemma_first_parameter_none(descriptor: ProgramDescriptor, bindings: EntrypointBindings, k: int)
    requires
        0 <= k <= bindings.spec_parameter_entries().len(),
    ensures
        spec_first_parameter_failure(descriptor, bindings, k) is None
            <==> forall|m: int| 0 <= m < k ==> spec_parameter_fits(descriptor, bindings.media_inputs(), #[trigger] bindings.spec_parameter_entries()[m]),
    decreases k,
{
    if k > 0 {
        lemma_first_parameter_none(descriptor, bindings, k - 1);
        lemma_parameter_entry_fits(descriptor, bindings.media_inputs(), bindings.spec_parameter_entries()[k - 1]);
    }
}

/// Root bindings are accepted exactly when they all fit the root program: every media binding
/// names a declared input of exactly its value type (the first declared input of that name),
/// every parameter binding names a declared parameter, and no name is bound both ways.
pub proof fn lemma_root_bindings_accepted(descriptor: ProgramDescriptor, bindings: EntrypointBindings)
    requires
        forall|i: int| 0 <= i < descriptor.inputs@.len() ==> (#[trigger] descriptor.inputs@[i]).value_type is Exact,
    ensures
        spec_root_binding_failure(descriptor, bindings) is None <==> spec_bindings_fit(descriptor, bindings),
{
    lemma_first_media_none(descriptor, bindings, bindings.spec_media_entries().len() as int);
    lemma_first_parameter_none(descriptor, bindings, bindings.spec_parameter_entries().len() as int);
}


/// Whether `error` is the right diagnostic for media binding `entry`, which does not fit: an
/// undeclared name is an unknown argument, a declared input of another value type is an
/// argument-type error naming both types, and otherwise the name is also bound as a
/// parameter, a duplicate; each at the binding's span, but the duplicate, which points at the
/// parameter binding.
pub open spec fn spec_media_error(descriptor: ProgramDescriptor, parameters: Map<Seq<char>, ParameterBinding>,
    entry: (String, MediaInputBinding), error: (Seq<char>, Seq<char>, SourceSpan, Seq<Seq<char>>)) -> bool
{
    let name = entry.0@;
    let binding = entry.1;
    &&& (forall|i: int| 0 <= i < descriptor.inputs@.len() ==> (#[trigger] descriptor.inputs@[i]).name@ != name)
        ==> error.0 == "E_UNKNOWN_PROGRAM_ARGUMENT"@ && error.2 == binding.span
    &&& forall|i: int| 0 <= i < descriptor.inputs@.len() && (#[trigger] descriptor.inputs@[i]).name@ == name
        && (forall|j: int| 0 <= j < i ==> descriptor.inputs@[j].name@ != name) ==> {
            let declared = descriptor.inputs@[i].value_type->Exact_0;
            &&& declared != binding.value_type ==> {
                &&& error.0 == "E_INVALID_ARGUMENT_TYPE"@
                &&& error.1 == "root input `"@ + name + "` is "@ + spec_value_type_label(declared)
                    + ", but the supplied binding is "@ + spec_value_type_label(binding.value_type)
                &&& error.2 == binding.span
            }
            &&& declared == binding.value_type ==> error.0 == "E_DUPLICATE_ARGUMENT"@ && parameters.contains_key(name)
                && error.2 == parameters[name].span
        }
}

/// Whether `error` is the right diagnostic for parameter binding `entry`, which does not fit:
/// an undeclared name is an unknown argument, else the name is also bound as a media input.
pub open spec fn spec_parameter_error(descriptor: ProgramDescriptor, media: Map<Seq<char>, MediaInputBinding>,
    entry: (String, ParameterBinding), error: (Seq<char>, Seq<char>, SourceSpan, Seq<Seq<char>>)) -> bool
{
    let name = entry.0@;
    &&& (forall|i: int| 0 <= i < descriptor.parameters@.len() ==> (#[trigger] descriptor.parameters@[i]).name@ != name)
        ==> error.0 == "E_UNKNOWN_PROGRAM_ARGUMENT"@ && error.2 == entry.1.span
    &&& (exists|i: int| 0 <= i < descriptor.parameters@.len() && (#[trigger] descriptor.parameters@[i]).name@ == name)
        ==> error.0 == "E_DUPLICATE_ARGUMENT"@ && media.contains_key(name) && error.2 == entry.1.span
}

/// Whether `error` reports the first binding that does not fit: media bindings in name order
/// first, then parameter bindings in name order.
pub open spec fn spec_first_misfit_reported(descriptor: ProgramDescriptor, bindings: EntrypointBindings,
    error: (Seq<char>, Seq<char>, SourceSpan, Seq<Seq<char>>)) -> bool
{
    let media = bindings.spec_media_entries();
    let parameters = bindings.spec_parameter_entries();
    ||| exists|k: int| 0 <= k < media.len()
        && (forall|m: int| 0 <= m < k ==> spec_media_fits(descriptor, bindings.parameters(), #[trigger] media[m]))
        && !spec_media_fits(descriptor, bindings.parameters(), #[trigger] media[k])
        && spec_media_error(descriptor, bindings.parameters(), media[k], error)
    ||| (forall|m: int| 0 <= m < media.len() ==> spec_media_fits(descriptor, bindings.parameters(), #[trigger] media[m]))
        && exists|k: int| 0 <= k < parameters.len()
        && (forall|m: int| 0 <= m < k ==> spec_parameter_fits(descriptor, bindings.media_inputs(), #[trigger] parameters[m]))
        && !spec_parameter_fits(descriptor, bindings.media_inputs(), #[trigger] parameters[k])
        && spec_parameter_error(descriptor, bindings.media_inputs(), parameters[k], error)
}

proof fn lemma_media_error_kind(descriptor: ProgramDescriptor, parameters: Map<Seq<char>, ParameterBinding>, entry: (String, MediaInputBinding))
    requires
        forall|i: int| 0 <= i < descriptor.inputs@.len() ==> (#[trigger] descriptor.inputs@[i]).value_type is Exact,
    ensures
        spec_media_binding_failure(descriptor, parameters, entry) matches Some(f) ==> spec_media_error(descriptor, parameters, entry, f),
{
    let names = descriptor.input_names();
    let name = entry.0@;
    lemma_first_index_found(names, name);
    if let Some(f) = spec_media_binding_failure(descriptor, parameters, entry) {
        reveal_strlit("E_UNKNOWN_PROGRAM_ARGUMENT");
        reveal_strlit("E_INVALID_ARGUMENT_TYPE");
        reveal_strlit("E_DUPLICATE_ARGUMENT");
        match spec_first_index(names, name) {
            None => {
                assert forall|i: int| 0 <= i < descriptor.inputs@.len() && (#[trigger] descriptor.inputs@[i]).name@ == name
                    && (forall|j: int| 0 <= j < i ==> descriptor.inputs@[j].name@ != name) implies false by {
                    assert(names[i] == descriptor.inputs@[i].name@);
                }
            },
            Some(k) => {
                assert(names[k] == descriptor.inputs@[k].name@);
                assert forall|i: int| 0 <= i < descriptor.inputs@.len() && (#[trigger] descriptor.inputs@[i]).name@ == name
                    && (forall|j: int| 0 <= j < i ==> descriptor.inputs@[j].name@ != name) implies i == k by {
                    if i < k {
                        assert(names[i] == descriptor.inputs@[i].name@);
                    } else if i > k {
                        assert(descriptor.inputs@[k].name@ == name);
                    }
                }
            },
        }
    }
}

proof fn lemma_parameter_error_kind(descriptor: ProgramDescriptor, media: Map<Seq<char>, MediaInputBinding>, entry: (String, ParameterBinding))
    ensures
        spec_parameter_binding_failure(descriptor, media, entry) matches Some(f) ==> spec_parameter_error(descriptor, media, entry, f),
{
    let names = descriptor.parameter_names();
    let name = entry.0@;
    lemma_first_index_found(names, name);
    if let Some(f) = spec_parameter_binding_failure(descriptor, media, entry) {
        reveal_strlit("E_UNKNOWN_PROGRAM_ARGUMENT");
        reveal_strlit("E_DUPLICATE_ARGUMENT");
        match spec_first_index(names, name) {
            None => {
                assert forall|i: int| 0 <= i < descriptor.parameters@.len() implies (#[trigger] descriptor.parameters@[i]).name@ != name by {
                    assert(names[i] == descriptor.parameters@[i].name@);
                }
            },
            Some(k) => {
                assert(names[k] == descriptor.parameters@[k].name@);
            },
        }
    }
}

#[verifier::rlimit(40)]
proof fn lemma_first_media_misfit(descriptor: ProgramDescriptor, bindings: EntrypointBindings, n: int)
    requires
        0 <= n <= bindings.spec_media_entries().len(),
        forall|i: int| 0 <= i < descriptor.inputs@.len() ==> (#[trigger] descriptor.inputs@[i]).value_type is Exact,
    ensures
        spec_first_media_failure(descriptor, bindings, n) matches Some(f) ==> exists|k: int| 0 <= k < n
            && (forall|m: int| 0 <= m < k ==> spec_media_fits(descriptor, bindings.parameters(), #[trigger] bindings.spec_media_entries()[m]))
            && !spec_media_fits(descriptor, bindings.parameters(), #[trigger] bindings.spec_media_entries()[k])
            && spec_media_error(descriptor, bindings.parameters(), bindings.spec_media_entries()[k], f),
    decreases n,
{
    if n > 0 {
        if spec_first_media_failure(descriptor, bindings, n - 1) is Some {
            lemma_first_media_misfit(descriptor, bindings, n - 1);
        } else {
            lemma_first_media_none(descriptor, bindings, n - 1);
            let entry = bindings.spec_media_entries()[n - 1];
            lemma_media_entry_fits(descriptor, bindings.parameters(), entry);
            lemma_media_error_kind(descriptor, bindings.parameters(), entry);
            if let Some(f) = spec_first_media_failure(descriptor, bindings, n) {
                assert(spec_media_error(descriptor, bindings.parameters(), bindings.spec_media_entries()[n - 1], f));
                assert(!spec_media_fits(descriptor, bindings.parameters(), bindings.spec_media_entries()[n - 1]));
            }
        }
    }
}

proof fn lemma_first_parameter_misfit(descriptor: ProgramDescriptor, bindings: EntrypointBindings, n: int)
    requires
        0 <= n <= bindings.spec_parameter_entries().len(),
    ensures
        spec_first_parameter_failure(descriptor, bindings, n) matches Some(f) ==> exists|k: int| 0 <= k < n
            && (forall|m: int| 0 <= m < k ==> spec_parameter_fits(descriptor, bindings.media_inputs(), #[trigger] bindings.spec_parameter_entries()[m]))
            && !spec_parameter_fits(descriptor, bindings.media_inputs(), #[trigger] bindings.spec_parameter_entries()[k])
            && spec_parameter_error(descriptor, bindings.media_inputs(), bindings.spec_parameter_entries()[k], f),
    decreases n,
{
    if n > 0 {
        if spec_first_parameter_failure(descriptor, bindings, n - 1) is Some {
            lemma_first_parameter_misfit(descriptor, bindings, n - 1);
        } else {
            lemma_first_parameter_none(descriptor, bindings, n - 1);
            let entry = bindings.spec_parameter_entries()[n - 1];
            lemma_parameter_entry_fits(descriptor, bindings.media_inputs(), entry);
            lemma_parameter_error_kind(descriptor, bindings.media_inputs(), entry);
            if let Some(f) = spec_first_parameter_failure(descriptor, bindings, n) {
                assert(spec_parameter_error(descriptor, bindings.media_inputs(), bindings.spec_parameter_entries()[n - 1], f));
                assert(!spec_parameter_fits(descriptor, bindings.media_inputs(), bindings.spec_parameter_entries()[n - 1]));
            }
        }
    }
}

/// A rejection of root bindings reports the first binding that does not fit, with the
/// diagnostic its misfit calls for.
pub proof fn lemma_root_binding_rejection(descriptor: ProgramDescriptor, bindings: EntrypointBindings)
    requires
        forall|i: int| 0 <= i < descriptor.inputs@.len() ==> (#[trigger] descriptor.inputs@[i]).value_type is Exact,
    ensures
        spec_root_binding_failure(descriptor, bindings) matches Some(f) ==> spec_first_misfit_reported(descriptor, bindings, f),
{
    let media = bindings.spec_media_entries().len() as int;
    lemma_first_media_misfit(descriptor, bindings, media);
    lemma_first_media_none(descriptor, bindings, media);
    lemma_first_parameter_misfit(descriptor, bindings, bindings.spec_parameter_entries().len() as int);
}

} // verus!
