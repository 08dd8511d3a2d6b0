//! Pure source-program compilation phases and the compiled program they produce.
//!
//! Compilation binds typed program calls, evaluates scoped stack frames, resolves
//! references, infers source-independent video domains, and computes semantic
//! identity. It never reads media files or invokes external tools.

pub mod dfs;
pub mod domain;
pub mod entrypoint;
pub mod check;
pub mod finalize;
pub mod link;
pub mod parameter;
pub mod stack;
pub mod traversal;
pub mod typecheck;

use vstd::prelude::*;

use crate::diagnostic::{decimal, spec_decimal, BuiltinDiagnostic, Diagnostic};
use crate::model::{AudioSpec, SymbolId, ValueRef, ValueType, VideoDomain, VideoSpec};
use crate::semantic::CompiledNode;
use crate::source::{SourceSpan, Spanned};

verus! {

/// The first Video among `outputs` and the number of Videos there.
pub open spec fn spec_video_output(outputs: Seq<ValueRef>) -> (Option<ValueRef>, nat)
    decreases outputs.len(),
{
    if outputs.len() == 0 {
        (None, 0)
    } else {
        let (first, count) = spec_video_output(outputs.drop_last());
        if outputs.last().value_type == ValueType::Video {
            (if first is Some { first } else { Some(outputs.last()) }, count + 1)
        } else {
            (first, count)
        }
    }
}

/// A pure compiled program whose media-dependent facts may remain deferred.
#[derive(Debug)]
pub struct CompiledProgram {
    format_version: u32,
    engine_version: String,
    structure_hash: String,
    video: VideoSpec,
    audio: AudioSpec,
    nodes: Vec<CompiledNode>,
    outputs: Vec<ValueRef>,
    named_values: Vec<(String, ValueRef)>,
    symbol_values: Vec<ValueRef>,
    explain: Vec<ExplainEntry>,
    output: Option<Spanned<String>>,
    entrypoint_source: String,
}

/// A user-visible source construct and the semantic values it produced.
#[derive(Clone, Debug)]
pub struct ExplainEntry {
    construct: String,
    outputs: Vec<ExplainOutput>,
    span: SourceSpan,
}

/// One ordered semantic output from an authored construct.
#[derive(Clone, Debug)]
pub struct ExplainOutput {
    value: ValueRef,
    id: Option<String>,
}

impl CompiledProgram {
    #[verifier::type_invariant]
    spec fn well_formed(self) -> bool {
        &&& forall|i: int| 0 <= i < self.outputs@.len() ==> #[trigger] self.outputs@[i].id.0 < self.nodes@.len()
        &&& forall|i: int| 0 <= i < self.named_values@.len() ==> (#[trigger] self.named_values@[i]).1.id.0 < self.nodes@.len()
        &&& forall|i: int| 0 <= i < self.symbol_values@.len() ==> #[trigger] self.symbol_values@[i].id.0 < self.nodes@.len()
        &&& forall|i: int| 0 <= i < self.nodes@.len() ==> #[trigger] self.nodes@[i].spec_id().0 == i
        &&& crate::compiler::entrypoint::spec_distinct_names(self.named_values@)
    }

    /// The semantic nodes, each at the position named by its value ID.
    pub closed spec fn spec_nodes(self) -> Seq<CompiledNode> {
        self.nodes@
    }

    /// The ordered semantic outputs.
    pub closed spec fn spec_outputs(self) -> Seq<ValueRef> {
        self.outputs@
    }

    /// The public names and their values, sorted by name.
    pub closed spec fn spec_named_values(self) -> Seq<(String, ValueRef)> {
        self.named_values@
    }

    /// The value of each symbol, by symbol index.
    pub closed spec fn spec_symbol_values(self) -> Seq<ValueRef> {
        self.symbol_values@
    }

    /// The explain entries, in source order.
    pub closed spec fn spec_explain(self) -> Seq<ExplainEntry> {
        self.explain@
    }

    /// The semantic identity hash.
    pub closed spec fn spec_structure_hash(self) -> Seq<char> {
        self.structure_hash@
    }

    /// The engine version that compiled the program.
    pub closed spec fn spec_engine_version(self) -> Seq<char> {
        self.engine_version@
    }

    /// The compiled format revision.
    pub closed spec fn spec_format_version(self) -> u32 {
        self.format_version
    }

    /// The project canvas.
    pub closed spec fn spec_video(self) -> VideoSpec {
        self.video
    }

    /// The project audio properties.
    pub closed spec fn spec_audio(self) -> AudioSpec {
        self.audio
    }

    /// The publication output path, with the span that named it.
    pub closed spec fn spec_output(self) -> Option<Spanned<String>> {
        self.output
    }

    /// The name of the entrypoint source file.
    pub closed spec fn spec_entrypoint_source(self) -> Seq<char> {
        self.entrypoint_source@
    }

    /// Assemble a compiled program from finalized parts.
    pub(crate) fn assemble(
        format_version: u32,
        engine_version: String,
        structure_hash: String,
        video: VideoSpec,
        audio: AudioSpec,
        nodes: Vec<CompiledNode>,
        outputs: Vec<ValueRef>,
        named_values: Vec<(String, ValueRef)>,
        symbol_values: Vec<ValueRef>,
        explain: Vec<ExplainEntry>,
        output: Option<Spanned<String>>,
        entrypoint_source: String,
    ) -> (program: Self)
        requires
            forall|i: int| 0 <= i < outputs@.len() ==> #[trigger] outputs@[i].id.0 < nodes@.len(),
            forall|i: int| 0 <= i < named_values@.len() ==> (#[trigger] named_values@[i]).1.id.0 < nodes@.len(),
            forall|i: int| 0 <= i < symbol_values@.len() ==> #[trigger] symbol_values@[i].id.0 < nodes@.len(),
            forall|i: int| 0 <= i < nodes@.len() ==> #[trigger] nodes@[i].spec_id().0 == i,
            crate::compiler::entrypoint::spec_distinct_names(named_values@),
        ensures
            program.spec_format_version() == format_version,
            program.spec_engine_version() == engine_version@,
            program.spec_structure_hash() == structure_hash@,
            program.spec_video() == video,
            program.spec_audio() == audio,
            program.spec_nodes() == nodes@,
            program.spec_outputs() == outputs@,
            program.spec_named_values() == named_values@,
            program.spec_symbol_values() == symbol_values@,
            program.spec_explain() == explain@,
            program.spec_output() == output,
            program.spec_entrypoint_source() == entrypoint_source@,
    {
        CompiledProgram {
            format_version,
            engine_version,
            structure_hash,
            video,
            audio,
            nodes,
            outputs,
            named_values,
            symbol_values,
            explain,
            output,
            entrypoint_source,
        }
    }

    /// Return the number of semantic values in the compiled graph.
    ///
    /// Every output, named value and symbol value names one of these values.
    pub fn value_count(&self) -> (count: usize)
        ensures
            count == self.spec_nodes().len(),
            forall|i: int| 0 <= i < self.spec_outputs().len() ==> #[trigger] self.spec_outputs()[i].id.0 < count,
            forall|i: int| 0 <= i < self.spec_named_values().len()
                ==> (#[trigger] self.spec_named_values()[i]).1.id.0 < count,
            forall|i: int| 0 <= i < self.spec_symbol_values().len()
                ==> #[trigger] self.spec_symbol_values()[i].id.0 < count,
    {
        proof {
            use_type_invariant(self);
        }
        self.nodes.len()
    }

    /// Return the stable hash of compiled language and graph semantics.
    pub fn structure_hash(&self) -> (hash: &str)
        ensures
            hash@ == self.spec_structure_hash(),
    {
        self.structure_hash.as_str()
    }

    /// Return the project-wide dimensions and canonical frame rate.
    pub fn video(&self) -> (video: &VideoSpec)
        ensures
            *video == self.spec_video(),
    {
        &self.video
    }

    /// Return the canonical project audio properties.
    pub fn audio(&self) -> (audio: &AudioSpec)
        ensures
            *audio == self.spec_audio(),
    {
        &self.audio
    }

    /// Return the single Video output's domain when it is knowable without reading media.
    ///
    /// Returns `None` for zero or several outputs, for an output that is not a Video,
    /// or for a Video whose duration remains deferred until its media is read.
    pub fn result_domain(&self) -> (domain: Option<&VideoDomain>)
        ensures
            domain is Some ==> self.spec_outputs().len() == 1 && self.spec_outputs()[0].value_type == ValueType::Video,
            self.spec_outputs().len() == 1 && self.spec_outputs()[0].value_type == ValueType::Video ==> {
                let output = self.spec_outputs()[0];
                &&& 0 <= output.id.0 < self.spec_nodes().len()
                &&& match domain {
                    Some(d) => self.spec_nodes()[output.id.0 as int].spec_domain() == Some(*d),
                    None => self.spec_nodes()[output.id.0 as int].spec_domain() is None,
                }
            },
    {
        proof {
            use_type_invariant(self);
        }
        if self.outputs.len() != 1 {
            return None;
        }
        let output = self.outputs[0];
        if output.value_type != ValueType::Video {
            return None;
        }
        self.nodes[output.id.0 as usize].domain()
    }

    /// Return the program's ordered semantic outputs.
    pub fn outputs(&self) -> (outputs: &[ValueRef])
        ensures
            outputs@ == self.spec_outputs(),
    {
        self.outputs.as_slice()
    }

    /// Return source-oriented entries for user-visible program constructs.
    pub fn explain(&self) -> (explain: &[ExplainEntry])
        ensures
            explain@ == self.spec_explain(),
    {
        self.explain.as_slice()
    }

    /// Return the semantic nodes.
    pub fn nodes(&self) -> (nodes: &[CompiledNode])
        ensures
            nodes@ == self.spec_nodes(),
    {
        self.nodes.as_slice()
    }

    /// Return the compiled format revision.
    pub fn format_version(&self) -> (version: u32)
        ensures
            version == self.spec_format_version(),
    {
        self.format_version
    }

    /// Return the engine version that compiled the program.
    pub fn engine_version(&self) -> (version: &str)
        ensures
            version@ == self.spec_engine_version(),
    {
        self.engine_version.as_str()
    }

    /// Return the public names and their values, sorted by name.
    pub fn named_values(&self) -> (named: &[(String, ValueRef)])
        ensures
            named@ == self.spec_named_values(),
    {
        self.named_values.as_slice()
    }

    /// Return the value of a symbol, if the symbol exists.
    pub fn symbol_value(&self, symbol: SymbolId) -> (value: Option<ValueRef>)
        ensures
            (symbol.0 as int) < self.spec_symbol_values().len()
                ==> value == Some(self.spec_symbol_values()[symbol.0 as int]),
            (symbol.0 as int) >= self.spec_symbol_values().len() ==> value is None,
    {
        let index = symbol.index();
        if index < self.symbol_values.len() {
            Some(self.symbol_values[index])
        } else {
            None
        }
    }

    /// Return the value of every symbol, by symbol index.
    pub fn symbol_values(&self) -> (values: &[ValueRef])
        ensures
            values@ == self.spec_symbol_values(),
    {
        self.symbol_values.as_slice()
    }

    /// Return the publication output path, if the program names one.
    pub fn output(&self) -> (output: Option<&Spanned<String>>)
        ensures
            output matches Some(o) ==> self.spec_output() == Some(*o),
            output is None ==> self.spec_output() is None,
    {
        self.output.as_ref()
    }

    /// Return the name of the entrypoint source file.
    pub fn entrypoint_source(&self) -> (source: &str)
        ensures
            source@ == self.spec_entrypoint_source(),
    {
        self.entrypoint_source.as_str()
    }

    /// Return the single Video output to render.
    ///
    /// Fails with `E_ENTRYPOINT_OUTPUT_COUNT` unless exactly one output is a Video, at the
    /// span of the publication output when there is one, else at the start of the source.
    pub fn render_output(&self) -> (result: Result<ValueRef, Diagnostic>)
        ensures
            ({
                let (first, count) = spec_video_output(self.spec_outputs());
                &&& count == 1 ==> result == Ok::<ValueRef, Diagnostic>(first->0)
                &&& count != 1 ==> (result matches Err(error)
                    && error.code@ == "E_ENTRYPOINT_OUTPUT_COUNT"@
                    && error.message@ == "rendering requires exactly one Video output, but "@
                        + spec_decimal(count as u64) + " Video values were produced"@
                    && (self.spec_output() matches Some(o) ==> error.span == o.span)
                    && (self.spec_output() is None ==> error.span.file@ == self.spec_entrypoint_source()
                        && error.span.line == 1 && error.span.column == 1))
            }),
    {
        proof {
            lemma_video_output_count(self.outputs@);
        }
        let (output, count) = video_output(self.outputs.as_slice());
        if count == 1 {
            if let Some(output) = output {
                return Ok(output);
            }
        }
        let mut message = String::from_str("rendering requires exactly one Video output, but ");
        let total = decimal(count as u64);
        message.append(total.as_str());
        message.append(" Video values were produced");
        let span = match &self.output {
            Some(output) => output.span.clone_span(),
            None => SourceSpan::file_start(self.entrypoint_source.as_str()),
        };
        Err(Diagnostic::builtin(BuiltinDiagnostic::EntrypointOutputCount, message, span))
    }
}

impl ExplainEntry {
    /// Record an authored construct, the values it produced, and its location.
    pub fn new(construct: String, outputs: Vec<ExplainOutput>, span: SourceSpan) -> (entry: Self)
        ensures
            entry.spec_construct() == construct@,
            entry.spec_outputs() == outputs@,
            entry.spec_span() == span,
    {
        ExplainEntry { construct, outputs, span }
    }

    /// The construct's name.
    pub closed spec fn spec_construct(self) -> Seq<char> {
        self.construct@
    }

    /// The construct's outputs, in order.
    pub closed spec fn spec_outputs(self) -> Seq<ExplainOutput> {
        self.outputs@
    }

    /// The construct's location.
    pub closed spec fn spec_span(self) -> SourceSpan {
        self.span
    }

    /// Return the registered program name or reference/declaration label.
    pub fn construct(&self) -> (construct: &str)
        ensures
            construct@ == self.spec_construct(),
    {
        self.construct.as_str()
    }

    /// Return the ordered semantic values produced by this construct.
    pub fn outputs(&self) -> (outputs: &[ExplainOutput])
        ensures
            outputs@ == self.spec_outputs(),
    {
        self.outputs.as_slice()
    }

    /// Return the source location of this authored construct.
    pub fn span(&self) -> (span: &SourceSpan)
        ensures
            *span == self.spec_span(),
    {
        &self.span
    }
}

impl ExplainOutput {
    /// Record one produced value and the name the author gave it, if any.
    pub fn new(value: ValueRef, id: Option<String>) -> (output: Self)
        ensures
            output.spec_value() == value,
            output.spec_id() == id,
    {
        ExplainOutput { value, id }
    }

    /// The produced value.
    pub closed spec fn spec_value(self) -> ValueRef {
        self.value
    }

    /// The author's name for the value.
    pub closed spec fn spec_id(self) -> Option<String> {
        self.id
    }

    /// Return the semantic value produced at this output position.
    pub fn value(&self) -> (value: ValueRef)
        ensures
            value == self.spec_value(),
    {
        self.value
    }

    /// Return the optional user-authored name attached to this output.
    pub fn id(&self) -> (id: Option<&str>)
        ensures
            id matches Some(text) ==> (self.spec_id() matches Some(name) && text@ == name@),
            id is None ==> self.spec_id() is None,
    {
        match &self.id {
            Some(name) => Some(name.as_str()),
            None => None,
        }
    }
}

/// Return the first Video among `outputs` and the number of Video outputs.
pub fn video_output(outputs: &[ValueRef]) -> (result: (Option<ValueRef>, usize))
    ensures
        result.0 == spec_video_output(outputs@).0,
        result.1 == spec_video_output(outputs@).1,
{
    let mut first: Option<ValueRef> = None;
    let mut count: usize = 0;
    let mut i: usize = 0;
    while i < outputs.len()
        invariant
            i <= outputs@.len(),
            first == spec_video_output(outputs@.subrange(0, i as int)).0,
            count == spec_video_output(outputs@.subrange(0, i as int)).1,
            count <= i,
        decreases outputs@.len() - i,
    {
        proof {
            assert(outputs@.subrange(0, i + 1).drop_last() =~= outputs@.subrange(0, i as int));
        }
        let value = outputs[i];
        if value.value_type == ValueType::Video {
            if first.is_none() {
                first = Some(value);
            }
            count = count + 1;
        }
        i = i + 1;
    }
    assert(outputs@.subrange(0, outputs@.len() as int) =~= outputs@);
    (first, count)
}

/// The first Video output is one of the outputs, and is a Video.
pub proof fn lemma_video_output_member(outputs: Seq<ValueRef>)
    ensures
        spec_video_output(outputs).0 matches Some(first) ==> (outputs.contains(first) && first.value_type == ValueType::Video),
        spec_video_output(outputs).1 > 0 <==> spec_video_output(outputs).0 is Some,
    decreases outputs.len(),
{
    if outputs.len() > 0 {
        lemma_video_output_member(outputs.drop_last());
        if let Some(first) = spec_video_output(outputs.drop_last()).0 {
            let k = choose|k: int| 0 <= k < outputs.drop_last().len() && outputs.drop_last()[k] == first;
            assert(outputs[k] == first);
        } else {
            assert(outputs[outputs.len() - 1] == outputs.last());
        }
    }
}

/// At most one Video per output.
pub proof fn lemma_video_output_count(outputs: Seq<ValueRef>)
    ensures
        spec_video_output(outputs).1 <= outputs.len(),
        spec_video_output(outputs).1 > 0 <==> spec_video_output(outputs).0 is Some,
    decreases outputs.len(),
{
    if outputs.len() > 0 {
        lemma_video_output_count(outputs.drop_last());
    }
}

/// Require a program that names a publication `output` to produce exactly one Video.
///
/// Fails with `E_ENTRYPOINT_OUTPUT_COUNT` at `program_span` otherwise.
pub fn validate_publication_output(
    program_span: &SourceSpan, output: Option<&Spanned<String>>, outputs: &[ValueRef],
) -> (result: Result<(), Diagnostic>)
    ensures
        result is Ok <==> (output is None || spec_video_output(outputs@).1 == 1),
        result matches Err(error) ==> error.code@ == "E_ENTRYPOINT_OUTPUT_COUNT"@
            && error.message@ == "a source program with `output` must produce exactly one Video, but "@
                + spec_decimal(spec_video_output(outputs@).1 as u64) + " Video values remain"@
            && error.span == *program_span,
{
    if output.is_none() {
        return Ok(());
    }
    let (_, count) = video_output(outputs);
    if count == 1 {
        return Ok(());
    }
    let mut message = String::from_str("a source program with `output` must produce exactly one Video, but ");
    let total = decimal(count as u64);
    message.append(total.as_str());
    message.append(" Video values remain");
    Err(Diagnostic::builtin(BuiltinDiagnostic::EntrypointOutputCount, message, program_span.clone_span()))
}

/// Resolve a project canvas dimension: the authored value, or `default` when none is given.
///
/// Fails with `E_INVALID_VIDEO_SPEC` for an authored zero.
pub fn resolve_dimension(setting: Option<&Spanned<u32>>, default: u32, name: &str) -> (result: Result<u32, Diagnostic>)
    ensures
        match setting {
            None => result == Ok::<u32, Diagnostic>(default),
            Some(s) => if s.value != 0 {
                result == Ok::<u32, Diagnostic>(s.value)
            } else {
                result matches Err(error)
                    && error.code@ == "E_INVALID_VIDEO_SPEC"@
                    && error.message@ == "`"@ + name@ + "` must be greater than zero"@
                    && error.span == s.span
            },
        },
{
    match setting {
        Some(setting) => {
            if setting.value == 0 {
                let mut message = String::from_str("`");
                message.append(name);
                message.append("` must be greater than zero");
                Err(Diagnostic::builtin(BuiltinDiagnostic::InvalidVideoSpec, message, setting.span.clone_span()))
            } else {
                Ok(setting.value)
            }
        },
        None => Ok(default),
    }
}

/// Resolve the project audio properties: the authored sample rate, or the default one.
///
/// Fails with `E_INVALID_AUDIO_SPEC` for an authored zero sample rate.
pub fn resolve_audio_spec(sample_rate: Option<&Spanned<u32>>, defaults: AudioSpec) -> (result: Result<AudioSpec, Diagnostic>)
    ensures
        match sample_rate {
            None => result == Ok::<AudioSpec, Diagnostic>(defaults),
            Some(s) => if s.value != 0 {
                result == Ok::<AudioSpec, Diagnostic>(AudioSpec { sample_rate: s.value, channels: defaults.channels })
            } else {
                result matches Err(error)
                    && error.code@ == "E_INVALID_AUDIO_SPEC"@
                    && error.message@ == "`sample_rate` must be greater than zero"@
                    && error.span == s.span
            },
        },
{
    match sample_rate {
        Some(setting) => {
            if setting.value == 0 {
                Err(Diagnostic::builtin(
                    BuiltinDiagnostic::InvalidAudioSpec,
                    String::from_str("`sample_rate` must be greater than zero"),
                    setting.span.clone_span(),
                ))
            } else {
                Ok(AudioSpec { sample_rate: setting.value, channels: defaults.channels })
            }
        },
        None => Ok(defaults),
    }
}

} // verus!
