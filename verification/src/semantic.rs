//! The semantic graph produced by evaluation: typed nodes and their inputs.

use vstd::prelude::*;

use crate::model::{FrameCount, FrameRange, SymbolId, ValueId, ValueRef, ValueType, VideoDomain};
use crate::source::SourceSpan;

verus! {

/// How an image is fitted to the project canvas.
#[derive(Clone, Copy, Debug, PartialEq, Eq, Structural)]
pub enum ImageFit {
    Cover,
    Contain,
    Stretch,
}

/// The operation of one semantic node and the values it consumes.
#[derive(Clone, Debug)]
pub enum SemanticNodeKind {
    /// A still image shown for a fixed number of frames.
    ImageVideo { path: String, frames: FrameCount, fit: ImageFit },
    /// A video file whose duration is known only after probing.
    VideoSource { path: String, fit: ImageFit },
    /// An audio file.
    AudioSource { path: String },
    /// Audio shown over a black canvas.
    AudioOnBlack { audio: ValueRef },
    /// A Video produced by an external program from named inputs, in name
    /// order; the output keeps the domain of input `preserve_input`.
    ExternalVideo { inputs: Vec<ValueRef>, preserve_input: usize },
    /// The value bound to a named symbol.
    Reference { symbol: SymbolId },
    /// A Video repeated `count` times.
    Repeat { input: ValueRef, count: u64 },
    /// An Audio repeated `count` times.
    AudioRepeat { input: ValueRef, count: u64 },
    /// Audio values joined in order.
    AudioConcat { inputs: Vec<ValueRef> },
    /// A slice of an Audio.
    AudioSlice { input: ValueRef },
    /// The audio track of a Video.
    ExtractAudio { video: ValueRef },
    /// A zoomed Video.
    Zoom { input: ValueRef },
    /// A wobbling Video.
    Wobble { input: ValueRef },
    /// A Video with its audio replaced.
    SetAudio { audio: ValueRef, video: ValueRef },
    /// Two Videos joined by a white flash of `frames` frames.
    FlashJoin { before: ValueRef, after: ValueRef, frames: FrameCount },
    /// Video values joined in order.
    Concat { inputs: Vec<ValueRef> },
    /// A frame range of a Video.
    Slice { input: ValueRef, range: FrameRange },
    /// A Video with a frame range replaced by another Video.
    ReplaceRange { base: ValueRef, replacement: ValueRef, range: FrameRange },
}

/// The authored construct and location that produced a node.
#[derive(Clone, Debug)]
pub struct SourceOrigin {
    pub construct: String,
    pub span: SourceSpan,
}

impl SourceOrigin {
    /// Record that `construct` at `span` produced a node.
    pub fn new(construct: String, span: SourceSpan) -> (origin: Self)
        ensures
            origin.construct@ == construct@,
            origin.span == span,
    {
        SourceOrigin { construct, span }
    }
}

/// One node of the semantic graph, at the position named by its value ID.
#[derive(Clone, Debug)]
pub struct DraftNode {
    pub kind: SemanticNodeKind,
    pub origin: SourceOrigin,
    pub value_type: ValueType,
}

impl DraftNode {
    /// Construct a node.
    pub fn new(kind: SemanticNodeKind, origin: SourceOrigin, value_type: ValueType) -> (node: Self)
        ensures
            node.kind == kind,
            node.origin == origin,
            node.value_type == value_type,
    {
        DraftNode { kind, origin, value_type }
    }

    /// Return the node's operation.
    pub fn kind(&self) -> (kind: &SemanticNodeKind)
        ensures
            *kind == self.kind,
    {
        &self.kind
    }

    /// Return the construct that produced the node.
    pub fn origin(&self) -> (origin: &SourceOrigin)
        ensures
            *origin == self.origin,
    {
        &self.origin
    }
}

/// The values a node consumes, in dependency order; a reference depends on
/// the value of its symbol when that symbol exists.
pub open spec fn spec_dependencies(kind: SemanticNodeKind, symbols: Seq<ValueRef>) -> Seq<ValueRef> {
    match kind {
        SemanticNodeKind::Reference { symbol } =>
            if (symbol.0 as int) < symbols.len() { seq![symbols[symbol.0 as int]] } else { Seq::empty() },
        SemanticNodeKind::Repeat { input, .. } => seq![input],
        SemanticNodeKind::AudioRepeat { input, .. } => seq![input],
        SemanticNodeKind::AudioSlice { input } => seq![input],
        SemanticNodeKind::Zoom { input } => seq![input],
        SemanticNodeKind::Wobble { input } => seq![input],
        SemanticNodeKind::Slice { input, .. } => seq![input],
        SemanticNodeKind::ExtractAudio { video } => seq![video],
        SemanticNodeKind::AudioOnBlack { audio } => seq![audio],
        SemanticNodeKind::Concat { inputs } => inputs@,
        SemanticNodeKind::AudioConcat { inputs } => inputs@,
        SemanticNodeKind::FlashJoin { before, after, .. } => seq![before, after],
        SemanticNodeKind::ReplaceRange { base, replacement, .. } => seq![base, replacement],
        SemanticNodeKind::SetAudio { audio, video } => seq![audio, video],
        SemanticNodeKind::ExternalVideo { inputs, .. } => inputs@,
        SemanticNodeKind::ImageVideo { .. } => Seq::empty(),
        SemanticNodeKind::VideoSource { .. } => Seq::empty(),
        SemanticNodeKind::AudioSource { .. } => Seq::empty(),
    }
}

/// Whether a node references a symbol that does not exist.
pub open spec fn spec_missing_reference(kind: SemanticNodeKind, symbols: Seq<ValueRef>) -> bool {
    match kind {
        SemanticNodeKind::Reference { symbol } => (symbol.0 as int) >= symbols.len(),
        _ => false,
    }
}

/// A finalized node: its position, operation, origin, type, and the Video
/// domain known from authored data.
#[derive(Clone, Debug)]
pub struct CompiledNode {
    id: ValueId,
    kind: SemanticNodeKind,
    origin: SourceOrigin,
    value_type: ValueType,
    domain: Option<VideoDomain>,
}

impl CompiledNode {
    /// The node's position in the graph.
    pub closed spec fn spec_id(self) -> ValueId {
        self.id
    }

    /// The node's operation.
    pub closed spec fn spec_kind(self) -> SemanticNodeKind {
        self.kind
    }

    /// The construct that produced the node.
    pub closed spec fn spec_origin(self) -> SourceOrigin {
        self.origin
    }

    /// The node's value type.
    pub closed spec fn spec_value_type(self) -> ValueType {
        self.value_type
    }

    /// The node's inferred Video domain.
    pub closed spec fn spec_domain(self) -> Option<VideoDomain> {
        self.domain
    }

    /// Finalize a draft node at position `id` with its inferred domain.
    pub fn from_draft(id: ValueId, node: DraftNode, domain: Option<VideoDomain>) -> (compiled: Self)
        ensures
            compiled.spec_id() == id,
            compiled.spec_kind() == node.kind,
            compiled.spec_origin() == node.origin,
            compiled.spec_value_type() == node.value_type,
            compiled.spec_domain() == domain,
    {
        CompiledNode { id, kind: node.kind, origin: node.origin, value_type: node.value_type, domain }
    }

    /// Return the node's position in the graph.
    pub fn id(&self) -> (id: ValueId)
        ensures
            id == self.spec_id(),
    {
        self.id
    }

    /// Return the node's operation.
    pub fn kind(&self) -> (kind: &SemanticNodeKind)
        ensures
            *kind == self.spec_kind(),
    {
        &self.kind
    }

    /// Return the construct that produced the node.
    pub fn origin(&self) -> (origin: &SourceOrigin)
        ensures
            *origin == self.spec_origin(),
    {
        &self.origin
    }

    /// Return the node's value type.
    pub fn value_type(&self) -> (value_type: ValueType)
        ensures
            value_type == self.spec_value_type(),
    {
        self.value_type
    }

    /// Return the Video domain known without reading media, if any.
    pub fn domain(&self) -> (domain: Option<&VideoDomain>)
        ensures
            domain matches Some(d) ==> self.spec_domain() == Some(*d),
            domain is None ==> self.spec_domain() is None,
    {
        self.domain.as_ref()
    }
}

} // verus!
