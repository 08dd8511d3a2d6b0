//! Value identities, value types, and frame arithmetic of the semantic graph.

use vstd::prelude::*;

use crate::diagnostic::{BuiltinDiagnostic, Diagnostic};
use crate::source::SourceSpan;

verus! {

/// The closed set of timeline value types.
#[derive(Clone, Copy, Debug, PartialEq, Eq, Structural, PartialOrd, Ord, Hash)]
pub enum ValueType {
    Video,
    Audio,
}

/// The user-facing name of a value type.
pub open spec fn spec_value_type_label(value_type: ValueType) -> Seq<char> {
    match value_type {
        ValueType::Video => "Video"@,
        ValueType::Audio => "Audio"@,
    }
}

impl ValueType {
    /// Return the user-facing type name.
    pub fn label(self) -> (label: &'static str)
        ensures
            label@ == spec_value_type_label(self),
    {
        match self {
            ValueType::Video => "Video",
            ValueType::Audio => "Audio",
        }
    }
}

/// The position of one semantic value in its graph.
#[derive(Clone, Copy, Debug, PartialEq, Eq, Structural, PartialOrd, Ord, Hash)]
pub struct ValueId(pub u32);

impl ValueId {
    /// Construct a value identity from its graph position.
    pub fn new(raw: u32) -> (id: Self)
        ensures
            id.0 == raw,
    {
        ValueId(raw)
    }

    /// Return the graph position of this value.
    pub fn get(self) -> (raw: u32)
        ensures
            raw == self.0,
    {
        self.0
    }
}

/// A typed reference to one semantic value.
#[derive(Clone, Copy, Debug, PartialEq, Eq, Structural, PartialOrd, Ord, Hash)]
pub struct ValueRef {
    pub id: ValueId,
    pub value_type: ValueType,
}

impl ValueRef {
    /// Construct a typed value reference.
    pub fn new(id: ValueId, value_type: ValueType) -> (value: Self)
        ensures
            value.id == id,
            value.value_type == value_type,
    {
        ValueRef { id, value_type }
    }

    /// Return the referenced value's identity.
    pub fn id(self) -> (id: ValueId)
        ensures
            id == self.id,
    {
        self.id
    }

    /// Return the referenced value's type.
    pub fn value_type(self) -> (value_type: ValueType)
        ensures
            value_type == self.value_type,
    {
        self.value_type
    }

    /// The graph position of the referenced value.
    pub open spec fn index(self) -> int {
        self.id.0 as int
    }
}

/// A named-symbol identity.
#[derive(Clone, Copy, Debug, PartialEq, Eq, Structural, PartialOrd, Ord, Hash)]
pub struct SymbolId(pub u32);

impl SymbolId {
    /// Construct a symbol identity from its table position.
    pub fn new(raw: u32) -> (id: Self)
        ensures
            id.0 == raw,
    {
        SymbolId(raw)
    }

    /// Return the table position of this symbol.
    pub fn index(self) -> (index: usize)
        ensures
            index == self.0,
    {
        self.0 as usize
    }
}

/// A number of project frames.
#[derive(Clone, Copy, Debug, PartialEq, Eq, Structural, PartialOrd, Ord, Hash)]
pub struct FrameCount(pub u64);

impl FrameCount {
    /// Add two frame counts, failing with `E_FRAME_OVERFLOW` beyond the supported range.
    pub fn checked_add(self, other: FrameCount, span: &SourceSpan) -> (result: Result<FrameCount, Diagnostic>)
        ensures
            self.0 + other.0 <= u64::MAX ==> result == Ok::<FrameCount, Diagnostic>(FrameCount((self.0 + other.0) as u64)),
            self.0 + other.0 > u64::MAX ==> (result matches Err(error) && error.code@ == "E_FRAME_OVERFLOW"@
                && error.message@ == "frame count exceeds the supported range"@),
    {
        match self.0.checked_add(other.0) {
            Some(total) => Ok(FrameCount(total)),
            None => Err(frame_overflow(span)),
        }
    }

    /// Multiply a frame count by a repeat count, failing with `E_FRAME_OVERFLOW` beyond the supported range.
    pub fn checked_mul(self, count: u64, span: &SourceSpan) -> (result: Result<FrameCount, Diagnostic>)
        ensures
            self.0 * count <= u64::MAX ==> result == Ok::<FrameCount, Diagnostic>(FrameCount((self.0 * count) as u64)),
            self.0 * count > u64::MAX ==> (result matches Err(error) && error.code@ == "E_FRAME_OVERFLOW"@
                && error.message@ == "frame count exceeds the supported range"@),
    {
        match self.0.checked_mul(count) {
            Some(total) => Ok(FrameCount(total)),
            None => Err(frame_overflow(span)),
        }
    }
}

fn frame_overflow(span: &SourceSpan) -> (error: Diagnostic)
    ensures
        error.code@ == "E_FRAME_OVERFLOW"@,
        error.message@ == "frame count exceeds the supported range"@,
{
    Diagnostic::builtin(
        BuiltinDiagnostic::FrameOverflow,
        String::from_str("frame count exceeds the supported range"),
        span.clone(),
    )
}

/// A half-open, non-empty range of project frames.
#[derive(Clone, Copy, Debug, PartialEq, Eq)]
pub struct FrameRange {
    start: u64,
    end: u64,
}

impl FrameRange {
    #[verifier::type_invariant]
    spec fn non_empty(self) -> bool {
        self.start < self.end
    }

    /// The inclusive first frame.
    pub closed spec fn spec_start(self) -> u64 {
        self.start
    }

    /// The exclusive end frame.
    pub closed spec fn spec_end(self) -> u64 {
        self.end
    }

    /// Construct a frame range when `start` is earlier than `end`.
    pub fn new(start: u64, end: u64) -> (range: Option<FrameRange>)
        ensures
            start < end ==> (range matches Some(r) && r.spec_start() == start && r.spec_end() == end),
            start >= end ==> range is None,
    {
        if start < end {
            Some(FrameRange { start, end })
        } else {
            None
        }
    }

    /// Return the inclusive first frame.
    pub fn start(self) -> (start: u64)
        ensures
            start == self.spec_start(),
            start < self.spec_end(),
    {
        proof {
            use_type_invariant(&self);
        }
        self.start
    }

    /// Return the exclusive end frame.
    pub fn end(self) -> (end: u64)
        ensures
            end == self.spec_end(),
            self.spec_start() < end,
    {
        proof {
            use_type_invariant(&self);
        }
        self.end
    }

    /// Return the number of frames covered by the range.
    pub fn frames(self) -> (frames: FrameCount)
        ensures
            self.spec_start() < self.spec_end(),
            frames.0 == self.spec_end() - self.spec_start(),
    {
        proof {
            use_type_invariant(&self);
        }
        FrameCount(self.end - self.start)
    }
}

/// Project-wide canvas dimensions and frame rate.
#[derive(Clone, Copy, Debug, PartialEq, Eq, Structural)]
pub struct VideoSpec {
    pub width: u32,
    pub height: u32,
    pub frame_rate: u32,
}

/// Project-wide audio sample rate and channel count.
#[derive(Clone, Copy, Debug, PartialEq, Eq, Structural)]
pub struct AudioSpec {
    pub sample_rate: u32,
    pub channels: u16,
}

/// A Video value's exact frame domain on the project canvas.
#[derive(Clone, Copy, Debug, PartialEq, Eq, Structural)]
pub struct VideoDomain {
    frames: FrameCount,
    video: VideoSpec,
}

impl VideoDomain {
    /// Construct the domain of `frames` project frames.
    pub fn new(frames: FrameCount, video: VideoSpec) -> (domain: Self)
        ensures
            domain == VideoDomain::spec_new(frames, video),
            domain.spec_frames() == frames,
            domain.spec_video() == video,
    {
        VideoDomain { frames, video }
    }

    /// The domain of `frames` project frames on `video`.
    pub closed spec fn spec_new(frames: FrameCount, video: VideoSpec) -> VideoDomain {
        VideoDomain { frames, video }
    }

    /// A domain is determined by its frame count and canvas.
    pub proof fn lemma_new_parts(frames: FrameCount, video: VideoSpec)
        ensures
            VideoDomain::spec_new(frames, video).spec_frames() == frames,
            VideoDomain::spec_new(frames, video).spec_video() == video,
    {
    }

    /// The number of frames in the domain.
    pub closed spec fn spec_frames(self) -> FrameCount {
        self.frames
    }

    /// The canvas of the domain.
    pub closed spec fn spec_video(self) -> VideoSpec {
        self.video
    }

    /// Return the number of frames in the domain.
    pub fn frames(&self) -> (frames: FrameCount)
        ensures
            frames == self.spec_frames(),
    {
        self.frames
    }

    /// Return the canvas of the domain.
    pub fn video(&self) -> (video: VideoSpec)
        ensures
            video == self.spec_video(),
    {
        self.video
    }
}

} // verus!
