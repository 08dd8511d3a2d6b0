//! Source-independent inference of Video frame domains.
//!
//! A Video's domain is known from authored data (image durations, slice
//! ranges, repeat counts), deferred until media is probed (video files), or not
//! a Video at all. Inference walks the graph in dependency order.

use vstd::prelude::*;

use crate::compiler::traversal::{spec_deps, spec_id, spec_is_dependency_order, spec_listed_before};
use crate::diagnostic::{decimal, spec_decimal, Diagnostic};
use crate::model::{FrameCount, FrameRange, ValueRef, ValueType, VideoDomain, VideoSpec};
use crate::semantic::{spec_dependencies, DraftNode, SemanticNodeKind};
use crate::source::SourceSpan;

verus! {

/// What inference knows about one value's domain.
#[derive(Clone, Copy, Debug, PartialEq, Eq, Structural)]
pub enum DomainKnowledge {
    /// The value is not a Video.
    NotVideo,
    /// The domain depends on media that is read later.
    Deferred,
    /// The domain is known from authored data.
    Known(VideoDomain),
}

/// Why inference rejects a graph.
pub enum DomainFailure {
    /// A frame count leaves the supported range (`E_FRAME_OVERFLOW`).
    FrameOverflow,
    /// The frame range `start..end` reaches past its input of `frames` frames (`E_INVALID_TIME_RANGE`).
    InvalidTimeRange { start: u64, end: u64, frames: u64 },
    /// A flash of `frames` frames is longer than the `after` Video of `after` frames (`E_INVALID_FLASH_FRAMES`).
    InvalidFlashFrames { frames: u64, after: u64 },
}

/// The outcome of inferring one node's domain.
pub enum DomainStep {
    /// The node's domain knowledge.
    Next(DomainKnowledge),
    /// The node is rejected.
    Fail(DomainFailure),
    /// The graph breaks an invariant that evaluation establishes: an index out of
    /// range, an unbound reference, or a non-Video input where a Video is required.
    Stuck,
}

/// The diagnostic code of a failure.
pub open spec fn spec_failure_code(failure: DomainFailure) -> Seq<char> {
    match failure {
        DomainFailure::FrameOverflow => "E_FRAME_OVERFLOW"@,
        DomainFailure::InvalidTimeRange { .. } => "E_INVALID_TIME_RANGE"@,
        DomainFailure::InvalidFlashFrames { .. } => "E_INVALID_FLASH_FRAMES"@,
    }
}

/// The diagnostic message of a failure.
pub open spec fn spec_failure_message(failure: DomainFailure) -> Seq<char> {
    match failure {
        DomainFailure::FrameOverflow => "frame count exceeds the supported range"@,
        DomainFailure::InvalidTimeRange { start, end, frames } => "frame range "@ + spec_decimal(start) + ".."@
            + spec_decimal(end) + " is outside the base Video domain of "@ + spec_decimal(frames) + " frames"@,
        DomainFailure::InvalidFlashFrames { frames, after } => "`flash.frames` is "@ + spec_decimal(frames)
            + " frames, but `after` contains only "@ + spec_decimal(after) + " frames"@,
    }
}

/// Whether `error` reports `failure`: its code and its message.
pub open spec fn spec_reports(error: Diagnostic, failure: DomainFailure) -> bool {
    &&& error.code@ == spec_failure_code(failure)
    &&& error.message@ == spec_failure_message(failure)
}

/// The known domain of `frames` project frames.
pub open spec fn spec_known(video: VideoSpec, frames: int) -> DomainKnowledge {
    DomainKnowledge::Known(VideoDomain::spec_new(FrameCount(frames as u64), video))
}

/// The knowledge recorded for `value`, if it lies inside the table.
pub open spec fn spec_at(knowledge: Seq<DomainKnowledge>, value: ValueRef) -> Option<DomainKnowledge> {
    if 0 <= spec_id(value) < knowledge.len() {
        Some(knowledge[spec_id(value)])
    } else {
        None
    }
}

/// Knowledge taken over unchanged from another value.
pub open spec fn spec_copy(knowledge: Seq<DomainKnowledge>, value: ValueRef) -> DomainStep {
    match spec_at(knowledge, value) {
        Some(found) => DomainStep::Next(found),
        None => DomainStep::Stuck,
    }
}

/// The frame count of a known domain.
pub open spec fn spec_frames_of(domain: VideoDomain) -> int {
    domain.spec_frames().0 as int
}

/// A flash join: the flash must fit in the Video after it; the joined length is the sum.
pub open spec fn spec_flash(before: DomainKnowledge, after: DomainKnowledge, frames: FrameCount, video: VideoSpec) -> DomainStep {
    if after matches DomainKnowledge::Known(a) && frames.0 > spec_frames_of(a) {
        DomainStep::Fail(DomainFailure::InvalidFlashFrames { frames: frames.0, after: after->Known_0.spec_frames().0 })
    } else {
        match (before, after) {
            (DomainKnowledge::Known(b), DomainKnowledge::Known(a)) =>
                if spec_frames_of(b) + spec_frames_of(a) > u64::MAX {
                    DomainStep::Fail(DomainFailure::FrameOverflow)
                } else {
                    DomainStep::Next(spec_known(video, spec_frames_of(b) + spec_frames_of(a)))
                },
            (DomainKnowledge::NotVideo, _) => DomainStep::Stuck,
            (_, DomainKnowledge::NotVideo) => DomainStep::Stuck,
            _ => DomainStep::Next(DomainKnowledge::Deferred),
        }
    }
}

/// Scan the first `k` concat inputs for a deferred one: `None` when an input lies
/// outside the table before any deferred input is seen.
pub open spec fn spec_concat_deferred(inputs: Seq<ValueRef>, knowledge: Seq<DomainKnowledge>, k: nat) -> Option<bool>
    decreases k,
{
    if k == 0 {
        Some(false)
    } else {
        match spec_concat_deferred(inputs, knowledge, (k - 1) as nat) {
            Some(false) => match spec_at(knowledge, inputs[k - 1]) {
                None => None,
                Some(DomainKnowledge::Deferred) => Some(true),
                Some(_) => Some(false),
            },
            other => other,
        }
    }
}

/// The sum of the first `k` known concat inputs, failing on overflow.
pub open spec fn spec_concat_sum(inputs: Seq<ValueRef>, knowledge: Seq<DomainKnowledge>, video: VideoSpec, k: nat) -> DomainStep
    decreases k,
{
    if k == 0 {
        DomainStep::Next(spec_known(video, 0))
    } else {
        match spec_concat_sum(inputs, knowledge, video, (k - 1) as nat) {
            DomainStep::Next(DomainKnowledge::Known(total)) => match spec_at(knowledge, inputs[k - 1]) {
                Some(DomainKnowledge::Known(d)) =>
                    if spec_frames_of(total) + spec_frames_of(d) > u64::MAX {
                        DomainStep::Fail(DomainFailure::FrameOverflow)
                    } else {
                        DomainStep::Next(spec_known(video, spec_frames_of(total) + spec_frames_of(d)))
                    },
                _ => DomainStep::Stuck,
            },
            other => other,
        }
    }
}

/// A concatenation: deferred when any input is deferred, else the sum of its inputs.
pub open spec fn spec_concat(inputs: Seq<ValueRef>, knowledge: Seq<DomainKnowledge>, video: VideoSpec) -> DomainStep {
    match spec_concat_deferred(inputs, knowledge, inputs.len()) {
        None => DomainStep::Stuck,
        Some(true) => DomainStep::Next(DomainKnowledge::Deferred),
        Some(false) => spec_concat_sum(inputs, knowledge, video, inputs.len()),
    }
}

/// A range replaced inside a base Video by a replacement Video.
pub open spec fn spec_replace(
    base: Option<DomainKnowledge>, replacement: Option<DomainKnowledge>, range: FrameRange, video: VideoSpec,
) -> DomainStep {
    match base {
        None => DomainStep::Stuck,
        Some(b) => if b matches DomainKnowledge::Known(bd) && range.spec_end() > spec_frames_of(bd) {
            DomainStep::Fail(DomainFailure::InvalidTimeRange {
                start: range.spec_start(), end: range.spec_end(), frames: b->Known_0.spec_frames().0,
            })
        } else {
            match replacement {
                None => DomainStep::Stuck,
                Some(r) => match (b, r) {
                    (DomainKnowledge::Known(bd), DomainKnowledge::Known(rd)) => {
                        let total = spec_frames_of(bd) - (range.spec_end() - range.spec_start()) + spec_frames_of(rd);
                        if total > u64::MAX {
                            DomainStep::Fail(DomainFailure::FrameOverflow)
                        } else {
                            DomainStep::Next(spec_known(video, total))
                        }
                    },
                    (DomainKnowledge::NotVideo, _) => DomainStep::Stuck,
                    (_, DomainKnowledge::NotVideo) => DomainStep::Stuck,
                    _ => DomainStep::Next(DomainKnowledge::Deferred),
                },
            }
        }
    }
}

/// The domain knowledge of a Video node, given the knowledge of the values before it.
pub open spec fn spec_node_step(kind: SemanticNodeKind, knowledge: Seq<DomainKnowledge>, symbols: Seq<ValueRef>, video: VideoSpec) -> DomainStep {
    match kind {
        SemanticNodeKind::ImageVideo { frames, .. } => DomainStep::Next(spec_known(video, frames.0 as int)),
        SemanticNodeKind::VideoSource { .. } => DomainStep::Next(DomainKnowledge::Deferred),
        SemanticNodeKind::AudioOnBlack { .. } => DomainStep::Next(DomainKnowledge::Deferred),
        SemanticNodeKind::ExternalVideo { inputs, preserve_input } =>
            if preserve_input < inputs@.len() { spec_copy(knowledge, inputs@[preserve_input as int]) } else { DomainStep::Stuck },
        SemanticNodeKind::AudioSource { .. } => DomainStep::Next(DomainKnowledge::NotVideo),
        SemanticNodeKind::AudioRepeat { .. } => DomainStep::Next(DomainKnowledge::NotVideo),
        SemanticNodeKind::AudioConcat { .. } => DomainStep::Next(DomainKnowledge::NotVideo),
        SemanticNodeKind::AudioSlice { .. } => DomainStep::Next(DomainKnowledge::NotVideo),
        SemanticNodeKind::ExtractAudio { .. } => DomainStep::Next(DomainKnowledge::NotVideo),
        SemanticNodeKind::Reference { symbol } =>
            if (symbol.0 as int) < symbols.len() { spec_copy(knowledge, symbols[symbol.0 as int]) } else { DomainStep::Stuck },
        SemanticNodeKind::Repeat { input, count } => match spec_at(knowledge, input) {
            None => DomainStep::Stuck,
            Some(DomainKnowledge::Known(d)) => if spec_frames_of(d) * count > u64::MAX {
                DomainStep::Fail(DomainFailure::FrameOverflow)
            } else {
                DomainStep::Next(spec_known(video, spec_frames_of(d) * count))
            },
            Some(other) => DomainStep::Next(other),
        },
        SemanticNodeKind::Zoom { input } => spec_copy(knowledge, input),
        SemanticNodeKind::Wobble { input } => spec_copy(knowledge, input),
        SemanticNodeKind::SetAudio { video: input, .. } => spec_copy(knowledge, input),
        SemanticNodeKind::FlashJoin { before, after, frames } => match (spec_at(knowledge, before), spec_at(knowledge, after)) {
            (Some(b), Some(a)) => spec_flash(b, a, frames, video),
            _ => DomainStep::Stuck,
        },
        SemanticNodeKind::Concat { inputs } => spec_concat(inputs@, knowledge, video),
        SemanticNodeKind::Slice { input, range } => match spec_at(knowledge, input) {
            None => DomainStep::Stuck,
            Some(DomainKnowledge::Known(d)) => if range.spec_end() > spec_frames_of(d) {
                DomainStep::Fail(DomainFailure::InvalidTimeRange {
                    start: range.spec_start(), end: range.spec_end(), frames: d.spec_frames().0,
                })
            } else {
                DomainStep::Next(spec_known(video, range.spec_end() - range.spec_start()))
            },
            Some(_) => DomainStep::Next(spec_known(video, range.spec_end() - range.spec_start())),
        },
        SemanticNodeKind::ReplaceRange { base, replacement, range } =>
            spec_replace(spec_at(knowledge, base), spec_at(knowledge, replacement), range, video),
    }
}

/// Inference over the first `k` values of `order`: the knowledge table, the
/// failure that stopped it, or `None` when the graph breaks an evaluation invariant.
pub open spec fn spec_infer(
    nodes: Seq<DraftNode>, symbols: Seq<ValueRef>, video: VideoSpec, order: Seq<ValueRef>, k: nat,
) -> Option<Result<Seq<DomainKnowledge>, DomainFailure>>
    decreases k,
{
    if k == 0 {
        Some(Ok(Seq::new(nodes.len(), |i: int| DomainKnowledge::NotVideo)))
    } else {
        match spec_infer(nodes, symbols, video, order, (k - 1) as nat) {
            Some(Ok(knowledge)) => {
                let value = order[k - 1];
                if value.value_type != ValueType::Video {
                    Some(Ok(knowledge))
                } else if !(0 <= spec_id(value) < nodes.len()) {
                    None
                } else {
                    match spec_node_step(nodes[spec_id(value)].kind, knowledge, symbols, video) {
                        DomainStep::Next(next) => Some(Ok(knowledge.update(spec_id(value), next))),
                        DomainStep::Fail(failure) => Some(Err(failure)),
                        DomainStep::Stuck => None,
                    }
                }
            },
            other => other,
        }
    }
}

/// The domain reported for a value: its known domain, if any.
pub open spec fn spec_reported(knowledge: DomainKnowledge) -> Option<VideoDomain> {
    match knowledge {
        DomainKnowledge::Known(domain) => Some(domain),
        _ => None,
    }
}

/// Once inference stops, by failure or by a broken invariant, it stays stopped.
pub proof fn lemma_infer_stops(
    nodes: Seq<DraftNode>, symbols: Seq<ValueRef>, video: VideoSpec, order: Seq<ValueRef>, k: nat, j: nat,
)
    requires
        k <= j,
        !(spec_infer(nodes, symbols, video, order, k) matches Some(Ok(_))),
    ensures
        spec_infer(nodes, symbols, video, order, j) == spec_infer(nodes, symbols, video, order, k),
    decreases j,
{
    if j > k {
        lemma_infer_stops(nodes, symbols, video, order, k, (j - 1) as nat);
    }
}

/// The domain of `frames` project frames on the project canvas.
pub fn project_domain(video: &VideoSpec, frames: FrameCount) -> (domain: VideoDomain)
    ensures
        domain == VideoDomain::spec_new(frames, *video),
{
    VideoDomain::new(frames, *video)
}

/// Require a frame range to lie inside an input of `input` frames.
pub fn validate_range(range: FrameRange, input: FrameCount, span: &SourceSpan) -> (result: Result<(), Diagnostic>)
    ensures
        range.spec_end() <= input.0 <==> result is Ok,
        result matches Err(error) ==> error.code@ == "E_INVALID_TIME_RANGE"@
            && error.message@ == "frame range "@ + crate::diagnostic::spec_decimal(range.spec_start()) + ".."@
                + crate::diagnostic::spec_decimal(range.spec_end()) + " is outside the base Video domain of "@
                + crate::diagnostic::spec_decimal(input.0) + " frames"@,
{
    if range.end() > input.0 {
        let mut message = String::from_str("frame range ");
        let start = decimal(range.start());
        message.append(start.as_str());
        message.append("..");
        let end = decimal(range.end());
        message.append(end.as_str());
        message.append(" is outside the base Video domain of ");
        let total = decimal(input.0);
        message.append(total.as_str());
        message.append(" frames");
        return Err(Diagnostic::new("E_INVALID_TIME_RANGE", message, span.clone_span()));
    }
    Ok(())
}

/// Require a flash of `frames` frames to fit in the `after` Video.
pub fn validate_flash_frames(frames: FrameCount, after: FrameCount, span: &SourceSpan) -> (result: Result<(), Diagnostic>)
    ensures
        frames.0 <= after.0 <==> result is Ok,
        result matches Err(error) ==> error.code@ == "E_INVALID_FLASH_FRAMES"@
            && error.message@ == "`flash.frames` is "@ + crate::diagnostic::spec_decimal(frames.0)
                + " frames, but `after` contains only "@ + crate::diagnostic::spec_decimal(after.0) + " frames"@,
{
    if frames.0 > after.0 {
        let mut message = String::from_str("`flash.frames` is ");
        let count = decimal(frames.0);
        message.append(count.as_str());
        message.append(" frames, but `after` contains only ");
        let total = decimal(after.0);
        message.append(total.as_str());
        message.append(" frames");
        return Err(Diagnostic::new("E_INVALID_FLASH_FRAMES", message, span.clone_span()));
    }
    Ok(())
}

/// Infer the domain of a flash join from the knowledge of its two inputs.
pub fn infer_flash_domain(
    before: &DomainKnowledge, after: &DomainKnowledge, frames: FrameCount, video: &VideoSpec, span: &SourceSpan,
) -> (result: Result<DomainKnowledge, Diagnostic>)
    requires
        !(spec_flash(*before, *after, frames, *video) is Stuck),
    ensures
        spec_flash(*before, *after, frames, *video) matches DomainStep::Next(next) ==> result == Ok::<DomainKnowledge, Diagnostic>(next),
        spec_flash(*before, *after, frames, *video) matches DomainStep::Fail(failure)
            ==> (result matches Err(error) && spec_reports(error, failure)),
{
    if let DomainKnowledge::Known(after_domain) = after {
        validate_flash_frames(frames, after_domain.frames(), span)?;
    }
    match (before, after) {
        (DomainKnowledge::Known(before_domain), DomainKnowledge::Known(after_domain)) => {
            let total = before_domain.frames().checked_add(after_domain.frames(), span)?;
            Ok(DomainKnowledge::Known(project_domain(video, total)))
        },
        _ => Ok(DomainKnowledge::Deferred),
    }
}

/// Infer the domain of a concatenation from the knowledge of its inputs.
pub fn infer_concat_domain(
    inputs: &[ValueRef], knowledge: &[DomainKnowledge], video: &VideoSpec, span: &SourceSpan,
) -> (result: Result<DomainKnowledge, Diagnostic>)
    requires
        !(spec_concat(inputs@, knowledge@, *video) is Stuck),
    ensures
        spec_concat(inputs@, knowledge@, *video) matches DomainStep::Next(next) ==> result == Ok::<DomainKnowledge, Diagnostic>(next),
        spec_concat(inputs@, knowledge@, *video) matches DomainStep::Fail(failure)
            ==> (result matches Err(error) && spec_reports(error, failure)),
{
    let ghost all = inputs@.len();
    let mut i: usize = 0;
    while i < inputs.len()
        invariant
            i <= inputs@.len(),
            all == inputs@.len(),
            spec_concat_deferred(inputs@, knowledge@, i as nat) == Some(false),
            !(spec_concat(inputs@, knowledge@, *video) is Stuck),
        decreases inputs@.len() - i,
    {
        proof {
            if spec_concat_deferred(inputs@, knowledge@, (i + 1) as nat) != Some(false) {
                lemma_deferred_stops(inputs@, knowledge@, (i + 1) as nat, all);
            }
        }
        let index = inputs[i].id.0 as usize;
        if let DomainKnowledge::Deferred = knowledge[index] {
            return Ok(DomainKnowledge::Deferred);
        }
        i = i + 1;
    }
    let mut total = FrameCount(0);
    proof {
        VideoDomain::lemma_new_parts(FrameCount(0), *video);
    }
    let mut i: usize = 0;
    while i < inputs.len()
        invariant
            i <= inputs@.len(),
            spec_concat_deferred(inputs@, knowledge@, inputs@.len()) == Some(false),
            spec_concat_sum(inputs@, knowledge@, *video, i as nat) == DomainStep::Next(spec_known(*video, total.0 as int)),
            !(spec_concat(inputs@, knowledge@, *video) is Stuck),
        decreases inputs@.len() - i,
    {
        proof {
            lemma_deferred_prefix(inputs@, knowledge@, (i + 1) as nat, inputs@.len());
            if !(spec_concat_sum(inputs@, knowledge@, *video, (i + 1) as nat) matches DomainStep::Next(DomainKnowledge::Known(_))) {
                lemma_sum_stops(inputs@, knowledge@, *video, (i + 1) as nat, inputs@.len());
            }
            VideoDomain::lemma_new_parts(FrameCount(total.0), *video);
        }
        let index = inputs[i].id.0 as usize;
        match knowledge[index] {
            DomainKnowledge::Known(domain) => {
                total = total.checked_add(domain.frames(), span)?;
            },
            _ => {},
        }
        proof {
            VideoDomain::lemma_new_parts(FrameCount(total.0), *video);
        }
        i = i + 1;
    }
    Ok(DomainKnowledge::Known(project_domain(video, total)))
}

proof fn lemma_deferred_stops(inputs: Seq<ValueRef>, knowledge: Seq<DomainKnowledge>, k: nat, j: nat)
    requires
        k <= j,
        !(spec_concat_deferred(inputs, knowledge, k) == Some(false)),
    ensures
        spec_concat_deferred(inputs, knowledge, j) == spec_concat_deferred(inputs, knowledge, k),
    decreases j,
{
    if j > k {
        lemma_deferred_stops(inputs, knowledge, k, (j - 1) as nat);
    }
}

proof fn lemma_deferred_prefix(inputs: Seq<ValueRef>, knowledge: Seq<DomainKnowledge>, k: nat, j: nat)
    requires
        k <= j,
        spec_concat_deferred(inputs, knowledge, j) == Some(false),
    ensures
        spec_concat_deferred(inputs, knowledge, k) == Some(false),
    decreases j,
{
    if j > k {
        if spec_concat_deferred(inputs, knowledge, (j - 1) as nat) != Some(false) {
            lemma_deferred_stops(inputs, knowledge, (j - 1) as nat, j);
        }
        lemma_deferred_prefix(inputs, knowledge, k, (j - 1) as nat);
    }
}

proof fn lemma_sum_stops(inputs: Seq<ValueRef>, knowledge: Seq<DomainKnowledge>, video: VideoSpec, k: nat, j: nat)
    requires
        k <= j,
        !(spec_concat_sum(inputs, knowledge, video, k) matches DomainStep::Next(DomainKnowledge::Known(_))),
    ensures
        spec_concat_sum(inputs, knowledge, video, j) == spec_concat_sum(inputs, knowledge, video, k),
    decreases j,
{
    if j > k {
        lemma_sum_stops(inputs, knowledge, video, k, (j - 1) as nat);
    }
}

/// Infer the domain knowledge of one Video node from the knowledge of the values before it.
pub fn infer_node_domain(
    node: &DraftNode, knowledge: &[DomainKnowledge], symbols: &[ValueRef], video: &VideoSpec,
) -> (result: Result<DomainKnowledge, Diagnostic>)
    requires
        !(spec_node_step(node.kind, knowledge@, symbols@, *video) is Stuck),
    ensures
        spec_node_step(node.kind, knowledge@, symbols@, *video) matches DomainStep::Next(next)
            ==> result == Ok::<DomainKnowledge, Diagnostic>(next),
        spec_node_step(node.kind, knowledge@, symbols@, *video) matches DomainStep::Fail(failure)
            ==> (result matches Err(error) && spec_reports(error, failure)),
{
    let span = &node.origin.span;
    match &node.kind {
        SemanticNodeKind::ImageVideo { frames, .. } => Ok(DomainKnowledge::Known(project_domain(video, *frames))),
        SemanticNodeKind::VideoSource { .. } | SemanticNodeKind::AudioOnBlack { .. } => Ok(DomainKnowledge::Deferred),
        SemanticNodeKind::ExternalVideo { inputs, preserve_input } => {
            let preserved = inputs[*preserve_input];
            Ok(knowledge[preserved.id.0 as usize])
        },
        SemanticNodeKind::AudioSource { .. }
        | SemanticNodeKind::AudioRepeat { .. }
        | SemanticNodeKind::AudioConcat { .. }
        | SemanticNodeKind::AudioSlice { .. }
        | SemanticNodeKind::ExtractAudio { .. } => Ok(DomainKnowledge::NotVideo),
        SemanticNodeKind::Reference { symbol } => {
            let target = symbols[symbol.index()];
            Ok(knowledge[target.id.0 as usize])
        },
        SemanticNodeKind::Repeat { input, count } => {
            match knowledge[input.id.0 as usize] {
                DomainKnowledge::Known(domain) => {
                    let frames = domain.frames().checked_mul(*count, span)?;
                    Ok(DomainKnowledge::Known(project_domain(video, frames)))
                },
                other => Ok(other),
            }
        },
        SemanticNodeKind::Zoom { input }
        | SemanticNodeKind::Wobble { input }
        | SemanticNodeKind::SetAudio { video: input, .. } => Ok(knowledge[input.id.0 as usize]),
        SemanticNodeKind::FlashJoin { before, after, frames } => {
            let before_knowledge = knowledge[before.id.0 as usize];
            let after_knowledge = knowledge[after.id.0 as usize];
            infer_flash_domain(&before_knowledge, &after_knowledge, *frames, video, span)
        },
        SemanticNodeKind::Concat { inputs } => infer_concat_domain(inputs.as_slice(), knowledge, video, span),
        SemanticNodeKind::Slice { input, range } => {
            if let DomainKnowledge::Known(input_domain) = knowledge[input.id.0 as usize] {
                validate_range(*range, input_domain.frames(), span)?;
            }
            Ok(DomainKnowledge::Known(project_domain(video, range.frames())))
        },
        SemanticNodeKind::ReplaceRange { base, replacement, range } => {
            let base_knowledge = knowledge[base.id.0 as usize];
            if let DomainKnowledge::Known(base_domain) = base_knowledge {
                validate_range(*range, base_domain.frames(), span)?;
            }
            let replacement_knowledge = knowledge[replacement.id.0 as usize];
            match (base_knowledge, replacement_knowledge) {
                (DomainKnowledge::Known(base_domain), DomainKnowledge::Known(replacement_domain)) => {
                    let kept = FrameCount(base_domain.frames().0 - range.frames().0);
                    let total = kept.checked_add(replacement_domain.frames(), span)?;
                    Ok(DomainKnowledge::Known(project_domain(video, total)))
                },
                _ => Ok(DomainKnowledge::Deferred),
            }
        },
    }
}

/// Infer every value's Video domain, visiting values in dependency `order`.
///
/// Each entry is the domain known from authored data, or `None` for values that
/// are not Videos or whose domain is deferred until media is read.
pub fn infer_domains(
    nodes: &[DraftNode], symbols: &[ValueRef], video: &VideoSpec, order: &[ValueRef],
) -> (result: Result<Vec<Option<VideoDomain>>, Diagnostic>)
    requires
        spec_infer(nodes@, symbols@, *video, order@, order@.len()) is Some,
    ensures
        spec_infer(nodes@, symbols@, *video, order@, order@.len()) matches Some(Ok(knowledge))
            ==> (result matches Ok(domains) && domains@ == knowledge.map_values(|k: DomainKnowledge| spec_reported(k))),
        spec_infer(nodes@, symbols@, *video, order@, order@.len()) matches Some(Err(failure))
            ==> (result matches Err(error) && spec_reports(error, failure)),
{
    let n = nodes.len();
    let mut knowledge: Vec<DomainKnowledge> = Vec::new();
    while knowledge.len() < n
        invariant
            knowledge@.len() <= n,
            n == nodes@.len(),
            forall|i: int| 0 <= i < knowledge@.len() ==> knowledge@[i] == DomainKnowledge::NotVideo,
        decreases n - knowledge@.len(),
    {
        knowledge.push(DomainKnowledge::NotVideo);
    }
    assert(knowledge@ =~= Seq::new(nodes@.len(), |i: int| DomainKnowledge::NotVideo));
    let mut p: usize = 0;
    while p < order.len()
        invariant
            p <= order@.len(),
            n == nodes@.len(),
            knowledge@.len() == n,
            spec_infer(nodes@, symbols@, *video, order@, p as nat) == Some(Ok::<Seq<DomainKnowledge>, DomainFailure>(knowledge@)),
            spec_infer(nodes@, symbols@, *video, order@, order@.len()) is Some,
        decreases order@.len() - p,
    {
        let value = order[p];
        let ghost before = knowledge@;
        proof {
            if !(spec_infer(nodes@, symbols@, *video, order@, (p + 1) as nat) matches Some(Ok(_))) {
                lemma_infer_stops(nodes@, symbols@, *video, order@, (p + 1) as nat, order@.len());
            }
        }
        if value.value_type == ValueType::Video {
            let index = value.id.0 as usize;
            let next = infer_node_domain(&nodes[index], knowledge.as_slice(), symbols, video)?;
            knowledge.set(index, next);
        }
        p = p + 1;
    }
    let mut domains: Vec<Option<VideoDomain>> = Vec::new();
    let mut i: usize = 0;
    while i < knowledge.len()
        invariant
            i <= knowledge@.len(),
            domains@.len() == i,
            forall|j: int| 0 <= j < i ==> domains@[j] == spec_reported(knowledge@[j]),
        decreases knowledge@.len() - i,
    {
        let reported = match knowledge[i] {
            DomainKnowledge::Known(domain) => Some(domain),
            _ => None,
        };
        domains.push(reported);
        i = i + 1;
    }
    assert(domains@ =~= knowledge@.map_values(|k: DomainKnowledge| spec_reported(k)));
    Ok(domains)
}

/// Whether an operation may produce a value of `value_type`: audio operations produce Audio,
/// references produce their symbol's type, and every other operation produces Video.
pub open spec fn spec_kind_allows(kind: SemanticNodeKind, value_type: ValueType) -> bool {
    match kind {
        SemanticNodeKind::Reference { .. } => true,
        SemanticNodeKind::AudioSource { .. } => value_type == ValueType::Audio,
        SemanticNodeKind::AudioRepeat { .. } => value_type == ValueType::Audio,
        SemanticNodeKind::AudioConcat { .. } => value_type == ValueType::Audio,
        SemanticNodeKind::AudioSlice { .. } => value_type == ValueType::Audio,
        SemanticNodeKind::ExtractAudio { .. } => value_type == ValueType::Audio,
        _ => value_type == ValueType::Video,
    }
}

/// The inputs an operation requires to be Videos.
pub open spec fn spec_video_inputs(kind: SemanticNodeKind) -> Seq<ValueRef> {
    match kind {
        SemanticNodeKind::ExternalVideo { inputs, preserve_input } =>
            if preserve_input < inputs@.len() { seq![inputs@[preserve_input as int]] } else { Seq::empty() },
        SemanticNodeKind::Repeat { input, .. } => seq![input],
        SemanticNodeKind::Zoom { input } => seq![input],
        SemanticNodeKind::Wobble { input } => seq![input],
        SemanticNodeKind::Slice { input, .. } => seq![input],
        SemanticNodeKind::ExtractAudio { video } => seq![video],
        SemanticNodeKind::SetAudio { video, .. } => seq![video],
        SemanticNodeKind::FlashJoin { before, after, .. } => seq![before, after],
        SemanticNodeKind::ReplaceRange { base, replacement, .. } => seq![base, replacement],
        SemanticNodeKind::Concat { inputs } => inputs@,
        _ => Seq::empty(),
    }
}

/// Whether `value` names a node of the graph at that node's type.
pub open spec fn spec_typed_ref(nodes: Seq<DraftNode>, value: ValueRef) -> bool {
    0 <= spec_id(value) < nodes.len() && nodes[spec_id(value)].value_type == value.value_type
}

/// Whether node `i` is well typed: it produces a type its operation allows, consumes
/// existing values at their types, receives Videos where it needs them, refers to an
/// existing symbol of its own type, and keeps the domain of one of its inputs when external.
pub open spec fn spec_typed_node(nodes: Seq<DraftNode>, symbols: Seq<ValueRef>, i: int) -> bool {
    let node = nodes[i];
    &&& spec_kind_allows(node.kind, node.value_type)
    &&& forall|m: int| 0 <= m < spec_dependencies(node.kind, symbols).len()
        ==> spec_typed_ref(nodes, #[trigger] spec_dependencies(node.kind, symbols)[m])
    &&& forall|m: int| 0 <= m < spec_video_inputs(node.kind).len()
        ==> (#[trigger] spec_video_inputs(node.kind)[m]).value_type == ValueType::Video
    &&& (node.kind matches SemanticNodeKind::ExternalVideo { inputs, preserve_input } ==> preserve_input < inputs@.len())
    &&& (node.kind matches SemanticNodeKind::Reference { symbol }
        ==> (symbol.0 as int) < symbols.len() && symbols[symbol.0 as int].value_type == node.value_type)
}

/// Whether every node of the graph is well typed.
pub open spec fn spec_typed_graph(nodes: Seq<DraftNode>, symbols: Seq<ValueRef>) -> bool {
    forall|i: int| 0 <= i < nodes.len() ==> #[trigger] spec_typed_node(nodes, symbols, i)
}

/// Knowledge after the first `k` values of `order`: every Video among them is known or deferred.
spec fn knowledge_good(nodes: Seq<DraftNode>, order: Seq<ValueRef>, knowledge: Seq<DomainKnowledge>, k: int) -> bool {
    &&& knowledge.len() == nodes.len()
    &&& forall|q: int| 0 <= q < k && (#[trigger] order[q]).value_type == ValueType::Video
        ==> 0 <= spec_id(order[q]) < nodes.len() && knowledge[spec_id(order[q])] != DomainKnowledge::NotVideo
}

/// A Video that node `order[k]` consumes was listed, and so inferred, before it.
proof fn lemma_video_dep_known(
    nodes: Seq<DraftNode>, symbols: Seq<ValueRef>, order: Seq<ValueRef>, knowledge: Seq<DomainKnowledge>, k: int, m: int,
)
    requires
        spec_typed_graph(nodes, symbols),
        spec_is_dependency_order(nodes, symbols, order),
        forall|p: int| 0 <= p < order.len() ==> spec_typed_ref(nodes, #[trigger] order[p]),
        0 <= k < order.len(),
        knowledge_good(nodes, order, knowledge, k),
        0 <= m < spec_dependencies(nodes[spec_id(order[k])].kind, symbols).len(),
        spec_dependencies(nodes[spec_id(order[k])].kind, symbols)[m].value_type == ValueType::Video,
    ensures
        ({
            let d = spec_dependencies(nodes[spec_id(order[k])].kind, symbols)[m];
            spec_at(knowledge, d) matches Some(found) && found != DomainKnowledge::NotVideo
        }),
{
    reveal(spec_deps);
    let i = spec_id(order[k]);
    let d = spec_dependencies(nodes[i].kind, symbols)[m];
    assert(spec_typed_node(nodes, symbols, i));
    assert(spec_typed_ref(nodes, d));
    assert(spec_deps(nodes, symbols, i)[m] == d);
    assert(spec_listed_before(order, k, spec_id(d)));
    let q = choose|q: int| 0 <= q < k && spec_id(#[trigger] order[q]) == spec_id(d);
    assert(spec_typed_ref(nodes, order[q]));
}

/// With every Video input inferred, a Video node's step never gets stuck and never yields `NotVideo`.
#[verifier::rlimit(50)]
proof fn lemma_step_defined(
    nodes: Seq<DraftNode>, symbols: Seq<ValueRef>, video: VideoSpec, order: Seq<ValueRef>,
    knowledge: Seq<DomainKnowledge>, k: int,
)
    requires
        spec_typed_graph(nodes, symbols),
        spec_is_dependency_order(nodes, symbols, order),
        forall|p: int| 0 <= p < order.len() ==> spec_typed_ref(nodes, #[trigger] order[p]),
        0 <= k < order.len(),
        order[k].value_type == ValueType::Video,
        knowledge_good(nodes, order, knowledge, k),
    ensures
        ({
            let step = spec_node_step(nodes[spec_id(order[k])].kind, knowledge, symbols, video);
            ||| step is Fail
            ||| (step matches DomainStep::Next(next) && next != DomainKnowledge::NotVideo)
        }),
{
    let i = spec_id(order[k]);
    assert(spec_typed_ref(nodes, order[k]));
    assert(spec_typed_node(nodes, symbols, i));
    let kind = nodes[i].kind;
    let deps = spec_dependencies(kind, symbols);
    let ins = spec_video_inputs(kind);
    match kind {
        SemanticNodeKind::ExternalVideo { inputs, preserve_input } => {
            assert(ins[0] == deps[preserve_input as int]);
            lemma_video_dep_known(nodes, symbols, order, knowledge, k, preserve_input as int);
        },
        SemanticNodeKind::Reference { symbol } => {
            lemma_video_dep_known(nodes, symbols, order, knowledge, k, 0);
        },
        SemanticNodeKind::Repeat { .. } | SemanticNodeKind::Zoom { .. } | SemanticNodeKind::Wobble { .. }
        | SemanticNodeKind::Slice { .. } => {
            assert(ins[0] == deps[0]);
            lemma_video_dep_known(nodes, symbols, order, knowledge, k, 0);
        },
        SemanticNodeKind::SetAudio { .. } => {
            assert(ins[0] == deps[1]);
            lemma_video_dep_known(nodes, symbols, order, knowledge, k, 1);
        },
        SemanticNodeKind::FlashJoin { .. } | SemanticNodeKind::ReplaceRange { .. } => {
            assert(ins[0] == deps[0]);
            assert(ins[1] == deps[1]);
            lemma_video_dep_known(nodes, symbols, order, knowledge, k, 0);
            lemma_video_dep_known(nodes, symbols, order, knowledge, k, 1);
        },
        SemanticNodeKind::Concat { inputs } => {
            assert forall|m: int| 0 <= m < inputs@.len() implies
                (spec_at(knowledge, #[trigger] inputs@[m]) matches Some(found) && found != DomainKnowledge::NotVideo) by {
                assert(ins[m] == deps[m]);
                lemma_video_dep_known(nodes, symbols, order, knowledge, k, m);
            }
            lemma_concat_defined(inputs@, knowledge, video, inputs@.len());
            if spec_concat_deferred(inputs@, knowledge, inputs@.len()) == Some(false) {
                lemma_concat_sum_defined(inputs@, knowledge, video, inputs@.len());
            }
        },
        _ => {},
    }
}

proof fn lemma_concat_defined(inputs: Seq<ValueRef>, knowledge: Seq<DomainKnowledge>, video: VideoSpec, k: nat)
    requires
        k <= inputs.len(),
        forall|m: int| 0 <= m < inputs.len()
            ==> (spec_at(knowledge, #[trigger] inputs[m]) matches Some(found) && found != DomainKnowledge::NotVideo),
    ensures
        spec_concat_deferred(inputs, knowledge, k) is Some,
        spec_concat_deferred(inputs, knowledge, k) == Some(false)
            ==> forall|m: int| 0 <= m < k ==> (spec_at(knowledge, #[trigger] inputs[m]) matches Some(DomainKnowledge::Known(_))),
    decreases k,
{
    if k > 0 {
        lemma_concat_defined(inputs, knowledge, video, (k - 1) as nat);
    }
}

proof fn lemma_concat_sum_defined(inputs: Seq<ValueRef>, knowledge: Seq<DomainKnowledge>, video: VideoSpec, k: nat)
    requires
        k <= inputs.len(),
        forall|m: int| 0 <= m < k ==> (spec_at(knowledge, #[trigger] inputs[m]) matches Some(DomainKnowledge::Known(_))),
    ensures
        spec_concat_sum(inputs, knowledge, video, k) is Fail
            || spec_concat_sum(inputs, knowledge, video, k) matches DomainStep::Next(DomainKnowledge::Known(_)),
    decreases k,
{
    if k > 0 {
        lemma_concat_sum_defined(inputs, knowledge, video, (k - 1) as nat);
    }
}

/// Domain inference over a dependency order of a well-typed graph never breaks an invariant.
pub proof fn lemma_infer_defined(nodes: Seq<DraftNode>, symbols: Seq<ValueRef>, video: VideoSpec, order: Seq<ValueRef>)
    requires
        spec_typed_graph(nodes, symbols),
        spec_is_dependency_order(nodes, symbols, order),
        forall|p: int| 0 <= p < order.len() ==> spec_typed_ref(nodes, #[trigger] order[p]),
    ensures
        spec_infer(nodes, symbols, video, order, order.len()) is Some,
        spec_infer(nodes, symbols, video, order, order.len()) matches Some(Ok(knowledge)) ==> knowledge.len() == nodes.len(),
{
    lemma_infer_prefix_defined(nodes, symbols, video, order, order.len());
}

proof fn lemma_infer_prefix_defined(nodes: Seq<DraftNode>, symbols: Seq<ValueRef>, video: VideoSpec, order: Seq<ValueRef>, k: nat)
    requires
        spec_typed_graph(nodes, symbols),
        spec_is_dependency_order(nodes, symbols, order),
        forall|p: int| 0 <= p < order.len() ==> spec_typed_ref(nodes, #[trigger] order[p]),
        k <= order.len(),
    ensures
        spec_infer(nodes, symbols, video, order, k) is Some,
        spec_infer(nodes, symbols, video, order, k) matches Some(Ok(knowledge)) ==> knowledge_good(nodes, order, knowledge, k as int),
    decreases k,
{
    if k > 0 {
        lemma_infer_prefix_defined(nodes, symbols, video, order, (k - 1) as nat);
        if let Some(Ok(knowledge)) = spec_infer(nodes, symbols, video, order, (k - 1) as nat) {
            let value = order[k - 1];
            assert(spec_typed_ref(nodes, order[k - 1]));
            if value.value_type == ValueType::Video {
                lemma_step_defined(nodes, symbols, video, order, knowledge, k - 1);
                if let DomainStep::Next(next) = spec_node_step(nodes[spec_id(value)].kind, knowledge, symbols, video) {
                    let updated = knowledge.update(spec_id(value), next);
                    assert forall|q: int| 0 <= q < k && (#[trigger] order[q]).value_type == ValueType::Video
                        implies 0 <= spec_id(order[q]) < nodes.len() && updated[spec_id(order[q])] != DomainKnowledge::NotVideo by {
                        assert(spec_typed_ref(nodes, order[q]));
                        if q < k - 1 && spec_id(order[q]) != spec_id(value) {
                            assert(knowledge[spec_id(order[q])] != DomainKnowledge::NotVideo);
                        }
                    }
                }
            } else {
                assert forall|q: int| 0 <= q < k && (#[trigger] order[q]).value_type == ValueType::Video
                    implies 0 <= spec_id(order[q]) < nodes.len() && knowledge[spec_id(order[q])] != DomainKnowledge::NotVideo by {
                    assert(q < k - 1);
                }
            }
        }
    }
}


/// Whether two knowledge tables record the same knowledge for each of `values`.
spec fn agree_on(first: Seq<DomainKnowledge>, second: Seq<DomainKnowledge>, values: Seq<ValueRef>) -> bool {
    forall|m: int| 0 <= m < values.len() ==> spec_at(first, #[trigger] values[m]) == spec_at(second, values[m])
}

proof fn lemma_deferred_agree(inputs: Seq<ValueRef>, first: Seq<DomainKnowledge>, second: Seq<DomainKnowledge>, k: nat)
    requires
        k <= inputs.len(),
        agree_on(first, second, inputs),
    ensures
        spec_concat_deferred(inputs, first, k) == spec_concat_deferred(inputs, second, k),
    decreases k,
{
    if k > 0 {
        lemma_deferred_agree(inputs, first, second, (k - 1) as nat);
        assert(spec_at(first, inputs[k - 1]) == spec_at(second, inputs[k - 1]));
    }
}

proof fn lemma_sum_agree(inputs: Seq<ValueRef>, first: Seq<DomainKnowledge>, second: Seq<DomainKnowledge>, video: VideoSpec, k: nat)
    requires
        k <= inputs.len(),
        agree_on(first, second, inputs),
    ensures
        spec_concat_sum(inputs, first, video, k) == spec_concat_sum(inputs, second, video, k),
    decreases k,
{
    if k > 0 {
        lemma_sum_agree(inputs, first, second, video, (k - 1) as nat);
        assert(spec_at(first, inputs[k - 1]) == spec_at(second, inputs[k - 1]));
    }
}

/// A node's rule reads only the knowledge of the values the node consumes.
proof fn lemma_step_agree(
    kind: SemanticNodeKind, first: Seq<DomainKnowledge>, second: Seq<DomainKnowledge>, symbols: Seq<ValueRef>, video: VideoSpec,
)
    requires
        agree_on(first, second, spec_dependencies(kind, symbols)),
    ensures
        spec_node_step(kind, first, symbols, video) == spec_node_step(kind, second, symbols, video),
{
    let deps = spec_dependencies(kind, symbols);
    match kind {
        SemanticNodeKind::ExternalVideo { inputs, preserve_input } => {
            if preserve_input < inputs@.len() {
                assert(deps[preserve_input as int] == inputs@[preserve_input as int]);
            }
        },
        SemanticNodeKind::Reference { symbol } => {
            if (symbol.0 as int) < symbols.len() {
                assert(deps[0] == symbols[symbol.0 as int]);
            }
        },
        SemanticNodeKind::Repeat { input, .. } => {
            assert(deps[0] == input);
        },
        SemanticNodeKind::Zoom { input } => {
            assert(deps[0] == input);
        },
        SemanticNodeKind::Wobble { input } => {
            assert(deps[0] == input);
        },
        SemanticNodeKind::SetAudio { audio, video: input } => {
            assert(deps[1] == input);
        },
        SemanticNodeKind::FlashJoin { before, after, .. } => {
            assert(deps[0] == before);
            assert(deps[1] == after);
        },
        SemanticNodeKind::Concat { inputs } => {
            lemma_deferred_agree(inputs@, first, second, inputs@.len());
            lemma_sum_agree(inputs@, first, second, video, inputs@.len());
        },
        SemanticNodeKind::Slice { input, .. } => {
            assert(deps[0] == input);
        },
        SemanticNodeKind::ReplaceRange { base, replacement, .. } => {
            assert(deps[0] == base);
            assert(deps[1] == replacement);
        },
        _ => {},
    }
}

/// The knowledge table always has one entry per node.
proof fn lemma_infer_len(nodes: Seq<DraftNode>, symbols: Seq<ValueRef>, video: VideoSpec, order: Seq<ValueRef>, k: nat)
    ensures
        spec_infer(nodes, symbols, video, order, k) matches Some(Ok(table)) ==> table.len() == nodes.len(),
    decreases k,
{
    if k > 0 {
        lemma_infer_len(nodes, symbols, video, order, (k - 1) as nat);
    }
}

/// Inference leaves the knowledge of `x` alone while it processes values other than `x`.
proof fn lemma_infer_keeps(
    nodes: Seq<DraftNode>, symbols: Seq<ValueRef>, video: VideoSpec, order: Seq<ValueRef>, j: nat, k: nat, x: int,
)
    requires
        j <= k <= order.len(),
        spec_infer(nodes, symbols, video, order, k) matches Some(Ok(_)),
        forall|q: int| j <= q < k ==> spec_id(#[trigger] order[q]) != x,
    ensures
        spec_infer(nodes, symbols, video, order, j) matches Some(Ok(before))
            && spec_infer(nodes, symbols, video, order, k) matches Some(Ok(after))
            && before.len() == after.len()
            && (0 <= x < after.len() ==> before[x] == after[x]),
    decreases k,
{
    if k > j {
        let previous = spec_infer(nodes, symbols, video, order, (k - 1) as nat);
        if !(previous matches Some(Ok(_))) {
            assert(spec_infer(nodes, symbols, video, order, k) == previous);
        }
        assert(spec_id(order[k - 1]) != x);
        lemma_infer_keeps(nodes, symbols, video, order, j, (k - 1) as nat, x);
        lemma_infer_len(nodes, symbols, video, order, (k - 1) as nat);
        let table = previous->0->Ok_0;
        let value = order[k - 1];
        let after = spec_infer(nodes, symbols, video, order, k)->0->Ok_0;
        if value.value_type == ValueType::Video {
            if let DomainStep::Next(next) = spec_node_step(nodes[spec_id(value)].kind, table, symbols, video) {
                assert(after == table.update(spec_id(value), next));
            }
        }
    }
}

/// Domains propagate along dependencies: once inference over a dependency order succeeds,
/// each Video value of the order holds exactly the knowledge that its own node's rule gives
/// from the final knowledge of the values it consumes.
pub proof fn lemma_infer_local(nodes: Seq<DraftNode>, symbols: Seq<ValueRef>, video: VideoSpec, order: Seq<ValueRef>, p: int)
    requires
        spec_is_dependency_order(nodes, symbols, order),
        0 <= p < order.len(),
        order[p].value_type == ValueType::Video,
        spec_infer(nodes, symbols, video, order, order.len()) matches Some(Ok(_)),
    ensures
        spec_infer(nodes, symbols, video, order, order.len()) matches Some(Ok(knowledge))
            && spec_node_step(nodes[spec_id(order[p])].kind, knowledge, symbols, video)
                == DomainStep::Next(knowledge[spec_id(order[p])]),
{
    let n = order.len();
    let x = spec_id(order[p]);
    assert(0 <= x < nodes.len());
    assert forall|q: int| p + 1 <= q < n implies spec_id(#[trigger] order[q]) != x by {
        assert(spec_id(order[q]) != spec_id(order[p]));
    }
    lemma_infer_keeps(nodes, symbols, video, order, (p + 1) as nat, n, x);
    let previous = spec_infer(nodes, symbols, video, order, p as nat);
    lemma_infer_len(nodes, symbols, video, order, p as nat);
    if !(previous matches Some(Ok(_))) {
        assert(spec_infer(nodes, symbols, video, order, (p + 1) as nat) == previous);
    }
    let before = previous->0->Ok_0;
    let after = spec_infer(nodes, symbols, video, order, n)->0->Ok_0;
    let kind = nodes[x].kind;
    let deps = spec_deps(nodes, symbols, x);
    assert forall|m: int| 0 <= m < deps.len() implies spec_at(before, #[trigger] deps[m]) == spec_at(after, deps[m]) by {
        assert(spec_listed_before(order, p, spec_id(spec_deps(nodes, symbols, spec_id(order[p]))[m])));
        let q = choose|q: int| 0 <= q < p && spec_id(#[trigger] order[q]) == spec_id(deps[m]);
        assert forall|r: int| p <= r < n implies spec_id(#[trigger] order[r]) != spec_id(deps[m]) by {
            assert(spec_id(order[r]) != spec_id(order[q]));
        }
        lemma_infer_keeps(nodes, symbols, video, order, p as nat, n, spec_id(deps[m]));
    }
    assert(deps == spec_dependencies(kind, symbols)) by {
        reveal(spec_deps);
    }
    assert(agree_on(before, after, deps));
    lemma_step_agree(kind, before, after, symbols, video);
    if let DomainStep::Next(next) = spec_node_step(kind, before, symbols, video) {
        assert(spec_infer(nodes, symbols, video, order, (p + 1) as nat) == Some(Ok::<Seq<DomainKnowledge>, DomainFailure>(before.update(x, next))));
    }
}


/// The total frames of the first `k` inputs, each taken as a known domain.
pub open spec fn spec_frames_sum(inputs: Seq<ValueRef>, knowledge: Seq<DomainKnowledge>, k: nat) -> int
    decreases k,
{
    if k == 0 {
        0
    } else {
        spec_frames_sum(inputs, knowledge, (k - 1) as nat) + spec_frames_of(knowledge[spec_id(inputs[k - 1])]->Known_0)
    }
}

proof fn lemma_sum_known(inputs: Seq<ValueRef>, knowledge: Seq<DomainKnowledge>, video: VideoSpec, k: nat)
    requires
        k <= inputs.len(),
    ensures
        spec_concat_sum(inputs, knowledge, video, k) matches DomainStep::Next(DomainKnowledge::Known(total)) ==> {
            &&& forall|m: int| 0 <= m < k ==> (spec_at(knowledge, #[trigger] inputs[m]) matches Some(DomainKnowledge::Known(_)))
            &&& spec_frames_of(total) == spec_frames_sum(inputs, knowledge, k)
        },
    decreases k,
{
    if k == 0 {
        VideoDomain::lemma_new_parts(FrameCount(0), video);
    } else {
        lemma_sum_known(inputs, knowledge, video, (k - 1) as nat);
        if let DomainStep::Next(DomainKnowledge::Known(total)) = spec_concat_sum(inputs, knowledge, video, (k - 1) as nat) {
            if let Some(DomainKnowledge::Known(d)) = spec_at(knowledge, inputs[k - 1]) {
                let sum = spec_frames_of(total) + spec_frames_of(d);
                if sum <= u64::MAX {
                    VideoDomain::lemma_new_parts(FrameCount(sum as u64), video);
                }
            }
        }
    }
}

proof fn lemma_deferred_scan(inputs: Seq<ValueRef>, knowledge: Seq<DomainKnowledge>, k: nat)
    requires
        k <= inputs.len(),
    ensures
        spec_concat_deferred(inputs, knowledge, k) == Some(false)
            ==> forall|m: int| 0 <= m < k ==> spec_at(knowledge, #[trigger] inputs[m]) is Some
                && spec_at(knowledge, inputs[m]) != Some(DomainKnowledge::Deferred),
    decreases k,
{
    if k > 0 {
        lemma_deferred_scan(inputs, knowledge, (k - 1) as nat);
    }
}

/// A concatenation's domain is known only when every input's is, and then it is their total;
/// a concatenation with a deferred input is deferred.
pub proof fn lemma_concat_domain(inputs: Seq<ValueRef>, knowledge: Seq<DomainKnowledge>, video: VideoSpec)
    ensures
        spec_concat(inputs, knowledge, video) matches DomainStep::Next(DomainKnowledge::Known(d)) ==> {
            &&& forall|m: int| 0 <= m < inputs.len() ==> (spec_at(knowledge, #[trigger] inputs[m]) matches Some(DomainKnowledge::Known(_)))
            &&& spec_frames_of(d) == spec_frames_sum(inputs, knowledge, inputs.len())
        },
        (exists|m: int| 0 <= m < inputs.len() && spec_at(knowledge, #[trigger] inputs[m]) == Some(DomainKnowledge::Deferred))
            ==> (spec_concat(inputs, knowledge, video) matches DomainStep::Next(next) ==> next == DomainKnowledge::Deferred),
{
    lemma_sum_known(inputs, knowledge, video, inputs.len());
    lemma_deferred_scan(inputs, knowledge, inputs.len());
}

/// A range replacement's domain is known only when both its base and its replacement are,
/// and then it is the base's frames without the replaced range plus the replacement's frames;
/// with a deferred base or replacement it is deferred; a known base shorter than the range's
/// end rejects the range.
pub proof fn lemma_replace_domain(
    base: ValueRef, replacement: ValueRef, range: FrameRange, knowledge: Seq<DomainKnowledge>, symbols: Seq<ValueRef>,
    video: VideoSpec,
)
    ensures
        ({
            let step = spec_node_step(SemanticNodeKind::ReplaceRange { base, replacement, range }, knowledge, symbols, video);
            &&& step matches DomainStep::Next(DomainKnowledge::Known(d)) ==> {
                &&& spec_at(knowledge, base) matches Some(DomainKnowledge::Known(b))
                &&& spec_at(knowledge, replacement) matches Some(DomainKnowledge::Known(r))
                &&& spec_frames_of(d) == spec_frames_of(spec_at(knowledge, base)->0->Known_0)
                    - (range.spec_end() - range.spec_start()) + spec_frames_of(spec_at(knowledge, replacement)->0->Known_0)
            }
            &&& (spec_at(knowledge, base) == Some(DomainKnowledge::Deferred)
                || spec_at(knowledge, replacement) == Some(DomainKnowledge::Deferred))
                ==> (step matches DomainStep::Next(next) ==> next == DomainKnowledge::Deferred)
            &&& spec_at(knowledge, base) matches Some(DomainKnowledge::Known(b))
                ==> (range.spec_end() > spec_frames_of(b) ==> (step matches DomainStep::Fail(DomainFailure::InvalidTimeRange { .. })))
            &&& spec_at(knowledge, base) matches Some(DomainKnowledge::Known(b))
                ==> (spec_at(knowledge, replacement) matches Some(DomainKnowledge::Known(r))
                    ==> (range.spec_end() <= spec_frames_of(b)
                        && spec_frames_of(b) - (range.spec_end() - range.spec_start()) + spec_frames_of(r) > u64::MAX
                        ==> step == DomainStep::Fail(DomainFailure::FrameOverflow)))
        }),
{
    if let (Some(DomainKnowledge::Known(b)), Some(DomainKnowledge::Known(r))) = (spec_at(knowledge, base), spec_at(knowledge, replacement)) {
        let total = spec_frames_of(b) - (range.spec_end() - range.spec_start()) + spec_frames_of(r);
        if 0 <= total <= u64::MAX {
            VideoDomain::lemma_new_parts(FrameCount(total as u64), video);
        }
    }
}

/// A flash join's domain is known only when both sides are, and then it is their total; with
/// a deferred side it is deferred; a flash longer than a known `after` side is rejected.
pub proof fn lemma_flash_domain(
    before: ValueRef, after: ValueRef, frames: FrameCount, knowledge: Seq<DomainKnowledge>, symbols: Seq<ValueRef>,
    video: VideoSpec,
)
    ensures
        ({
            let step = spec_node_step(SemanticNodeKind::FlashJoin { before, after, frames }, knowledge, symbols, video);
            &&& step matches DomainStep::Next(DomainKnowledge::Known(d)) ==> {
                &&& spec_at(knowledge, before) matches Some(DomainKnowledge::Known(b))
                &&& spec_at(knowledge, after) matches Some(DomainKnowledge::Known(a))
                &&& spec_frames_of(d) == spec_frames_of(spec_at(knowledge, before)->0->Known_0)
                    + spec_frames_of(spec_at(knowledge, after)->0->Known_0)
            }
            &&& (spec_at(knowledge, before) == Some(DomainKnowledge::Deferred)
                || spec_at(knowledge, after) == Some(DomainKnowledge::Deferred))
                ==> (step matches DomainStep::Next(next) ==> next == DomainKnowledge::Deferred)
            &&& spec_at(knowledge, after) matches Some(DomainKnowledge::Known(a))
                ==> (spec_at(knowledge, before) is Some && frames.0 > spec_frames_of(a)
                    ==> (step matches DomainStep::Fail(DomainFailure::InvalidFlashFrames { .. })))
            &&& spec_at(knowledge, after) matches Some(DomainKnowledge::Known(a))
                ==> (spec_at(knowledge, before) matches Some(DomainKnowledge::Known(b))
                    ==> (frames.0 <= spec_frames_of(a) && spec_frames_of(b) + spec_frames_of(a) > u64::MAX
                        ==> step == DomainStep::Fail(DomainFailure::FrameOverflow)))
        }),
{
    if let (Some(DomainKnowledge::Known(b)), Some(DomainKnowledge::Known(a))) = (spec_at(knowledge, before), spec_at(knowledge, after)) {
        let total = spec_frames_of(b) + spec_frames_of(a);
        if total <= u64::MAX {
            VideoDomain::lemma_new_parts(FrameCount(total as u64), video);
        }
    }
}

/// The domains of the other Video nodes: an image is known for its authored frames, a video or
/// audio source is deferred until probed, a repeat of a known input is known for the input's
/// frames times the count and otherwise takes the input's knowledge, a slice (of a non-empty
/// range, as every frame range is) is known for the length of its range, and zooms, wobbles, audio replacement and references take their input's
/// knowledge unchanged.
pub proof fn lemma_node_domains(kind: SemanticNodeKind, knowledge: Seq<DomainKnowledge>, symbols: Seq<ValueRef>, video: VideoSpec)
    ensures
        ({
            let step = spec_node_step(kind, knowledge, symbols, video);
            &&& kind matches SemanticNodeKind::ImageVideo { frames, .. } ==> (step matches DomainStep::Next(DomainKnowledge::Known(d))
                && spec_frames_of(d) == frames.0)
            &&& (kind is VideoSource || kind is AudioOnBlack) ==> step == DomainStep::Next(DomainKnowledge::Deferred)
            &&& kind matches SemanticNodeKind::Repeat { input, count } ==> {
                &&& step matches DomainStep::Next(DomainKnowledge::Known(d)) ==> (spec_at(knowledge, input) matches Some(DomainKnowledge::Known(i))
                    && spec_frames_of(d) == spec_frames_of(i) * count)
                &&& spec_at(knowledge, input) == Some(DomainKnowledge::Deferred) ==> step == DomainStep::Next(DomainKnowledge::Deferred)
            }
            &&& kind matches SemanticNodeKind::Slice { input, range } ==> (range.spec_start() < range.spec_end()
                ==> (step matches DomainStep::Next(next) ==>
                    (next matches DomainKnowledge::Known(d) && spec_frames_of(d) == range.spec_end() - range.spec_start())))
            &&& kind matches SemanticNodeKind::Zoom { input }
                ==> (step matches DomainStep::Next(next) ==> spec_at(knowledge, input) == Some(next))
            &&& kind matches SemanticNodeKind::Wobble { input }
                ==> (step matches DomainStep::Next(next) ==> spec_at(knowledge, input) == Some(next))
            &&& kind matches SemanticNodeKind::SetAudio { video: input, .. }
                ==> (step matches DomainStep::Next(next) ==> spec_at(knowledge, input) == Some(next))
            &&& kind matches SemanticNodeKind::Repeat { input, count } ==> (spec_at(knowledge, input) matches Some(DomainKnowledge::Known(i))
                ==> (spec_frames_of(i) * count > u64::MAX ==> step == DomainStep::Fail(DomainFailure::FrameOverflow)))
            &&& kind matches SemanticNodeKind::ExternalVideo { inputs, preserve_input }
                ==> (preserve_input < inputs@.len() ==> (step matches DomainStep::Next(next)
                    ==> spec_at(knowledge, inputs@[preserve_input as int]) == Some(next)))
            &&& (kind is AudioSource || kind is AudioRepeat || kind is AudioConcat || kind is AudioSlice || kind is ExtractAudio)
                ==> step == DomainStep::Next(DomainKnowledge::NotVideo)
            &&& kind matches SemanticNodeKind::Reference { symbol }
                ==> ((symbol.0 as int) < symbols.len()
                    ==> (step matches DomainStep::Next(next) ==> spec_at(knowledge, symbols[symbol.0 as int]) == Some(next)))
        }),
{
    match kind {
        SemanticNodeKind::ImageVideo { frames, .. } => {
            VideoDomain::lemma_new_parts(FrameCount((frames.0 as int) as u64), video);
        },
        SemanticNodeKind::Repeat { input, count } => {
            if let Some(DomainKnowledge::Known(i)) = spec_at(knowledge, input) {
                let total = spec_frames_of(i) * count;
                if total <= u64::MAX {
                    VideoDomain::lemma_new_parts(FrameCount(total as u64), video);
                }
            }
        },
        SemanticNodeKind::Slice { input, range } => {
            let length = range.spec_end() - range.spec_start();
            if 0 <= length <= u64::MAX {
                VideoDomain::lemma_new_parts(FrameCount(length as u64), video);
            }
        },
        _ => {},
    }
}


/// After inference over a dependency order succeeds, a Video value whose domain is known
/// from authored data has known domains for every Video its length depends on: both sides of
/// a range replacement or a flash join, every part of a concatenation, the input of a repeat.
pub proof fn lemma_inferred_known_inputs(
    nodes: Seq<DraftNode>, symbols: Seq<ValueRef>, video: VideoSpec, order: Seq<ValueRef>, p: int,
)
    requires
        spec_is_dependency_order(nodes, symbols, order),
        0 <= p < order.len(),
        order[p].value_type == ValueType::Video,
        spec_infer(nodes, symbols, video, order, order.len()) matches Some(Ok(_)),
    ensures
        ({
            let knowledge = spec_infer(nodes, symbols, video, order, order.len())->0->Ok_0;
            let kind = nodes[spec_id(order[p])].kind;
            knowledge[spec_id(order[p])] is Known ==> {
                &&& kind matches SemanticNodeKind::ReplaceRange { base, replacement, .. }
                    ==> ((spec_at(knowledge, base) matches Some(DomainKnowledge::Known(_)))
                        && (spec_at(knowledge, replacement) matches Some(DomainKnowledge::Known(_))))
                &&& kind matches SemanticNodeKind::FlashJoin { before, after, .. }
                    ==> ((spec_at(knowledge, before) matches Some(DomainKnowledge::Known(_)))
                        && (spec_at(knowledge, after) matches Some(DomainKnowledge::Known(_))))
                &&& kind matches SemanticNodeKind::Concat { inputs }
                    ==> forall|m: int| 0 <= m < inputs@.len()
                        ==> (spec_at(knowledge, #[trigger] inputs@[m]) matches Some(DomainKnowledge::Known(_)))
                &&& kind matches SemanticNodeKind::Repeat { input, .. }
                    ==> (spec_at(knowledge, input) matches Some(DomainKnowledge::Known(_)))
            }
        }),
{
    lemma_infer_local(nodes, symbols, video, order, p);
    let knowledge = spec_infer(nodes, symbols, video, order, order.len())->0->Ok_0;
    let kind = nodes[spec_id(order[p])].kind;
    match kind {
        SemanticNodeKind::ReplaceRange { base, replacement, range } => {
            lemma_replace_domain(base, replacement, range, knowledge, symbols, video);
        },
        SemanticNodeKind::FlashJoin { before, after, frames } => {
            lemma_flash_domain(before, after, frames, knowledge, symbols, video);
        },
        SemanticNodeKind::Concat { inputs } => {
            lemma_concat_domain(inputs@, knowledge, video);
        },
        _ => {
            lemma_node_domains(kind, knowledge, symbols, video);
        },
    }
}

} // verus!
