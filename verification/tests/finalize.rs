use clipasm::compiler::domain::infer_domains;
use clipasm::compiler::finalize::{
    detect_cycles, finalize, validate_references, Evaluation, SurfaceOutput, SurfaceRecord, Symbol,
};
use clipasm::compiler::traversal::topological_order;
use clipasm::model::{AudioSpec, FrameCount, FrameRange, SymbolId, ValueId, ValueRef, ValueType, VideoSpec};
use clipasm::semantic::{DraftNode, ImageFit, SemanticNodeKind, SourceOrigin};
use clipasm::source::SourceSpan;

fn origin() -> SourceOrigin {
    SourceOrigin::new("test".to_string(), SourceSpan::file_start("test.clipasm"))
}

fn video_spec() -> VideoSpec {
    VideoSpec { width: 1920, height: 1080, frame_rate: 30 }
}

fn video(id: u32) -> ValueRef {
    ValueRef::new(ValueId::new(id), ValueType::Video)
}

fn node(kind: SemanticNodeKind) -> DraftNode {
    DraftNode::new(kind, origin(), ValueType::Video)
}

fn symbol(name: String, value: ValueRef) -> Symbol {
    Symbol {
        name,
        declared_at: SourceSpan::file_start("test.clipasm"),
        value: Some(value),
        value_type: ValueType::Video,
    }
}

fn image(frames: u64) -> DraftNode {
    node(SemanticNodeKind::ImageVideo {
        path: "source.png".to_string(),
        frames: FrameCount(frames),
        fit: ImageFit::Cover,
    })
}

fn deep_named_cycle() {
    const NAMES: usize = 20_001;
    let mut nodes = Vec::with_capacity(NAMES);
    let mut symbols = Vec::with_capacity(NAMES);
    for index in 0..NAMES {
        let target = u32::try_from((index + 1) % NAMES).expect("test target symbol ID");
        nodes.push(node(SemanticNodeKind::Reference { symbol: SymbolId::new(target) }));
        let name = format!("name_{index:05}");
        symbols.push(symbol(name, video(u32::try_from(index).expect("test value ID"))));
    }

    let error = detect_cycles(&symbols, &nodes).expect_err("named cycle");

    assert_eq!(error.code, "E_DEPENDENCY_CYCLE");
    assert!(error.message.starts_with("named-value dependency cycle:"));
    assert!(error.message.ends_with("name_00000"));
}

fn deferred_repeat_chain() {
    let mut nodes = vec![node(SemanticNodeKind::VideoSource {
        path: "source.mp4".to_string(),
        fit: ImageFit::Cover,
    })];
    let mut root = video(0);
    for index in 1..=64u32 {
        nodes.push(node(SemanticNodeKind::Repeat { input: root, count: 2 }));
        root = video(index);
    }
    let order = topological_order(&nodes, &[], &[root]).expect("order");

    let domains = infer_domains(&nodes, &[], &video_spec(), &order).expect("domains");

    assert_eq!(order.len(), 65);
    assert!(domains.into_iter().all(|domain| domain.is_none()));
}

fn repeat_domains() {
    let nodes = vec![image(5), node(SemanticNodeKind::Repeat { input: video(0), count: 3 })];
    let root = video(1);
    let order = topological_order(&nodes, &[], &[root]).expect("order");
    let domains = infer_domains(&nodes, &[], &video_spec(), &order).expect("domains");
    assert_eq!(
        domains[root.id().get() as usize].as_ref().expect("known repeat").frames(),
        FrameCount(15)
    );

    let nodes = vec![image(u64::MAX), node(SemanticNodeKind::Repeat { input: video(0), count: 2 })];
    let order = topological_order(&nodes, &[], &[root]).expect("order");
    let error = infer_domains(&nodes, &[], &video_spec(), &order).expect_err("overflow");
    assert_eq!(error.code, "E_FRAME_OVERFLOW");
}

#[test]
fn finalize_detects_a_deep_named_cycle_iteratively() {
    deep_named_cycle();
}

#[test]
fn finalize_deferred_repeat_chains_are_memoized_and_remain_deferred() {
    deferred_repeat_chain();
}

#[test]
fn finalize_repeat_domains_multiply_exactly_and_check_overflow() {
    repeat_domains();
}

#[test]
fn resolve_detects_a_deep_named_cycle_iteratively() {
    deep_named_cycle();
}

#[test]
fn resolve_deferred_repeat_chains_are_memoized_and_remain_deferred() {
    deferred_repeat_chain();
}

#[test]
fn resolve_repeat_domains_multiply_exactly_and_check_overflow() {
    repeat_domains();
}

#[test]
fn acyclic_names_pass_cycle_detection() {
    let nodes = vec![
        image(4),
        node(SemanticNodeKind::Reference { symbol: SymbolId::new(0) }),
        node(SemanticNodeKind::Zoom { input: video(1) }),
    ];
    let symbols = vec![symbol("card".to_string(), video(0)), symbol("zoomed".to_string(), video(2))];

    assert!(detect_cycles(&symbols, &nodes).is_ok());
}

#[test]
fn a_short_cycle_names_every_member_and_returns_to_the_first() {
    let nodes = vec![
        node(SemanticNodeKind::Reference { symbol: SymbolId::new(1) }),
        node(SemanticNodeKind::Reference { symbol: SymbolId::new(0) }),
    ];
    let symbols = vec![symbol("a".to_string(), video(0)), symbol("b".to_string(), video(1))];

    let error = detect_cycles(&symbols, &nodes).expect_err("cycle");

    assert_eq!(error.message, "named-value dependency cycle: a -> b -> a");
}

#[test]
fn references_must_name_evaluated_symbols_of_their_type() {
    let nodes = vec![node(SemanticNodeKind::Reference { symbol: SymbolId::new(3) })];
    let error = validate_references(&nodes, &[]).expect_err("unknown symbol");
    assert_eq!(error.code, "E_MISSING_REFERENCE");
    assert_eq!(error.message, "reference names unknown symbol 3");

    let nodes = vec![node(SemanticNodeKind::Reference { symbol: SymbolId::new(0) })];
    let unevaluated = Symbol {
        name: "later".to_string(),
        declared_at: SourceSpan::file_start("test.clipasm"),
        value: None,
        value_type: ValueType::Video,
    };
    let error = validate_references(&nodes, &[unevaluated]).expect_err("no value");
    assert_eq!(error.code, "E_MISSING_REFERENCE");
    assert_eq!(error.message, "name `later` has no compiled value");

    let audio = Symbol {
        name: "sound".to_string(),
        declared_at: SourceSpan::file_start("test.clipasm"),
        value: Some(ValueRef::new(ValueId::new(1), ValueType::Audio)),
        value_type: ValueType::Audio,
    };
    let error = validate_references(&nodes, &[audio]).expect_err("type");
    assert_eq!(error.code, "E_TYPE_MISMATCH");
    assert_eq!(
        error.message,
        "reference `$sound` has type Audio, but its expression was recorded as Video"
    );
}

#[test]
fn domains_of_slices_flashes_concatenations_and_replacements_are_exact() {
    let range = FrameRange::new(1, 3).expect("range");
    let nodes = vec![
        image(5),
        image(4),
        node(SemanticNodeKind::Slice { input: video(0), range }),
        node(SemanticNodeKind::FlashJoin { before: video(0), after: video(1), frames: FrameCount(2) }),
        node(SemanticNodeKind::Concat { inputs: vec![video(0), video(1), video(2)] }),
        node(SemanticNodeKind::ReplaceRange { base: video(0), replacement: video(1), range }),
    ];
    let roots = [video(2), video(3), video(4), video(5)];
    let order = topological_order(&nodes, &[], &roots).expect("order");

    let domains = infer_domains(&nodes, &[], &video_spec(), &order).expect("domains");

    let frames = |id: usize| domains[id].as_ref().expect("known").frames().0;
    assert_eq!(frames(2), 2);
    assert_eq!(frames(3), 9);
    assert_eq!(frames(4), 11);
    assert_eq!(frames(5), 7);
}

#[test]
fn out_of_range_slices_and_long_flashes_are_rejected() {
    let range = FrameRange::new(2, 9).expect("range");
    let nodes = vec![image(5), node(SemanticNodeKind::Slice { input: video(0), range })];
    let order = topological_order(&nodes, &[], &[video(1)]).expect("order");
    let error = infer_domains(&nodes, &[], &video_spec(), &order).expect_err("range");
    assert_eq!(error.code, "E_INVALID_TIME_RANGE");
    assert_eq!(error.message, "frame range 2..9 is outside the base Video domain of 5 frames");

    let nodes = vec![
        image(5),
        image(2),
        node(SemanticNodeKind::FlashJoin { before: video(0), after: video(1), frames: FrameCount(3) }),
    ];
    let order = topological_order(&nodes, &[], &[video(2)]).expect("order");
    let error = infer_domains(&nodes, &[], &video_spec(), &order).expect_err("flash");
    assert_eq!(error.code, "E_INVALID_FLASH_FRAMES");
    assert_eq!(error.message, "`flash.frames` is 3 frames, but `after` contains only 2 frames");
}

#[test]
fn finalize_assembles_the_compiled_program() {
    let nodes = vec![image(5), node(SemanticNodeKind::Repeat { input: video(0), count: 2 })];
    let evaluation = Evaluation {
        nodes,
        symbols: vec![symbol("card".to_string(), video(0))],
        public_symbols: vec![("card".to_string(), SymbolId::new(0))],
        surface: vec![SurfaceRecord {
            construct: "repeat".to_string(),
            outputs: vec![SurfaceOutput { value: video(1), id: Some("twice".to_string()) }],
            span: SourceSpan::at("test.clipasm", 2, 1),
        }],
        outputs: vec![video(1)],
    };

    let program = finalize(
        None,
        video_spec(),
        AudioSpec { sample_rate: 48_000, channels: 2 },
        evaluation,
        20,
        "0.1.0".to_string(),
        "identity".to_string(),
        "program.clipasm".to_string(),
    )
    .expect("finalize");

    assert_eq!(program.value_count(), 2);
    assert_eq!(program.structure_hash(), "identity");
    assert_eq!(program.outputs(), &[video(1)]);
    assert_eq!(program.result_domain().expect("known").frames(), FrameCount(10));
    assert_eq!(program.named_values()[0].0, "card");
    assert_eq!(program.named_values()[0].1, video(0));
    assert_eq!(program.explain().len(), 1);
    assert_eq!(program.explain()[0].construct(), "repeat");
    assert_eq!(program.explain()[0].outputs()[0].id(), Some("twice"));
    assert_eq!(program.explain()[0].outputs()[0].value(), video(1));
    assert_eq!(program.render_output().expect("one video"), video(1));
    assert_eq!(program.symbol_value(SymbolId::new(0)), Some(video(0)));
    assert_eq!(program.symbol_value(SymbolId::new(1)), None);
    assert_eq!(program.symbol_values(), &[video(0)]);
}

#[test]
fn result_domain_needs_exactly_one_output_and_a_video() {
    let build = |outputs: Vec<ValueRef>| {
        let nodes = vec![
            image(5),
            DraftNode::new(SemanticNodeKind::ExtractAudio { video: video(0) }, origin(), ValueType::Audio),
        ];
        let evaluation = Evaluation {
            nodes,
            symbols: Vec::new(),
            public_symbols: Vec::new(),
            surface: Vec::new(),
            outputs,
        };
        finalize(
            None,
            video_spec(),
            AudioSpec { sample_rate: 48_000, channels: 2 },
            evaluation,
            20,
            "0.1.0".to_string(),
            "identity".to_string(),
            "program.clipasm".to_string(),
        )
        .expect("finalize")
    };
    let audio = ValueRef::new(ValueId::new(1), ValueType::Audio);

    let single = build(vec![video(0)]);
    assert_eq!(single.result_domain().expect("known").frames(), FrameCount(5));
    assert!(build(vec![video(0), audio]).result_domain().is_none());
    assert!(build(vec![audio]).result_domain().is_none());
    assert!(build(Vec::new()).result_domain().is_none());
}

#[test]
fn domains_propagate_along_dependency_chains() {
    let range = FrameRange::new(2, 5).expect("range");
    let nodes = vec![
        image(10),
        node(SemanticNodeKind::Slice { input: video(0), range }),
        node(SemanticNodeKind::Repeat { input: video(1), count: 4 }),
        node(SemanticNodeKind::Zoom { input: video(2) }),
        node(SemanticNodeKind::Reference { symbol: SymbolId::new(0) }),
    ];
    let symbols = [video(3)];
    let order = topological_order(&nodes, &symbols, &[video(4)]).expect("order");

    let domains = infer_domains(&nodes, &symbols, &video_spec(), &order).expect("domains");

    let frames = |id: usize| domains[id].as_ref().expect("known").frames().0;
    assert_eq!(frames(1), 3);
    assert_eq!(frames(2), 12);
    assert_eq!(frames(3), 12);
    assert_eq!(frames(4), 12);
}

#[test]
fn named_cycle_is_reported_along_the_search_path_from_the_first_name() {
    let targets = [1u32, 2, 1];
    let names = ["intro", "loop_a", "loop_b"];
    let nodes: Vec<DraftNode> = targets
        .iter()
        .map(|target| node(SemanticNodeKind::Reference { symbol: SymbolId::new(*target) }))
        .collect();
    let symbols: Vec<Symbol> = names
        .iter()
        .enumerate()
        .map(|(index, name)| symbol(name.to_string(), video(u32::try_from(index).expect("value ID"))))
        .collect();

    let error = detect_cycles(&symbols, &nodes).expect_err("named cycle");

    assert_eq!(error.code, "E_DEPENDENCY_CYCLE");
    assert_eq!(error.message, "named-value dependency cycle: loop_a -> loop_b -> loop_a");
}

#[test]
fn finalize_reports_a_domain_failure_with_its_message_and_ignores_unreachable_values() {
    let range = FrameRange::new(2, 9).expect("range");
    let unreachable = FrameRange::new(7, 8).expect("range");
    let nodes = vec![
        image(5),
        node(SemanticNodeKind::Slice { input: video(0), range }),
        node(SemanticNodeKind::Slice { input: video(0), range: unreachable }),
    ];
    let evaluation = |outputs: Vec<ValueRef>| Evaluation {
        nodes: nodes.clone(),
        symbols: Vec::new(),
        public_symbols: Vec::new(),
        surface: Vec::new(),
        outputs,
    };
    let run = |evaluation: Evaluation| {
        finalize(
            None,
            video_spec(),
            AudioSpec { sample_rate: 48_000, channels: 2 },
            evaluation,
            20,
            "0.1.0".to_string(),
            "identity".to_string(),
            "program.clipasm".to_string(),
        )
    };

    let error = run(evaluation(vec![video(1)])).expect_err("range");
    assert_eq!(error.code, "E_INVALID_TIME_RANGE");
    assert_eq!(error.message, "frame range 2..9 is outside the base Video domain of 5 frames");

    let program = run(evaluation(vec![video(0)])).expect("the failing slices are unreachable");
    assert_eq!(program.result_domain().expect("known").frames(), FrameCount(5));
}
