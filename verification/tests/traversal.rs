use clipasm::compiler::traversal::topological_order;
use clipasm::model::{FrameCount, SymbolId, ValueId, ValueRef, ValueType};
use clipasm::semantic::{DraftNode, ImageFit, SemanticNodeKind, SourceOrigin};
use clipasm::source::SourceSpan;

fn origin() -> SourceOrigin {
    SourceOrigin::new("test".to_string(), SourceSpan::file_start("test.yaml"))
}

fn video(id: u32) -> ValueRef {
    ValueRef::new(ValueId::new(id), ValueType::Video)
}

fn node(kind: SemanticNodeKind) -> DraftNode {
    DraftNode::new(kind, origin(), ValueType::Video)
}

fn reference(symbol: u32) -> DraftNode {
    node(SemanticNodeKind::Reference { symbol: SymbolId::new(symbol) })
}

#[test]
fn orders_a_deep_reference_chain_without_recursion() {
    const ALIASES: usize = 20_001;
    let mut nodes = Vec::with_capacity(ALIASES + 1);
    let mut symbols = Vec::with_capacity(ALIASES);
    nodes.push(node(SemanticNodeKind::ImageVideo {
        path: "source.png".to_string(),
        frames: FrameCount(1),
        fit: ImageFit::Cover,
    }));
    let source = video(0);
    let mut root = source;
    for index in 0..ALIASES {
        symbols.push(root);
        nodes.push(reference(u32::try_from(index).expect("test symbol ID")));
        root = video(u32::try_from(index + 1).expect("test value ID"));
    }

    let order = topological_order(&nodes, &symbols, &[root]).expect("topological order");

    assert_eq!(order.len(), ALIASES + 1);
    assert_eq!(order[0], source);
    assert_eq!(order.last(), Some(&root));
}

#[test]
fn reports_a_semantic_reference_cycle() {
    let nodes = vec![reference(1), reference(2), reference(0)];
    let symbols = vec![video(0), video(1), video(2)];

    let error = topological_order(&nodes, &symbols, &[video(0)]).expect_err("cycle");

    assert_eq!(error.code, "E_DEPENDENCY_CYCLE");
}

#[test]
fn every_value_follows_the_values_it_consumes() {
    let image = |frames: u64| {
        node(SemanticNodeKind::ImageVideo {
            path: "card.png".to_string(),
            frames: FrameCount(frames),
            fit: ImageFit::Contain,
        })
    };
    let nodes = vec![
        image(2),
        image(3),
        node(SemanticNodeKind::Concat { inputs: vec![video(0), video(1)] }),
        node(SemanticNodeKind::FlashJoin { before: video(2), after: video(1), frames: FrameCount(1) }),
    ];

    let order = topological_order(&nodes, &[], &[video(3), video(2)]).expect("order");

    let position = |id: u32| order.iter().position(|value| value.id().get() == id).expect("listed");
    assert_eq!(order.len(), 4);
    assert!(position(0) < position(2));
    assert!(position(1) < position(2));
    assert!(position(2) < position(3));
    assert!(position(1) < position(3));
}

#[test]
fn a_root_outside_the_graph_is_rejected() {
    let error = topological_order(&[], &[], &[video(0)]).expect_err("outside");

    assert_eq!(error.code, "E_INVALID_GRAPH");
    assert_eq!(error.message, "semantic value 0 is outside the graph of 0 values");
}

#[test]
fn a_reference_to_a_missing_symbol_is_rejected() {
    let nodes = vec![reference(7)];

    let error = topological_order(&nodes, &[], &[video(0)]).expect_err("missing symbol");

    assert_eq!(error.code, "E_MISSING_REFERENCE");
    assert_eq!(error.message, "reference names unknown symbol 7");
}

#[test]
fn faults_not_reachable_from_the_roots_are_ignored_and_not_listed() {
    let nodes = vec![
        node(SemanticNodeKind::ImageVideo {
            path: "card.png".to_string(),
            frames: FrameCount(2),
            fit: ImageFit::Contain,
        }),
        node(SemanticNodeKind::Zoom { input: video(1) }),
        reference(9),
        node(SemanticNodeKind::Wobble { input: video(40) }),
        node(SemanticNodeKind::Zoom { input: video(0) }),
    ];

    let order = topological_order(&nodes, &[], &[video(4)]).expect("only reachable values are ordered");

    assert_eq!(order.iter().map(|value| value.id().get()).collect::<Vec<_>>(), vec![0, 4]);
}
