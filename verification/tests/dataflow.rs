use delog_app::add_menu::{AddAction, AddMenuMode, AddMenuState};
use delog_app::canvas::CanvasEvent;
use delog_app::controller::{
    eval_targets, following_generation, join_messages, may_publish, paste_command,
    preview_counts_from, push_bounded, AppendStep, AppliedEdit, CommitStep, DataFlowController,
    Diagnostic, EvalRequest, LogLevel, OutputTopic, PreviewCounts, PreviewEnd, PreviewStep,
    PublishStep, PublishedSources, QueueStep, Reception, Tail, UNDO_CAPACITY,
};
use delog_app::editor::{
    disconnect_many_command, failure_line, shortcut_keys, should_tick_live, DataFlowEditor,
    DriveInput, EditorStep, KeyEvent, ScriptEditorState, ShortcutKeys,
};
use delog_app::graph::{
    Edge, FieldSelector, Graph, GraphCommand, Node, NodeId, NodeKind, OutputFieldSpec, OutputSpec,
    ScriptInputSpec, ScriptSpec,
};
use delog_app::headless::{input_stamp, HeadlessFlow, HeadlessInput, InputField};
use delog_app::inspector::{
    diagnostic_section, filter_controls, has_own_preview_section, inspector_command, offers_sources, ports_edit,
    range_note, remove_label, same_kind, script_editor_buffer, selection_message, selector_lines,
    source_changed, source_text, structural_edit, unit_of, FilterControl, PortClicks, PortEdit,
};
use delog_app::picker::DataHit;
use delog_app::registry::{templates, ADD_DATA_INDEX};
use delog_app::snapshot::SourceId;

type Controller = DataFlowController<&'static str>;
type Editor = DataFlowEditor<&'static str>;

fn pos(x: f32, y: f32) -> [u32; 2] {
    [x.to_bits(), y.to_bits()]
}

fn constant(value: f64) -> NodeKind {
    NodeKind::Constant {
        value: value.to_bits(),
    }
}

fn scale(multiplier: f64) -> NodeKind {
    NodeKind::ScaleOffset {
        multiplier: multiplier.to_bits(),
        offset: 0f64.to_bits(),
    }
}

fn selector(source: Option<&str>) -> FieldSelector {
    FieldSelector {
        source: source.map(str::to_owned),
        topic: "GPS".to_owned(),
        instance: None,
        field: "Alt".to_owned(),
    }
}

fn data() -> NodeKind {
    NodeKind::DataField(selector(Some("flight")))
}

fn output_kind() -> NodeKind {
    NodeKind::Output(OutputSpec {
        topic: "derived".to_owned(),
        fields: vec![OutputFieldSpec {
            name: "alt".to_owned(),
            unit: None,
        }],
    })
}

fn add_node(graph: &mut Graph, kind: NodeKind) -> NodeId {
    let id = NodeId(graph.nodes.iter().map(|node| node.id.0).max().unwrap_or(0) + 1);
    graph.nodes.push(Node {
        id,
        pos: pos(0.0, 0.0),
        kind,
    });
    id
}

fn connect(graph: &mut Graph, from: NodeId, to: NodeId) {
    graph.edges.push(Edge {
        from,
        from_port: 0,
        to,
        to_port: 0,
    });
}

fn copy_of(graph: &Graph) -> Graph {
    let mut copy = Graph::new(&graph.name);
    copy.viewport = graph.viewport;
    copy.nodes = graph.nodes.clone();
    copy.edges = graph.edges.clone();
    copy
}

/// Applies a command to a copy of a graph.
fn apply(graph: &Graph, command: GraphCommand) -> Result<AppliedEdit, String> {
    let mut graph = copy_of(graph);
    let inverse = run(&mut graph, command)?;
    Ok(AppliedEdit { graph, inverse })
}

fn run(graph: &mut Graph, command: GraphCommand) -> Result<GraphCommand, String> {
    match command {
        GraphCommand::AddNode { node } => {
            let id = node.id;
            graph.nodes.push(node);
            Ok(GraphCommand::RemoveNode { id })
        }
        GraphCommand::RemoveNode { id } => {
            let at = graph
                .nodes
                .iter()
                .position(|node| node.id == id)
                .ok_or("UnknownNode")?;
            let node = graph.nodes.remove(at);
            let mut undo = vec![GraphCommand::AddNode { node }];
            undo.extend(
                graph
                    .edges
                    .iter()
                    .filter(|edge| edge.from == id || edge.to == id)
                    .map(|edge| GraphCommand::Connect { edge: *edge }),
            );
            graph.edges.retain(|edge| edge.from != id && edge.to != id);
            Ok(GraphCommand::Batch(undo))
        }
        GraphCommand::Connect { edge } => {
            graph.edges.push(edge);
            Ok(GraphCommand::Disconnect {
                to: edge.to,
                to_port: edge.to_port,
            })
        }
        GraphCommand::Disconnect { to, to_port } => {
            let at = graph
                .edges
                .iter()
                .position(|edge| edge.to == to && edge.to_port == to_port)
                .ok_or("NotConnected")?;
            Ok(GraphCommand::Connect {
                edge: graph.edges.remove(at),
            })
        }
        GraphCommand::SetKind { id, kind } => {
            let node = graph
                .nodes
                .iter_mut()
                .find(|node| node.id == id)
                .ok_or("UnknownNode")?;
            let old = std::mem::replace(&mut node.kind, kind);
            Ok(GraphCommand::SetKind { id, kind: old })
        }
        GraphCommand::Batch(commands) => {
            let mut inverses = Vec::new();
            for command in commands {
                inverses.insert(0, run(graph, command)?);
            }
            Ok(GraphCommand::Batch(inverses))
        }
        _ => Err("unused here".to_owned()),
    }
}

fn undo(controller: &mut Controller) {
    if let Some(command) = controller.take_undo() {
        let outcome = apply(&controller.graph, command).ok();
        controller.undo(outcome);
    }
}

fn redo(controller: &mut Controller) {
    if let Some(command) = controller.take_redo() {
        let outcome = apply(&controller.graph, command).ok();
        controller.redo(outcome);
    }
}

#[test]
fn set_field_source_binds_a_source_without_dirtying_and_re_resolves() {
    let mut graph = Graph::new("g");
    let field = add_node(&mut graph, NodeKind::DataField(selector(None)));
    let mut controller = Controller::new(graph);
    controller.selection = vec![field];
    controller.request_eval("two sources", 0);
    controller.poll(
        1,
        false,
        None,
        vec![Diagnostic {
            node: field,
            message: "field is ambiguous".to_owned(),
        }],
    );
    assert!(controller
        .diagnostics_for(field)
        .iter()
        .any(|message| message.contains("ambiguous")));
    assert!(!controller.needs_eval());

    controller.set_field_source(field, Some("flight_b".to_owned()));
    assert!(controller.needs_eval());
    assert!(!controller.dirty);
    assert!(!controller.can_undo());
    match &controller.graph.nodes[0].kind {
        NodeKind::DataField(selector) => assert_eq!(selector.source.as_deref(), Some("flight_b")),
        _ => panic!("expected a data field"),
    }

    controller.request_eval("two sources", 1);
    controller.poll(2, false, None, Vec::new());
    assert!(controller.diagnostics_for(field).is_empty());
    controller.set_field_source(field, Some("flight_b".to_owned()));
    assert!(!controller.needs_eval());
}

#[test]
fn replacing_the_graph_starts_over() {
    let mut graph = Graph::new("g");
    let node = add_node(&mut graph, data());
    let mut controller = Controller::new(graph);
    controller.selection = vec![node];
    controller.replace_graph(Graph::new("other"));
    assert_eq!(controller.graph.name, "other");
    assert!(controller.selection.is_empty());
    assert!(controller.needs_eval());
    assert!(controller.undo.is_empty());
}

#[test]
fn sole_selection_only_when_exactly_one() {
    let mut controller = Controller::new(Graph::new("g"));
    assert_eq!(controller.sole_selection(), None);
    controller.selection = vec![NodeId(1)];
    assert_eq!(controller.sole_selection(), Some(NodeId(1)));
    controller.selection = vec![NodeId(1), NodeId(2)];
    assert_eq!(controller.sole_selection(), None);
}

#[test]
fn delete_selection_removes_all_selected_in_one_undo_step() {
    let mut graph = Graph::new("g");
    let a = add_node(&mut graph, data());
    let b = add_node(&mut graph, scale(1.0));
    connect(&mut graph, a, b);
    let mut controller = Controller::new(graph);
    assert!(controller.delete_selection().is_none());
    controller.selection = vec![a, b];

    let command = controller.delete_selection().unwrap();
    let outcome = apply(&controller.graph, command);
    controller.apply(outcome).unwrap();
    assert!(controller.graph.nodes.is_empty());
    assert!(controller.graph.edges.is_empty());
    assert!(controller.selection.is_empty());

    undo(&mut controller);
    assert_eq!(controller.graph.nodes.len(), 2);
    assert_eq!(controller.graph.edges.len(), 1);
}

#[test]
fn copy_paste_duplicates_nodes_and_internal_edges_in_one_undo_step() {
    let mut graph = Graph::new("g");
    let a = add_node(&mut graph, data());
    let b = add_node(&mut graph, scale(2.0));
    connect(&mut graph, a, b);
    let outside = add_node(&mut graph, NodeKind::Add);
    connect(&mut graph, b, outside);
    let mut controller = Controller::new(graph);
    controller.selection = vec![a, b];

    let clipboard = controller.copy_selection();
    assert_eq!(clipboard.nodes.len(), 2);
    assert_eq!(clipboard.edges.len(), 1);
    let ids = vec![NodeId(10), NodeId(11)];
    let command = paste_command(&clipboard, &ids, &vec![pos(30.0, 30.0); 2]).unwrap();
    let outcome = apply(&controller.graph, command);
    controller.paste(outcome, ids).unwrap();

    assert_eq!(controller.graph.nodes.len(), 5);
    assert_eq!(controller.graph.edges.len(), 3);
    assert_eq!(controller.selection.len(), 2);
    assert!(!controller.selection.contains(&a));
    assert!(!controller.selection.contains(&b));
    assert!(controller.graph.nodes.iter().any(|node| {
        controller.selection.contains(&node.id) && node.pos == pos(30.0, 30.0)
    }));
    assert!(controller.graph.edges.contains(&Edge {
        from: NodeId(10),
        from_port: 0,
        to: NodeId(11),
        to_port: 0
    }));

    undo(&mut controller);
    assert_eq!(controller.graph.nodes.len(), 3);
    assert_eq!(controller.graph.edges.len(), 2);
    controller.selection.clear();
    let empty = controller.copy_selection();
    assert!(empty.is_empty());
    assert!(paste_command(&empty, &Vec::new(), &Vec::new()).is_none());
}

fn tracks_dirty_and_stacks() {
    let mut controller = Controller::new(Graph::new("g"));
    let id = NodeId(1);
    let outcome = apply(
        &controller.graph,
        GraphCommand::AddNode {
            node: Node {
                id,
                pos: pos(0.0, 0.0),
                kind: constant(2.0),
            },
        },
    );
    controller.apply(outcome).unwrap();
    assert!(controller.can_undo() && controller.dirty);
    undo(&mut controller);
    assert!(controller.graph.find_node(id).is_none() && controller.can_redo());
    redo(&mut controller);
    assert!(controller.graph.find_node(id).is_some() && controller.can_undo());
    assert!(!controller.can_redo());
    assert_eq!(controller.apply(Err("nope".to_owned())).unwrap_err(), "nope");
    assert!(controller.can_undo());
}

#[test]
fn controller_apply_undo_redo_track_dirty_and_stacks() {
    tracks_dirty_and_stacks();
}

#[test]
fn tests_apply_undo_redo_track_dirty_and_stacks() {
    tracks_dirty_and_stacks();
}

#[test]
fn the_history_forgets_its_oldest_step() {
    let mut stack = Vec::new();
    for n in 0..=UNDO_CAPACITY {
        push_bounded(&mut stack, n);
    }
    assert_eq!(stack.len(), UNDO_CAPACITY);
    assert_eq!(stack[0], 1);
    assert_eq!(stack.last(), Some(&UNDO_CAPACITY));
}

#[test]
fn outputs_are_evaluated_before_what_is_selected() {
    let mut graph = Graph::new("g");
    let a = add_node(&mut graph, data());
    let out = add_node(&mut graph, output_kind());
    assert_eq!(eval_targets(&graph, &vec![a, out]), vec![out, a]);
    assert_eq!(eval_targets(&graph, &Vec::new()), vec![out]);
}

#[test]
fn generations_skip_zero() {
    assert_eq!(following_generation(0), 1);
    assert_eq!(following_generation(41), 42);
    assert_eq!(following_generation(u64::MAX), 1);
}

fn launched(step: QueueStep<&'static str>) -> EvalRequest<&'static str> {
    match step {
        QueueStep::Launch(request) => request,
        QueueStep::CancelRunning => panic!("expected a launch"),
    }
}

fn drops_stale_generations() {
    let mut controller = Controller::new(Graph::new("g"));
    let first = launched(controller.request_eval("old", 0));
    assert_eq!((first.generation, first.input, first.publish), (1, "old", false));
    assert!(matches!(
        controller.request_publish("new", 1),
        QueueStep::CancelRunning
    ));
    assert!(controller.is_evaluating());
    let stale = Diagnostic {
        node: NodeId(1),
        message: "stale".to_owned(),
    };
    let (reception, next) = controller.poll(1, false, None, vec![stale]);
    assert_eq!(reception, Reception::Stale);
    assert!(controller.diagnostics.is_empty());
    let next = next.unwrap();
    assert_eq!((next.generation, next.input, next.publish), (2, "new", true));
    let (reception, next) = controller.poll(2, false, None, Vec::new());
    assert_eq!(reception, Reception::Settled);
    assert!(next.is_none() && !controller.is_evaluating());
}

#[test]
fn controller_stale_generations_are_dropped() {
    drops_stale_generations();
}

#[test]
fn tests_stale_generations_are_dropped() {
    drops_stale_generations();
}

/// The preview of one output, as it runs through live ticks.
struct Running {
    counts: Option<PreviewCounts>,
}

impl Running {
    fn take(
        &mut self,
        controller: &mut Controller,
        request: &EvalRequest<&'static str>,
        times: &[i64],
    ) {
        let inside: Vec<i64> = times
            .iter()
            .copied()
            .filter(|t| request.window.map_or(true, |(from, to)| from <= *t && *t <= to))
            .collect();
        let missing = vec![false; inside.len()];
        let counts = preview_counts_from(&inside, &missing, request.preview_from_t);
        let end = PreviewEnd {
            node: NodeId(1),
            port: 0,
            end_t: inside.last().copied(),
        };
        match controller.merge_live_previews(&vec![end])[0] {
            PreviewStep::Skip => {}
            PreviewStep::Seed => self.counts = Some(counts),
            PreviewStep::Merge => self.counts.as_mut().unwrap().merge(counts),
        }
    }
}

fn accumulates_across_ticks() {
    let mut controller = Controller::new(Graph::new("g"));
    let mut running = Running { counts: None };
    let seed = launched(controller.request_live("s", Some(300), 3_000_000, false, 0));
    assert_eq!(seed.window, None);
    running.take(&mut controller, &seed, &[100, 200, 300]);
    controller.poll(1, true, Some(300), Vec::new());
    assert_eq!(running.counts.unwrap().count, 3);
    assert_eq!(controller.live_watermark_t, Some(300));

    let tick = launched(controller.request_live("s", Some(500), 3_000_000, false, 1));
    assert_eq!(tick.window, Some((300 - 3_000_000, 500)));
    running.take(&mut controller, &tick, &[100, 200, 300, 400, 500]);
    controller.poll(2, true, Some(500), Vec::new());
    let counts = running.counts.unwrap();
    assert_eq!(counts.count, 5);
    assert_eq!((counts.t0_us, counts.t1_us), (100, 500));

    running.take(&mut controller, &tick, &[100, 200, 300, 400, 500]);
    assert_eq!(running.counts.unwrap().count, 5);
}

#[test]
fn controller_live_preview_accumulates_across_ticks() {
    accumulates_across_ticks();
}

#[test]
fn tests_live_preview_accumulates_across_ticks() {
    accumulates_across_ticks();
}

fn survives_coalesced_generation() {
    let mut controller = Controller::new(Graph::new("g"));
    let mut running = Running { counts: None };
    launched(controller.request_live("s", Some(300), 3_000_000, false, 0));
    assert!(matches!(
        controller.request_live("s", Some(500), 3_000_000, false, 1),
        QueueStep::CancelRunning
    ));
    let (reception, next) = controller.poll(1, true, Some(300), Vec::new());
    assert_eq!(reception, Reception::Stale);
    assert_eq!(controller.live_watermark_t, None);
    let next = next.unwrap();
    assert_eq!(next.window, None);
    running.take(&mut controller, &next, &[100, 200, 300, 400, 500]);
    controller.poll(2, true, Some(500), Vec::new());
    assert_eq!(running.counts.unwrap().count, 5);
}

#[test]
fn controller_live_preview_survives_coalesced_generation() {
    survives_coalesced_generation();
}

#[test]
fn tests_live_preview_survives_coalesced_generation() {
    survives_coalesced_generation();
}

#[test]
fn previews_count_numbers_gaps_and_times_behind_a_mark() {
    let counts = preview_counts_from(&vec![10, 20, 30], &vec![false, true, false], None);
    assert_eq!(
        counts,
        PreviewCounts {
            count: 2,
            nan_count: 1,
            t0_us: 10,
            t1_us: 30
        }
    );
    let tail = preview_counts_from(&vec![10, 20, 30], &vec![false, true, false], Some(10));
    assert_eq!((tail.count, tail.nan_count, tail.t0_us, tail.t1_us), (1, 1, 20, 30));
}

#[test]
fn windows_start_before_the_watermark_without_overflow() {
    let mut controller = Controller::new(Graph::new("g"));
    controller.live_watermark_t = Some(i64::MIN + 5);
    let request = launched(controller.request_live("s", Some(7), 10, true, 0));
    assert_eq!(request.window, Some((i64::MIN, 7)));
    assert!(request.live && request.publish);
    assert_eq!(request.preview_from_t, Some(i64::MIN + 5));
}

#[derive(Debug, PartialEq, Eq)]
enum Observed {
    Open(String),
    Batch(usize),
    Close(SourceId),
    Remove(SourceId),
}

/// The store into which graphs are published: it numbers its sources.
struct Ingest {
    next: u32,
    observed: Vec<Observed>,
}

impl Ingest {
    fn new() -> Self {
        Ingest {
            next: 40,
            observed: Vec::new(),
        }
    }

    fn open(&mut self, name: &str) -> SourceId {
        self.observed.push(Observed::Open(name.to_owned()));
        self.next += 1;
        SourceId(self.next - 1)
    }

    /// Publishes a graph: `latest` is the latest generation when the publication
    /// begins and when the source has been filled.
    fn publish(
        &mut self,
        published: &mut PublishedSources,
        name: &str,
        generation: u64,
        latest: [u64; 2],
    ) -> Option<SourceId> {
        if !may_publish(generation, latest[0]) {
            return None;
        }
        let source = self.open(name);
        self.observed.push(Observed::Batch(1));
        self.observed.push(Observed::Close(source));
        match published.commit(name, source, generation, latest[1]) {
            CommitStep::Keep => Some(source),
            CommitStep::Replace(before) => {
                self.observed.push(Observed::Remove(before));
                Some(source)
            }
            CommitStep::Retract => {
                self.observed.push(Observed::Remove(source));
                None
            }
        }
    }

    /// Runs the graph of a controller once, from the request to the log.
    fn run(
        &mut self,
        controller: &mut Controller,
        published: &mut PublishedSources,
        latest: u64,
        outputs: Option<Result<(), Vec<Diagnostic>>>,
    ) -> Vec<(LogLevel, String)> {
        let generation = launched(controller.request_publish("snapshot", latest)).generation;
        let (reception, next) = controller.poll(generation, false, None, Vec::new());
        assert_eq!(reception, Reception::Settled);
        assert!(next.is_none());
        match controller.handle_publish(&outputs) {
            PublishStep::Nothing => Vec::new(),
            PublishStep::Refuse(text) => vec![(LogLevel::Error, text)],
            PublishStep::Publish => {
                let source = self.publish(published, "g", generation, [generation; 2]);
                controller
                    .publication_done(generation, "g", Ok(source))
                    .into_iter()
                    .collect()
            }
        }
    }

    /// Appends what is new of a live outcome; `times` are those of its topic.
    fn append(&mut self, controller: &mut Controller, times: &[i64]) {
        let source = match controller.append_publish(&Some(Ok(()))) {
            AppendStep::Open => {
                let source = self.open("g");
                controller.live_opened(source);
                source
            }
            AppendStep::Append(source) => source,
            _ => panic!("expected outputs"),
        };
        assert_eq!(controller.live_source(), Some(source));
        let topics = vec![OutputTopic {
            name: "derived".to_owned(),
            times: times.to_vec(),
        }];
        for tail in controller.take_tails(&topics) {
            let rows = topics[tail.topic].times.len() - tail.from;
            self.observed.push(Observed::Batch(rows));
        }
    }
}

fn stale_before_emission() {
    let mut published = PublishedSources::new();
    let mut ingest = Ingest::new();
    assert_eq!(ingest.publish(&mut published, "g", 1, [2, 2]), None);
    assert!(ingest.observed.is_empty());
    assert!(published.entries.is_empty());
}

#[test]
fn controller_publication_becoming_stale_before_emission_has_no_ingest_side_effects() {
    stale_before_emission();
}

#[test]
fn tests_publication_becoming_stale_before_emission_has_no_ingest_side_effects() {
    stale_before_emission();
}

fn stale_while_open_waits() {
    let mut published = PublishedSources::new();
    assert_eq!(published.commit("g", SourceId(39), 1, 1), CommitStep::Keep);
    let mut ingest = Ingest::new();
    assert_eq!(ingest.publish(&mut published, "g", 1, [1, 2]), None);
    assert!(!ingest.observed.contains(&Observed::Remove(SourceId(39))));
    assert!(ingest.observed.contains(&Observed::Remove(SourceId(40))));
    assert_eq!(published.entries, vec![("g".to_owned(), SourceId(39))]);
}

#[test]
fn controller_publication_becoming_stale_while_open_waits_keeps_previous_source() {
    stale_while_open_waits();
}

#[test]
fn tests_publication_becoming_stale_while_open_waits_keeps_previous_source() {
    stale_while_open_waits();
}

fn all_or_nothing() {
    let mut graph = Graph::new("g");
    let input = add_node(&mut graph, data());
    let output = add_node(&mut graph, output_kind());
    connect(&mut graph, input, output);
    let mut controller = Controller::new(graph);
    let mut published = PublishedSources::new();
    let mut ingest = Ingest::new();

    let logs = ingest.run(&mut controller, &mut published, 0, Some(Ok(())));
    assert!(logs.iter().any(|(level, _)| *level == LogLevel::Info));
    assert_eq!(
        ingest.observed,
        vec![
            Observed::Open("g".to_owned()),
            Observed::Batch(1),
            Observed::Close(SourceId(40)),
        ]
    );
    let first = published.entries[0].1;
    ingest.observed.clear();

    ingest.run(&mut controller, &mut published, 1, Some(Ok(())));
    assert_eq!(
        ingest.observed,
        vec![
            Observed::Open("g".to_owned()),
            Observed::Batch(1),
            Observed::Close(SourceId(41)),
            Observed::Remove(first),
        ]
    );
    let second = published.entries[0].1;
    ingest.observed.clear();

    let failed = Diagnostic {
        node: output,
        message: "two fields are called 'same'.".to_owned(),
    };
    let logs = ingest.run(&mut controller, &mut published, 2, Some(Err(vec![failed])));
    assert!(logs.iter().any(|(level, _)| *level == LogLevel::Error));
    assert!(ingest.observed.is_empty());
    assert_eq!(published.entries, vec![("g".to_owned(), second)]);
}

#[test]
fn controller_publish_is_all_or_nothing_and_replaces_previous() {
    all_or_nothing();
}

#[test]
fn tests_publish_is_all_or_nothing_and_replaces_previous() {
    all_or_nothing();
}

fn replacement_preserves_ownership() {
    let mut controller = Controller::new(Graph::new("g"));
    let mut published = PublishedSources::new();
    let mut ingest = Ingest::new();
    ingest.run(&mut controller, &mut published, 0, Some(Ok(())));
    let first = published.entries[0].1;
    ingest.observed.clear();

    controller.replace_graph(Graph::new("g"));
    ingest.run(&mut controller, &mut published, 1, Some(Ok(())));
    assert_eq!(
        ingest.observed,
        vec![
            Observed::Open("g".to_owned()),
            Observed::Batch(1),
            Observed::Close(SourceId(41)),
            Observed::Remove(first),
        ]
    );
    assert_eq!(published.entries, vec![("g".to_owned(), SourceId(41))]);
}

#[test]
fn controller_graph_replacement_preserves_published_source_ownership() {
    replacement_preserves_ownership();
}

#[test]
fn tests_graph_replacement_preserves_published_source_ownership() {
    replacement_preserves_ownership();
}

fn appends_only_new_tail() {
    let mut controller = Controller::new(Graph::new("g"));
    let mut ingest = Ingest::new();
    launched(controller.request_live("s", Some(300), 3_000_000, true, 0));
    controller.poll(1, true, Some(300), Vec::new());
    ingest.append(&mut controller, &[100, 200, 300]);
    assert!(controller.is_live_published());
    assert_eq!(
        ingest.observed,
        vec![Observed::Open("g".to_owned()), Observed::Batch(3)]
    );
    ingest.observed.clear();

    launched(controller.request_live("s", Some(500), 3_000_000, true, 1));
    controller.poll(2, true, Some(500), Vec::new());
    ingest.append(&mut controller, &[100, 200, 300, 400, 500]);
    assert_eq!(ingest.observed, vec![Observed::Batch(2)]);
    ingest.append(&mut controller, &[100, 200, 300, 400, 500]);
    assert_eq!(ingest.observed.len(), 1);
}

#[test]
fn controller_live_append_seeds_then_appends_only_new_tail() {
    appends_only_new_tail();
}

#[test]
fn tests_live_append_seeds_then_appends_only_new_tail() {
    appends_only_new_tail();
}

fn seed_covers_full_history() {
    let mut controller = Controller::new(Graph::new("g"));
    let mut ingest = Ingest::new();
    launched(controller.request_live("s", Some(30_000_000), 3_000_000, false, 0));
    controller.poll(1, true, Some(30_000_000), Vec::new());
    assert_eq!(controller.reset_live(), None);

    let seed = launched(controller.request_live("s", Some(50_000_000), 3_000_000, true, 1));
    assert_eq!(seed.window, None);
    controller.poll(2, true, Some(50_000_000), Vec::new());
    ingest.append(
        &mut controller,
        &[10_000_000, 20_000_000, 30_000_000, 40_000_000, 50_000_000],
    );
    assert_eq!(
        ingest.observed,
        vec![Observed::Open("g".to_owned()), Observed::Batch(5)]
    );
}

#[test]
fn controller_live_seed_after_preview_covers_full_history() {
    seed_covers_full_history();
}

#[test]
fn tests_live_seed_after_preview_covers_full_history() {
    seed_covers_full_history();
}

fn getter_exposes_open_source() {
    let mut controller = Controller::new(Graph::new("g"));
    let mut ingest = Ingest::new();
    assert!(controller.live_source().is_none());
    launched(controller.request_live("s", Some(300), 3_000_000, true, 0));
    controller.poll(1, true, Some(300), Vec::new());
    ingest.append(&mut controller, &[100, 200, 300]);
    assert!(controller.live_source().is_some());
    assert_eq!(controller.reset_live(), Some(SourceId(40)));
    assert!(controller.live_source().is_none());
}

#[test]
fn controller_live_source_getter_exposes_open_source() {
    getter_exposes_open_source();
}

#[test]
fn tests_live_source_getter_exposes_open_source() {
    getter_exposes_open_source();
}

#[test]
fn publication_results_go_to_the_log() {
    let mut controller = Controller::new(Graph::new("g"));
    controller.generation = 1;
    assert!(matches!(controller.handle_publish(&None), PublishStep::Nothing));
    assert!(matches!(
        controller.handle_publish(&Some(Ok(()))),
        PublishStep::Publish
    ));
    assert!(controller.is_evaluating());
    assert_eq!(
        controller.publication_done(1, "g", Ok(Some(SourceId(4)))),
        Some((LogLevel::Info, "Published data flow 'g'.".to_owned()))
    );
    assert!(!controller.is_evaluating());
    assert_eq!(controller.publication_done(1, "g", Ok(None)), None);
    assert_eq!(
        controller.publication_done(1, "g", Err("bad".to_owned())),
        Some((LogLevel::Error, "bad".to_owned()))
    );
    assert_eq!(controller.publication_done(9, "g", Err("bad".to_owned())), None);
    let failed = vec![
        Diagnostic {
            node: NodeId(1),
            message: "one.".to_owned(),
        },
        Diagnostic {
            node: NodeId(2),
            message: "two.".to_owned(),
        },
    ];
    assert_eq!(join_messages(&failed), "one. two.");
    match controller.handle_publish(&Some(Err(failed))) {
        PublishStep::Refuse(text) => assert_eq!(text, "one. two."),
        _ => panic!("expected a refusal"),
    }
}

#[test]
fn live_publication_opens_once_and_appends_tails() {
    let mut controller = Controller::new(Graph::new("g"));
    assert!(controller.live_source().is_none() && !controller.is_live_published());
    assert!(matches!(
        controller.append_publish(&Some(Ok(()))),
        AppendStep::Open
    ));
    controller.live_opened(SourceId(40));
    assert!(matches!(
        controller.append_publish(&Some(Ok(()))),
        AppendStep::Append(SourceId(40))
    ));
    let topic = |name: &str, times: &[i64]| OutputTopic {
        name: name.to_owned(),
        times: times.to_vec(),
    };
    let tails = controller.take_tails(&vec![
        topic("derived", &[100, 300]),
        topic("empty", &[]),
        topic("other", &[7]),
        topic("derived", &[100, 300, 500]),
    ]);
    let tail = |topic, from| Tail { topic, from };
    assert_eq!(tails, vec![tail(0, 0), tail(2, 0), tail(3, 2)]);
    assert!(controller.take_tails(&vec![topic("derived", &[400, 500])]).is_empty());
    assert_eq!(controller.last_published_t.len(), 2);

    let outcome = apply(
        &controller.graph,
        GraphCommand::AddNode {
            node: Node {
                id: NodeId(1),
                pos: pos(0.0, 0.0),
                kind: NodeKind::Add,
            },
        },
    );
    controller.apply(outcome).unwrap();
    assert!(controller.take_needs_live_reset());
    assert!(!controller.take_needs_live_reset());
    assert_eq!(controller.reset_live(), Some(SourceId(40)));
    assert_eq!(
        controller.take_tails(&vec![topic("derived", &[100])]),
        vec![tail(0, 0)]
    );
    assert!(controller.live_source().is_none());
}

#[test]
fn live_cadence_fires_only_on_new_epoch_after_interval() {
    let passed = |now: f64, last: f64, throttle_ms: u32| (now - last) * 1000.0 >= throttle_ms as f64;
    assert!(should_tick_live(passed(1.000, 0.700, 200), 5, 4));
    assert!(!should_tick_live(passed(0.800, 0.700, 200), 5, 4));
    assert!(!should_tick_live(passed(2.000, 0.700, 200), 4, 4));
}

#[test]
fn socket_fan_out_disconnect_is_one_undo_step() {
    let mut graph = Graph::new("fan-out");
    let source = add_node(&mut graph, data());
    let b = add_node(&mut graph, scale(1.0));
    let c = add_node(&mut graph, scale(1.0));
    connect(&mut graph, source, b);
    connect(&mut graph, source, c);
    let original_edges = graph.edges.clone();
    let mut controller = Controller::new(graph);

    let command = disconnect_many_command(&vec![(b, 0), (c, 0)]);
    let outcome = apply(&controller.graph, command);
    controller.apply(outcome).unwrap();
    assert!(controller.graph.edges.is_empty());
    undo(&mut controller);
    assert_eq!(controller.graph.edges, original_edges);
    assert!(!controller.can_undo());
}

fn editor_of(kind: NodeKind) -> Editor {
    let mut graph = Graph::new("inspector");
    graph.nodes.push(Node {
        id: NodeId(1),
        pos: pos(0.0, 0.0),
        kind,
    });
    let mut editor = Editor::new(1, graph, None);
    editor.controller.selection = vec![NodeId(1)];
    editor
}

#[test]
fn titles_tell_what_is_not_saved() {
    let mut editor = Editor::new(1, Graph::new("untitled"), None);
    assert_eq!(editor.title(), "Untitled");
    assert!(!editor.canvas.fit_requested());
    editor.name_edit = "draft".to_owned();
    assert_eq!(editor.title(), "draft \u{2022}");
    editor.commit_name(true);
    assert_eq!(editor.controller.graph.name, "draft");
    assert!(editor.controller.dirty);
    let (saved, line) = editor.save(Ok(()));
    assert!(saved);
    assert_eq!(line, (LogLevel::Info, "Saved data flow 'draft'".to_owned()));
    assert_eq!(editor.title(), "draft");
    assert_eq!(editor.loaded_name.as_deref(), Some("draft"));
    let (saved, line) = editor.save(Err("disk full".to_owned()));
    assert!(!saved);
    assert_eq!(line, (LogLevel::Error, "disk full".to_owned()));
    let loaded = Editor::new(2, Graph::new("untitled"), Some("untitled".to_owned()));
    assert_eq!(loaded.title(), "untitled");
}

#[test]
fn choosing_add_data_keeps_the_typed_filter() {
    let mut editor = Editor::new(1, Graph::new("untitled"), None);
    let mut menu = AddMenuState::new(pos(20.0, 30.0), pos(1.0, 2.0));
    menu.query = "altitude".to_owned();
    menu.dismiss_armed = true;
    editor.add_menu = Some(menu);

    let command = editor.take_menu_action(Some(AddAction::Template(ADD_DATA_INDEX)), NodeId(1));

    assert!(command.is_none());
    let menu = editor.add_menu.take().expect("add menu stays open");
    assert_eq!(menu.mode, AddMenuMode::Data);
    assert_eq!(menu.query, "altitude");
}

#[test]
fn choices_of_the_menu_add_a_node_and_select_it() {
    let mut editor = Editor::new(1, Graph::new("untitled"), None);
    editor.add_menu = Some(AddMenuState::new(pos(20.0, 30.0), pos(1.0, 2.0)));
    assert!(editor.take_menu_action(None, NodeId(5)).is_none());
    assert!(editor.add_menu.is_some());
    let add = templates().iter().position(|t| t.name == "Add").unwrap();
    let command = editor
        .take_menu_action(Some(AddAction::Template(add)), NodeId(5))
        .unwrap();
    assert!(editor.add_menu.is_none());
    let outcome = apply(&editor.controller.graph, command);
    assert!(editor.added(outcome, NodeId(5)).is_none());
    assert_eq!(editor.controller.selection, vec![NodeId(5)]);
    assert_eq!(editor.controller.graph.nodes[0].pos, pos(1.0, 2.0));
    assert!(matches!(editor.controller.graph.nodes[0].kind, NodeKind::Add));

    editor.add_menu = Some(AddMenuState::new(pos(20.0, 30.0), pos(1.0, 2.0)));
    let hit = DataHit {
        score: 3,
        selector: selector(None),
        label: "GPS.Alt".to_owned(),
        unit: None,
        rows: 10,
    };
    match editor.take_menu_action(Some(AddAction::Data(hit)), NodeId(6)) {
        Some(GraphCommand::AddNode { node }) => {
            assert!(matches!(node.kind, NodeKind::DataField(_)));
            assert_eq!(node.id, NodeId(6));
        }
        _ => panic!("expected a node"),
    }
    let line = editor.added(Err("Full".to_owned()), NodeId(6)).unwrap();
    assert_eq!(line.1, "Data-flow edit failed: Full");
    assert_eq!(editor.controller.selection, vec![NodeId(6)]);
    editor.add_menu = Some(AddMenuState::new(pos(20.0, 30.0), pos(1.0, 2.0)));
    assert!(editor.take_menu_action(Some(AddAction::Close), NodeId(7)).is_none());
    assert!(editor.add_menu.is_none());
}

#[test]
fn events_of_the_canvas_become_edits() {
    let mut graph = Graph::new("g");
    let a = add_node(&mut graph, data());
    let b = add_node(&mut graph, scale(1.0));
    connect(&mut graph, a, b);
    let mut editor = Editor::new(1, graph, None);

    assert!(matches!(
        editor.handle_canvas_event(CanvasEvent::Select(Some(b)), None),
        EditorStep::RequestEval
    ));
    assert_eq!(editor.controller.selection, vec![b]);
    match editor.handle_canvas_event(
        CanvasEvent::Moved {
            id: a,
            from: pos(0.0, 0.0),
            to: pos(4.0, 5.0),
        },
        None,
    ) {
        EditorStep::Apply(GraphCommand::Batch(commands)) => {
            assert!(matches!(commands[0], GraphCommand::MoveNode { id, .. } if id == a))
        }
        _ => panic!("expected a move"),
    }
    let connect_event = || CanvasEvent::Connect {
        from: a,
        from_port: 0,
        to: b,
        to_port: 1,
    };
    match editor.handle_canvas_event(connect_event(), Some("TypeMismatch".to_owned())) {
        EditorStep::Refuse(text) => assert_eq!(text, "Cannot connect nodes: TypeMismatch"),
        _ => panic!("expected a refusal"),
    }
    assert!(matches!(
        editor.handle_canvas_event(connect_event(), None),
        EditorStep::Apply(GraphCommand::Connect { .. })
    ));
    let disconnect = |to_port| CanvasEvent::Disconnect { to: b, to_port };
    assert!(matches!(
        editor.handle_canvas_event(disconnect(0), None),
        EditorStep::Apply(GraphCommand::Disconnect { .. })
    ));
    assert!(matches!(
        editor.handle_canvas_event(disconnect(1), None),
        EditorStep::Nothing
    ));
    assert!(matches!(
        editor.handle_canvas_event(
            CanvasEvent::DisconnectMany {
                endpoints: Vec::new()
            },
            None
        ),
        EditorStep::Nothing
    ));
    assert!(matches!(
        editor.handle_canvas_event(CanvasEvent::Delete(a), None),
        EditorStep::Apply(GraphCommand::RemoveNode { .. })
    ));
    editor.handle_canvas_event(
        CanvasEvent::OpenAddMenu {
            canvas_pos: pos(1.0, 2.0),
            screen_pos: pos(9.0, 10.0),
        },
        None,
    );
    assert_eq!(editor.add_menu.as_ref().unwrap().canvas_pos, pos(1.0, 2.0));
    assert!(matches!(
        editor.handle_canvas_event(CanvasEvent::Select(None), None),
        EditorStep::RequestEval
    ));
    assert!(editor.controller.selection.is_empty());
}

#[test]
fn keys_copy_paste_and_delete_what_is_selected() {
    let events = vec![
        KeyEvent::Other,
        KeyEvent::Cut,
        KeyEvent::Delete { pressed: false },
    ];
    assert_eq!(
        shortcut_keys(&events),
        ShortcutKeys {
            copy: true,
            paste: false,
            delete: false
        }
    );
    let all = ShortcutKeys {
        copy: true,
        paste: true,
        delete: true,
    };
    assert_eq!(
        shortcut_keys(&vec![
            KeyEvent::Copy,
            KeyEvent::Paste,
            KeyEvent::Delete { pressed: true }
        ]),
        all
    );
    let none = ShortcutKeys {
        copy: false,
        paste: false,
        delete: false,
    };
    let mut editor = editor_of(NodeKind::Add);
    assert_eq!(editor.handle_shortcuts(all, false, false), none);
    assert_eq!(editor.handle_shortcuts(all, true, true), none);
    assert!(editor.clipboard.is_empty());
    assert_eq!(editor.handle_shortcuts(all, true, false), all);
    assert_eq!(editor.clipboard.nodes.len(), 1);
    editor.controller.selection.clear();
    let paste_and_delete = ShortcutKeys {
        copy: false,
        paste: true,
        delete: true,
    };
    assert_eq!(
        editor.handle_shortcuts(paste_and_delete, true, false),
        paste_and_delete
    );
    assert_eq!(editor.handle_shortcuts(all, true, false), none);
    assert_eq!(editor.handle_shortcuts(paste_and_delete, true, false), none);
    assert_eq!(failure_line("Paste", "x"), (LogLevel::Error, "Paste failed: x".to_owned()));
}

fn given(live_connected: bool, epoch: u64, latest: u64) -> DriveInput<&'static str> {
    DriveInput {
        input: "snapshot",
        epoch,
        snapshot_max: Some(30_000_000),
        overlap_us: 3_000_000,
        now_s: 2f64.to_bits(),
        interval_passed: true,
        live_connected,
        latest,
    }
}

#[test]
fn an_edited_graph_is_evaluated_once() {
    let mut editor = editor_of(NodeKind::Add);
    let step = editor.drive(given(false, 1, 0));
    assert!(step.closed.is_none());
    assert!(matches!(step.request, Some(QueueStep::Launch(_))));
    editor.controller.poll(1, false, None, Vec::new());
    assert!(editor.drive(given(false, 1, 1)).request.is_none());
}

#[test]
fn running_live_seeds_the_publication_from_the_full_history() {
    let mut editor = editor_of(NodeKind::Add);
    let preview = launched(editor.drive(given(true, 1, 0)).request.unwrap());
    assert!(preview.live && !preview.publish);
    editor.controller.poll(1, true, Some(30_000_000), Vec::new());
    assert!(editor.drive(given(true, 1, 1)).request.is_none());

    editor.name_edit = "renamed".to_owned();
    assert!(editor.run("snapshot", true, 1).is_none());
    assert_eq!(editor.controller.graph.name, "renamed");
    let seed = launched(editor.drive(given(true, 2, 1)).request.unwrap());
    assert!(seed.publish);
    assert_eq!(seed.window, None);
    editor.controller.live_opened(SourceId(7));
    editor.controller.poll(2, true, Some(30_000_000), Vec::new());
    let append = launched(editor.drive(given(true, 3, 2)).request.unwrap());
    assert!(append.publish);
    assert_eq!(append.window, Some((27_000_000, 30_000_000)));
    editor.controller.poll(3, true, Some(30_000_000), Vec::new());

    let step = editor.drive(given(false, 4, 3));
    assert_eq!(step.closed, Some(SourceId(7)));
    assert!(!editor.controller.is_live_published());
    let published = launched(editor.run("snapshot", false, 4).unwrap());
    assert!(published.publish && !published.live);
    assert!(editor.toolbar(false).running);
    assert_eq!(editor.toolbar(true).run_hint, "Run (publish live output)");
}

fn script(code: &str) -> NodeKind {
    NodeKind::Script(ScriptSpec {
        name: "Flight calculations".to_owned(),
        inputs: vec![ScriptInputSpec {
            name: "signal".to_owned(),
        }],
        outputs: vec![OutputFieldSpec {
            name: "result".to_owned(),
            unit: Some("deg".to_owned()),
        }],
        code: code.to_owned(),
    })
}

#[test]
fn saving_takes_over_the_code_that_is_being_edited() {
    let mut editor = editor_of(script("old"));
    assert!(editor.script_change().is_none());
    editor.script_editor = Some(ScriptEditorState {
        node: NodeId(1),
        baseline: "old".to_owned(),
        buffer: "new".to_owned(),
    });
    assert!(editor.has_unsaved_changes());
    let command = editor.script_change().unwrap();
    let outcome = apply(&editor.controller.graph, command);
    assert!(editor.script_changed(outcome).is_ok());
    match &editor.controller.graph.nodes[0].kind {
        NodeKind::Script(spec) => assert_eq!(spec.code, "new"),
        _ => panic!("expected a script"),
    }
    assert!(editor.script_change().is_none());
    editor.save(Ok(()));
    assert!(!editor.has_unsaved_changes());
    assert_eq!(editor.script_changed(Err("x".to_owned())).unwrap_err(), "x");
}

#[test]
fn nodes_with_diagnostics_are_marked() {
    let mut editor = editor_of(NodeKind::Add);
    assert!(editor.issue_nodes().is_empty());
    editor.controller.diagnostics.push(Diagnostic {
        node: NodeId(1),
        message: "x".to_owned(),
    });
    assert_eq!(editor.issue_nodes(), vec![NodeId(1)]);
}

fn no_clicks() -> PortClicks {
    PortClicks {
        remove_first: None,
        add_first: false,
        remove_second: None,
        add_second: false,
        apply_code: false,
    }
}

#[test]
fn controls_of_ports_become_edits() {
    let id = NodeId(1);
    let output = output_kind();
    assert!(structural_edit(id, &output, no_clicks(), "").is_none());
    let mut clicks = no_clicks();
    clicks.remove_first = Some(0);
    assert!(matches!(
        structural_edit(id, &output, clicks, ""),
        Some(GraphCommand::RemoveOutputField { index: 0, .. })
    ));
    clicks.add_first = true;
    match structural_edit(id, &output, clicks, "") {
        Some(GraphCommand::InsertOutputField { index, field, .. }) => {
            assert_eq!((index, field.name.as_str()), (1, "field_2"));
            assert!(field.unit.is_none());
        }
        _ => panic!("expected a new field"),
    }
    let node = script("old");
    match structural_edit(id, &node, clicks, "") {
        Some(GraphCommand::InsertScriptInput { index, input, .. }) => {
            assert_eq!((index, input.name.as_str()), (1, "in_2"))
        }
        _ => panic!("expected a new input"),
    }
    clicks.remove_second = Some(0);
    assert!(matches!(
        structural_edit(id, &node, clicks, ""),
        Some(GraphCommand::RemoveScriptOutput { index: 0, .. })
    ));
    clicks.add_second = true;
    match structural_edit(id, &node, clicks, "") {
        Some(GraphCommand::InsertScriptOutput { index, output, .. }) => {
            assert_eq!((index, output.name.as_str()), (1, "out_2"))
        }
        _ => panic!("expected a new output"),
    }
    clicks.apply_code = true;
    match structural_edit(id, &node, clicks, "new") {
        Some(GraphCommand::SetKind {
            kind: NodeKind::Script(spec),
            ..
        }) => assert_eq!(spec.code, "new"),
        _ => panic!("expected new code"),
    }
    assert!(structural_edit(id, &NodeKind::Add, clicks, "").is_none());
}

#[test]
fn changed_controls_set_the_kind() {
    let id = NodeId(1);
    assert!(inspector_command(id, None, constant(0.0), &constant(-0.0)).is_none());
    assert!(inspector_command(id, None, constant(1.0), &constant(2.0)).is_some());
    assert!(inspector_command(id, None, constant(f64::NAN), &constant(f64::NAN)).is_some());
    let removal = GraphCommand::RemoveNode { id };
    assert!(matches!(
        inspector_command(id, Some(removal), constant(1.0), &constant(2.0)),
        Some(GraphCommand::RemoveNode { .. })
    ));
    assert!(same_kind(&script("a"), &script("a")));
    assert!(!same_kind(&script("a"), &script("b")));
    assert!(same_kind(&output_kind(), &output_kind()));
    assert!(!same_kind(&output_kind(), &script("a")));
}

#[test]
fn editing_a_unit_in_the_narrow_table_updates_only_that_field() {
    let mut kind = output_kind();
    if let NodeKind::Output(spec) = &mut kind {
        spec.fields.push(OutputFieldSpec {
            name: "speed".to_owned(),
            unit: Some("m/s".to_owned()),
        });
    }
    let mut edited = kind.duplicate();
    if let NodeKind::Output(spec) = &mut edited {
        spec.fields[1].unit = unit_of("km/h".to_owned());
    }
    match inspector_command(NodeId(1), None, edited, &kind) {
        Some(GraphCommand::SetKind {
            kind: NodeKind::Output(spec),
            ..
        }) => {
            assert_eq!(spec.fields[0].unit, None);
            assert_eq!(spec.fields[1].unit.as_deref(), Some("km/h"));
        }
        _ => panic!("expected a new kind"),
    }
    assert_eq!(unit_of(String::new()), None);
}

#[test]
fn the_inspector_speaks_of_the_selection() {
    assert_eq!(selection_message(0).as_deref(), Some("Select a node to inspect it"));
    assert_eq!(selection_message(1), None);
    assert_eq!(selection_message(3).as_deref(), Some("3 nodes selected"));
    let mut field = selector(None);
    assert_eq!(selector_lines(&field), vec!["Topic: GPS".to_owned(), "Field: Alt".to_owned()]);
    field.instance = Some(2);
    assert_eq!(selector_lines(&field)[1], "Instance: 2");
    assert_eq!(source_text(&None), "(choose)");
    assert_eq!(source_text(&Some("flight".to_owned())), "flight");
    assert!(offers_sources(2) && !offers_sources(1));
    assert!(source_changed(&None, &Some("a".to_owned())));
    assert!(!source_changed(&Some("a".to_owned()), &Some("a".to_owned())));
    assert!(has_own_preview_section(&script("")) && !has_own_preview_section(&NodeKind::Add));
}

#[test]
fn lists_of_ports_name_what_they_remove() {
    assert_eq!(remove_label("field", "altitude"), "Remove field altitude");
    assert_eq!(remove_label("input", ""), "Remove input");
    assert_eq!(ports_edit(&vec![0, 2], true), Some(PortEdit::Remove(2)));
    assert_eq!(ports_edit(&Vec::new(), true), Some(PortEdit::Add));
    assert_eq!(ports_edit(&Vec::new(), false), None);
}

#[test]
fn the_code_editor_starts_over_for_other_code() {
    let mut state = None;
    script_editor_buffer(&mut state, NodeId(1), "a").push_str("bc");
    assert_eq!(script_editor_buffer(&mut state, NodeId(1), "a").as_str(), "abc");
    assert_eq!(script_editor_buffer(&mut state, NodeId(1), "z").as_str(), "z");
    script_editor_buffer(&mut state, NodeId(1), "z").push('!');
    assert_eq!(script_editor_buffer(&mut state, NodeId(2), "z").as_str(), "z");
}

fn headless_input(stamp: u64, live: bool, latest: u64) -> HeadlessInput<&'static str> {
    HeadlessInput {
        input: "snapshot",
        stamp,
        live,
        now: 1f64.to_bits(),
        interval_passed: true,
        snapshot_max: Some(10),
        overlap_us: 1,
        latest,
    }
}

#[test]
fn headless_graphs_run_when_their_inputs_change() {
    let mut flow: HeadlessFlow<&'static str> = HeadlessFlow::new(Graph::new("g"));
    assert_eq!(f64::from_bits(flow.last_run), f64::NEG_INFINITY);
    let request = launched(flow.drive(&None, headless_input(5, false, 0)).unwrap());
    assert!(request.live && request.publish);
    assert!(flow.drive(&None, headless_input(6, true, 1)).is_none());
    flow.controller.poll(1, true, Some(10), Vec::new());
    assert!(flow.drive(&None, headless_input(6, true, 1)).is_none());
    assert!(flow.drive(&Some(Err("x".to_owned())), headless_input(6, true, 1)).is_none());
    assert!(!flow.initialized);
    assert!(flow.drive(&Some(Ok(())), headless_input(6, true, 1)).is_none());
    assert!(flow.initialized);
    assert!(flow.drive(&None, headless_input(5, true, 1)).is_none());
    let mut early = headless_input(6, true, 1);
    early.interval_passed = false;
    assert!(flow.drive(&None, early).is_none());
    assert!(flow.drive(&None, headless_input(6, false, 1)).is_none());
    assert!(flow.drive(&None, headless_input(6, true, 1)).is_some());
}

#[test]
fn stamps_tell_inputs_apart() {
    let found = |field, offset_us, store| InputField::Found {
        field,
        multiplier: 1f64.to_bits(),
        unit: Some("m".to_owned()),
        offset_us,
        store,
    };
    let stamp = |inputs: Vec<InputField>| input_stamp(&inputs);
    let base = stamp(vec![found(1, Some(0), Some(16))]);
    assert_eq!(base, stamp(vec![found(1, Some(0), Some(16))]));
    assert_ne!(base, stamp(vec![found(2, Some(0), Some(16))]));
    assert_ne!(base, stamp(vec![found(1, Some(-1), Some(16))]));
    assert_ne!(base, stamp(vec![found(1, Some(0), Some(32))]));
    assert_ne!(base, stamp(vec![InputField::Missing("gone".to_owned())]));
}

#[test]
fn comparisons_show_one_bound_and_ranges_show_two() {
    let controls = |inclusive, range| {
        filter_controls(inclusive, range, "<=")
            .into_iter()
            .map(|control| match control {
                FilterControl::Inclusive => "Inclusive".to_owned(),
                FilterControl::Bound { upper, prefix } => format!("{prefix}{upper}"),
            })
            .collect::<Vec<_>>()
    };
    assert_eq!(controls(true, false), ["Inclusive", "x <= false"]);
    assert_eq!(controls(false, true), ["Min false", "Max true"]);
    assert!(range_note(true).unwrap().starts_with("Between includes both bounds."));
    assert_eq!(range_note(false), None);
}

#[test]
fn what_is_wrong_with_a_node_stands_under_a_heading() {
    assert_eq!(diagnostic_section(Vec::new(), None), None);
    let (heading, lines) = diagnostic_section(
        vec!["no such field".to_owned()],
        Some("Filter minimum must be less than its maximum".to_owned()),
    )
    .unwrap();
    assert_eq!(heading, "DIAGNOSTICS");
    assert_eq!(
        lines,
        ["no such field", "Filter minimum must be less than its maximum"]
    );
}
