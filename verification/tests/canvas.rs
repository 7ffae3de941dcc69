use delog_app::canvas::{
    code_summary_line, connection_event, disconnect_endpoints_for_socket,
    empty_canvas_double_clicked, handle_edge_event, needs_node_wheel_fallback, node_title,
    port_type_label, should_open_add_menu, socket_color, CanvasEvent, CanvasFrame, CanvasState,
    EdgeEvent, EdgeFrame, NodeFrame, PortType,
};
use delog_app::canvas_state::{
    complete_connection, CompletedMove, EdgeStart, FittedView, GraphCanvasState, SocketKind,
};
use delog_app::graph::{
    AlignMode, Edge, FieldSelector, Graph, Node, NodeId, NodeKind, OutputSpec, Viewport,
};

fn bits(x: f32, y: f32) -> [u32; 2] {
    [x.to_bits(), y.to_bits()]
}

fn scale() -> NodeKind {
    NodeKind::ScaleOffset {
        multiplier: 1f64.to_bits(),
        offset: 0f64.to_bits(),
    }
}

fn fan_out_test_graph() -> Graph {
    let mut graph = Graph::new("fan-out");
    graph.nodes.push(Node {
        id: NodeId(1),
        pos: bits(0.0, 0.0),
        kind: NodeKind::DataField(FieldSelector {
            source: None,
            topic: "signal".to_owned(),
            instance: None,
            field: "value".to_owned(),
        }),
    });
    for (id, y) in [(NodeId(2), 0.0), (NodeId(3), 100.0)] {
        graph.nodes.push(Node {
            id,
            pos: bits(200.0, y),
            kind: scale(),
        });
        graph.edges.push(Edge {
            from: NodeId(1),
            from_port: 0,
            to: id,
            to_port: 0,
        });
    }
    graph
}

#[test]
fn double_click_fits_only_an_empty_canvas() {
    assert!(empty_canvas_double_clicked(true, false));
    assert!(!empty_canvas_double_clicked(true, true));
    assert!(!empty_canvas_double_clicked(false, false));
}

#[test]
fn add_menu_opens_only_for_an_unconsumed_canvas_secondary_click() {
    assert!(should_open_add_menu(true, false));
    assert!(!should_open_add_menu(true, true));
    assert!(!should_open_add_menu(false, false));
}

#[test]
fn input_socket_resolves_its_single_incoming_endpoint() {
    let graph = fan_out_test_graph();
    assert_eq!(
        disconnect_endpoints_for_socket(&graph, NodeId(2), SocketKind::Input, 0),
        vec![(NodeId(2), 0)],
    );
}

#[test]
fn output_socket_resolves_every_outgoing_endpoint() {
    let graph = fan_out_test_graph();
    assert_eq!(
        disconnect_endpoints_for_socket(&graph, NodeId(1), SocketKind::Output, 0),
        vec![(NodeId(2), 0), (NodeId(3), 0)],
    );
}

#[test]
fn unconnected_and_unsupported_sockets_resolve_no_endpoints() {
    let graph = fan_out_test_graph();
    assert!(
        disconnect_endpoints_for_socket(&graph, NodeId(3), SocketKind::Output, 0).is_empty()
    );
    assert!(
        disconnect_endpoints_for_socket(&graph, NodeId(1), SocketKind::Output, 1).is_empty()
    );
    assert!(
        disconnect_endpoints_for_socket(&graph, NodeId(1), SocketKind::Input, usize::MAX)
            .is_empty()
    );
}

#[test]
fn wheel_fallback_runs_only_when_a_node_owns_the_pointer() {
    assert!(needs_node_wheel_fallback(true, false));
    assert!(!needs_node_wheel_fallback(false, true));
    assert!(!needs_node_wheel_fallback(true, true));
    assert!(!needs_node_wheel_fallback(false, false));
}

#[test]
fn data_titles_include_topic_instance_and_field_but_not_source() {
    let instanced = NodeKind::DataField(FieldSelector {
        source: Some("flight-a".to_owned()),
        topic: "IMU".to_owned(),
        instance: Some(0),
        field: "GyrX".to_owned(),
    });
    let uninstanced = NodeKind::DataField(FieldSelector {
        source: Some("flight-b".to_owned()),
        topic: "GPS".to_owned(),
        instance: None,
        field: "Lat".to_owned(),
    });

    assert_eq!(node_title(&instanced, "Data Field"), "IMU[0].GyrX");
    assert_eq!(node_title(&uninstanced, "Data Field"), "GPS.Lat");
}

#[test]
fn operation_output_and_unknown_titles_follow_canvas_policy() {
    assert_eq!(node_title(&NodeKind::Add, "Add"), "Add");
    assert_eq!(
        node_title(
            &NodeKind::Align {
                mode: AlignMode::Nearest,
            },
            "Align to Timeline"
        ),
        "Align to Timeline"
    );
    let output = |topic: &str| {
        NodeKind::Output(OutputSpec {
            topic: topic.to_owned(),
            fields: Vec::new(),
        })
    };
    assert_eq!(node_title(&output("derived_attitude"), "Output"), "derived_attitude");
    assert_eq!(node_title(&output("   "), "any label"), "Output");
    assert_eq!(
        node_title(&NodeKind::Unknown("{}".to_owned()), "any label"),
        "Unknown node"
    );
}

#[test]
fn output_labels_name_the_port_type() {
    assert_eq!(port_type_label(PortType::Signal), "Signal");
    assert_eq!(port_type_label(PortType::Scalar), "Scalar");
}

#[test]
fn sockets_take_the_color_of_the_first_output_or_else_input() {
    assert_eq!(
        socket_color(Some(PortType::Signal), Some(PortType::Scalar)),
        Some([90, 180, 235])
    );
    assert_eq!(socket_color(None, Some(PortType::Scalar)), Some([235, 180, 90]));
    assert_eq!(socket_color(None, None), None);
}

#[test]
fn script_summaries_show_the_first_line_that_is_not_blank() {
    assert_eq!(code_summary_line(""), "(empty script)");
    assert_eq!(code_summary_line("\n \r\n\t\n"), "(empty script)");
    assert_eq!(code_summary_line("\n   def flow(inputs):\r\n    pass\n"), "def flow(inputs):");
    let exact = "x".repeat(40);
    assert_eq!(code_summary_line(&exact), exact);
    let long = "y".repeat(41);
    assert_eq!(code_summary_line(&long), format!("{}\u{2026}", "y".repeat(40)));
}

#[test]
fn rejected_connection_does_not_emit_event() {
    let first = EdgeStart {
        node: NodeId(1),
        kind: SocketKind::Input,
        port: 0,
    };
    let second = EdgeStart {
        node: NodeId(2),
        kind: SocketKind::Input,
        port: 0,
    };

    assert!(connection_event(first, second).is_none());
}

#[test]
fn accepted_connection_uses_domain_port_indices() {
    let output = EdgeStart {
        node: NodeId(1),
        kind: SocketKind::Output,
        port: 0,
    };
    let input = EdgeStart {
        node: NodeId(2),
        kind: SocketKind::Input,
        port: 1,
    };

    assert!(matches!(
        connection_event(output, input),
        Some(CanvasEvent::Connect {
            from: NodeId(1),
            from_port: 0,
            to: NodeId(2),
            to_port: 1,
        })
    ));
}

#[test]
fn invalid_domain_connection_is_forwarded_for_logging() {
    let output = EdgeStart {
        node: NodeId(1),
        kind: SocketKind::Output,
        port: 0,
    };
    let input = EdgeStart {
        node: NodeId(2),
        kind: SocketKind::Input,
        port: 0,
    };

    assert!(matches!(
        connection_event(output, input),
        Some(CanvasEvent::Connect {
            from: NodeId(1),
            from_port: 0,
            to: NodeId(2),
            to_port: 0,
        })
    ));
}

#[test]
fn connection_translation_accepts_output_to_input_in_either_order() {
    let output = EdgeStart {
        node: NodeId(1),
        kind: SocketKind::Output,
        port: 3,
    };
    let input = EdgeStart {
        node: NodeId(2),
        kind: SocketKind::Input,
        port: 4,
    };

    assert_eq!(
        complete_connection(output, input),
        Some((NodeId(1), 3, NodeId(2), 4))
    );
    assert_eq!(
        complete_connection(input, output),
        Some((NodeId(1), 3, NodeId(2), 4))
    );
}

#[test]
fn connection_translation_rejects_matching_socket_kinds() {
    let first = EdgeStart {
        node: NodeId(1),
        kind: SocketKind::Input,
        port: 0,
    };
    let second = EdgeStart {
        node: NodeId(2),
        kind: SocketKind::Input,
        port: 1,
    };

    assert_eq!(complete_connection(first, second), None);
}

#[test]
fn connection_translation_rejects_unrepresentable_port_indices() {
    let output = EdgeStart {
        node: NodeId(1),
        kind: SocketKind::Output,
        port: usize::MAX,
    };
    let input = EdgeStart {
        node: NodeId(2),
        kind: SocketKind::Input,
        port: 0,
    };

    assert_eq!(complete_connection(output, input), None);
}

#[test]
fn a_connection_is_drawn_from_its_start_to_its_end_or_cancelled() {
    let mut start = None;
    let mut events = Vec::new();
    handle_edge_event(
        NodeId(2),
        EdgeEvent::Started {
            kind: SocketKind::Input,
            index: 1,
        },
        &mut start,
        &mut events,
    );
    assert!(start.is_some() && events.is_empty());
    handle_edge_event(NodeId(2), EdgeEvent::Cancelled, &mut start, &mut events);
    assert!(start.is_none() && events.is_empty());
    let end = EdgeEvent::Ended {
        kind: SocketKind::Output,
        index: 0,
    };
    handle_edge_event(NodeId(1), end, &mut start, &mut events);
    assert!(events.is_empty());
    handle_edge_event(
        NodeId(2),
        EdgeEvent::Started {
            kind: SocketKind::Input,
            index: 1,
        },
        &mut start,
        &mut events,
    );
    handle_edge_event(NodeId(1), end, &mut start, &mut events);
    assert!(start.is_none());
    assert!(matches!(
        events[0],
        CanvasEvent::Connect {
            from: NodeId(1),
            from_port: 0,
            to: NodeId(2),
            to_port: 1
        }
    ));
}

fn graph_with_nodes() -> Graph {
    let mut graph = Graph::new("adapter");
    graph.nodes.push(Node {
        id: NodeId(7),
        pos: bits(10.0, 20.0),
        kind: NodeKind::Constant {
            value: 1f64.to_bits(),
        },
    });
    graph.nodes.push(Node {
        id: NodeId(11),
        pos: bits(30.0, 40.0),
        kind: NodeKind::Add,
    });
    graph
}

/// Ends a frame in which the view has not changed.
fn finish(state: &mut GraphCanvasState, graph: &Graph, primary_down: bool) -> Vec<CompletedMove> {
    let viewport = state.viewport;
    state.finish(graph, viewport.offset, Some(viewport.zoom), primary_down)
}

#[test]
fn prepare_seeds_missing_layout_and_restores_viewport() {
    let mut graph = graph_with_nodes();
    graph.viewport = Viewport {
        offset: bits(4.0, 8.0),
        zoom: 2f32.to_bits(),
    };
    let mut state = GraphCanvasState::default();

    state.prepare(&graph);

    assert_eq!(state.layout[&7], bits(10.0, 20.0));
    assert_eq!(state.layout[&11], bits(30.0, 40.0));
    assert_eq!(state.viewport, graph.viewport);
}

#[test]
fn fit_request_waits_for_bounds_then_applies_once() {
    let graph = graph_with_nodes();
    let mut state = GraphCanvasState::default();
    let fitted = FittedView {
        offset: bits(-50.0, -25.0),
        zoom: 0.8f32.to_bits(),
    };
    state.request_fit();

    assert!(state.fit_requested());
    assert!(!state.apply_fit_request(&graph, None));
    assert!(state.fit_requested());
    assert!(state.apply_fit_request(&graph, Some(fitted)));
    assert!(!state.fit_requested());
    assert_eq!(state.viewport.offset, bits(-50.0, -25.0));
    assert_eq!(state.viewport.zoom, 0.8f32.to_bits());
    assert!(!state.apply_fit_request(&graph, Some(fitted)));
}

#[test]
fn empty_fit_resets_zoom_but_preserves_pan() {
    let graph = Graph::new("empty");
    let mut state = GraphCanvasState::default();
    state.reset(&graph);
    state.viewport = Viewport {
        offset: bits(-42.0, 17.0),
        zoom: 2f32.to_bits(),
    };
    state.request_fit();

    assert!(state.apply_fit_request(&graph, None));
    assert_eq!(state.viewport.offset, bits(-42.0, 17.0));
    assert_eq!(state.viewport.zoom, 1f32.to_bits());
}

#[test]
fn finish_emits_one_move_only_after_pointer_release() {
    let graph = graph_with_nodes();
    let mut state = GraphCanvasState::default();
    state.prepare(&graph);
    state.layout.insert(7, bits(50.0, 60.0));

    assert!(finish(&mut state, &graph, true).is_empty());
    assert_eq!(
        finish(&mut state, &graph, false),
        vec![CompletedMove {
            id: NodeId(7),
            from: bits(10.0, 20.0),
            to: bits(50.0, 60.0),
        }]
    );
    assert!(finish(&mut state, &graph, false).is_empty());
}

#[test]
fn finish_emits_move_when_release_is_first_changed_frame() {
    let graph = graph_with_nodes();
    let mut state = GraphCanvasState::default();
    state.prepare(&graph);
    state.layout.insert(7, bits(50.0, 60.0));

    assert_eq!(
        finish(&mut state, &graph, false),
        vec![CompletedMove {
            id: NodeId(7),
            from: bits(10.0, 20.0),
            to: bits(50.0, 60.0),
        }]
    );
}

#[test]
fn the_two_zeros_are_the_same_place() {
    let mut graph = graph_with_nodes();
    graph.nodes[0].pos = bits(0.0, 0.0);
    let mut state = GraphCanvasState::default();
    state.prepare(&graph);
    state.layout.insert(7, bits(-0.0, 0.0));
    assert!(finish(&mut state, &graph, false).is_empty());
}

#[test]
fn prepare_synchronizes_idle_layout_from_domain_graph() {
    let mut graph = graph_with_nodes();
    let mut state = GraphCanvasState::default();
    state.prepare(&graph);
    state.layout.insert(7, bits(50.0, 60.0));
    graph.nodes[0].pos = bits(5.0, 6.0);

    state.prepare(&graph);

    assert_eq!(state.layout[&7], bits(5.0, 6.0));
}

#[test]
fn prepare_honors_undo_before_pending_move_acknowledgment() {
    let mut graph = graph_with_nodes();
    let mut state = GraphCanvasState::default();
    state.prepare(&graph);
    state.layout.insert(7, bits(50.0, 60.0));
    let moves = finish(&mut state, &graph, false);
    graph.nodes[0].pos = moves[0].to;
    graph.nodes[0].pos = moves[0].from;

    state.prepare(&graph);

    assert_eq!(state.layout[&7], bits(10.0, 20.0));
}

#[test]
fn a_dragged_node_keeps_its_place_while_the_button_is_down() {
    let graph = graph_with_nodes();
    let mut state = GraphCanvasState::default();
    state.prepare(&graph);
    state.layout.insert(7, bits(50.0, 60.0));
    finish(&mut state, &graph, true);
    state.prepare(&graph);
    assert_eq!(state.layout[&7], bits(50.0, 60.0));
}

#[test]
fn reset_discards_stale_layout_and_copies_graph_viewport() {
    let mut graph = graph_with_nodes();
    graph.viewport = Viewport {
        offset: bits(-5.0, 12.0),
        zoom: 1.5f32.to_bits(),
    };
    let mut state = GraphCanvasState::default();
    state.layout.insert(99, bits(1.0, 2.0));

    state.reset(&graph);

    assert_eq!(state.viewport, graph.viewport);
    assert!(!state.layout.contains_key(&99));
    assert_eq!(state.layout.len(), 2);
    assert_eq!(state.layout[&7], bits(10.0, 20.0));
    assert!(state.edge_start.is_none());
}

fn quiet_node() -> NodeFrame {
    NodeFrame {
        contains_pointer: false,
        input_hits: Vec::new(),
        output_hits: Vec::new(),
        edited: None,
        delete: false,
        edge_event: None,
    }
}

fn quiet_edge() -> EdgeFrame {
    EdgeFrame {
        contains_pointer: false,
        deleted: false,
        selected: false,
    }
}

fn quiet_frame(graph: &Graph) -> CanvasFrame {
    CanvasFrame {
        nodes: graph.nodes.iter().map(|_| quiet_node()).collect(),
        edges: graph.edges.iter().map(|_| quiet_edge()).collect(),
        secondary_clicked: false,
        selection_changed: None,
        canvas_double_clicked: false,
        canvas_secondary_clicked: false,
        canvas_contains_pointer: true,
        menu_at: None,
    }
}

#[test]
fn a_click_on_overlapping_sockets_disconnects_one_and_opens_no_menu() {
    let graph = fan_out_test_graph();
    let mut state = CanvasState::default();
    let mut frame = quiet_frame(&graph);
    frame.secondary_clicked = true;
    frame.canvas_secondary_clicked = true;
    frame.menu_at = Some((bits(1.0, 2.0), bits(9.0, 10.0)));
    frame.nodes[0].output_hits = vec![0];
    frame.nodes[1].input_hits = vec![0];

    let (events, _) = state.take_frame(&graph, &frame);

    assert_eq!(events.len(), 1);
    match &events[0] {
        CanvasEvent::DisconnectMany { endpoints } => {
            assert_eq!(endpoints, &vec![(NodeId(2), 0), (NodeId(3), 0)])
        }
        _ => panic!("expected the fan-out to be disconnected"),
    }
}

#[test]
fn a_frame_tells_of_nodes_then_edges_then_selection_and_menu() {
    let graph = fan_out_test_graph();
    let mut state = CanvasState::default();
    state.selected_edges = vec![(NodeId(1), NodeId(2), 0), (NodeId(8), NodeId(9), 0)];
    state.retain_selected_edges(&graph);
    assert_eq!(state.selected_edges, vec![(NodeId(1), NodeId(2), 0)]);

    let mut frame = quiet_frame(&graph);
    frame.nodes[1].edited = Some(NodeKind::Add);
    frame.nodes[2].delete = true;
    frame.edges[0].deleted = true;
    frame.edges[0].selected = true;
    frame.edges[1].selected = true;
    frame.selection_changed = Some(vec![NodeId(3), NodeId(2)]);
    frame.canvas_secondary_clicked = true;
    frame.menu_at = Some((bits(1.0, 2.0), bits(9.0, 10.0)));
    frame.canvas_double_clicked = true;
    let (events, wheel) = state.take_frame(&graph, &frame);

    assert!(!wheel);
    assert!(state.fit_requested());
    assert_eq!(events.len(), 5);
    assert!(matches!(events[0], CanvasEvent::EditKind { id: NodeId(2), kind: NodeKind::Add }));
    assert!(matches!(events[1], CanvasEvent::Delete(NodeId(3))));
    assert!(matches!(events[2], CanvasEvent::Disconnect { to: NodeId(2), to_port: 0 }));
    assert!(matches!(events[3], CanvasEvent::Select(Some(NodeId(2)))));
    assert!(matches!(events[4], CanvasEvent::OpenAddMenu { .. }));
    assert_eq!(state.selected_edges, vec![(NodeId(1), NodeId(3), 0)]);

    let mut frame = quiet_frame(&graph);
    frame.nodes[0].contains_pointer = true;
    frame.canvas_contains_pointer = false;
    frame.canvas_double_clicked = true;
    frame.selection_changed = Some(Vec::new());
    let mut state = CanvasState::default();
    let (events, wheel) = state.take_frame(&graph, &frame);
    assert!(wheel);
    assert!(!state.fit_requested());
    assert!(matches!(events[0], CanvasEvent::Select(None)));
}
