//! What the user's gestures on the canvas come to.

use crate::add_menu::ActionView;
use crate::bits::equal_points;
use crate::canvas::{
    code_summary, connect_event, edges_selected, key_of, line_end, title_of, SUMMARY_CHARS,
    deletions, edge_completed, edge_start_after, fan_out, frame_events, gather_node, gathered,
    hit_socket, least_id, socket_endpoints, with_event, CanvasFrame, EdgeEvent, EdgeFrame,
    EventView, Gathered,
};
use crate::canvas_state::{dragged_from, released, CompletedMove, EdgeStart, Release, SocketKind};
use crate::editor::{
    added_kind, disconnects, event_step, keys_asked, script_update, DataFlowEditor, KeyEvent,
    ScriptEditorState, ShortcutKeys, StepView,
};
use crate::graph::{has_incoming, node_index, CommandView, Edge, Graph, KindView, Node, NodeId};
use crate::picker::HitView;
use crate::registry::{all_templates, made, ADD_DATA_INDEX};
use crate::text::trimmed;
use vstd::prelude::*;

verus! {

/// A connection that is not refused becomes the edge that was drawn: from the
/// output at which it leaves one node to the input at which it enters the other.
pub proof fn drawn_connections_keep_their_ends(
    edges: Seq<Edge>,
    from: NodeId,
    from_port: u32,
    to: NodeId,
    to_port: u32,
)
    ensures
        event_step(
            EventView::Connect { from, from_port, to, to_port },
            edges,
            None,
        ) matches StepView::Apply(CommandView::Connect { edge }) && edge.from == from
            && edge.from_port == from_port && edge.to == to && edge.to_port == to_port,
{
}

/// A connection between an output and an input becomes the edge from the one to
/// the other, at whichever end it was begun.
pub proof fn sockets_are_joined_as_drawn(
    edges: Seq<Edge>,
    source: NodeId,
    output: usize,
    target: NodeId,
    input: usize,
    from_input: bool,
)
    requires
        output <= u32::MAX,
        input <= u32::MAX,
    ensures
        ({
            let start = if from_input {
                EdgeStart { node: target, kind: SocketKind::Input, port: input }
            } else {
                EdgeStart { node: source, kind: SocketKind::Output, port: output }
            };
            let (node, event) = if from_input {
                (source, EdgeEvent::Ended { kind: SocketKind::Output, index: output })
            } else {
                (target, EdgeEvent::Ended { kind: SocketKind::Input, index: input })
            };
            &&& edge_completed(node, event, Some(start)) matches Some(drawn) && (event_step(
                drawn,
                edges,
                None,
            ) matches StepView::Apply(CommandView::Connect { edge }) && edge.from == source
                && edge.from_port == output && edge.to == target && edge.to_port == input)
            &&& edge_start_after(node, event, Some(start)) is None
        }),
{
}

/// Two outputs, or two inputs, are not joined.
pub proof fn like_sockets_are_not_joined(first: EdgeStart, second: EdgeStart)
    requires
        first.kind == second.kind,
    ensures
        connect_event(first, second) is None,
{
}

/// A connection begins at the socket where the drag starts, and is given up when
/// it is cancelled.
pub proof fn connections_begin_where_they_are_started(
    node: NodeId,
    kind: SocketKind,
    index: usize,
    start: Option<EdgeStart>,
)
    ensures
        edge_start_after(node, EdgeEvent::Started { kind, index }, start) matches Some(begun)
            && begun.node == node && begun.kind == kind && begun.port == index,
        edge_completed(node, EdgeEvent::Started { kind, index }, start) is None,
        edge_start_after(node, EdgeEvent::Cancelled, start) is None,
        edge_completed(node, EdgeEvent::Cancelled, start) is None,
        edge_completed(node, EdgeEvent::Ended { kind, index }, None) is None,
{
}

/// A refused connection changes nothing, and the log is told why.
pub proof fn refusals_are_told(
    edges: Seq<Edge>,
    from: NodeId,
    from_port: u32,
    to: NodeId,
    to_port: u32,
    reason: Seq<char>,
)
    ensures
        event_step(
            EventView::Connect { from, from_port, to, to_port },
            edges,
            Some(reason),
        ) matches StepView::Refuse(line) && line.len() >= reason.len() && line.skip(
            line.len() - reason.len(),
        ) == reason,
{
    let line = "Cannot connect nodes: "@ + reason;
    assert(line.skip(line.len() - reason.len()) =~= reason);
}

/// A moved node goes to where it was moved, a deleted one is removed and an
/// edited one gets its new kind: that node, and no other.
pub proof fn edits_are_those_of_their_node(
    edges: Seq<Edge>,
    refusal: Option<Seq<char>>,
    node: NodeId,
    before: [u32; 2],
    place: [u32; 2],
    new_kind: KindView,
)
    ensures
        event_step(
            EventView::Moved { id: node, from: before, to: place },
            edges,
            refusal,
        ) matches StepView::Apply(CommandView::Batch(commands)) && commands.len() == 1 && (
        commands[0] matches CommandView::MoveNode { id, to } && id == node && to == place),
        event_step(EventView::Delete(node), edges, refusal) matches StepView::Apply(
            CommandView::RemoveNode { id },
        ) && id == node,
        event_step(
            EventView::EditKind { id: node, kind: new_kind },
            edges,
            refusal,
        ) matches StepView::Apply(CommandView::SetKind { id, kind }) && id == node && kind
            == new_kind,
{
}

/// An input is disconnected where an edge leads into it.
pub proof fn connected_inputs_are_disconnected(
    edges: Seq<Edge>,
    refusal: Option<Seq<char>>,
    node: NodeId,
    port: u32,
)
    ensures
        ({
            let step = event_step(
                EventView::Disconnect { to: node, to_port: port },
                edges,
                refusal,
            );
            if exists|i: int|
                0 <= i < edges.len() && (#[trigger] edges[i]).to == node && edges[i].to_port
                    == port {
                step matches StepView::Apply(CommandView::Disconnect { to, to_port }) && to == node
                    && to_port == port
            } else {
                step is Nothing
            }
        }),
{
    assert(has_incoming(edges, node, port) == exists|i: int|
        0 <= i < edges.len() && (#[trigger] edges[i]).to == node && edges[i].to_port == port);
}

/// Each of several inputs is disconnected once, and nothing else, in one step.
pub proof fn all_endpoints_are_disconnected(
    edges: Seq<Edge>,
    refusal: Option<Seq<char>>,
    endpoints: Seq<(NodeId, u32)>,
)
    requires
        endpoints.len() > 0,
    ensures
        event_step(
            EventView::DisconnectMany { endpoints },
            edges,
            refusal,
        ) matches StepView::Apply(CommandView::Batch(commands)) && commands.len()
            == endpoints.len() && forall|i: int|
            0 <= i < endpoints.len() ==> #[trigger] commands[endpoints.len() - 1 - i] == (
            CommandView::Disconnect { to: endpoints[i].0, to_port: endpoints[i].1 }),
{
    let commands = disconnects(endpoints);
    assert forall|i: int| 0 <= i < endpoints.len() implies #[trigger] commands[endpoints.len() - 1
        - i] == (CommandView::Disconnect { to: endpoints[i].0, to_port: endpoints[i].1 }) by {}
}

proof fn lemma_fan_out(edges: Seq<Edge>, node: NodeId, port: u32, n: nat, end: (NodeId, u32))
    requires
        n <= edges.len(),
    ensures
        fan_out(edges, node, port, n).contains(end) <==> exists|i: int|
            0 <= i < n && (#[trigger] edges[i]).from == node && edges[i].from_port == port
                && edges[i].to == end.0 && edges[i].to_port == end.1,
    decreases n,
{
    if n > 0 {
        lemma_fan_out(edges, node, port, (n - 1) as nat, end);
        let rest = fan_out(edges, node, port, (n - 1) as nat);
        let all = fan_out(edges, node, port, n);
        if rest.contains(end) {
            assert(all[rest.index_of(end)] == end);
        }
        let e = edges[n - 1];
        if e.from == node && e.from_port == port {
            assert(all[all.len() - 1] == (e.to, e.to_port));
        }
        if all.contains(end) && !rest.contains(end) {
            assert(edges[n - 1].from == node);
        }
    }
}

/// A click on a socket frees the inputs of all edges at that socket, and no
/// others.
pub proof fn clicked_sockets_lose_all_their_edges(
    edges: Seq<Edge>,
    node: NodeId,
    port: u32,
    end: (NodeId, u32),
)
    requires
        u32::MAX <= usize::MAX,
    ensures
        socket_endpoints(edges, node, SocketKind::Output, port as usize).contains(end)
            <==> exists|i: int|
            0 <= i < edges.len() && (#[trigger] edges[i]).from == node && edges[i].from_port == port
                && edges[i].to == end.0 && edges[i].to_port == end.1,
        socket_endpoints(edges, node, SocketKind::Input, port as usize).contains(end)
            <==> end == (node, port) && exists|i: int|
            0 <= i < edges.len() && (#[trigger] edges[i]).to == node && edges[i].to_port == port,
{
    lemma_fan_out(edges, node, port, edges.len(), end);
    if has_incoming(edges, node, port) {
        let one = seq![(node, port)];
        assert(one[0] == (node, port));
        assert(one.contains(end) <==> end == (node, port));
    }
}

/// Whether an event of a frame goes back to what the frame has seen of the node
/// at `i`.
pub open spec fn comes_from(graph: Graph, frame: CanvasFrame, event: EventView, i: int) -> bool {
    let node = graph.nodes@[i];
    let seen = frame.nodes@[i];
    &&& 0 <= i < graph.nodes@.len()
    &&& match event {
        EventView::Delete(id) => id == node.id && seen.delete,
        EventView::EditKind { id, kind } => id == node.id && (seen.edited matches Some(edited)
            && edited@ == kind),
        EventView::DisconnectMany { endpoints } => frame.secondary_clicked && (hit_socket(
            seen,
        ) matches Some((kind, index)) && endpoints == socket_endpoints(
            graph.edges@,
            node.id,
            kind,
            index,
        )),
        EventView::Connect { from, from_port, to, to_port } => seen.edge_event matches Some(
            EdgeEvent::Ended { kind, index },
        ) && if kind is Output {
            from == node.id && from_port == index
        } else {
            to == node.id && to_port == index
        },
        _ => false,
    }
}

proof fn lemma_gather_node(
    before: Gathered,
    graph: Graph,
    frame: CanvasFrame,
    i: int,
    event: EventView,
)
    requires
        0 <= i < graph.nodes@.len() == frame.nodes@.len(),
    ensures
        ({
            let node = graph.nodes@[i];
            let seen = frame.nodes@[i];
            let next = gather_node(before, graph.edges@, node, seen, frame.secondary_clicked);
            &&& before.events.contains(event) ==> next.events.contains(event)
            &&& next.events.contains(event) ==> before.events.contains(event) || comes_from(
                graph,
                frame,
                event,
                i,
            )
            &&& seen.delete ==> next.events.contains(EventView::Delete(node.id))
            &&& seen.edited matches Some(kind) ==> next.events.contains(
                EventView::EditKind { id: node.id, kind: kind@ },
            )
        }),
{
    let node = graph.nodes@[i];
    let seen = frame.nodes@[i];
    let takes_click = frame.secondary_clicked && !before.socket_clicked && hit_socket(
        seen,
    ) is Some;
    let endpoints = socket_endpoints(
        graph.edges@,
        node.id,
        hit_socket(seen).unwrap().0,
        hit_socket(seen).unwrap().1,
    );
    let a = if takes_click && endpoints.len() > 0 {
        Some(EventView::DisconnectMany { endpoints })
    } else {
        None
    };
    let b = match seen.edited {
        Some(kind) => Some(EventView::EditKind { id: node.id, kind: kind@ }),
        None => None,
    };
    let c = if seen.delete {
        Some(EventView::Delete(node.id))
    } else {
        None
    };
    let d = match seen.edge_event {
        Some(e) => edge_completed(node.id, e, before.edge_start),
        None => None,
    };
    let e1 = with_event(before.events, a);
    let e2 = with_event(e1, b);
    let e3 = with_event(e2, c);
    let e4 = with_event(e3, d);
    let next = gather_node(before, graph.edges@, node, seen, frame.secondary_clicked);
    assert(next.events == e4);
    lemma_with_event(before.events, a, event);
    lemma_with_event(e1, b, event);
    lemma_with_event(e2, c, event);
    lemma_with_event(e3, d, event);
    if seen.delete {
        let deleted = EventView::Delete(node.id);
        lemma_with_event(e2, c, deleted);
        lemma_with_event(e3, d, deleted);
    }
    if let Some(kind) = seen.edited {
        let edited = EventView::EditKind { id: node.id, kind: kind@ };
        lemma_with_event(e1, b, edited);
        lemma_with_event(e2, c, edited);
        lemma_with_event(e3, d, edited);
    }
}

proof fn lemma_with_event(events: Seq<EventView>, more: Option<EventView>, event: EventView)
    ensures
        with_event(events, more).contains(event) <==> events.contains(event) || more == Some(event),
{
    let all = with_event(events, more);
    if events.contains(event) {
        assert(all[events.index_of(event)] == event);
    }
    if more == Some(event) {
        assert(all[all.len() - 1] == event);
    }
}

proof fn lemma_gathered(
    edge_start: Option<EdgeStart>,
    graph: Graph,
    frame: CanvasFrame,
    n: nat,
    i: int,
    event: EventView,
)
    requires
        n <= graph.nodes@.len() == frame.nodes@.len(),
    ensures
        ({
            let all = gathered(edge_start, graph, frame, n).events;
            &&& all.contains(event) ==> exists|k: int|
                0 <= k < n && #[trigger] comes_from(graph, frame, event, k)
            &&& 0 <= i < n && frame.nodes@[i].delete ==> all.contains(
                EventView::Delete(graph.nodes@[i].id),
            )
            &&& 0 <= i < n ==> (frame.nodes@[i].edited matches Some(kind) ==> all.contains(
                EventView::EditKind { id: graph.nodes@[i].id, kind: kind@ },
            ))
        }),
    decreases n,
{
    if n > 0 {
        let before = gathered(edge_start, graph, frame, (n - 1) as nat);
        lemma_gathered(edge_start, graph, frame, (n - 1) as nat, i, event);
        lemma_gather_node(before, graph, frame, n - 1, event);
        if 0 <= i < n - 1 {
            lemma_gather_node(before, graph, frame, n - 1, EventView::Delete(graph.nodes@[i].id));
            if let Some(kind) = frame.nodes@[i].edited {
                lemma_gather_node(
                    before,
                    graph,
                    frame,
                    n - 1,
                    EventView::EditKind { id: graph.nodes@[i].id, kind: kind@ },
                );
            }
        }
    }
}

proof fn lemma_deletions(edges: Seq<Edge>, frames: Seq<EdgeFrame>, n: nat, event: EventView)
    requires
        n <= edges.len() == frames.len(),
    ensures
        deletions(edges, frames, n).contains(event) <==> exists|i: int|
            0 <= i < n && (#[trigger] frames[i]).deleted && event == (EventView::Disconnect {
                to: edges[i].to,
                to_port: edges[i].to_port,
            }),
    decreases n,
{
    if n > 0 {
        lemma_deletions(edges, frames, (n - 1) as nat, event);
        let rest = deletions(edges, frames, (n - 1) as nat);
        let all = deletions(edges, frames, n);
        if rest.contains(event) {
            assert(all[rest.index_of(event)] == event);
        }
        if frames[n - 1].deleted {
            assert(all[all.len() - 1] == (EventView::Disconnect {
                to: edges[n - 1].to,
                to_port: edges[n - 1].to_port,
            }));
        }
        if all.contains(event) && !rest.contains(event) {
            assert(frames[n - 1].deleted);
        }
    }
}

proof fn lemma_in_frame(
    edge_start: Option<EdgeStart>,
    graph: Graph,
    frame: CanvasFrame,
    event: EventView,
)
    ensures
        frame_events(edge_start, graph, frame).contains(event) <==> {
            ||| gathered(edge_start, graph, frame, graph.nodes@.len()).events.contains(event)
            ||| deletions(graph.edges@, frame.edges@, graph.edges@.len()).contains(event)
            ||| frame.selection_changed matches Some(ids) && event == EventView::Select(
                least_id(ids@),
            )
            ||| frame.menu_at matches Some((canvas_pos, screen_pos))
                && frame.canvas_secondary_clicked && !gathered(
                edge_start,
                graph,
                frame,
                graph.nodes@.len(),
            ).socket_clicked && event == (EventView::OpenAddMenu { canvas_pos, screen_pos })
        },
{
    let nodes = gathered(edge_start, graph, frame, graph.nodes@.len());
    let deleted = deletions(graph.edges@, frame.edges@, graph.edges@.len());
    let events = nodes.events + deleted;
    if nodes.events.contains(event) {
        assert(events[nodes.events.index_of(event)] == event);
    }
    if deleted.contains(event) {
        assert(events[nodes.events.len() + deleted.index_of(event)] == event);
    }
    if events.contains(event) {
        let k = events.index_of(event);
        if k < nodes.events.len() {
            assert(nodes.events[k] == event);
        } else {
            assert(deleted[k - nodes.events.len()] == event);
        }
    }
    let select = match frame.selection_changed {
        Some(ids) => Some(EventView::Select(least_id(ids@))),
        None => None,
    };
    let menu = match frame.menu_at {
        Some((canvas_pos, screen_pos)) => if frame.canvas_secondary_clicked
            && !nodes.socket_clicked {
            Some(EventView::OpenAddMenu { canvas_pos, screen_pos })
        } else {
            None
        },
        None => None,
    };
    lemma_with_event(events, select, event);
    lemma_with_event(with_event(events, select), menu, event);
}

/// What the user does to a node is told of that node: its deletion, and its new
/// kind. Nothing of the sort is told of others.
pub proof fn gestures_are_told_of_their_node(
    edge_start: Option<EdgeStart>,
    graph: Graph,
    frame: CanvasFrame,
    i: int,
    event: EventView,
)
    requires
        graph.nodes@.len() == frame.nodes@.len(),
        graph.edges@.len() == frame.edges@.len(),
        0 <= i < graph.nodes@.len(),
    ensures
        frame.nodes@[i].delete ==> frame_events(edge_start, graph, frame).contains(
            EventView::Delete(graph.nodes@[i].id),
        ),
        frame.nodes@[i].edited matches Some(kind) ==> frame_events(
            edge_start,
            graph,
            frame,
        ).contains(EventView::EditKind { id: graph.nodes@[i].id, kind: kind@ }),
        frame_events(edge_start, graph, frame).contains(event) && (event is Delete
            || event is EditKind || event is Connect || event is DisconnectMany) ==> exists|k: int|
            0 <= k < graph.nodes@.len() && #[trigger] comes_from(graph, frame, event, k),
{
    let n = graph.nodes@.len();
    lemma_gathered(edge_start, graph, frame, n, i, event);
    lemma_in_frame(edge_start, graph, frame, event);
    lemma_in_frame(edge_start, graph, frame, EventView::Delete(graph.nodes@[i].id));
    if let Some(kind) = frame.nodes@[i].edited {
        lemma_in_frame(
            edge_start,
            graph,
            frame,
            EventView::EditKind { id: graph.nodes@[i].id, kind: kind@ },
        );
    }
    lemma_deletions(graph.edges@, frame.edges@, graph.edges@.len(), event);
}

/// A deleted edge is told of by the input that it leads into, and no other edge
/// is.
pub proof fn deleted_edges_are_told_of(
    edge_start: Option<EdgeStart>,
    graph: Graph,
    frame: CanvasFrame,
    to: NodeId,
    to_port: u32,
)
    requires
        graph.nodes@.len() == frame.nodes@.len(),
        graph.edges@.len() == frame.edges@.len(),
    ensures
        frame_events(edge_start, graph, frame).contains(EventView::Disconnect { to, to_port })
            <==> exists|i: int|
            0 <= i < graph.edges@.len() && (#[trigger] frame.edges@[i]).deleted
                && graph.edges@[i].to == to && graph.edges@[i].to_port == to_port,
{
    let event = EventView::Disconnect { to, to_port };
    lemma_in_frame(edge_start, graph, frame, event);
    lemma_deletions(graph.edges@, frame.edges@, graph.edges@.len(), event);
    lemma_gathered(edge_start, graph, frame, graph.nodes@.len(), 0, event);
}

proof fn lemma_least(ids: Seq<NodeId>)
    ensures
        match least_id(ids) {
            Some(least) => ids.contains(least) && forall|i: int|
                0 <= i < ids.len() ==> least.0 <= (#[trigger] ids[i]).0,
            None => ids.len() == 0,
        },
    decreases ids.len(),
{
    if ids.len() > 0 {
        let short = ids.drop_last();
        lemma_least(short);
        assert(ids[ids.len() - 1] == ids.last());
        if let Some(least) = least_id(short) {
            assert(ids[short.index_of(least)] == least);
            assert forall|i: int| 0 <= i < ids.len() implies least_id(ids).unwrap().0 <= (
            #[trigger] ids[i]).0 by {
                if i < short.len() {
                    assert(short[i] == ids[i]);
                }
            }
        }
    }
}

/// A changed selection is told of by one of its nodes, and by none where nothing
/// is selected; a selection that has not changed is not told of.
pub proof fn selections_are_told_of(
    edge_start: Option<EdgeStart>,
    graph: Graph,
    frame: CanvasFrame,
    id: Option<NodeId>,
)
    requires
        graph.nodes@.len() == frame.nodes@.len(),
        graph.edges@.len() == frame.edges@.len(),
    ensures
        frame_events(edge_start, graph, frame).contains(EventView::Select(id)) ==> (
        frame.selection_changed matches Some(ids) && match id {
            Some(id) => ids@.contains(id) && forall|i: int|
                0 <= i < ids@.len() ==> id.0 <= (#[trigger] ids@[i]).0,
            None => ids@.len() == 0,
        }),
        frame.selection_changed is Some ==> exists|told: Option<NodeId>| #[trigger]
            frame_events(edge_start, graph, frame).contains(EventView::Select(told)),
{
    let event = EventView::Select(id);
    lemma_in_frame(edge_start, graph, frame, event);
    lemma_deletions(graph.edges@, frame.edges@, graph.edges@.len(), event);
    lemma_gathered(edge_start, graph, frame, graph.nodes@.len(), 0, event);
    if let Some(ids) = frame.selection_changed {
        lemma_least(ids@);
        lemma_in_frame(edge_start, graph, frame, EventView::Select(least_id(ids@)));
    }
}

proof fn lemma_released(
    start: Release,
    layout: Map<u64, [u32; 2]>,
    nodes: Seq<Node>,
    n: nat,
    i: int,
)
    requires
        n <= nodes.len(),
        0 <= i < nodes.len(),
        forall|j: int, k: int|
            0 <= j < k < nodes.len() ==> (#[trigger] nodes[j]).id != (#[trigger] nodes[k]).id,
        start.moves.len() == 0,
    ensures
        ({
            let end = released(start, layout, nodes, n);
            let id = nodes[i].id.0;
            let from = if start.origins.contains_key(id) {
                start.origins[id]
            } else {
                nodes[i].pos
            };
            &&& n <= i ==> end.origins.contains_key(id) == start.origins.contains_key(id)
            &&& n <= i && start.origins.contains_key(id) ==> end.origins[id] == start.origins[id]
            &&& n <= i ==> end.pending.contains_key(id) == start.pending.contains_key(id)
            &&& n <= i && start.pending.contains_key(id) ==> end.pending[id] == start.pending[id]
            &&& forall|m: int|
                0 <= m < end.moves.len() && (#[trigger] end.moves[m]).id == nodes[i].id ==> i < n
                    && layout.contains_key(id) && end.moves[m].from == from && end.moves[m].to
                    == layout[id] && !equal_points(layout[id], from)
            &&& i < n && layout.contains_key(id) && !equal_points(layout[id], from) && !(
            start.pending.contains_key(id) && equal_points(start.pending[id], layout[id]))
                ==> end.moves.contains(CompletedMove { id: nodes[i].id, from, to: layout[id] })
        }),
    decreases n,
{
    if n > 0 {
        lemma_released(start, layout, nodes, (n - 1) as nat, i);
        let before = released(start, layout, nodes, (n - 1) as nat);
        let end = released(start, layout, nodes, n);
        let id = nodes[i].id.0;
        let from = if start.origins.contains_key(id) {
            start.origins[id]
        } else {
            nodes[i].pos
        };
        let told = CompletedMove { id: nodes[i].id, from, to: layout[id] };
        if n - 1 != i {
            assert(nodes[n - 1].id != nodes[i].id);
            assert(nodes[n - 1].id.0 != id);
        }
        if before.moves.contains(told) {
            assert(end.moves[before.moves.index_of(told)] == told);
        }
        if n - 1 == i && end.moves.len() > before.moves.len() {
            assert(end.moves[before.moves.len() as int] == told);
        }
        assert forall|m: int|
            0 <= m < end.moves.len() && (#[trigger] end.moves[m]).id == nodes[i].id implies i < n
            && layout.contains_key(id) && end.moves[m].from == from && end.moves[m].to
            == layout[id] && !equal_points(layout[id], from) by {
            if m < before.moves.len() {
                assert(end.moves[m] == before.moves[m]);
            }
        }
    }
}

/// When the button is released, a node that has been dragged is told of, with
/// where it was and where it is; a node that stands where it was is not.
pub proof fn dragged_nodes_are_told_of(
    start: Release,
    layout: Map<u64, [u32; 2]>,
    nodes: Seq<Node>,
    i: int,
)
    requires
        0 <= i < nodes.len(),
        forall|j: int, k: int|
            0 <= j < k < nodes.len() ==> (#[trigger] nodes[j]).id != (#[trigger] nodes[k]).id,
        start.moves.len() == 0,
        layout.contains_key(nodes[i].id.0),
    ensures
        ({
            let moves = released(start, layout, nodes, nodes.len()).moves;
            let id = nodes[i].id.0;
            let from = if start.origins.contains_key(id) {
                start.origins[id]
            } else {
                nodes[i].pos
            };
            &&& !equal_points(layout[id], from) && !start.pending.contains_key(id)
                ==> moves.contains(CompletedMove { id: nodes[i].id, from, to: layout[id] })
            &&& forall|m: int|
                0 <= m < moves.len() && (#[trigger] moves[m]).id == nodes[i].id ==> moves[m].from
                    == from && moves[m].to == layout[id] && !equal_points(layout[id], from)
        }),
{
    lemma_released(start, layout, nodes, nodes.len(), i);
}

/// While a node is dragged it is remembered from where the drag began, and not
/// from where the pointer has been since.
pub proof fn drags_keep_their_origin(
    origins: Map<u64, [u32; 2]>,
    layout: Map<u64, [u32; 2]>,
    nodes: Seq<Node>,
    n: nat,
    i: int,
)
    requires
        n <= nodes.len(),
        0 <= i < nodes.len(),
        forall|j: int, k: int|
            0 <= j < k < nodes.len() ==> (#[trigger] nodes[j]).id != (#[trigger] nodes[k]).id,
    ensures
        ({
            let known = dragged_from(origins, layout, nodes, n);
            let id = nodes[i].id.0;
            &&& origins.contains_key(id) ==> known.contains_key(id) && known[id] == origins[id]
            &&& !origins.contains_key(id) && n <= i ==> !known.contains_key(id)
            &&& !origins.contains_key(id) && i < n ==> known.contains_key(id) == (
            layout.contains_key(id) && !equal_points(layout[id], nodes[i].pos))
            &&& !origins.contains_key(id) && known.contains_key(id) ==> known[id] == nodes[i].pos
        }),
    decreases n,
{
    if n > 0 {
        drags_keep_their_origin(origins, layout, nodes, (n - 1) as nat, i);
        if n - 1 != i {
            assert(nodes[n - 1].id != nodes[i].id);
            assert(nodes[n - 1].id.0 != nodes[i].id.0);
        }
    }
}

/// A template of the menu adds the node that it makes, and a field that was found
/// a data field that selects it.
pub proof fn the_menu_adds_what_was_chosen(index: usize, hit: HitView)
    requires
        index < all_templates().len(),
        index != ADD_DATA_INDEX,
    ensures
        added_kind(ActionView::Template(index)) == Some(
            made(all_templates()[index as int].blueprint),
        ),
        added_kind(ActionView::Data(hit)) matches Some(KindView::DataField(selector)) && selector
            == hit.selector,
        added_kind(ActionView::Template(ADD_DATA_INDEX)) is None,
        added_kind(ActionView::Close) is None,
{
}

/// The keys ask for what was pressed: copy and cut both copy, and a key that goes
/// up deletes nothing.
pub proof fn keys_ask_for_what_was_pressed(events: Seq<KeyEvent>, event: KeyEvent)
    ensures
        ({
            let before = keys_asked(events);
            let after = keys_asked(events.push(event));
            &&& after.copy == (before.copy || event is Copy || event is Cut)
            &&& after.paste == (before.paste || event is Paste)
            &&& after.delete == (before.delete || (event matches KeyEvent::Delete { pressed }
                && pressed))
        }),
        keys_asked(Seq::empty()) == (ShortcutKeys { copy: false, paste: false, delete: false }),
{
    let all = events.push(event);
    assert(all[all.len() - 1] == event);
    assert forall|e: KeyEvent| #[trigger] all.contains(e) == (events.contains(e) || e == event) by {
        if events.contains(e) {
            assert(all[events.index_of(e)] == e);
        }
    }
}

/// Saving a script changes its code to what was typed, and nothing else of the
/// node; where nothing was typed there is no edit.
pub proof fn saved_scripts_have_the_code_that_was_typed<S>(
    editor: DataFlowEditor<S>,
    state: ScriptEditorState,
)
    requires
        editor.script_editor == Some(state),
    ensures
        state.buffer@ == state.baseline@ ==> script_update(editor) is None,
        script_update(editor) matches Some(command) ==> (command matches CommandView::SetKind {
            id,
            kind: KindView::Script { name, inputs, outputs, code },
        } && id == state.node && code == state.buffer@ && exists|i: int|
            0 <= i < editor.controller.graph.nodes@.len() && (
            #[trigger] editor.controller.graph.nodes@[i]).id == id && (
            editor.controller.graph.nodes@[i].kind@ matches KindView::Script {
                name: old_name,
                inputs: old_inputs,
                outputs: old_outputs,
                ..
            } && name == old_name && inputs == old_inputs && outputs == old_outputs)),
{
    lemma_node_found(editor.controller.graph.nodes@, state.node, 0);
}

proof fn lemma_node_found(nodes: Seq<Node>, id: NodeId, i: int)
    requires
        0 <= i,
    ensures
        node_index(nodes, id, i) matches Some(at) ==> i <= at < nodes.len() && nodes[at].id == id,
    decreases nodes.len() - i,
{
    if i < nodes.len() && nodes[i].id != id {
        lemma_node_found(nodes, id, i + 1);
    }
}

proof fn lemma_idle_nodes(
    edge_start: Option<EdgeStart>,
    graph: Graph,
    frame: CanvasFrame,
    n: nat,
    i: int,
)
    requires
        n <= graph.nodes@.len() == frame.nodes@.len(),
        0 <= i < graph.nodes@.len(),
        forall|k: int|
            0 <= k < frame.nodes@.len() && k != i ==> (#[trigger] frame.nodes@[k]).edge_event is None
                && hit_socket(frame.nodes@[k]) is None,
    ensures
        ({
            let all = gathered(edge_start, graph, frame, n);
            &&& n <= i ==> all.edge_start == edge_start && !all.socket_clicked
            &&& i < n ==> (frame.nodes@[i].edge_event matches Some(event) ==> all.edge_start
                == edge_start_after(graph.nodes@[i].id, event, edge_start) && (edge_completed(
                graph.nodes@[i].id,
                event,
                edge_start,
            ) matches Some(drawn) ==> all.events.contains(drawn)))
            &&& i < n && frame.secondary_clicked ==> (hit_socket(
                frame.nodes@[i],
            ) matches Some((kind, index)) ==> {
                let endpoints = socket_endpoints(
                    graph.edges@,
                    graph.nodes@[i].id,
                    kind,
                    index,
                );
                all.socket_clicked && (endpoints.len() > 0 ==> all.events.contains(
                    EventView::DisconnectMany { endpoints },
                ))
            })
            &&& !frame.secondary_clicked || hit_socket(frame.nodes@[i]) is None
                ==> !all.socket_clicked
        }),
    decreases n,
{
    if n > 0 {
        lemma_idle_nodes(edge_start, graph, frame, (n - 1) as nat, i);
        let before = gathered(edge_start, graph, frame, (n - 1) as nat);
        let all = gathered(edge_start, graph, frame, n);
        let node = graph.nodes@[i];
        let seen = frame.nodes@[i];
        if let Some(event) = seen.edge_event {
            if let Some(drawn) = edge_completed(node.id, event, edge_start) {
                lemma_gather_node(before, graph, frame, n - 1, drawn);
                if n - 1 == i {
                    assert(all.events[all.events.len() - 1] == drawn);
                }
            }
        }
        if let Some((kind, index)) = hit_socket(seen) {
            let endpoints = socket_endpoints(graph.edges@, node.id, kind, index);
            let told = EventView::DisconnectMany { endpoints };
            lemma_gather_node(before, graph, frame, n - 1, told);
            if n - 1 == i && frame.secondary_clicked && endpoints.len() > 0 {
                assert(all.events[before.events.len() as int] == told);
            }
        }
    }
}

/// A connection that was begun and ends at a socket of the other kind is told of,
/// with both its ends; afterwards none is begun.
pub proof fn finished_connections_are_told_of(
    edge_start: EdgeStart,
    graph: Graph,
    frame: CanvasFrame,
    i: int,
    kind: SocketKind,
    index: usize,
)
    requires
        graph.nodes@.len() == frame.nodes@.len(),
        graph.edges@.len() == frame.edges@.len(),
        0 <= i < graph.nodes@.len(),
        forall|k: int|
            0 <= k < frame.nodes@.len() && k != i ==> (#[trigger] frame.nodes@[k]).edge_event is None
                && hit_socket(frame.nodes@[k]) is None,
        frame.nodes@[i].edge_event == Some(EdgeEvent::Ended { kind, index }),
        kind != edge_start.kind,
        index <= u32::MAX,
        edge_start.port <= u32::MAX,
    ensures
        ({
            let node = graph.nodes@[i].id;
            let events = frame_events(Some(edge_start), graph, frame);
            &&& kind is Input ==> events.contains(
                EventView::Connect {
                    from: edge_start.node,
                    from_port: edge_start.port as u32,
                    to: node,
                    to_port: index as u32,
                },
            )
            &&& kind is Output ==> events.contains(
                EventView::Connect {
                    from: node,
                    from_port: index as u32,
                    to: edge_start.node,
                    to_port: edge_start.port as u32,
                },
            )
            &&& gathered(Some(edge_start), graph, frame, graph.nodes@.len()).edge_start is None
        }),
{
    lemma_idle_nodes(Some(edge_start), graph, frame, graph.nodes@.len(), i);
    let node = graph.nodes@[i].id;
    lemma_in_frame(
        Some(edge_start),
        graph,
        frame,
        edge_completed(node, EdgeEvent::Ended { kind, index }, Some(edge_start)).unwrap(),
    );
}

/// A click on a socket is told of by all inputs that it frees. The menu opens
/// where the canvas was clicked, unless the click was on a socket.
pub proof fn clicks_are_told_of(
    edge_start: Option<EdgeStart>,
    graph: Graph,
    frame: CanvasFrame,
    i: int,
    canvas_pos: [u32; 2],
    screen_pos: [u32; 2],
)
    requires
        graph.nodes@.len() == frame.nodes@.len(),
        graph.edges@.len() == frame.edges@.len(),
        0 <= i < graph.nodes@.len(),
        forall|k: int|
            0 <= k < frame.nodes@.len() && k != i ==> (#[trigger] frame.nodes@[k]).edge_event is None
                && hit_socket(frame.nodes@[k]) is None,
    ensures
        frame.secondary_clicked ==> (hit_socket(frame.nodes@[i]) matches Some((kind, index)) ==> {
            let endpoints = socket_endpoints(graph.edges@, graph.nodes@[i].id, kind, index);
            endpoints.len() > 0 ==> frame_events(edge_start, graph, frame).contains(
                EventView::DisconnectMany { endpoints },
            )
        }),
        frame_events(edge_start, graph, frame).contains(
            EventView::OpenAddMenu { canvas_pos, screen_pos },
        ) <==> frame.menu_at == Some((canvas_pos, screen_pos)) && frame.canvas_secondary_clicked
            && !(frame.secondary_clicked && hit_socket(frame.nodes@[i]) is Some),
{
    let n = graph.nodes@.len();
    lemma_idle_nodes(edge_start, graph, frame, n, i);
    let menu = EventView::OpenAddMenu { canvas_pos, screen_pos };
    lemma_in_frame(edge_start, graph, frame, menu);
    lemma_gathered(edge_start, graph, frame, n, i, menu);
    lemma_deletions(graph.edges@, frame.edges@, graph.edges@.len(), menu);
    if let Some((kind, index)) = hit_socket(frame.nodes@[i]) {
        let endpoints = socket_endpoints(graph.edges@, graph.nodes@[i].id, kind, index);
        lemma_in_frame(edge_start, graph, frame, EventView::DisconnectMany { endpoints });
    }
}

/// An edge is selected where the frame shows it so and it was not deleted;
/// what is not drawn stays as it was.
pub proof fn edges_are_selected_as_shown(
    selected: Set<(NodeId, NodeId, u32)>,
    edges: Seq<Edge>,
    frames: Seq<EdgeFrame>,
    n: nat,
    i: int,
    other: (NodeId, NodeId, u32),
)
    requires
        n <= edges.len() == frames.len(),
        0 <= i < edges.len(),
        forall|a: int, b: int|
            0 <= a < b < edges.len() ==> key_of(#[trigger] edges[a]) != key_of(#[trigger] edges[b]),
        forall|a: int| 0 <= a < edges.len() ==> key_of(#[trigger] edges[a]) != other,
    ensures
        i < n ==> (edges_selected(selected, edges, frames, n).contains(
            (edges[i].from, edges[i].to, edges[i].to_port),
        ) <==> frames[i].selected && !frames[i].deleted),
        edges_selected(selected, edges, frames, n).contains(other) == selected.contains(other),
    decreases n,
{
    if n > 0 {
        edges_are_selected_as_shown(selected, edges, frames, (n - 1) as nat, i, other);
        assert(key_of(edges[i]) == (edges[i].from, edges[i].to, edges[i].to_port));
        if i < n - 1 {
            assert(key_of(edges[i]) != key_of(edges[n - 1]));
        }
        assert(key_of(edges[n - 1]) != other);
    }
}

/// A node is titled by what it selects or publishes, and else by what it does.
pub proof fn titles_name_what_a_node_is(kind: KindView, label: Seq<char>)
    ensures
        kind matches KindView::DataField(selector) ==> (selector.instance is None ==> title_of(
            kind,
            label,
        ) == selector.topic + "."@ + selector.field),
        kind matches KindView::Output { topic, .. } ==> (trimmed(topic).len() > 0 ==> title_of(
            kind,
            label,
        ) == topic),
        kind is Add || kind is Subtract || kind is Multiply || kind is Divide || kind is Constant
            || kind is Script ==> title_of(kind, label) == label,
{
}

proof fn lemma_line(s: Seq<char>, i: int)
    requires
        0 <= i <= s.len(),
    ensures
        i <= line_end(s, i) <= s.len(),
        forall|k: int| i <= k < line_end(s, i) ==> #[trigger] s[k] != '\n',
        line_end(s, i) < s.len() ==> s[line_end(s, i)] == '\n',
    decreases s.len() - i,
{
    if i < s.len() && s[i] != '\n' {
        lemma_line(s, i + 1);
    }
}

/// A script is summed up by its first line that is not blank, cut where it is
/// long.
pub proof fn scripts_are_summed_up_by_their_first_line(line: Seq<char>, rest: Seq<char>)
    requires
        trimmed(line).len() > 0,
        forall|k: int| 0 <= k < line.len() ==> #[trigger] line[k] != '\n',
    ensures
        ({
            let code = line + seq!['\n'] + rest;
            let text = trimmed(line);
            &&& text.len() <= SUMMARY_CHARS ==> code_summary(code) == text
            &&& text.len() > SUMMARY_CHARS ==> code_summary(code).len() == SUMMARY_CHARS + 1
                && code_summary(code).take(SUMMARY_CHARS as int) == text.take(SUMMARY_CHARS as int)
        }),
{
    reveal_strlit("\u{2026}");
    let code = line + seq!['\n'] + rest;
    let text = trimmed(line);
    lemma_line(code, 0);
    assert(code[line.len() as int] == '\n');
    let end = line_end(code, 0);
    if end < line.len() {
        assert(code[end] == line[end]);
    }
    assert(end == line.len());
    assert(code.subrange(0, end) =~= line);
    if text.len() > SUMMARY_CHARS {
        assert(code_summary(code).take(SUMMARY_CHARS as int) =~= text.take(SUMMARY_CHARS as int));
    }
}

} // verus!
