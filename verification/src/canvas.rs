//! The decisions of the canvas: titles and colors of nodes, and what the
//! pointer does to nodes, sockets and edges.

use crate::canvas_state::{complete_connection, connection, EdgeStart, GraphCanvasState, SocketKind};
use crate::graph::{has_incoming, Edge, Graph, KindView, Node, NodeId, NodeKind};
use crate::picker::{topic_display, topic_name};
use crate::text::{chars_of, text_of, trim, trimmed};
use vstd::prelude::*;

verus! {

pub type CanvasState = GraphCanvasState;

/// What the user has done on the canvas. Positions are bit patterns.
pub enum CanvasEvent {
    Select(Option<NodeId>),
    Moved { id: NodeId, from: [u32; 2], to: [u32; 2] },
    Connect { from: NodeId, from_port: u32, to: NodeId, to_port: u32 },
    Disconnect { to: NodeId, to_port: u32 },
    DisconnectMany { endpoints: Vec<(NodeId, u32)> },
    Delete(NodeId),
    OpenAddMenu { canvas_pos: [u32; 2], screen_pos: [u32; 2] },
    EditKind { id: NodeId, kind: NodeKind },
}

#[verifier::ext_equal]
pub ghost enum EventView {
    Select(Option<NodeId>),
    Moved { id: NodeId, from: [u32; 2], to: [u32; 2] },
    Connect { from: NodeId, from_port: u32, to: NodeId, to_port: u32 },
    Disconnect { to: NodeId, to_port: u32 },
    DisconnectMany { endpoints: Seq<(NodeId, u32)> },
    Delete(NodeId),
    OpenAddMenu { canvas_pos: [u32; 2], screen_pos: [u32; 2] },
    EditKind { id: NodeId, kind: KindView },
}

impl View for CanvasEvent {
    type V = EventView;

    open spec fn view(&self) -> EventView {
        match self {
            CanvasEvent::Select(id) => EventView::Select(*id),
            CanvasEvent::Moved { id, from, to } => EventView::Moved {
                id: *id,
                from: *from,
                to: *to,
            },
            CanvasEvent::Connect { from, from_port, to, to_port } => EventView::Connect {
                from: *from,
                from_port: *from_port,
                to: *to,
                to_port: *to_port,
            },
            CanvasEvent::Disconnect { to, to_port } => EventView::Disconnect {
                to: *to,
                to_port: *to_port,
            },
            CanvasEvent::DisconnectMany { endpoints } => EventView::DisconnectMany {
                endpoints: endpoints@,
            },
            CanvasEvent::Delete(id) => EventView::Delete(*id),
            CanvasEvent::OpenAddMenu { canvas_pos, screen_pos } => EventView::OpenAddMenu {
                canvas_pos: *canvas_pos,
                screen_pos: *screen_pos,
            },
            CanvasEvent::EditKind { id, kind } => EventView::EditKind { id: *id, kind: kind@ },
        }
    }
}

pub open spec fn event_views(events: Seq<CanvasEvent>) -> Seq<EventView> {
    Seq::new(events.len(), |i: int| events[i]@)
}

fn push_event(events: &mut Vec<CanvasEvent>, event: CanvasEvent)
    ensures
        event_views(final(events)@) == event_views(old(events)@).push(event@),
{
    events.push(event);
    proof {
        assert(event_views(events@) =~= event_views(old(events)@).push(event@));
    }
}

/// The title of a node; `label` names what a node of its kind does.
pub open spec fn title_of(kind: KindView, label: Seq<char>) -> Seq<char> {
    match kind {
        KindView::DataField(selector) => topic_name(selector.topic, selector.instance) + "."@
            + selector.field,
        KindView::Output { topic, fields } => if trimmed(topic).len() > 0 {
            topic
        } else {
            "Output"@
        },
        KindView::Unknown(_) => "Unknown node"@,
        _ => label,
    }
}

/// The title of a node; `label` names what a node of its kind does.
pub fn node_title(kind: &NodeKind, label: &str) -> (r: String)
    ensures
        r@ == title_of(kind@, label@),
{
    match kind {
        NodeKind::DataField(selector) => {
            let mut title = topic_display(selector);
            title.append(".");
            title.append(selector.field.as_str());
            title
        },
        NodeKind::Output(spec) => {
            if chars_of(trim(spec.topic.as_str()).as_str()).len() > 0 {
                spec.topic.clone()
            } else {
                "Output".to_owned()
            }
        },
        NodeKind::Unknown(_) => "Unknown node".to_owned(),
        _ => label.to_owned(),
    }
}

/// What flows through a port.
#[derive(Clone, Copy, Debug, PartialEq, Eq, Structural)]
pub enum PortType {
    Signal,
    Scalar,
}

pub fn port_type_label(port_type: PortType) -> (r: &'static str)
    ensures
        r@ == match port_type {
            PortType::Signal => "Signal"@,
            PortType::Scalar => "Scalar"@,
        },
{
    match port_type {
        PortType::Signal => "Signal",
        PortType::Scalar => "Scalar",
    }
}

/// The color of the sockets of a node, after what its first output gives or
/// else what its first input takes. `None` stands for gray.
pub fn socket_color(output: Option<PortType>, input: Option<PortType>) -> (r: Option<[u8; 3]>)
    ensures
        r == match (if output is Some { output } else { input }) {
            Some(PortType::Signal) => Some([90u8, 180u8, 235u8]),
            Some(PortType::Scalar) => Some([235u8, 180u8, 90u8]),
            None => None,
        },
{
    let port_type = match output {
        Some(port_type) => Some(port_type),
        None => input,
    };
    match port_type {
        Some(PortType::Signal) => Some([90, 180, 235]),
        Some(PortType::Scalar) => Some([235, 180, 90]),
        None => None,
    }
}

/// Number of characters of a script that its node shows.
pub const SUMMARY_CHARS: usize = 40;

/// The index of the first line feed at or behind `i`, or the length.
pub open spec fn line_end(s: Seq<char>, i: int) -> int
    decreases s.len() - i,
{
    if i < 0 || i >= s.len() {
        s.len() as int
    } else if s[i] == '\n' {
        i
    } else {
        line_end(s, i + 1)
    }
}

proof fn lemma_line_end(s: Seq<char>, i: int)
    requires
        0 <= i <= s.len(),
    ensures
        i <= line_end(s, i) <= s.len(),
    decreases s.len() - i,
{
    if i < s.len() && s[i] != '\n' {
        lemma_line_end(s, i + 1);
    }
}

/// The first line from `i` on that is not blank, without the white space at its
/// ends.
pub open spec fn first_line(s: Seq<char>, i: int) -> Option<Seq<char>>
    decreases s.len() - i,
{
    if i < 0 || i >= s.len() {
        None
    } else {
        let end = line_end(s, i);
        let line = trimmed(s.subrange(i, end));
        if line.len() > 0 {
            Some(line)
        } else if i <= end < s.len() {
            first_line(s, end + 1)
        } else {
            None
        }
    }
}

/// A text that is cut with an ellipsis where it is long.
pub open spec fn shortened(line: Seq<char>) -> Seq<char> {
    if line.len() > SUMMARY_CHARS {
        line.take(SUMMARY_CHARS as int) + "\u{2026}"@
    } else {
        line
    }
}

/// What a node shows of its script.
pub open spec fn code_summary(code: Seq<char>) -> Seq<char> {
    match first_line(code, 0) {
        Some(line) => shortened(line),
        None => "(empty script)"@,
    }
}

fn is_line_feed(c: char) -> (r: bool)
    ensures
        r == (c == '\n'),
{
    c == '\n'
}

/// A short summary of a script on one line.
pub fn code_summary_line(code: &str) -> (r: String)
    ensures
        r@ == code_summary(code@),
{
    let chars = chars_of(code);
    let mut i: usize = 0;
    while i < chars.len()
        invariant
            i <= chars@.len(),
            chars@ == code@,
            first_line(code@, 0) == first_line(code@, i as int),
        decreases chars@.len() - i,
    {
        let mut end: usize = i;
        while end < chars.len() && !is_line_feed(chars[end])
            invariant
                i <= end <= chars@.len(),
                line_end(chars@, i as int) == line_end(chars@, end as int),
            ensures
                i <= end <= chars@.len(),
                line_end(chars@, i as int) == end,
            decreases chars@.len() - end,
        {
            end = end + 1;
        }
        let line = trim(text_of(&chars, i, end).as_str());
        let line_chars = chars_of(line.as_str());
        if line_chars.len() > SUMMARY_CHARS {
            let mut out = text_of(&line_chars, 0, SUMMARY_CHARS);
            out.append("\u{2026}");
            return out;
        }
        if line_chars.len() > 0 {
            return line;
        }
        if end == chars.len() {
            return "(empty script)".to_owned();
        }
        i = end + 1;
    }
    "(empty script)".to_owned()
}

/// What happened to a connection that is drawn from or to a node.
#[derive(Clone, Copy, Debug, PartialEq, Eq, Structural)]
pub enum EdgeEvent {
    Started { kind: SocketKind, index: usize },
    Ended { kind: SocketKind, index: usize },
    Cancelled,
}

/// The event of a completed connection.
pub open spec fn connect_event(first: EdgeStart, second: EdgeStart) -> Option<EventView> {
    match connection(first, second) {
        Some((from, from_port, to, to_port)) => Some(
            EventView::Connect { from, from_port, to, to_port },
        ),
        None => None,
    }
}

/// The event of a completed connection; `None` where the sockets do not fit.
pub fn connection_event(first: EdgeStart, second: EdgeStart) -> (r: Option<CanvasEvent>)
    ensures
        connect_event(first, second) == match r {
            Some(event) => Some(event@),
            None => None,
        },
{
    match complete_connection(first, second) {
        Some((from, from_port, to, to_port)) => Some(
            CanvasEvent::Connect { from, from_port, to, to_port },
        ),
        None => None,
    }
}

/// The socket at which a connection begins after an event.
pub open spec fn edge_start_after(
    node: NodeId,
    event: EdgeEvent,
    start: Option<EdgeStart>,
) -> Option<EdgeStart> {
    match event {
        EdgeEvent::Started { kind, index } => Some(EdgeStart { node, kind, port: index }),
        EdgeEvent::Ended { .. } => None,
        EdgeEvent::Cancelled => None,
    }
}

/// The connection that an event completes.
pub open spec fn edge_completed(
    node: NodeId,
    event: EdgeEvent,
    start: Option<EdgeStart>,
) -> Option<EventView> {
    match (event, start) {
        (EdgeEvent::Ended { kind, index }, Some(start)) => connect_event(
            start,
            EdgeStart { node, kind, port: index },
        ),
        _ => None,
    }
}

pub open spec fn with_event(events: Seq<EventView>, event: Option<EventView>) -> Seq<EventView> {
    match event {
        Some(event) => events.push(event),
        None => events,
    }
}

/// Follows a connection that is being drawn.
pub fn handle_edge_event(
    node: NodeId,
    event: EdgeEvent,
    edge_start: &mut Option<EdgeStart>,
    events: &mut Vec<CanvasEvent>,
)
    ensures
        *final(edge_start) == edge_start_after(node, event, *old(edge_start)),
        event_views(final(events)@) == with_event(
            event_views(old(events)@),
            edge_completed(node, event, *old(edge_start)),
        ),
{
    match event {
        EdgeEvent::Started { kind, index } => {
            *edge_start = Some(EdgeStart { node, kind, port: index });
        },
        EdgeEvent::Ended { kind, index } => {
            let end = EdgeStart { node, kind, port: index };
            if let Some(start) = edge_start.take() {
                if let Some(event) = connection_event(start, end) {
                    push_event(events, event);
                }
            }
        },
        EdgeEvent::Cancelled => {
            *edge_start = None;
        },
    }
}

/// Whether a double click shows all nodes: one beside everything.
pub fn empty_canvas_double_clicked(double_clicked: bool, occupied: bool) -> (r: bool)
    ensures
        r == (double_clicked && !occupied),
{
    double_clicked && !occupied
}

/// Whether a click opens the menu: one that no socket has taken.
pub fn should_open_add_menu(
    canvas_secondary_clicked: bool,
    socket_secondary_clicked: bool,
) -> (r: bool)
    ensures
        r == (canvas_secondary_clicked && !socket_secondary_clicked),
{
    canvas_secondary_clicked && !socket_secondary_clicked
}

/// Whether the wheel over a node is handled here, since the scene does not see it.
pub fn needs_node_wheel_fallback(
    node_contains_pointer: bool,
    scene_contains_pointer: bool,
) -> (r: bool)
    ensures
        r == (node_contains_pointer && !scene_contains_pointer),
{
    node_contains_pointer && !scene_contains_pointer
}

/// The inputs to which the first `n` edges lead from an output.
pub open spec fn fan_out(edges: Seq<Edge>, node: NodeId, port: u32, n: nat) -> Seq<(NodeId, u32)>
    decreases n,
{
    if n == 0 {
        Seq::empty()
    } else {
        let rest = fan_out(edges, node, port, (n - 1) as nat);
        let e = edges[n - 1];
        if e.from == node && e.from_port == port {
            rest.push((e.to, e.to_port))
        } else {
            rest
        }
    }
}

/// The inputs that lose their edge when a socket is disconnected.
pub open spec fn socket_endpoints(
    edges: Seq<Edge>,
    node: NodeId,
    kind: SocketKind,
    index: usize,
) -> Seq<(NodeId, u32)> {
    if index > u32::MAX {
        Seq::empty()
    } else {
        match kind {
            SocketKind::Input => if has_incoming(edges, node, index as u32) {
                seq![(node, index as u32)]
            } else {
                Seq::empty()
            },
            SocketKind::Output => fan_out(edges, node, index as u32, edges.len()),
        }
    }
}

/// The inputs that lose their edge when a socket is disconnected.
pub fn disconnect_endpoints_for_socket(
    graph: &Graph,
    node: NodeId,
    kind: SocketKind,
    index: usize,
) -> (r: Vec<(NodeId, u32)>)
    ensures
        r@ == socket_endpoints(graph.edges@, node, kind, index),
{
    let mut out: Vec<(NodeId, u32)> = Vec::new();
    if index > u32::MAX as usize {
        return out;
    }
    let port: u32 = index as u32;
    match kind {
        SocketKind::Input => {
            if graph.is_connected(node, port) {
                out.push((node, port));
                proof {
                    assert(out@ =~= seq![(node, port)]);
                }
            }
            out
        },
        SocketKind::Output => {
            let edges = &graph.edges;
            let mut i: usize = 0;
            while i < edges.len()
                invariant
                    i <= edges@.len(),
                    out@ == fan_out(edges@, node, port, i as nat),
                decreases edges@.len() - i,
            {
                if edges[i].from == node && edges[i].from_port == port {
                    out.push((edges[i].to, edges[i].to_port));
                }
                i = i + 1;
            }
            out
        },
    }
}

/// By what an edge is known from frame to frame.
pub open spec fn key_of(edge: Edge) -> (NodeId, NodeId, u32) {
    (edge.from, edge.to, edge.to_port)
}

pub fn edge_key(edge: &Edge) -> (r: (NodeId, NodeId, u32))
    ensures
        r == key_of(*edge),
{
    (edge.from, edge.to, edge.to_port)
}

/// What the frame has seen of one node.
pub struct NodeFrame {
    pub contains_pointer: bool,
    /// The input sockets under the pointer.
    pub input_hits: Vec<usize>,
    /// The output sockets under the pointer.
    pub output_hits: Vec<usize>,
    /// The kind of the node where the user has changed it.
    pub edited: Option<NodeKind>,
    pub delete: bool,
    pub edge_event: Option<EdgeEvent>,
}

/// What the frame has seen of one edge.
#[derive(Clone, Copy, Debug, PartialEq, Eq, Structural)]
pub struct EdgeFrame {
    pub contains_pointer: bool,
    pub deleted: bool,
    pub selected: bool,
}

/// What the frame has seen.
pub struct CanvasFrame {
    /// One entry for each node of the graph.
    pub nodes: Vec<NodeFrame>,
    /// One entry for each edge of the graph.
    pub edges: Vec<EdgeFrame>,
    pub secondary_clicked: bool,
    /// The nodes that are selected now, where that has changed.
    pub selection_changed: Option<Vec<NodeId>>,
    pub canvas_double_clicked: bool,
    pub canvas_secondary_clicked: bool,
    pub canvas_contains_pointer: bool,
    /// Where a menu would open, on the canvas and on the screen.
    pub menu_at: Option<([u32; 2], [u32; 2])>,
}

/// The socket under the pointer, an input before an output.
pub open spec fn hit_socket(frame: NodeFrame) -> Option<(SocketKind, usize)> {
    if frame.input_hits@.len() > 0 {
        Some((SocketKind::Input, frame.input_hits@[0]))
    } else if frame.output_hits@.len() > 0 {
        Some((SocketKind::Output, frame.output_hits@[0]))
    } else {
        None
    }
}

/// What has been gathered from the nodes of a frame.
#[verifier::ext_equal]
pub ghost struct Gathered {
    pub edge_start: Option<EdgeStart>,
    pub socket_clicked: bool,
    pub events: Seq<EventView>,
}

/// One node more: a click on a socket disconnects it, the first such click
/// alone; the node is edited or deleted; a connection is followed.
pub open spec fn gather_node(
    before: Gathered,
    edges: Seq<Edge>,
    node: Node,
    frame: NodeFrame,
    secondary_clicked: bool,
) -> Gathered {
    let takes_click = secondary_clicked && !before.socket_clicked && hit_socket(frame) is Some;
    let endpoints = socket_endpoints(
        edges,
        node.id,
        hit_socket(frame).unwrap().0,
        hit_socket(frame).unwrap().1,
    );
    let e1 = if takes_click && endpoints.len() > 0 {
        before.events.push(EventView::DisconnectMany { endpoints })
    } else {
        before.events
    };
    let e2 = match frame.edited {
        Some(kind) => e1.push(EventView::EditKind { id: node.id, kind: kind@ }),
        None => e1,
    };
    let e3 = if frame.delete {
        e2.push(EventView::Delete(node.id))
    } else {
        e2
    };
    match frame.edge_event {
        Some(event) => Gathered {
            edge_start: edge_start_after(node.id, event, before.edge_start),
            socket_clicked: before.socket_clicked || takes_click,
            events: with_event(e3, edge_completed(node.id, event, before.edge_start)),
        },
        None => Gathered {
            edge_start: before.edge_start,
            socket_clicked: before.socket_clicked || takes_click,
            events: e3,
        },
    }
}

/// What has been gathered from the first `n` nodes.
pub open spec fn gathered(
    edge_start: Option<EdgeStart>,
    graph: Graph,
    frame: CanvasFrame,
    n: nat,
) -> Gathered
    decreases n,
{
    if n == 0 {
        Gathered { edge_start, socket_clicked: false, events: Seq::empty() }
    } else {
        gather_node(
            gathered(edge_start, graph, frame, (n - 1) as nat),
            graph.edges@,
            graph.nodes@[n - 1],
            frame.nodes@[n - 1],
            frame.secondary_clicked,
        )
    }
}

/// The deletions among the first `n` edges.
pub open spec fn deletions(edges: Seq<Edge>, frames: Seq<EdgeFrame>, n: nat) -> Seq<EventView>
    decreases n,
{
    if n == 0 {
        Seq::empty()
    } else {
        let rest = deletions(edges, frames, (n - 1) as nat);
        if frames[n - 1].deleted {
            rest.push(
                EventView::Disconnect { to: edges[n - 1].to, to_port: edges[n - 1].to_port },
            )
        } else {
            rest
        }
    }
}

/// The selected edges after the first `n` edges of a frame.
pub open spec fn edges_selected(
    selected: Set<(NodeId, NodeId, u32)>,
    edges: Seq<Edge>,
    frames: Seq<EdgeFrame>,
    n: nat,
) -> Set<(NodeId, NodeId, u32)>
    decreases n,
{
    if n == 0 {
        selected
    } else {
        let rest = edges_selected(selected, edges, frames, (n - 1) as nat);
        if frames[n - 1].selected && !frames[n - 1].deleted {
            rest.insert(key_of(edges[n - 1]))
        } else {
            rest.remove(key_of(edges[n - 1]))
        }
    }
}

/// Whether an edge has the key.
pub open spec fn has_key(edges: Seq<Edge>, key: (NodeId, NodeId, u32)) -> bool {
    exists|i: int| 0 <= i < edges.len() && key_of(#[trigger] edges[i]) == key
}

/// The selected edges that the graph still has.
pub open spec fn edges_kept(
    selected: Seq<(NodeId, NodeId, u32)>,
    edges: Seq<Edge>,
) -> Set<(NodeId, NodeId, u32)> {
    selected.to_set().filter(|key: (NodeId, NodeId, u32)| has_key(edges, key))
}

/// The least of some ids.
pub open spec fn least_id(ids: Seq<NodeId>) -> Option<NodeId>
    decreases ids.len(),
{
    if ids.len() == 0 {
        None
    } else {
        match least_id(ids.drop_last()) {
            Some(least) => if ids.last().0 < least.0 {
                Some(ids.last())
            } else {
                Some(least)
            },
            None => Some(ids.last()),
        }
    }
}

pub open spec fn any_node_hovered(frames: Seq<NodeFrame>) -> bool {
    exists|i: int| 0 <= i < frames.len() && (#[trigger] frames[i]).contains_pointer
}

pub open spec fn any_socket_hovered(frames: Seq<NodeFrame>) -> bool {
    exists|i: int| 0 <= i < frames.len() && hit_socket(#[trigger] frames[i]) is Some
}

pub open spec fn any_edge_hovered(frames: Seq<EdgeFrame>) -> bool {
    exists|i: int| 0 <= i < frames.len() && (#[trigger] frames[i]).contains_pointer
}

/// Whether the pointer is over a node, a socket or an edge.
pub open spec fn is_occupied(frame: CanvasFrame) -> bool {
    any_node_hovered(frame.nodes@) || any_socket_hovered(frame.nodes@) || any_edge_hovered(
        frame.edges@,
    )
}

/// What a frame tells the editor: first of the nodes, then of the edges, then
/// of the selection and of the menu.
pub open spec fn frame_events(
    edge_start: Option<EdgeStart>,
    graph: Graph,
    frame: CanvasFrame,
) -> Seq<EventView> {
    let nodes = gathered(edge_start, graph, frame, graph.nodes@.len());
    let events = nodes.events + deletions(graph.edges@, frame.edges@, graph.edges@.len());
    let chosen = with_event(
        events,
        match frame.selection_changed {
            Some(ids) => Some(EventView::Select(least_id(ids@))),
            None => None,
        },
    );
    with_event(
        chosen,
        match frame.menu_at {
            Some((canvas_pos, screen_pos)) => if frame.canvas_secondary_clicked
                && !nodes.socket_clicked {
                Some(EventView::OpenAddMenu { canvas_pos, screen_pos })
            } else {
                None
            },
            None => None,
        },
    )
}

fn first_hit(frame: &NodeFrame) -> (r: Option<(SocketKind, usize)>)
    ensures
        r == hit_socket(*frame),
{
    if frame.input_hits.len() > 0 {
        Some((SocketKind::Input, frame.input_hits[0]))
    } else if frame.output_hits.len() > 0 {
        Some((SocketKind::Output, frame.output_hits[0]))
    } else {
        None
    }
}

fn find_least(ids: &Vec<NodeId>) -> (r: Option<NodeId>)
    ensures
        r == least_id(ids@),
{
    let mut least: Option<NodeId> = None;
    let mut i: usize = 0;
    proof {
        assert(ids@.take(0) =~= Seq::<NodeId>::empty());
    }
    while i < ids.len()
        invariant
            i <= ids@.len(),
            least == least_id(ids@.take(i as int)),
        decreases ids@.len() - i,
    {
        proof {
            assert(ids@.take(i + 1).drop_last() =~= ids@.take(i as int));
            assert(ids@.take(i + 1).last() == ids@[i as int]);
        }
        least =
        match least {
            Some(known) => if ids[i].0 < known.0 {
                Some(ids[i])
            } else {
                Some(known)
            },
            None => Some(ids[i]),
        };
        i = i + 1;
    }
    proof {
        assert(ids@.take(i as int) =~= ids@);
    }
    least
}

fn same_key(a: (NodeId, NodeId, u32), b: (NodeId, NodeId, u32)) -> (r: bool)
    ensures
        r == (a == b),
{
    a.0 == b.0 && a.1 == b.1 && a.2 == b.2
}

fn graph_has_key(edges: &Vec<Edge>, key: (NodeId, NodeId, u32)) -> (r: bool)
    ensures
        r == has_key(edges@, key),
{
    let mut i: usize = 0;
    while i < edges.len()
        invariant
            i <= edges@.len(),
            forall|j: int| 0 <= j < i ==> key_of(#[trigger] edges@[j]) != key,
        decreases edges@.len() - i,
    {
        if same_key(edge_key(&edges[i]), key) {
            return true;
        }
        i = i + 1;
    }
    false
}

fn without_key(
    keys: &Vec<(NodeId, NodeId, u32)>,
    key: (NodeId, NodeId, u32),
) -> (r: Vec<(NodeId, NodeId, u32)>)
    ensures
        r@.to_set() == keys@.to_set().remove(key),
{
    let mut out: Vec<(NodeId, NodeId, u32)> = Vec::new();
    let mut i: usize = 0;
    while i < keys.len()
        invariant
            i <= keys@.len(),
            forall|k: (NodeId, NodeId, u32)| #[trigger]
                out@.contains(k) <==> k != key && keys@.take(i as int).contains(k),
        decreases keys@.len() - i,
    {
        let ghost before = out@;
        let current = keys[i];
        proof {
            assert(keys@.take(i + 1) =~= keys@.take(i as int).push(current));
            lemma_push_contains(keys@.take(i as int), current);
            lemma_push_contains(before, current);
        }
        if !same_key(current, key) {
            out.push(current);
        }
        i = i + 1;
    }
    proof {
        assert(keys@.take(i as int) =~= keys@);
        assert(out@.to_set() =~= keys@.to_set().remove(key));
    }
    out
}

proof fn lemma_push_contains<T>(s: Seq<T>, x: T)
    ensures
        forall|k: T| #[trigger] s.push(x).contains(k) <==> s.contains(k) || k == x,
{
    assert forall|k: T| #[trigger] s.push(x).contains(k) <==> s.contains(k) || k == x by {
        let t = s.push(x);
        if s.contains(k) {
            let i = choose|i: int| 0 <= i < s.len() && s[i] == k;
            assert(t[i] == k);
        }
        if k == x {
            assert(t[s.len() as int] == k);
        }
        if t.contains(k) {
            let i = choose|i: int| 0 <= i < t.len() && t[i] == k;
            if i < s.len() {
                assert(s[i] == k);
            }
        }
    }
}

impl GraphCanvasState {
    /// Forgets selected edges that the graph no longer has.
    pub fn retain_selected_edges(&mut self, graph: &Graph)
        ensures
            final(self).selected_edges@.to_set() == edges_kept(
                old(self).selected_edges@,
                graph.edges@,
            ),
            final(self).viewport == old(self).viewport,
            final(self).viewport_initialized == old(self).viewport_initialized,
            final(self).fit_requested == old(self).fit_requested,
            final(self).layout == old(self).layout,
            final(self).edge_start == old(self).edge_start,
            final(self).drag_origins == old(self).drag_origins,
            final(self).pending_positions == old(self).pending_positions,
    {
        let keys = &self.selected_edges;
        let mut out: Vec<(NodeId, NodeId, u32)> = Vec::new();
        let mut i: usize = 0;
        while i < keys.len()
            invariant
                i <= keys@.len(),
                forall|k: (NodeId, NodeId, u32)| #[trigger]
                    out@.contains(k) <==> has_key(graph.edges@, k) && keys@.take(
                        i as int,
                    ).contains(k),
            decreases keys@.len() - i,
        {
            let ghost before = out@;
            let current = keys[i];
            proof {
                assert(keys@.take(i + 1) =~= keys@.take(i as int).push(current));
                lemma_push_contains(keys@.take(i as int), current);
                lemma_push_contains(before, current);
            }
            if graph_has_key(&graph.edges, current) {
                out.push(current);
            }
            i = i + 1;
        }
        proof {
            assert(keys@.take(i as int) =~= keys@);
            assert(out@.to_set() =~= edges_kept(keys@, graph.edges@));
        }
        self.selected_edges = out;
    }

    fn gather_nodes(&mut self, graph: &Graph, frame: &CanvasFrame) -> (r: (
        Vec<CanvasEvent>,
        bool,
    ))
        requires
            frame.nodes@.len() == graph.nodes@.len(),
        ensures
            ({
                let all = gathered(
                    old(self).edge_start,
                    *graph,
                    *frame,
                    graph.nodes@.len(),
                );
                &&& event_views(r.0@) == all.events
                &&& r.1 == all.socket_clicked
                &&& final(self).edge_start == all.edge_start
            }),
            final(self).viewport == old(self).viewport,
            final(self).viewport_initialized == old(self).viewport_initialized,
            final(self).fit_requested == old(self).fit_requested,
            final(self).layout == old(self).layout,
            final(self).selected_edges == old(self).selected_edges,
            final(self).drag_origins == old(self).drag_origins,
            final(self).pending_positions == old(self).pending_positions,
    {
        let mut events: Vec<CanvasEvent> = Vec::new();
        let mut socket_clicked = false;
        let mut i: usize = 0;
        proof {
            assert(event_views(events@) =~= Seq::<EventView>::empty());
        }
        let count: usize = graph.nodes.len();
        while i < count
            invariant
                i <= count == graph.nodes@.len() == frame.nodes@.len(),
                ({
                    let so_far = gathered(old(self).edge_start, *graph, *frame, i as nat);
                    &&& event_views(events@) == so_far.events
                    &&& socket_clicked == so_far.socket_clicked
                    &&& self.edge_start == so_far.edge_start
                }),
                self.viewport == old(self).viewport,
                self.viewport_initialized == old(self).viewport_initialized,
                self.fit_requested == old(self).fit_requested,
                self.layout == old(self).layout,
                self.selected_edges == old(self).selected_edges,
                self.drag_origins == old(self).drag_origins,
                self.pending_positions == old(self).pending_positions,
            decreases count - i,
        {
            let seen = &frame.nodes[i];
            let id = graph.nodes[i].id;
            if frame.secondary_clicked && !socket_clicked {
                if let Some((kind, index)) = first_hit(seen) {
                    socket_clicked = true;
                    let endpoints = disconnect_endpoints_for_socket(graph, id, kind, index);
                    if endpoints.len() > 0 {
                        push_event(&mut events, CanvasEvent::DisconnectMany { endpoints });
                    }
                }
            }
            if let Some(kind) = &seen.edited {
                push_event(&mut events, CanvasEvent::EditKind { id, kind: kind.duplicate() });
            }
            if seen.delete {
                push_event(&mut events, CanvasEvent::Delete(id));
            }
            if let Some(event) = seen.edge_event {
                handle_edge_event(id, event, &mut self.edge_start, &mut events);
            }
            i = i + 1;
        }
        (events, socket_clicked)
    }

    fn gather_edges(&mut self, graph: &Graph, frames: &Vec<EdgeFrame>, events: &mut Vec<CanvasEvent>)
        requires
            frames@.len() == graph.edges@.len(),
        ensures
            event_views(final(events)@) == event_views(old(events)@) + deletions(
                graph.edges@,
                frames@,
                graph.edges@.len(),
            ),
            final(self).selected_edges@.to_set() == edges_selected(
                old(self).selected_edges@.to_set(),
                graph.edges@,
                frames@,
                graph.edges@.len(),
            ),
            final(self).viewport == old(self).viewport,
            final(self).viewport_initialized == old(self).viewport_initialized,
            final(self).fit_requested == old(self).fit_requested,
            final(self).layout == old(self).layout,
            final(self).edge_start == old(self).edge_start,
            final(self).drag_origins == old(self).drag_origins,
            final(self).pending_positions == old(self).pending_positions,
    {
        let edges = &graph.edges;
        let count: usize = edges.len();
        let mut i: usize = 0;
        proof {
            assert(event_views(events@) + Seq::<EventView>::empty() =~= event_views(events@));
        }
        while i < count
            invariant
                i <= count == edges@.len() == frames@.len(),
                event_views(events@) == event_views(old(events)@) + deletions(
                    edges@,
                    frames@,
                    i as nat,
                ),
                self.selected_edges@.to_set() == edges_selected(
                    old(self).selected_edges@.to_set(),
                    edges@,
                    frames@,
                    i as nat,
                ),
                self.viewport == old(self).viewport,
                self.viewport_initialized == old(self).viewport_initialized,
                self.fit_requested == old(self).fit_requested,
                self.layout == old(self).layout,
                self.edge_start == old(self).edge_start,
                self.drag_origins == old(self).drag_origins,
                self.pending_positions == old(self).pending_positions,
            decreases count - i,
        {
            let key = edge_key(&edges[i]);
            let mut keys = without_key(&self.selected_edges, key);
            let ghost selected = self.selected_edges@.to_set();
            if frames[i].deleted {
                push_event(
                    events,
                    CanvasEvent::Disconnect { to: edges[i].to, to_port: edges[i].to_port },
                );
                proof {
                    assert(event_views(events@) =~= event_views(old(events)@) + deletions(
                        edges@,
                        frames@,
                        (i + 1) as nat,
                    ));
                }
            } else if frames[i].selected {
                proof {
                    lemma_push_contains(keys@, key);
                    assert forall|k: (NodeId, NodeId, u32)| #[trigger]
                        keys@.push(key).to_set().contains(k) <==> selected.insert(key).contains(
                            k,
                        ) by {
                        assert(keys@.to_set().contains(k) <==> selected.remove(key).contains(k));
                        assert(keys@.push(key).contains(k) <==> keys@.contains(k) || k == key);
                    }
                    assert(keys@.push(key).to_set() =~= selected.insert(key));
                }
                keys.push(key);
            }
            self.selected_edges = keys;
            i = i + 1;
        }
    }

    /// Takes over what a frame has seen. The result holds what the editor is
    /// told, and whether the wheel over a node is handled.
    pub fn take_frame(&mut self, graph: &Graph, frame: &CanvasFrame) -> (r: (
        Vec<CanvasEvent>,
        bool,
    ))
        requires
            frame.nodes@.len() == graph.nodes@.len(),
            frame.edges@.len() == graph.edges@.len(),
        ensures
            event_views(r.0@) == frame_events(old(self).edge_start, *graph, *frame),
            r.1 == (any_node_hovered(frame.nodes@) && !frame.canvas_contains_pointer),
            final(self).edge_start == gathered(
                old(self).edge_start,
                *graph,
                *frame,
                graph.nodes@.len(),
            ).edge_start,
            final(self).selected_edges@.to_set() == edges_selected(
                old(self).selected_edges@.to_set(),
                graph.edges@,
                frame.edges@,
                graph.edges@.len(),
            ),
            final(self).fit_requested == (old(self).fit_requested || frame.canvas_double_clicked
                && !is_occupied(*frame)),
            final(self).viewport == old(self).viewport,
            final(self).viewport_initialized == old(self).viewport_initialized,
            final(self).layout == old(self).layout,
            final(self).drag_origins == old(self).drag_origins,
            final(self).pending_positions == old(self).pending_positions,
    {
        let (mut events, socket_clicked) = self.gather_nodes(graph, frame);
        self.gather_edges(graph, &frame.edges, &mut events);
        let (node_hovered, socket_hovered) = hovered_nodes(&frame.nodes);
        let occupied = node_hovered || socket_hovered || hovered_edge(&frame.edges);
        if let Some(ids) = &frame.selection_changed {
            push_event(&mut events, CanvasEvent::Select(find_least(ids)));
        }
        if empty_canvas_double_clicked(frame.canvas_double_clicked, occupied) {
            self.request_fit();
        }
        if should_open_add_menu(frame.canvas_secondary_clicked, socket_clicked) {
            if let Some((canvas_pos, screen_pos)) = frame.menu_at {
                push_event(&mut events, CanvasEvent::OpenAddMenu { canvas_pos, screen_pos });
            }
        }
        (events, needs_node_wheel_fallback(node_hovered, frame.canvas_contains_pointer))
    }
}

fn hovered_nodes(frames: &Vec<NodeFrame>) -> (r: (bool, bool))
    ensures
        r.0 == any_node_hovered(frames@),
        r.1 == any_socket_hovered(frames@),
{
    let mut node = false;
    let mut socket = false;
    let mut i: usize = 0;
    while i < frames.len()
        invariant
            i <= frames@.len(),
            node == exists|j: int| 0 <= j < i && (#[trigger] frames@[j]).contains_pointer,
            socket == exists|j: int| 0 <= j < i && hit_socket(#[trigger] frames@[j]) is Some,
        decreases frames@.len() - i,
    {
        if frames[i].contains_pointer {
            node = true;
        }
        if first_hit(&frames[i]).is_some() {
            socket = true;
        }
        i = i + 1;
    }
    (node, socket)
}

fn hovered_edge(frames: &Vec<EdgeFrame>) -> (r: bool)
    ensures
        r == any_edge_hovered(frames@),
{
    let mut i: usize = 0;
    while i < frames.len()
        invariant
            i <= frames@.len(),
            forall|j: int| 0 <= j < i ==> !(#[trigger] frames@[j]).contains_pointer,
        decreases frames@.len() - i,
    {
        if frames[i].contains_pointer {
            return true;
        }
        i = i + 1;
    }
    false
}

/// Whether at most one of the events disconnects a socket.
pub open spec fn at_most_one_disconnects(events: Seq<EventView>) -> bool {
    forall|i: int, j: int|
        0 <= i < j < events.len() ==> !((#[trigger] events[i]) is DisconnectMany && (
        #[trigger] events[j]) is DisconnectMany)
}

proof fn lemma_gathered_disconnects(
    edge_start: Option<EdgeStart>,
    graph: Graph,
    frame: CanvasFrame,
    n: nat,
)
    ensures
        ({
            let all = gathered(edge_start, graph, frame, n);
            &&& at_most_one_disconnects(all.events)
            &&& !all.socket_clicked ==> forall|i: int|
                0 <= i < all.events.len() ==> !((#[trigger] all.events[i]) is DisconnectMany)
        }),
    decreases n,
{
    if n > 0 {
        lemma_gathered_disconnects(edge_start, graph, frame, (n - 1) as nat);
    }
}

proof fn lemma_deletions_only(edges: Seq<Edge>, frames: Seq<EdgeFrame>, n: nat)
    ensures
        forall|i: int|
            0 <= i < deletions(edges, frames, n).len() ==> (#[trigger] deletions(
                edges,
                frames,
                n,
            )[i]) is Disconnect,
    decreases n,
{
    if n > 0 {
        lemma_deletions_only(edges, frames, (n - 1) as nat);
    }
}

/// A click disconnects one socket at most, though the pointer is over several.
pub proof fn one_click_disconnects_one_socket(
    edge_start: Option<EdgeStart>,
    graph: Graph,
    frame: CanvasFrame,
)
    ensures
        at_most_one_disconnects(frame_events(edge_start, graph, frame)),
{
    let n = graph.nodes@.len();
    lemma_gathered_disconnects(edge_start, graph, frame, n);
    lemma_deletions_only(graph.edges@, frame.edges@, graph.edges@.len());
    let nodes = gathered(edge_start, graph, frame, n);
    let deleted = deletions(graph.edges@, frame.edges@, graph.edges@.len());
    let events = nodes.events + deleted;
    assert forall|i: int, j: int| 0 <= i < j < events.len() implies !((
    #[trigger] events[i]) is DisconnectMany && (#[trigger] events[j]) is DisconnectMany) by {
        if j >= nodes.events.len() {
            assert(events[j] == deleted[j - nodes.events.len()]);
        } else {
            assert(events[i] == nodes.events[i] && events[j] == nodes.events[j]);
        }
    }
}

} // verus!
