//! What the canvas remembers from frame to frame: where the nodes stand, which
//! of them are being dragged, and the connection that is being drawn.

use crate::bits::{equal_points, same_point};
use crate::graph::{has_node, Graph, Node, NodeId, Viewport, UNIT_ZOOM};
use std::collections::HashMap;
use vstd::prelude::*;
use vstd::std_specs::hash::*;

verus! {

broadcast use group_hash_axioms;

/// The side of a node on which a socket is.
#[derive(Clone, Copy, Debug, PartialEq, Eq, Structural)]
pub enum SocketKind {
    Input,
    Output,
}

/// A node that has been dragged to another place.
#[derive(Clone, Copy, Debug, PartialEq, Eq)]
pub struct CompletedMove {
    pub id: NodeId,
    pub from: [u32; 2],
    pub to: [u32; 2],
}

/// The socket at which a connection begins or ends.
#[derive(Clone, Copy, Debug, PartialEq, Eq, Structural)]
pub struct EdgeStart {
    pub node: NodeId,
    pub kind: SocketKind,
    pub port: usize,
}

/// The edge between two sockets: one is an output and the other an input, and
/// both port numbers can be held.
pub open spec fn connection(first: EdgeStart, second: EdgeStart) -> Option<
    (NodeId, u32, NodeId, u32),
> {
    let (output, input) = if first.kind == SocketKind::Output {
        (first, second)
    } else {
        (second, first)
    };
    if first.kind != second.kind && output.port <= u32::MAX && input.port <= u32::MAX {
        Some((output.node, output.port as u32, input.node, input.port as u32))
    } else {
        None
    }
}

/// The edge between two sockets, given in either order.
pub fn complete_connection(first: EdgeStart, second: EdgeStart) -> (r: Option<
    (NodeId, u32, NodeId, u32),
>)
    ensures
        r == connection(first, second),
{
    let (output, input) = match (first.kind, second.kind) {
        (SocketKind::Output, SocketKind::Input) => (first, second),
        (SocketKind::Input, SocketKind::Output) => (second, first),
        _ => {
            return None;
        },
    };
    if output.port <= u32::MAX as usize && input.port <= u32::MAX as usize {
        Some((output.node, output.port as u32, input.node, input.port as u32))
    } else {
        None
    }
}

/// It does not matter at which end a connection is begun.
pub proof fn connections_have_no_direction(first: EdgeStart, second: EdgeStart)
    ensures
        connection(first, second) == connection(second, first),
{
}

/// The state of the canvas. Positions are bit patterns.
pub struct GraphCanvasState {
    pub viewport: Viewport,
    /// Where each node stands on the canvas.
    pub layout: HashMap<u64, [u32; 2]>,
    pub edge_start: Option<EdgeStart>,
    pub selected_edges: Vec<(NodeId, NodeId, u32)>,
    /// Where the nodes stood that are being dragged.
    pub drag_origins: HashMap<u64, [u32; 2]>,
    /// Where nodes have been dragged to, until the graph has caught up.
    pub pending_positions: HashMap<u64, [u32; 2]>,
    pub viewport_initialized: bool,
    pub fit_requested: bool,
}

/// A view that shows all nodes.
#[derive(Clone, Copy, Debug, PartialEq, Eq)]
pub struct FittedView {
    pub offset: [u32; 2],
    pub zoom: u32,
}

/// The positions of the first `n` nodes put into a layout. A node that is being
/// dragged keeps its place.
pub open spec fn placed(
    layout: Map<u64, [u32; 2]>,
    dragged: Map<u64, [u32; 2]>,
    nodes: Seq<Node>,
    n: nat,
) -> Map<u64, [u32; 2]>
    decreases n,
{
    if n == 0 {
        layout
    } else {
        let rest = placed(layout, dragged, nodes, (n - 1) as nat);
        let id = nodes[n - 1].id.0;
        if dragged.contains_key(id) && rest.contains_key(id) {
            rest
        } else {
            rest.insert(id, nodes[n - 1].pos)
        }
    }
}

/// What is known of the first `n` nodes taken away.
pub open spec fn without_nodes(
    known: Map<u64, [u32; 2]>,
    nodes: Seq<Node>,
    n: nat,
) -> Map<u64, [u32; 2]>
    decreases n,
{
    if n == 0 {
        known
    } else {
        without_nodes(known, nodes, (n - 1) as nat).remove(nodes[n - 1].id.0)
    }
}

/// What is known of the nodes that are there.
pub open spec fn of_nodes(known: Map<u64, [u32; 2]>, nodes: Seq<Node>) -> Map<u64, [u32; 2]> {
    Map::new(
        |id: u64| known.contains_key(id) && has_node(nodes, NodeId(id)),
        |id: u64| known[id],
    )
}

/// The origins of drags while the button is down: a node that has left its
/// place is being dragged from there.
pub open spec fn dragged_from(
    origins: Map<u64, [u32; 2]>,
    layout: Map<u64, [u32; 2]>,
    nodes: Seq<Node>,
    n: nat,
) -> Map<u64, [u32; 2]>
    decreases n,
{
    if n == 0 {
        origins
    } else {
        let rest = dragged_from(origins, layout, nodes, (n - 1) as nat);
        let node = nodes[n - 1];
        if layout.contains_key(node.id.0) && !equal_points(layout[node.id.0], node.pos)
            && !rest.contains_key(node.id.0) {
            rest.insert(node.id.0, node.pos)
        } else {
            rest
        }
    }
}

/// Drags that end when the button is released.
#[verifier::ext_equal]
pub ghost struct Release {
    pub origins: Map<u64, [u32; 2]>,
    pub pending: Map<u64, [u32; 2]>,
    pub moves: Seq<CompletedMove>,
}

/// The drags of the first `n` nodes ended: a node that stands elsewhere than it
/// did has moved, unless that move has been told already.
pub open spec fn released(
    start: Release,
    layout: Map<u64, [u32; 2]>,
    nodes: Seq<Node>,
    n: nat,
) -> Release
    decreases n,
{
    if n == 0 {
        start
    } else {
        let rest = released(start, layout, nodes, (n - 1) as nat);
        let node = nodes[n - 1];
        let id = node.id.0;
        if !layout.contains_key(id) {
            rest
        } else {
            let to = layout[id];
            let from = if rest.origins.contains_key(id) {
                rest.origins[id]
            } else {
                node.pos
            };
            let told = rest.pending.contains_key(id) && equal_points(rest.pending[id], to);
            if !equal_points(to, from) && !told {
                Release {
                    origins: rest.origins.remove(id),
                    pending: rest.pending.insert(id, to),
                    moves: rest.moves.push(CompletedMove { id: node.id, from, to }),
                }
            } else {
                Release { origins: rest.origins.remove(id), ..rest }
            }
        }
    }
}

fn keep_nodes(known: &HashMap<u64, [u32; 2]>, graph: &Graph) -> (r: HashMap<u64, [u32; 2]>)
    ensures
        r@ == of_nodes(known@, graph.nodes@),
{
    let mut out: HashMap<u64, [u32; 2]> = HashMap::new();
    let nodes = &graph.nodes;
    let mut i: usize = 0;
    while i < nodes.len()
        invariant
            i <= nodes@.len(),
            forall|id: u64| #[trigger]
                out@.contains_key(id) <==> known@.contains_key(id) && has_node(
                    nodes@.take(i as int),
                    NodeId(id),
                ),
            forall|id: u64| #[trigger] out@.contains_key(id) ==> out@[id] == known@[id],
        decreases nodes@.len() - i,
    {
        let id: u64 = nodes[i].id.0;
        let ghost seen = nodes@.take(i as int);
        let ghost next = nodes@.take(i + 1);
        proof {
            assert(next =~= seen.push(nodes@[i as int]));
            assert forall|k: u64| has_node(next, NodeId(k)) <==> has_node(seen, NodeId(k)) || k
                == id by {
                if has_node(seen, NodeId(k)) {
                    let j = choose|j: int| 0 <= j < seen.len() && (#[trigger] seen[j]).id == NodeId(k);
                    assert(next[j].id == NodeId(k));
                }
                if k == id {
                    assert(next[i as int].id == NodeId(k));
                }
                if has_node(next, NodeId(k)) {
                    let j = choose|j: int| 0 <= j < next.len() && (#[trigger] next[j]).id == NodeId(k);
                    if j < i {
                        assert(seen[j].id == NodeId(k));
                    }
                }
            }
        }
        if let Some(place) = known.get(&id) {
            out.insert(id, *place);
        }
        i = i + 1;
    }
    proof {
        assert(nodes@.take(i as int) =~= nodes@);
        assert(out@ =~= of_nodes(known@, nodes@));
    }
    out
}

impl Default for GraphCanvasState {
    fn default() -> (r: GraphCanvasState)
        ensures
            r.viewport == (Viewport { offset: [0, 0], zoom: UNIT_ZOOM }),
            r.layout@ == Map::<u64, [u32; 2]>::empty(),
            r.edge_start is None,
            r.selected_edges@.len() == 0,
            r.drag_origins@ == Map::<u64, [u32; 2]>::empty(),
            r.pending_positions@ == Map::<u64, [u32; 2]>::empty(),
            !r.viewport_initialized,
            !r.fit_requested,
    {
        GraphCanvasState {
            viewport: Viewport::default(),
            layout: HashMap::new(),
            edge_start: None,
            selected_edges: Vec::new(),
            drag_origins: HashMap::new(),
            pending_positions: HashMap::new(),
            viewport_initialized: false,
            fit_requested: false,
        }
    }
}

impl GraphCanvasState {
    /// Everything but the viewport and its flags is that of `other`.
    pub open spec fn same_places(self, other: Self) -> bool {
        &&& self.layout == other.layout
        &&& self.edge_start == other.edge_start
        &&& self.selected_edges == other.selected_edges
        &&& self.drag_origins == other.drag_origins
        &&& self.pending_positions == other.pending_positions
    }

    /// Asks that all nodes be shown.
    pub fn request_fit(&mut self)
        ensures
            final(self).fit_requested,
            final(self).viewport == old(self).viewport,
            final(self).viewport_initialized == old(self).viewport_initialized,
            final(self).same_places(*old(self)),
    {
        self.fit_requested = true;
    }

    pub fn fit_requested(&self) -> (r: bool)
        ensures
            r == self.fit_requested,
    {
        self.fit_requested
    }

    /// Carries out a request to show all nodes, once, as soon as the view that
    /// does so is known. An empty graph keeps its place and loses its scale.
    pub fn apply_fit_request(&mut self, graph: &Graph, fitted: Option<FittedView>) -> (r: bool)
        ensures
            r == (old(self).fit_requested && (graph.nodes@.len() == 0 || fitted is Some)),
            final(self).fit_requested == (old(self).fit_requested && !r),
            final(self).viewport == if !r {
                old(self).viewport
            } else if graph.nodes@.len() == 0 {
                Viewport { offset: old(self).viewport.offset, zoom: UNIT_ZOOM }
            } else {
                Viewport { offset: fitted.unwrap().offset, zoom: fitted.unwrap().zoom }
            },
            final(self).viewport_initialized == old(self).viewport_initialized,
            final(self).same_places(*old(self)),
    {
        if !self.fit_requested {
            return false;
        }
        if graph.nodes.len() == 0 {
            self.fit_requested = false;
            self.viewport.zoom = UNIT_ZOOM;
            return true;
        }
        match fitted {
            Some(view) => {
                self.fit_requested = false;
                self.viewport = Viewport { offset: view.offset, zoom: view.zoom };
                true
            },
            None => false,
        }
    }

    /// Takes over the graph before a frame: its view the first time, and the
    /// place of every node that is not being dragged.
    pub fn prepare(&mut self, graph: &Graph)
        ensures
            final(self).viewport == if old(self).viewport_initialized {
                old(self).viewport
            } else {
                graph.viewport
            },
            final(self).viewport_initialized,
            final(self).layout@ == placed(
                old(self).layout@,
                old(self).drag_origins@,
                graph.nodes@,
                graph.nodes@.len(),
            ),
            final(self).pending_positions@ == without_nodes(
                old(self).pending_positions@,
                graph.nodes@,
                graph.nodes@.len(),
            ),
            final(self).drag_origins == old(self).drag_origins,
            final(self).edge_start == old(self).edge_start,
            final(self).selected_edges == old(self).selected_edges,
            final(self).fit_requested == old(self).fit_requested,
    {
        if !self.viewport_initialized {
            self.viewport = graph.viewport;
            self.viewport_initialized = true;
        }
        let ghost first = *self;
        let nodes = &graph.nodes;
        let mut i: usize = 0;
        while i < nodes.len()
            invariant
                i <= nodes@.len(),
                self.viewport == first.viewport,
                self.viewport_initialized,
                self.drag_origins == first.drag_origins,
                self.edge_start == first.edge_start,
                self.selected_edges == first.selected_edges,
                self.fit_requested == first.fit_requested,
                self.layout@ == placed(first.layout@, first.drag_origins@, nodes@, i as nat),
                self.pending_positions@ == without_nodes(
                    first.pending_positions@,
                    nodes@,
                    i as nat,
                ),
            decreases nodes@.len() - i,
        {
            let id: u64 = nodes[i].id.0;
            self.pending_positions.remove(&id);
            if !(self.drag_origins.contains_key(&id) && self.layout.contains_key(&id)) {
                self.layout.insert(id, nodes[i].pos);
            }
            i = i + 1;
        }
    }

    /// Takes over what the frame has done: the view that is seen now, and its
    /// scale where it has an extent. While the button is down, drags begin;
    /// when it is up they end, and the moves are returned.
    pub fn finish(
        &mut self,
        graph: &Graph,
        offset: [u32; 2],
        zoom: Option<u32>,
        primary_down: bool,
    ) -> (r: Vec<CompletedMove>)
        ensures
            final(self).viewport == (Viewport {
                offset,
                zoom: match zoom {
                    Some(zoom) => zoom,
                    None => old(self).viewport.zoom,
                },
            }),
            final(self).viewport_initialized == old(self).viewport_initialized,
            final(self).fit_requested == old(self).fit_requested,
            final(self).edge_start == old(self).edge_start,
            final(self).selected_edges == old(self).selected_edges,
            ({
                let nodes = graph.nodes@;
                let layout = of_nodes(old(self).layout@, nodes);
                let origins = of_nodes(old(self).drag_origins@, nodes);
                let pending = of_nodes(old(self).pending_positions@, nodes);
                let end = released(
                    Release { origins, pending, moves: Seq::empty() },
                    layout,
                    nodes,
                    nodes.len(),
                );
                &&& final(self).layout@ == layout
                &&& primary_down ==> {
                    &&& r@ == Seq::<CompletedMove>::empty()
                    &&& final(self).drag_origins@ == dragged_from(
                        origins,
                        layout,
                        nodes,
                        nodes.len(),
                    )
                    &&& final(self).pending_positions@ == pending
                }
                &&& !primary_down ==> {
                    &&& r@ == end.moves
                    &&& final(self).drag_origins@ == Map::<u64, [u32; 2]>::empty()
                    &&& final(self).pending_positions@ == end.pending
                }
            }),
    {
        self.viewport.offset = offset;
        if let Some(zoom) = zoom {
            self.viewport.zoom = zoom;
        }
        self.layout = keep_nodes(&self.layout, graph);
        self.drag_origins = keep_nodes(&self.drag_origins, graph);
        self.pending_positions = keep_nodes(&self.pending_positions, graph);
        if primary_down {
            self.begin_drags(graph);
            Vec::new()
        } else {
            self.end_drags(graph)
        }
    }

    fn begin_drags(&mut self, graph: &Graph)
        ensures
            final(self).drag_origins@ == dragged_from(
                old(self).drag_origins@,
                old(self).layout@,
                graph.nodes@,
                graph.nodes@.len(),
            ),
            final(self).viewport == old(self).viewport,
            final(self).viewport_initialized == old(self).viewport_initialized,
            final(self).fit_requested == old(self).fit_requested,
            final(self).edge_start == old(self).edge_start,
            final(self).selected_edges == old(self).selected_edges,
            final(self).layout == old(self).layout,
            final(self).pending_positions == old(self).pending_positions,
    {
        let ghost first = *self;
        let nodes = &graph.nodes;
        let mut i: usize = 0;
        while i < nodes.len()
            invariant
                i <= nodes@.len(),
                self.viewport == first.viewport,
                self.viewport_initialized == first.viewport_initialized,
                self.fit_requested == first.fit_requested,
                self.edge_start == first.edge_start,
                self.selected_edges == first.selected_edges,
                self.layout == first.layout,
                self.pending_positions == first.pending_positions,
                self.drag_origins@ == dragged_from(
                    first.drag_origins@,
                    first.layout@,
                    nodes@,
                    i as nat,
                ),
            decreases nodes@.len() - i,
        {
            let id: u64 = nodes[i].id.0;
            if let Some(place) = self.layout.get(&id) {
                if !same_point(place, &nodes[i].pos) && !self.drag_origins.contains_key(&id) {
                    self.drag_origins.insert(id, nodes[i].pos);
                }
            }
            i = i + 1;
        }
    }

    fn end_drags(&mut self, graph: &Graph) -> (r: Vec<CompletedMove>)
        ensures
            ({
                let end = released(
                    Release {
                        origins: old(self).drag_origins@,
                        pending: old(self).pending_positions@,
                        moves: Seq::empty(),
                    },
                    old(self).layout@,
                    graph.nodes@,
                    graph.nodes@.len(),
                );
                r@ == end.moves && final(self).pending_positions@ == end.pending
            }),
            final(self).drag_origins@ == Map::<u64, [u32; 2]>::empty(),
            final(self).viewport == old(self).viewport,
            final(self).viewport_initialized == old(self).viewport_initialized,
            final(self).fit_requested == old(self).fit_requested,
            final(self).edge_start == old(self).edge_start,
            final(self).selected_edges == old(self).selected_edges,
            final(self).layout == old(self).layout,
    {
        let ghost start = Release {
            origins: self.drag_origins@,
            pending: self.pending_positions@,
            moves: Seq::empty(),
        };
        let ghost first = *self;
        let nodes = &graph.nodes;
        let mut moves: Vec<CompletedMove> = Vec::new();
        let mut i: usize = 0;
        while i < nodes.len()
            invariant
                i <= nodes@.len(),
                self.viewport == first.viewport,
                self.viewport_initialized == first.viewport_initialized,
                self.fit_requested == first.fit_requested,
                self.edge_start == first.edge_start,
                self.selected_edges == first.selected_edges,
                self.layout == first.layout,
                released(start, first.layout@, nodes@, i as nat) == (Release {
                    origins: self.drag_origins@,
                    pending: self.pending_positions@,
                    moves: moves@,
                }),
            decreases nodes@.len() - i,
        {
            let id: u64 = nodes[i].id.0;
            if let Some(place) = self.layout.get(&id) {
                let to: [u32; 2] = *place;
                let from: [u32; 2] = match self.drag_origins.get(&id) {
                    Some(origin) => *origin,
                    None => nodes[i].pos,
                };
                self.drag_origins.remove(&id);
                let told = match self.pending_positions.get(&id) {
                    Some(pending) => same_point(pending, &to),
                    None => false,
                };
                if !same_point(&to, &from) && !told {
                    self.pending_positions.insert(id, to);
                    moves.push(CompletedMove { id: nodes[i].id, from, to });
                }
            }
            i = i + 1;
        }
        self.drag_origins = HashMap::new();
        moves
    }

    /// Starts over with a graph.
    pub fn reset(&mut self, graph: &Graph)
        ensures
            final(self).viewport == graph.viewport,
            final(self).viewport_initialized,
            final(self).layout@ == placed(
                Map::empty(),
                Map::empty(),
                graph.nodes@,
                graph.nodes@.len(),
            ),
            final(self).edge_start is None,
            final(self).selected_edges@.len() == 0,
            final(self).drag_origins@ == Map::<u64, [u32; 2]>::empty(),
            final(self).pending_positions@ == Map::<u64, [u32; 2]>::empty(),
            !final(self).fit_requested,
    {
        let mut layout: HashMap<u64, [u32; 2]> = HashMap::new();
        let nodes = &graph.nodes;
        let mut i: usize = 0;
        while i < nodes.len()
            invariant
                i <= nodes@.len(),
                layout@ == placed(Map::empty(), Map::empty(), nodes@, i as nat),
            decreases nodes@.len() - i,
        {
            layout.insert(nodes[i].id.0, nodes[i].pos);
            i = i + 1;
        }
        self.viewport = graph.viewport;
        self.viewport_initialized = true;
        self.layout = layout;
        self.edge_start = None;
        self.selected_edges = Vec::new();
        self.drag_origins = HashMap::new();
        self.pending_positions = HashMap::new();
        self.fit_requested = false;
    }
}

/// Whether a node stands where the graph has it, or where it has been told to
/// stand.
spec fn is_settled(pending: Map<u64, [u32; 2]>, layout: Map<u64, [u32; 2]>, node: Node) -> bool {
    let id = node.id.0;
    layout.contains_key(id) ==> equal_points(layout[id], node.pos) || pending.contains_key(id)
        && equal_points(pending[id], layout[id])
}

proof fn lemma_release_settles(
    start: Release,
    layout: Map<u64, [u32; 2]>,
    nodes: Seq<Node>,
    n: nat,
)
    requires
        n <= nodes.len(),
        forall|i: int|
            0 <= i < nodes.len() && layout.contains_key((#[trigger] nodes[i]).id.0)
                ==> equal_points(layout[nodes[i].id.0], layout[nodes[i].id.0]),
        forall|i: int|
            0 <= i < nodes.len() && start.origins.contains_key((#[trigger] nodes[i]).id.0)
                ==> start.origins[nodes[i].id.0] == nodes[i].pos,
    ensures
        forall|i: int|
            0 <= i < n ==> is_settled(
                released(start, layout, nodes, n).pending,
                layout,
                #[trigger] nodes[i],
            ),
        forall|i: int|
            0 <= i < nodes.len() && released(start, layout, nodes, n).origins.contains_key(
                (#[trigger] nodes[i]).id.0,
            ) ==> released(start, layout, nodes, n).origins[nodes[i].id.0] == nodes[i].pos,
    decreases n,
{
    if n > 0 {
        lemma_release_settles(start, layout, nodes, (n - 1) as nat);
        let rest = released(start, layout, nodes, (n - 1) as nat);
        let next = released(start, layout, nodes, n);
        assert forall|i: int| 0 <= i < n implies is_settled(
            next.pending,
            layout,
            #[trigger] nodes[i],
        ) by {
            if i < n - 1 {
                assert(is_settled(rest.pending, layout, nodes[i]));
            }
        }
    }
}

proof fn lemma_settled_release(
    start: Release,
    layout: Map<u64, [u32; 2]>,
    nodes: Seq<Node>,
    n: nat,
)
    requires
        n <= nodes.len(),
        start.origins == Map::<u64, [u32; 2]>::empty(),
        forall|i: int|
            0 <= i < nodes.len() ==> is_settled(start.pending, layout, #[trigger] nodes[i]),
    ensures
        released(start, layout, nodes, n) == start,
    decreases n,
{
    if n > 0 {
        lemma_settled_release(start, layout, nodes, (n - 1) as nat);
        assert(is_settled(start.pending, layout, nodes[n - 1]));
        assert(start.origins.remove(nodes[n - 1].id.0) =~= start.origins);
    }
}

/// A move is told once: releasing again, with the graph and the layout as they
/// were, tells nothing. The places are numbers, and drags have begun where the
/// graph has the nodes.
pub proof fn moves_are_told_once(
    origins: Map<u64, [u32; 2]>,
    pending: Map<u64, [u32; 2]>,
    layout: Map<u64, [u32; 2]>,
    nodes: Seq<Node>,
)
    requires
        forall|i: int|
            0 <= i < nodes.len() && layout.contains_key((#[trigger] nodes[i]).id.0)
                ==> equal_points(layout[nodes[i].id.0], layout[nodes[i].id.0]),
        forall|i: int|
            0 <= i < nodes.len() && origins.contains_key((#[trigger] nodes[i]).id.0)
                ==> origins[nodes[i].id.0] == nodes[i].pos,
    ensures
        ({
            let first = released(
                Release { origins, pending, moves: Seq::empty() },
                layout,
                nodes,
                nodes.len(),
            );
            released(
                Release { origins: Map::empty(), pending: first.pending, moves: Seq::empty() },
                layout,
                nodes,
                nodes.len(),
            ).moves == Seq::<CompletedMove>::empty()
        }),
{
    let start = Release { origins, pending, moves: Seq::empty() };
    let first = released(start, layout, nodes, nodes.len());
    lemma_release_settles(start, layout, nodes, nodes.len());
    lemma_settled_release(
        Release { origins: Map::empty(), pending: first.pending, moves: Seq::empty() },
        layout,
        nodes,
        nodes.len(),
    );
}

proof fn lemma_placed(
    layout: Map<u64, [u32; 2]>,
    dragged: Map<u64, [u32; 2]>,
    nodes: Seq<Node>,
    n: nat,
    i: int,
)
    requires
        0 <= i < n <= nodes.len(),
        !dragged.contains_key(nodes[i].id.0),
        forall|j: int| i < j < n ==> (#[trigger] nodes[j]).id != nodes[i].id,
    ensures
        placed(layout, dragged, nodes, n).contains_key(nodes[i].id.0),
        placed(layout, dragged, nodes, n)[nodes[i].id.0] == nodes[i].pos,
    decreases n,
{
    if i < n - 1 {
        lemma_placed(layout, dragged, nodes, (n - 1) as nat, i);
        assert(nodes[n - 1].id.0 != nodes[i].id.0) by {
            assert(nodes[n - 1].id != nodes[i].id);
        }
    }
}

/// A node that is not being dragged stands where the graph has it, so that an
/// undone move is seen at once.
pub proof fn idle_nodes_follow_the_graph(
    layout: Map<u64, [u32; 2]>,
    dragged: Map<u64, [u32; 2]>,
    nodes: Seq<Node>,
    i: int,
)
    requires
        0 <= i < nodes.len(),
        forall|j: int, k: int|
            0 <= j < k < nodes.len() ==> (#[trigger] nodes[j]).id != (#[trigger] nodes[k]).id,
        !dragged.contains_key(nodes[i].id.0),
    ensures
        placed(layout, dragged, nodes, nodes.len()).contains_key(nodes[i].id.0),
        placed(layout, dragged, nodes, nodes.len())[nodes[i].id.0] == nodes[i].pos,
{
    lemma_placed(layout, dragged, nodes, nodes.len(), i);
}

} // verus!
