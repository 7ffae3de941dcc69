//! What holds of edits of a graph together with undoing and redoing them, and of
//! what a paste adds. How a command changes a graph is decided by the evaluator
//! of commands; the laws are stated over what it gives.

use crate::controller::{
    connect_commands, copy_commands, existing, has_model, history_is_bounded, inner_edges,
    mapped_id, AppliedEdit, DataFlowController,
};
use crate::graph::{
    has_node, node_models, CommandView, Edge, Graph, GraphCommand, Node, NodeId, NodeModel,
};
use vstd::prelude::*;

verus! {

/// Whether two graphs have the same nodes and edges.
pub open spec fn same_shape(a: Graph, b: Graph) -> bool {
    node_models(a.nodes@) == node_models(b.nodes@) && a.edges@ == b.edges@
}

/// The evaluator undoes an edit of a graph with its inverse, and redoes it with
/// the inverse of that.
pub open spec fn is_reversible(
    evaluator: spec_fn(Graph, GraphCommand) -> Option<AppliedEdit>,
    graph: Graph,
    edit: AppliedEdit,
) -> bool {
    &&& evaluator(edit.graph, edit.inverse) matches Some(back) && same_shape(back.graph, graph) && {
        evaluator(back.graph, back.inverse) matches Some(again) && same_shape(
            again.graph,
            edit.graph,
        )
    }
}

proof fn lemma_existing_is_there(selection: Seq<NodeId>, nodes: Seq<Node>, i: int)
    requires
        0 <= i < existing(selection, nodes).len(),
    ensures
        has_node(nodes, existing(selection, nodes)[i]),
    decreases selection.len(),
{
    if selection.len() > 0 {
        let rest = existing(selection.drop_last(), nodes);
        if i < rest.len() {
            lemma_existing_is_there(selection.drop_last(), nodes, i);
        }
    }
}

/// An edit that is undone gives the former nodes and edges back, and redoing it
/// those of the edit. What is undone can be redone and the other way round, and
/// after undoing every selected node is there. `edited` is a controller after
/// an edit of `before`; `popped` is it without the command that undoes it, and
/// so on.
pub proof fn edits_are_undone_and_redone<S>(
    evaluator: spec_fn(Graph, GraphCommand) -> Option<AppliedEdit>,
    edit: AppliedEdit,
    before: DataFlowController<S>,
    edited: DataFlowController<S>,
    popped: DataFlowController<S>,
    undone: DataFlowController<S>,
    popped_again: DataFlowController<S>,
    redone: DataFlowController<S>,
)
    requires
        before.well_formed(),
        is_reversible(evaluator, before.graph, edit),
        edited.edited(before, edit),
        popped.graph == edited.graph,
        popped.undo@ == edited.undo@.drop_last(),
        popped.redo == edited.redo,
        evaluator(popped.graph, edited.undo@.last()) matches Some(back) && undone.undone(
            popped,
            back,
        ),
        popped_again.graph == undone.graph,
        popped_again.undo == undone.undo,
        popped_again.redo@ == undone.redo@.drop_last(),
        evaluator(popped_again.graph, undone.redo@.last()) matches Some(again) && redone.redone(
            popped_again,
            again,
        ),
    ensures
        edited.undo@.len() > 0,
        same_shape(undone.graph, before.graph),
        undone.redo@.len() > 0,
        undone.dirty,
        forall|i: int|
            0 <= i < undone.selection@.len() ==> has_node(
                undone.graph.nodes@,
                #[trigger] undone.selection@[i],
            ),
        same_shape(redone.graph, edited.graph),
        redone.undo@.len() > 0,
{
    history_is_bounded(before.undo@, edit.inverse);
    assert(edited.undo@.last() == edit.inverse);
    let back = evaluator(popped.graph, edited.undo@.last()).unwrap();
    history_is_bounded(popped.redo@, back.inverse);
    assert(undone.redo@.last() == back.inverse);
    let again = evaluator(popped_again.graph, undone.redo@.last()).unwrap();
    assert(redone.undo@.last() == again.inverse);
    assert forall|i: int| 0 <= i < undone.selection@.len() implies has_node(
        undone.graph.nodes@,
        #[trigger] undone.selection@[i],
    ) by {
        lemma_existing_is_there(popped.selection@, undone.graph.nodes@, i);
    }
}

/// The nodes that commands add.
pub open spec fn added_nodes(commands: Seq<CommandView>) -> Seq<NodeModel>
    decreases commands.len(),
{
    if commands.len() == 0 {
        Seq::empty()
    } else {
        let rest = added_nodes(commands.drop_last());
        match commands.last() {
            CommandView::AddNode { node } => rest.push(node),
            _ => rest,
        }
    }
}

/// The edges that commands add.
pub open spec fn added_edges(commands: Seq<CommandView>) -> Seq<Edge>
    decreases commands.len(),
{
    if commands.len() == 0 {
        Seq::empty()
    } else {
        let rest = added_edges(commands.drop_last());
        match commands.last() {
            CommandView::Connect { edge } => rest.push(edge),
            _ => rest,
        }
    }
}

/// Whether commands do nothing but add nodes and edges.
pub open spec fn only_adds(commands: Seq<CommandView>) -> bool {
    forall|i: int|
        0 <= i < commands.len() ==> (#[trigger] commands[i]) is AddNode || commands[i] is Connect
}

/// A graph that has gained what commands add, and is else unchanged.
pub open spec fn gains(before: Graph, after: Graph, commands: Seq<CommandView>) -> bool {
    &&& node_models(after.nodes@) == node_models(before.nodes@) + added_nodes(commands)
    &&& after.edges@ == before.edges@ + added_edges(commands)
}

/// The copies of some nodes.
pub open spec fn copies(
    nodes: Seq<NodeModel>,
    ids: Seq<NodeId>,
    positions: Seq<[u32; 2]>,
) -> Seq<NodeModel> {
    Seq::new(
        nodes.len(),
        |i: int| NodeModel { id: ids[i], pos: positions[i], kind: nodes[i].kind },
    )
}

/// The commands of a paste.
pub open spec fn paste_commands(
    nodes: Seq<NodeModel>,
    edges: Seq<Edge>,
    ids: Seq<NodeId>,
    positions: Seq<[u32; 2]>,
) -> Seq<CommandView> {
    copy_commands(nodes, ids, positions, nodes.len()) + connect_commands(
        nodes,
        ids,
        edges,
        edges.len(),
    )
}

proof fn lemma_added_concat(a: Seq<CommandView>, b: Seq<CommandView>)
    ensures
        added_nodes(a + b) == added_nodes(a) + added_nodes(b),
        added_edges(a + b) == added_edges(a) + added_edges(b),
    decreases b.len(),
{
    if b.len() == 0 {
        assert(a + b =~= a);
        assert(added_nodes(a) + added_nodes(b) =~= added_nodes(a));
        assert(added_edges(a) + added_edges(b) =~= added_edges(a));
    } else {
        assert((a + b).drop_last() =~= a + b.drop_last());
        assert((a + b).last() == b.last());
        lemma_added_concat(a, b.drop_last());
        match b.last() {
            CommandView::AddNode { node } => {
                assert(added_nodes(a) + added_nodes(b.drop_last()).push(node) =~= (added_nodes(a)
                    + added_nodes(b.drop_last())).push(node));
            },
            CommandView::Connect { edge } => {
                assert(added_edges(a) + added_edges(b.drop_last()).push(edge) =~= (added_edges(a)
                    + added_edges(b.drop_last())).push(edge));
            },
            _ => {},
        }
    }
}

proof fn lemma_copies(
    nodes: Seq<NodeModel>,
    ids: Seq<NodeId>,
    positions: Seq<[u32; 2]>,
    n: nat,
)
    requires
        n <= nodes.len(),
    ensures
        only_adds(copy_commands(nodes, ids, positions, n)),
        added_nodes(copy_commands(nodes, ids, positions, n)) == copies(nodes, ids, positions).take(
            n as int,
        ),
        added_edges(copy_commands(nodes, ids, positions, n)).len() == 0,
    decreases n,
{
    let all = copies(nodes, ids, positions);
    if n == 0 {
        assert(all.take(0) =~= Seq::empty());
    } else {
        lemma_copies(nodes, ids, positions, (n - 1) as nat);
        let rest = copy_commands(nodes, ids, positions, (n - 1) as nat);
        assert(copy_commands(nodes, ids, positions, n).drop_last() =~= rest);
        assert(all.take(n as int) =~= all.take(n - 1).push(all[n - 1]));
    }
}

proof fn lemma_mapped(nodes: Seq<NodeModel>, ids: Seq<NodeId>, k: int, n: nat)
    requires
        0 <= k < n <= nodes.len(),
        forall|a: int, b: int|
            0 <= a < b < nodes.len() ==> (#[trigger] nodes[a]).id != (#[trigger] nodes[b]).id,
    ensures
        mapped_id(nodes, ids, nodes[k].id, n) == Some(ids[k]),
    decreases n,
{
    if k < n - 1 {
        assert(nodes[k].id != nodes[n - 1].id);
        lemma_mapped(nodes, ids, k, (n - 1) as nat);
    }
}

/// Whether `copy` connects the copies of what `edge` connects.
pub open spec fn is_copy_of(
    nodes: Seq<NodeModel>,
    ids: Seq<NodeId>,
    edge: Edge,
    copy: Edge,
) -> bool {
    &&& copy.from_port == edge.from_port
    &&& copy.to_port == edge.to_port
    &&& exists|k: int|
        0 <= k < nodes.len() && (#[trigger] nodes[k]).id == edge.from && ids[k] == copy.from
    &&& exists|k: int|
        0 <= k < nodes.len() && (#[trigger] nodes[k]).id == edge.to && ids[k] == copy.to
}

proof fn lemma_connects(nodes: Seq<NodeModel>, ids: Seq<NodeId>, edges: Seq<Edge>, n: nat)
    requires
        n <= edges.len(),
        forall|a: int, b: int|
            0 <= a < b < nodes.len() ==> (#[trigger] nodes[a]).id != (#[trigger] nodes[b]).id,
        forall|j: int|
            0 <= j < edges.len() ==> has_model(nodes, (#[trigger] edges[j]).from) && has_model(
                nodes,
                edges[j].to,
            ),
    ensures
        ({
            let commands = connect_commands(nodes, ids, edges, n);
            &&& only_adds(commands)
            &&& added_nodes(commands).len() == 0
            &&& added_edges(commands).len() == n
            &&& forall|j: int|
                0 <= j < n ==> is_copy_of(
                    nodes,
                    ids,
                    edges[j],
                    #[trigger] added_edges(commands)[j],
                )
        }),
    decreases n,
{
    if n > 0 {
        lemma_connects(nodes, ids, edges, (n - 1) as nat);
        let rest = connect_commands(nodes, ids, edges, (n - 1) as nat);
        let commands = connect_commands(nodes, ids, edges, n);
        let e = edges[n - 1];
        assert(has_model(nodes, e.from) && has_model(nodes, e.to));
        let f = choose|f: int| 0 <= f < nodes.len() && (#[trigger] nodes[f]).id == e.from;
        let t = choose|t: int| 0 <= t < nodes.len() && (#[trigger] nodes[t]).id == e.to;
        lemma_mapped(nodes, ids, f, nodes.len());
        lemma_mapped(nodes, ids, t, nodes.len());
        assert(commands.drop_last() =~= rest);
        let copy = Edge { from: ids[f], from_port: e.from_port, to: ids[t], to_port: e.to_port };
        assert(commands.last() == CommandView::Connect { edge: copy });
        assert(is_copy_of(nodes, ids, e, copy));
        assert forall|j: int| 0 <= j < n implies is_copy_of(
            nodes,
            ids,
            edges[j],
            #[trigger] added_edges(commands)[j],
        ) by {
            if j < n - 1 {
                assert(added_edges(commands)[j] == added_edges(rest)[j]);
            }
        }
    }
}

/// A copied edge has both of its ends among the copied nodes.
pub proof fn copied_edges_are_inner(edges: Seq<Edge>, nodes: Seq<NodeModel>, n: nat, j: int)
    requires
        n <= edges.len(),
        0 <= j < inner_edges(edges, nodes, n).len(),
    ensures
        has_model(nodes, inner_edges(edges, nodes, n)[j].from),
        has_model(nodes, inner_edges(edges, nodes, n)[j].to),
    decreases n,
{
    if n > 0 {
        let rest = inner_edges(edges, nodes, (n - 1) as nat);
        if j < rest.len() {
            copied_edges_are_inner(edges, nodes, (n - 1) as nat, j);
        }
    }
}

/// A paste adds one node of the same kind for each copied one, under its new id
/// and at its new place, and each copied edge once, between the copies; what was
/// in the graph stays.
pub proof fn pastes_add_copies(
    before: Graph,
    after: Graph,
    nodes: Seq<NodeModel>,
    edges: Seq<Edge>,
    ids: Seq<NodeId>,
    positions: Seq<[u32; 2]>,
)
    requires
        forall|a: int, b: int|
            0 <= a < b < nodes.len() ==> (#[trigger] nodes[a]).id != (#[trigger] nodes[b]).id,
        forall|j: int|
            0 <= j < edges.len() ==> has_model(nodes, (#[trigger] edges[j]).from) && has_model(
                nodes,
                edges[j].to,
            ),
        gains(before, after, paste_commands(nodes, edges, ids, positions)),
    ensures
        only_adds(paste_commands(nodes, edges, ids, positions)),
        node_models(after.nodes@) == node_models(before.nodes@) + copies(nodes, ids, positions),
        after.edges@.len() == before.edges@.len() + edges.len(),
        forall|j: int| 0 <= j < before.edges@.len() ==> #[trigger] after.edges@[j] == before.edges@[j],
        forall|j: int|
            0 <= j < edges.len() ==> is_copy_of(
                nodes,
                ids,
                #[trigger] edges[j],
                after.edges@[before.edges@.len() + j],
            ),
{
    let a = copy_commands(nodes, ids, positions, nodes.len());
    let b = connect_commands(nodes, ids, edges, edges.len());
    lemma_copies(nodes, ids, positions, nodes.len());
    lemma_connects(nodes, ids, edges, edges.len());
    lemma_added_concat(a, b);
    let all = copies(nodes, ids, positions);
    assert(all.take(nodes.len() as int) =~= all);
    assert(added_nodes(a) + added_nodes(b) =~= all);
    assert(added_edges(a) + added_edges(b) =~= added_edges(b));
    assert forall|i: int| 0 <= i < (a + b).len() implies (#[trigger] (a + b)[i]) is AddNode || (a
        + b)[i] is Connect by {
        if i < a.len() {
            assert((a + b)[i] == a[i]);
        } else {
            assert((a + b)[i] == b[i - a.len()]);
        }
    }
    assert forall|j: int| 0 <= j < edges.len() implies is_copy_of(
        nodes,
        ids,
        #[trigger] edges[j],
        after.edges@[before.edges@.len() + j],
    ) by {
        assert(after.edges@[before.edges@.len() + j] == added_edges(b)[j]);
    }
}

} // verus!
