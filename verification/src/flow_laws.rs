//! What holds of every edit, request and publication of a graph.

use crate::controller::{
    connect_commands, copy_commands, counts_upto, entry_index, enters, existing, inner_edges,
    live_window, mapped_id, merged_counts, messages_for, next_generation, output_nodes, pushed,
    previews_after, preview_step, progress_index, published_until, published_with, rebinds, rebound,
    reception_of, row_after, sample_time, selected_nodes, tails_of, targets_of, watermark_after,
    with_missing_ids, AppliedEdit, DataFlowController, Diagnostic, OutputTopic, PreviewCounts,
    PreviewProgress, PreviewStep, QueueStep, RequestView, Tail, UNDO_CAPACITY,
};
use crate::graph::{
    has_node, node_index, node_models, optional_text, CommandView, Edge, KindView, Node, NodeId,
    NodeModel,
};
use crate::snapshot::SourceId;
use vstd::prelude::*;

verus! {

/// Every edit, undone or redone step leaves a graph that is unsaved and is to be
/// evaluated, and a live publication is set up anew.
pub proof fn changed_graphs_are_evaluated<S>(
    before: DataFlowController<S>,
    after: DataFlowController<S>,
    edit: AppliedEdit,
)
    requires
        after.edited(before, edit) || after.undone(before, edit) || after.redone(before, edit),
    ensures
        after.graph == edit.graph,
        after.dirty,
        after.needs_eval,
        before.live_source is Some ==> after.live_needs_reset,
        before.live_needs_reset ==> after.live_needs_reset,
        before.live_source is None && !before.live_needs_reset ==> !after.live_needs_reset,
{
}

/// An edit gives up the steps that could be redone, and can itself be undone.
pub proof fn edits_begin_a_new_future<S>(
    before: DataFlowController<S>,
    after: DataFlowController<S>,
    edit: AppliedEdit,
)
    requires
        after.edited(before, edit),
    ensures
        after.redo@.len() == 0,
        after.undo@.len() > 0,
        after.undo@.last() == edit.inverse,
{
}

/// A full history loses its oldest step, and no history any other.
pub proof fn histories_lose_only_the_oldest<T>(stack: Seq<T>, item: T)
    requires
        stack.len() <= UNDO_CAPACITY,
    ensures
        pushed(stack, item).last() == item,
        stack.len() < UNDO_CAPACITY ==> pushed(stack, item).drop_last() == stack,
        stack.len() == UNDO_CAPACITY ==> pushed(stack, item).drop_last() == stack.skip(1),
{
    if stack.len() == UNDO_CAPACITY {
        assert(pushed(stack, item).drop_last() =~= stack.skip(1));
    } else {
        assert(pushed(stack, item).drop_last() =~= stack);
    }
}

proof fn lemma_with_missing_ids(ids: Seq<NodeId>, more: Seq<NodeId>, id: NodeId)
    ensures
        with_missing_ids(ids, more).contains(id) <==> ids.contains(id) || more.contains(id),
    decreases more.len(),
{
    if more.len() > 0 {
        let short = more.drop_last();
        let rest = with_missing_ids(ids, short);
        let all = with_missing_ids(ids, more);
        lemma_with_missing_ids(ids, short, id);
        assert(more[more.len() - 1] == more.last());
        if short.contains(id) {
            assert(more[short.index_of(id)] == id);
        }
        if more.contains(id) && !short.contains(id) {
            let i = more.index_of(id);
            if i < short.len() {
                assert(short[i] == id);
            }
        }
        if rest.contains(id) && all.len() > rest.len() {
            assert(all[rest.index_of(id)] == id);
        }
        if all.len() > rest.len() {
            assert(all[all.len() - 1] == more.last());
        }
    }
}

proof fn lemma_output_nodes(nodes: Seq<Node>, n: nat, id: NodeId)
    requires
        n <= nodes.len(),
    ensures
        output_nodes(nodes, n).contains(id) <==> exists|i: int|
            0 <= i < n && (#[trigger] nodes[i]).id == id && nodes[i].kind is Output,
    decreases n,
{
    if n > 0 {
        lemma_output_nodes(nodes, (n - 1) as nat, id);
        let rest = output_nodes(nodes, (n - 1) as nat);
        let all = output_nodes(nodes, n);
        if rest.contains(id) {
            assert(all[rest.index_of(id)] == id);
        }
        if nodes[n - 1].kind is Output {
            assert(all[all.len() - 1] == nodes[n - 1].id);
        }
        if all.contains(id) && !rest.contains(id) {
            assert(nodes[n - 1].id == id);
        }
    }
}

/// Exactly the output nodes and what is selected are evaluated.
pub proof fn outputs_and_selection_are_evaluated(
    nodes: Seq<Node>,
    selection: Seq<NodeId>,
    id: NodeId,
)
    ensures
        targets_of(nodes, selection).contains(id) <==> selection.contains(id) || exists|i: int|
            0 <= i < nodes.len() && (#[trigger] nodes[i]).id == id && nodes[i].kind is Output,
{
    lemma_output_nodes(nodes, nodes.len(), id);
    lemma_with_missing_ids(output_nodes(nodes, nodes.len()), selection, id);
}

/// What stays selected is what the graph still has.
pub proof fn selections_keep_what_is_there(
    selection: Seq<NodeId>,
    nodes: Seq<Node>,
    id: NodeId,
)
    ensures
        existing(selection, nodes).contains(id) <==> selection.contains(id) && exists|i: int|
            0 <= i < nodes.len() && (#[trigger] nodes[i]).id == id,
    decreases selection.len(),
{
    assert(has_node(nodes, id) == exists|i: int|
        0 <= i < nodes.len() && (#[trigger] nodes[i]).id == id);
    if selection.len() > 0 {
        let short = selection.drop_last();
        let rest = existing(short, nodes);
        let all = existing(selection, nodes);
        selections_keep_what_is_there(short, nodes, id);
        assert(selection[selection.len() - 1] == selection.last());
        if short.contains(id) {
            assert(selection[short.index_of(id)] == id);
        }
        if selection.contains(id) && !short.contains(id) {
            let i = selection.index_of(id);
            if i < short.len() {
                assert(short[i] == id);
            }
        }
        if rest.contains(id) {
            assert(all[rest.index_of(id)] == id);
        }
        if has_node(nodes, selection.last()) {
            assert(all[all.len() - 1] == selection.last());
        }
    }
}

/// The selected nodes are copied, each as it is, in the order of the graph.
pub proof fn selected_nodes_are_copied(nodes: Seq<Node>, selection: Seq<NodeId>, n: nat)
    requires
        n <= nodes.len(),
    ensures
        selected_nodes(nodes, selection, n) == node_models(nodes).take(n as int).filter(
            |node: NodeModel| selection.contains(node.id),
        ),
    decreases n,
{
    let test = |node: NodeModel| selection.contains(node.id);
    reveal(Seq::filter);
    let all = node_models(nodes);
    if n > 0 {
        selected_nodes_are_copied(nodes, selection, (n - 1) as nat);
        assert(all.take(n as int).drop_last() =~= all.take(n - 1));
        assert(all.take(n as int).last() == nodes[n - 1]@);
        assert(nodes[n - 1]@.id == nodes[n - 1].id);
    } else {
        assert(all.take(0) =~= Seq::<NodeModel>::empty());
    }
}

/// An edge is copied where both its ends are, and only there.
pub proof fn edges_between_copies_are_copied(
    edges: Seq<Edge>,
    nodes: Seq<NodeModel>,
    n: nat,
)
    requires
        n <= edges.len(),
    ensures
        inner_edges(edges, nodes, n) == edges.take(n as int).filter(
            |e: Edge|
                (exists|a: int| 0 <= a < nodes.len() && (#[trigger] nodes[a]).id == e.from) && (
                exists|b: int| 0 <= b < nodes.len() && (#[trigger] nodes[b]).id == e.to),
        ),
    decreases n,
{
    let test = |e: Edge|
        (exists|a: int| 0 <= a < nodes.len() && (#[trigger] nodes[a]).id == e.from) && (exists|
            b: int,
        |
            0 <= b < nodes.len() && (#[trigger] nodes[b]).id == e.to);
    reveal(Seq::filter);
    if n > 0 {
        edges_between_copies_are_copied(edges, nodes, (n - 1) as nat);
        assert(edges.take(n as int).drop_last() =~= edges.take(n - 1));
        assert(edges.take(n as int).last() == edges[n - 1]);
    } else {
        assert(edges.take(0) =~= Seq::<Edge>::empty());
    }
}

/// Each pasted node has the kind of its original, and its own id and place.
pub proof fn pasted_nodes_are_like_their_originals(
    nodes: Seq<NodeModel>,
    ids: Seq<NodeId>,
    positions: Seq<[u32; 2]>,
    n: nat,
)
    requires
        n <= nodes.len(),
        nodes.len() == ids.len(),
        nodes.len() == positions.len(),
    ensures
        copy_commands(nodes, ids, positions, n).len() == n,
        forall|i: int|
            0 <= i < n ==> (#[trigger] copy_commands(
                nodes,
                ids,
                positions,
                n,
            )[i] matches CommandView::AddNode { node } && node.id == ids[i] && node.pos
                == positions[i] && node.kind == nodes[i].kind),
    decreases n,
{
    if n > 0 {
        pasted_nodes_are_like_their_originals(nodes, ids, positions, (n - 1) as nat);
    }
}

proof fn lemma_mapped(nodes: Seq<NodeModel>, ids: Seq<NodeId>, a: int, n: nat)
    requires
        0 <= a < n <= nodes.len(),
        nodes.len() == ids.len(),
        forall|i: int, j: int|
            0 <= i < j < nodes.len() ==> (#[trigger] nodes[i]).id != (#[trigger] nodes[j]).id,
    ensures
        mapped_id(nodes, ids, nodes[a].id, n) == Some(ids[a]),
    decreases n,
{
    if a < n - 1 {
        lemma_mapped(nodes, ids, a, (n - 1) as nat);
        assert(nodes[a].id != nodes[n - 1].id);
    }
}

/// An edge between two originals is pasted between their copies, at the same
/// ports.
pub proof fn pasted_edges_join_the_copies(
    nodes: Seq<NodeModel>,
    ids: Seq<NodeId>,
    edges: Seq<Edge>,
    n: nat,
    i: int,
    a: int,
    b: int,
)
    requires
        0 <= i < n <= edges.len(),
        nodes.len() == ids.len(),
        forall|k: int, m: int|
            0 <= k < m < nodes.len() ==> (#[trigger] nodes[k]).id != (#[trigger] nodes[m]).id,
        0 <= a < nodes.len(),
        0 <= b < nodes.len(),
        edges[i].from == nodes[a].id,
        edges[i].to == nodes[b].id,
    ensures
        connect_commands(nodes, ids, edges, n).contains(
            CommandView::Connect {
                edge: Edge {
                    from: ids[a],
                    from_port: edges[i].from_port,
                    to: ids[b],
                    to_port: edges[i].to_port,
                },
            },
        ),
    decreases n,
{
    let wanted = CommandView::Connect {
        edge: Edge {
            from: ids[a],
            from_port: edges[i].from_port,
            to: ids[b],
            to_port: edges[i].to_port,
        },
    };
    let rest = connect_commands(nodes, ids, edges, (n - 1) as nat);
    let all = connect_commands(nodes, ids, edges, n);
    if i == n - 1 {
        lemma_mapped(nodes, ids, a, nodes.len());
        lemma_mapped(nodes, ids, b, nodes.len());
        assert(all[all.len() - 1] == wanted);
    } else {
        pasted_edges_join_the_copies(nodes, ids, edges, (n - 1) as nat, i, a, b);
        assert(all[rest.index_of(wanted)] == wanted);
    }
}

/// The messages about a node are those of its diagnostics, in their order.
pub proof fn messages_are_those_of_the_node(diagnostics: Seq<Diagnostic>, node: NodeId)
    ensures
        messages_for(diagnostics, node) == diagnostics.filter(
            |d: Diagnostic| d.node == node,
        ).map_values(|d: Diagnostic| d.message@),
    decreases diagnostics.len(),
{
    let test = |d: Diagnostic| d.node == node;
    let text = |d: Diagnostic| d.message@;
    reveal(Seq::filter);
    if diagnostics.len() > 0 {
        let short = diagnostics.drop_last();
        messages_are_those_of_the_node(short, node);
        let rest = short.filter(test);
        let last = diagnostics.last();
        if last.node == node {
            assert(rest.push(last).map_values(text) =~= rest.map_values(text).push(text(last)));
        }
    }
    assert(messages_for(diagnostics, node) =~= diagnostics.filter(test).map_values(text));
}

/// A live request reaches back behind the watermark by the overlap, and forward
/// to the end of the data; without a watermark it covers everything.
pub proof fn live_windows_reach_back_by_the_overlap(
    mark: i64,
    end: i64,
    overlap_us: i64,
    any: Option<i64>,
)
    requires
        i64::MIN <= mark - overlap_us <= i64::MAX,
    ensures
        live_window(Some(mark), Some(end), overlap_us) matches Some((from, to)) && from + overlap_us
            == mark && to == end,
        live_window(None, any, overlap_us) is None,
        live_window(any, None, overlap_us) is None,
{
}

/// Only the answer to the latest request counts, and it is live where the request
/// was; a live one moves the watermark to the end of what it saw.
pub proof fn late_answers_are_dropped(
    current: u64,
    generation: u64,
    live: bool,
    mark: Option<i64>,
    seen: Option<i64>,
)
    ensures
        ({
            let answer = reception_of(current, generation, live);
            &&& answer is Stale <==> generation != current
            &&& answer is Live <==> generation == current && live
            &&& answer is Settled <==> generation == current && !live
            &&& watermark_after(mark, answer, seen) == if generation == current && live
                && seen is Some {
                seen
            } else {
                mark
            }
        }),
{
}

/// A request is launched, or waits for the one that is running to be given up.
pub proof fn requests_are_not_lost<S>(
    before: DataFlowController<S>,
    after: DataFlowController<S>,
    step: QueueStep<S>,
    request: RequestView<S>,
)
    requires
        after.queued(before, step, request),
    ensures
        after.in_flight,
        match step {
            QueueStep::Launch(launched) => !before.in_flight && launched@ == request,
            QueueStep::CancelRunning => before.in_flight && (after.pending matches Some(waiting)
                && waiting@ == request),
        },
{
}

/// A request is told from the one before it, and from none.
pub proof fn generations_differ(latest: u64)
    ensures
        next_generation(latest) != latest,
        next_generation(latest) != 0,
        latest < u64::MAX ==> next_generation(latest) == latest + 1,
{
}

proof fn lemma_rows(times: Seq<i64>, after: i64, i: int)
    requires
        0 <= i <= times.len(),
    ensures
        i <= row_after(times, after, i) <= times.len(),
        forall|k: int| i <= k < row_after(times, after, i) ==> #[trigger] times[k] <= after,
        row_after(times, after, i) < times.len() ==> times[row_after(times, after, i)] > after,
    decreases times.len() - i,
{
    if i < times.len() && times[i] <= after {
        lemma_rows(times, after, i + 1);
    }
}

proof fn lemma_published_before(
    published: Seq<(String, i64)>,
    topics: Seq<OutputTopic>,
    n: nat,
    name: Seq<char>,
)
    requires
        n <= topics.len(),
        forall|k: int| 0 <= k < n ==> (#[trigger] topics[k]).name@ != name,
    ensures
        published_with(published, topics, n, name) == published_until(published, name),
    decreases n,
{
    if n > 0 {
        lemma_published_before(published, topics, (n - 1) as nat, name);
        assert(topics[n - 1].name@ != name);
    }
}

/// What is appended of a topic begins with the first row that is later than what
/// was published of it before. Nothing is appended of a topic without such a
/// row.
pub proof fn only_new_rows_are_appended(
    published: Seq<(String, i64)>,
    topics: Seq<OutputTopic>,
    n: nat,
    t: usize,
    from: usize,
)
    requires
        n <= topics.len() <= usize::MAX,
        forall|k: int| 0 <= k < topics.len() ==> (#[trigger] topics[k]).times@.len() <= usize::MAX,
        forall|a: int, b: int|
            0 <= a < b < topics.len() ==> (#[trigger] topics[a]).name@ != (
            #[trigger] topics[b]).name@,
    ensures
        tails_of(published, topics, n).contains(Tail { topic: t, from }) <==> {
            let times = topics[t as int].times@;
            let until = published_until(published, topics[t as int].name@);
            &&& t < n
            &&& from < times.len()
            &&& times[from as int] > until
            &&& forall|k: int| 0 <= k < from ==> #[trigger] times[k] <= until
        },
    decreases n,
{
    if n > 0 {
        only_new_rows_are_appended(published, topics, (n - 1) as nat, t, from);
        let rest = tails_of(published, topics, (n - 1) as nat);
        let all = tails_of(published, topics, n);
        let topic = topics[n - 1];
        assert forall|k: int| 0 <= k < n - 1 implies (#[trigger] topics[k]).name@
            != topic.name@ by {}
        lemma_published_before(published, topics, (n - 1) as nat, topic.name@);
        let until = published_until(published, topic.name@);
        lemma_rows(topic.times@, until, 0);
        let row = row_after(topic.times@, until, 0);
        let wanted = Tail { topic: t, from };
        if rest.contains(wanted) {
            assert(all[rest.index_of(wanted)] == wanted);
        }
        if row < topic.times@.len() {
            assert(all[all.len() - 1] == (Tail {
                topic: (n - 1) as usize,
                from: row as usize,
            }));
        }
        if t == n - 1 {
            assert(!rest.contains(wanted));
        }
    }
}

proof fn lemma_until(published: Seq<(String, i64)>, name: Seq<char>, i: int)
    requires
        0 <= i < published.len(),
        published[i].0@ == name,
        forall|k: int| i < k < published.len() ==> (#[trigger] published[k]).0@ != name,
    ensures
        published_until(published, name) == published[i].1,
    decreases published.len(),
{
    if i < published.len() - 1 {
        let short = published.drop_last();
        assert(published[published.len() - 1].0@ != name);
        assert forall|k: int| i < k < short.len() implies (#[trigger] short[k]).0@ != name by {
            assert(short[k] == published[k]);
        }
        lemma_until(short, name, i);
    }
}

/// How far a topic has been published is what was noted last under its name.
pub proof fn progress_is_kept_by_name(published: Seq<(String, i64)>, name: Seq<char>, i: int)
    requires
        0 <= i < published.len(),
        published[i].0@ == name,
        forall|k: int| i < k < published.len() ==> (#[trigger] published[k]).0@ != name,
    ensures
        published_until(published, name) == published[i].1,
{
    lemma_until(published, name, i);
}

proof fn lemma_progress_at(
    previews: Seq<PreviewProgress>,
    node: NodeId,
    port: u32,
    i: int,
    from: int,
)
    requires
        0 <= from <= i < previews.len(),
        previews[i].node == node,
        previews[i].port == port,
        forall|k: int|
            from <= k < i ==> !((#[trigger] previews[k]).node == node && previews[k].port == port),
    ensures
        progress_index(previews, node, port, from) == Some(i),
    decreases i - from,
{
    if from < i {
        lemma_progress_at(previews, node, port, i, from + 1);
    }
}

/// Statistics of an output enter its preview unless they end no later than what
/// is in it; then the preview ends where they do.
pub proof fn previews_take_what_is_later(
    previews: Seq<PreviewProgress>,
    node: NodeId,
    port: u32,
    i: int,
    previous: i64,
    end: i64,
)
    requires
        0 <= i < previews.len(),
        previews[i].node == node,
        previews[i].port == port,
        forall|k: int|
            0 <= k < i ==> !((#[trigger] previews[k]).node == node && previews[k].port == port),
        previews[i].end_t == Some(previous),
    ensures
        preview_step(previews, node, port, Some(end)) == if end > previous {
            PreviewStep::Merge
        } else {
            PreviewStep::Skip
        },
        previews_after(previews, node, port, Some(end))[i].end_t == Some(
            if end > previous {
                end
            } else {
                previous
            },
        ),
        forall|k: int|
            0 <= k < previews.len() && k != i ==> #[trigger] previews_after(
                previews,
                node,
                port,
                Some(end),
            )[k] == previews[k],
        previews_after(previews, node, port, Some(end)).len() == previews.len(),
{
    lemma_progress_at(previews, node, port, i, 0);
}

/// Two stretches together have the samples of both.
pub proof fn stretches_add_up(a: PreviewCounts, b: PreviewCounts)
    requires
        a.count + b.count <= u64::MAX,
        a.nan_count + b.nan_count <= u64::MAX,
    ensures
        merged_counts(a, b).count == a.count + b.count,
        merged_counts(a, b).nan_count == a.nan_count + b.nan_count,
        b.t0_us != 0 || b.t1_us != 0 ==> merged_counts(a, b).t1_us == b.t1_us,
        a.count > 0 ==> merged_counts(a, b).t0_us == a.t0_us,
{
}

/// How many of the first `n` samples are later than `from` and are numbers, or
/// are none.
pub open spec fn samples_behind(
    times: Seq<i64>,
    missing: Seq<bool>,
    from: Option<i64>,
    numbers: bool,
    n: nat,
) -> nat
    decreases n,
{
    if n == 0 {
        0
    } else {
        samples_behind(times, missing, from, numbers, (n - 1) as nat) + if missing[n - 1]
            != numbers && (from matches Some(from) ==> from < sample_time(times, n - 1)) {
            1nat
        } else {
            0nat
        }
    }
}

/// A preview counts each later sample once: the numbers, and apart from them
/// those that are none. It ends at the last of them.
pub proof fn previews_count_later_samples(
    times: Seq<i64>,
    missing: Seq<bool>,
    from: Option<i64>,
    n: nat,
)
    requires
        n <= missing.len(),
        n <= u64::MAX,
    ensures
        ({
            let counts = counts_upto(times, missing, from, n).0;
            &&& counts.count == samples_behind(times, missing, from, true, n)
            &&& counts.nan_count == samples_behind(times, missing, from, false, n)
            &&& samples_behind(times, missing, from, true, n) <= n
            &&& samples_behind(times, missing, from, false, n) <= n
            &&& n > 0 && (from matches Some(from) ==> from < sample_time(times, n - 1))
                ==> counts.t1_us == sample_time(times, n - 1)
        }),
    decreases n,
{
    if n > 0 {
        previews_count_later_samples(times, missing, from, (n - 1) as nat);
        assert(enters(sample_time(times, n - 1), from) == (from matches Some(f) ==> f
            < sample_time(times, n - 1)));
    }
}

proof fn lemma_node_at(nodes: Seq<Node>, i: int, from: int)
    requires
        0 <= from <= i < nodes.len(),
        forall|k: int| from <= k < i ==> (#[trigger] nodes[k]).id != nodes[i].id,
    ensures
        node_index(nodes, nodes[i].id, from) == Some(i),
    decreases i - from,
{
    if from < i {
        lemma_node_at(nodes, i, from + 1);
    }
}

/// Binding a data field to a source changes that source alone, and anything at
/// all only where it had another.
pub proof fn rebinding_changes_the_source_alone(
    nodes: Seq<Node>,
    i: int,
    source: Option<String>,
)
    requires
        0 <= i < nodes.len(),
        forall|k: int| 0 <= k < i ==> (#[trigger] nodes[k]).id != nodes[i].id,
    ensures
        rebinds(nodes, nodes[i].id, source) <==> (nodes[i]@.kind matches KindView::DataField(
            selector,
        ) && selector.source != optional_text(source)),
        rebound(nodes[i]@, source).id == nodes[i]@.id,
        rebound(nodes[i]@, source).pos == nodes[i]@.pos,
        nodes[i]@.kind matches KindView::DataField(selector) ==> (rebound(
            nodes[i]@,
            source,
        ).kind matches KindView::DataField(now) && now.source == optional_text(source)
            && now.topic == selector.topic && now.instance == selector.instance && now.field
            == selector.field),
        !(nodes[i]@.kind is DataField) ==> rebound(nodes[i]@, source) == nodes[i]@,
{
    lemma_node_at(nodes, i, 0);
}

proof fn lemma_entry_at(entries: Seq<(String, SourceId)>, i: int, from: int)
    requires
        0 <= from <= i < entries.len(),
        forall|k: int| from <= k < i ==> (#[trigger] entries[k]).0@ != entries[i].0@,
    ensures
        entry_index(entries, entries[i].0@, from) == Some(i),
    decreases i - from,
{
    if from < i {
        lemma_entry_at(entries, i, from + 1);
    }
}

/// A graph that was published before is found by its name.
pub proof fn publications_are_found_by_name(entries: Seq<(String, SourceId)>, i: int)
    requires
        0 <= i < entries.len(),
        forall|k: int| 0 <= k < i ==> (#[trigger] entries[k]).0@ != entries[i].0@,
    ensures
        entry_index(entries, entries[i].0@, 0) == Some(i),
{
    lemma_entry_at(entries, i, 0);
}

} // verus!
