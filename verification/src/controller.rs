//! The controller of one data-flow graph: selection and history, requests to
//! the evaluator, and what is published.

use crate::graph::{
    command_view, command_views, has_node, lemma_command_push, node_index, node_models, CommandView,
    Edge, Graph, GraphCommand, KindView, Node, NodeId, NodeKind, NodeModel,
};
use crate::snapshot::SourceId;
use crate::text::same_text;
use vstd::prelude::*;

verus! {

/// Number of steps that can be undone.
pub const UNDO_CAPACITY: usize = 64;

/// A stack with one more entry; a full one gives up its oldest.
pub open spec fn pushed<T>(stack: Seq<T>, item: T) -> Seq<T> {
    if stack.len() == UNDO_CAPACITY {
        stack.remove(0).push(item)
    } else {
        stack.push(item)
    }
}

/// Pushes onto a stack that holds a bounded number of entries.
pub fn push_bounded<T>(stack: &mut Vec<T>, item: T)
    ensures
        final(stack)@ == pushed(old(stack)@, item),
{
    if stack.len() == UNDO_CAPACITY {
        stack.remove(0);
    }
    stack.push(item);
}

/// A bounded stack stays bounded, and its latest entry is the one pushed.
pub proof fn history_is_bounded<T>(stack: Seq<T>, item: T)
    requires
        stack.len() <= UNDO_CAPACITY,
    ensures
        pushed(stack, item).len() <= UNDO_CAPACITY,
        pushed(stack, item).last() == item,
{
}

/// The outcome of an edit: the new graph, and the edit that takes it back.
pub struct AppliedEdit {
    pub graph: Graph,
    pub inverse: GraphCommand,
}

/// A message about a node.
pub struct Diagnostic {
    pub node: NodeId,
    pub message: String,
}

/// A request to the evaluator. `S` is a handle to the graph and the state of
/// the store on which it works.
pub struct EvalRequest<S> {
    pub generation: u64,
    pub targets: Vec<NodeId>,
    pub input: S,
    pub publish: bool,
    pub window: Option<(i64, i64)>,
    pub live: bool,
    /// Only samples behind this time enter the previews.
    pub preview_from_t: Option<i64>,
    pub snapshot_max_t: Option<i64>,
}

#[verifier::ext_equal]
pub ghost struct RequestView<S> {
    pub generation: u64,
    pub targets: Seq<NodeId>,
    pub input: S,
    pub publish: bool,
    pub window: Option<(i64, i64)>,
    pub live: bool,
    pub preview_from_t: Option<i64>,
    pub snapshot_max_t: Option<i64>,
}

impl<S> View for EvalRequest<S> {
    type V = RequestView<S>;

    open spec fn view(&self) -> RequestView<S> {
        RequestView {
            generation: self.generation,
            targets: self.targets@,
            input: self.input,
            publish: self.publish,
            window: self.window,
            live: self.live,
            preview_from_t: self.preview_from_t,
            snapshot_max_t: self.snapshot_max_t,
        }
    }
}

/// What a request leads to.
pub enum QueueStep<S> {
    /// The evaluator is free: it takes the request.
    Launch(EvalRequest<S>),
    /// The evaluator is busy: it is told to stop, and the request waits.
    CancelRunning,
}

/// The progress of one output into the running preview.
#[derive(Clone, Copy, Debug, PartialEq, Eq, Structural)]
pub struct PreviewProgress {
    pub node: NodeId,
    pub port: u32,
    /// The last time that has entered, where one is known.
    pub end_t: Option<i64>,
}

/// The statistics of one output, which end at a time where one is known.
#[derive(Clone, Copy, Debug, PartialEq, Eq, Structural)]
pub struct PreviewEnd {
    pub node: NodeId,
    pub port: u32,
    pub end_t: Option<i64>,
}

/// What becomes of the statistics of one output.
#[derive(Clone, Copy, Debug, PartialEq, Eq, Structural)]
pub enum PreviewStep {
    /// They hold nothing new.
    Skip,
    /// They start the running preview.
    Seed,
    /// They are merged into the running preview.
    Merge,
}

/// The controller of one graph.
pub struct DataFlowController<S> {
    pub graph: Graph,
    pub selection: Vec<NodeId>,
    pub dirty: bool,
    pub undo: Vec<GraphCommand>,
    pub redo: Vec<GraphCommand>,
    pub generation: u64,
    pub in_flight: bool,
    pub pending: Option<EvalRequest<S>>,
    pub needs_eval: bool,
    pub diagnostics: Vec<Diagnostic>,
    pub publications_in_flight: usize,
    pub live_watermark_t: Option<i64>,
    pub previews: Vec<PreviewProgress>,
    pub live_source: Option<SourceId>,
    pub last_published_t: Vec<(String, i64)>,
    pub live_needs_reset: bool,
}

/// The nodes of a list that the graph has.
pub open spec fn existing(selection: Seq<NodeId>, nodes: Seq<Node>) -> Seq<NodeId>
    decreases selection.len(),
{
    if selection.len() == 0 {
        Seq::empty()
    } else {
        let rest = existing(selection.drop_last(), nodes);
        if has_node(nodes, selection.last()) {
            rest.push(selection.last())
        } else {
            rest
        }
    }
}

fn keep_existing(selection: &Vec<NodeId>, graph: &Graph) -> (r: Vec<NodeId>)
    ensures
        r@ == existing(selection@, graph.nodes@),
{
    let mut out: Vec<NodeId> = Vec::new();
    let mut i: usize = 0;
    proof {
        assert(selection@.take(0) =~= Seq::<NodeId>::empty());
    }
    while i < selection.len()
        invariant
            i <= selection@.len(),
            out@ == existing(selection@.take(i as int), graph.nodes@),
        decreases selection@.len() - i,
    {
        proof {
            assert(selection@.take(i + 1).drop_last() =~= selection@.take(i as int));
            assert(selection@.take(i + 1).last() == selection@[i as int]);
        }
        if graph.contains_node(selection[i]) {
            out.push(selection[i]);
        }
        i = i + 1;
    }
    proof {
        assert(selection@.take(i as int) =~= selection@);
    }
    out
}

fn has_id(ids: &Vec<NodeId>, id: NodeId) -> (r: bool)
    ensures
        r == ids@.contains(id),
{
    let mut i: usize = 0;
    while i < ids.len()
        invariant
            i <= ids@.len(),
            forall|j: int| 0 <= j < i ==> ids@[j] != id,
        decreases ids@.len() - i,
    {
        if ids[i] == id {
            return true;
        }
        i = i + 1;
    }
    false
}

/// The output nodes among the first `n` nodes.
pub open spec fn output_nodes(nodes: Seq<Node>, n: nat) -> Seq<NodeId>
    decreases n,
{
    if n == 0 {
        Seq::empty()
    } else {
        let rest = output_nodes(nodes, (n - 1) as nat);
        if nodes[n - 1].kind is Output {
            rest.push(nodes[n - 1].id)
        } else {
            rest
        }
    }
}

/// A list with the ids of `more` that it lacks behind it.
pub open spec fn with_missing_ids(ids: Seq<NodeId>, more: Seq<NodeId>) -> Seq<NodeId>
    decreases more.len(),
{
    if more.len() == 0 {
        ids
    } else {
        let rest = with_missing_ids(ids, more.drop_last());
        if rest.contains(more.last()) {
            rest
        } else {
            rest.push(more.last())
        }
    }
}

/// What is evaluated: every output node, then what is selected besides.
pub open spec fn targets_of(nodes: Seq<Node>, selection: Seq<NodeId>) -> Seq<NodeId> {
    with_missing_ids(output_nodes(nodes, nodes.len()), selection)
}

/// What is evaluated: every output node, then what is selected besides.
pub fn eval_targets(graph: &Graph, selection: &Vec<NodeId>) -> (r: Vec<NodeId>)
    ensures
        r@ == targets_of(graph.nodes@, selection@),
{
    let mut targets: Vec<NodeId> = Vec::new();
    let mut i: usize = 0;
    while i < graph.nodes.len()
        invariant
            i <= graph.nodes@.len(),
            targets@ == output_nodes(graph.nodes@, i as nat),
        decreases graph.nodes@.len() - i,
    {
        if let NodeKind::Output(_) = &graph.nodes[i].kind {
            targets.push(graph.nodes[i].id);
        }
        i = i + 1;
    }
    let ghost outputs = targets@;
    let mut j: usize = 0;
    proof {
        assert(selection@.take(0) =~= Seq::<NodeId>::empty());
    }
    while j < selection.len()
        invariant
            j <= selection@.len(),
            targets@ == with_missing_ids(outputs, selection@.take(j as int)),
        decreases selection@.len() - j,
    {
        proof {
            assert(selection@.take(j + 1).drop_last() =~= selection@.take(j as int));
            assert(selection@.take(j + 1).last() == selection@[j as int]);
        }
        if !has_id(&targets, selection[j]) {
            targets.push(selection[j]);
        }
        j = j + 1;
    }
    proof {
        assert(selection@.take(j as int) =~= selection@);
    }
    targets
}

/// The generation that follows the latest one. Zero stands for none.
pub open spec fn next_generation(latest: u64) -> u64 {
    if latest == u64::MAX {
        1
    } else {
        (latest + 1) as u64
    }
}

pub fn following_generation(latest: u64) -> (r: u64)
    ensures
        r == next_generation(latest),
        r != latest,
        r >= 1,
{
    if latest == u64::MAX {
        1
    } else {
        latest + 1
    }
}

/// A difference that stops at the least representable number.
pub open spec fn difference_from_below(a: i64, b: i64) -> i64 {
    if a - b < i64::MIN {
        i64::MIN
    } else if a - b > i64::MAX {
        i64::MAX
    } else {
        (a - b) as i64
    }
}

fn saturating_difference(a: i64, b: i64) -> (r: i64)
    ensures
        r == difference_from_below(a, b),
{
    let d: i128 = a as i128 - b as i128;
    if d < -0x8000_0000_0000_0000 {
        i64::MIN
    } else if d > 0x7fff_ffff_ffff_ffff {
        i64::MAX
    } else {
        d as i64
    }
}

/// The window of a live request: from a little before the watermark to the end
/// of the store. Without a watermark everything is evaluated.
pub open spec fn live_window(
    watermark: Option<i64>,
    snapshot_max: Option<i64>,
    overlap_us: i64,
) -> Option<(i64, i64)> {
    match (watermark, snapshot_max) {
        (Some(mark), Some(max)) => Some((difference_from_below(mark, overlap_us), max)),
        _ => None,
    }
}

/// What an outcome of the evaluator is.
#[derive(Clone, Copy, Debug, PartialEq, Eq, Structural)]
pub enum Reception {
    /// It answers an older request and is dropped.
    Stale,
    /// It is the outcome of a live request.
    Live,
    /// It is the outcome of an ordinary request.
    Settled,
}

/// What an outcome of `generation` is to a controller that waits for `current`.
pub open spec fn reception_of(current: u64, generation: u64, live: bool) -> Reception {
    if generation != current {
        Reception::Stale
    } else if live {
        Reception::Live
    } else {
        Reception::Settled
    }
}

/// The watermark after an outcome: a surviving live one moves it to the end of
/// what was evaluated.
pub open spec fn watermark_after(
    mark: Option<i64>,
    reception: Reception,
    snapshot_max_t: Option<i64>,
) -> Option<i64> {
    if reception == Reception::Live && snapshot_max_t is Some {
        snapshot_max_t
    } else {
        mark
    }
}

/// A live request that another one superseded leaves no trace: the window of
/// the next starts where its own did.
pub proof fn superseded_requests_lose_nothing(
    mark: Option<i64>,
    current: u64,
    generation: u64,
    live: bool,
    seen: Option<i64>,
    snapshot_max: Option<i64>,
    overlap_us: i64,
)
    requires
        generation != current,
    ensures
        live_window(
            watermark_after(mark, reception_of(current, generation, live), seen),
            snapshot_max,
            overlap_us,
        ) == live_window(mark, snapshot_max, overlap_us),
{
}

/// The window behind a surviving live outcome starts no later than what that
/// outcome covered, so the windows leave no gap.
pub proof fn live_windows_leave_no_gap(
    mark: Option<i64>,
    current: u64,
    seen: i64,
    snapshot_max: i64,
    overlap_us: i64,
)
    requires
        overlap_us >= 0,
    ensures
        live_window(
            watermark_after(mark, reception_of(current, current, true), Some(seen)),
            Some(snapshot_max),
            overlap_us,
        ) matches Some(window) && window.0 <= seen && window.1 == snapshot_max,
{
}

/// What becomes of the outputs of an ordinary outcome.
pub enum PublishStep {
    Nothing,
    Publish,
    Refuse(String),
}

/// What becomes of the outputs of a live outcome.
pub enum AppendStep {
    Nothing,
    /// The live source is to be opened; then they are appended to it.
    Open,
    Append(SourceId),
    Refuse(String),
}

/// A line for the log.
#[derive(Clone, Copy, Debug, PartialEq, Eq, Structural)]
pub enum LogLevel {
    Info,
    Warning,
    Error,
}

/// How far the previews of one output have come, from `i` on.
pub open spec fn progress_index(
    previews: Seq<PreviewProgress>,
    node: NodeId,
    port: u32,
    i: int,
) -> Option<int>
    decreases previews.len() - i,
{
    if i < 0 || i >= previews.len() {
        None
    } else if previews[i].node == node && previews[i].port == port {
        Some(i)
    } else {
        progress_index(previews, node, port, i + 1)
    }
}

/// What becomes of statistics that end at `end`.
pub open spec fn preview_step(
    previews: Seq<PreviewProgress>,
    node: NodeId,
    port: u32,
    end: Option<i64>,
) -> PreviewStep {
    match progress_index(previews, node, port, 0) {
        None => PreviewStep::Seed,
        Some(i) => match (previews[i].end_t, end) {
            (Some(previous), Some(end)) => if end > previous {
                PreviewStep::Merge
            } else {
                PreviewStep::Skip
            },
            _ => PreviewStep::Merge,
        },
    }
}

/// The progress after statistics have entered.
pub open spec fn previews_after(
    previews: Seq<PreviewProgress>,
    node: NodeId,
    port: u32,
    end: Option<i64>,
) -> Seq<PreviewProgress> {
    match progress_index(previews, node, port, 0) {
        None => previews.push(PreviewProgress { node, port, end_t: end }),
        Some(i) => if preview_step(previews, node, port, end) == PreviewStep::Skip || end is None {
            previews
        } else {
            previews.update(i, PreviewProgress { node, port, end_t: end })
        },
    }
}

/// The progress after the first `n` outputs, and what became of each.
pub open spec fn merged_upto(
    previews: Seq<PreviewProgress>,
    ends: Seq<PreviewEnd>,
    n: nat,
) -> (Seq<PreviewProgress>, Seq<PreviewStep>)
    decreases n,
{
    if n == 0 {
        (previews, Seq::empty())
    } else {
        let (so_far, steps) = merged_upto(previews, ends, (n - 1) as nat);
        let e = ends[n - 1];
        (
            previews_after(so_far, e.node, e.port, e.end_t),
            steps.push(preview_step(so_far, e.node, e.port, e.end_t)),
        )
    }
}

/// The time up to which a topic has been published, the least time for none.
pub open spec fn published_until(published: Seq<(String, i64)>, name: Seq<char>) -> i64
    decreases published.len(),
{
    if published.len() == 0 {
        i64::MIN
    } else if published.last().0@ == name {
        published.last().1
    } else {
        published_until(published.drop_last(), name)
    }
}

/// A topic that an evaluation has made: its name and the times of its rows.
pub struct OutputTopic {
    pub name: String,
    pub times: Vec<i64>,
}

/// The rows of a topic that are still to be published, from `from` on.
#[derive(Clone, Copy, Debug, PartialEq, Eq, Structural)]
pub struct Tail {
    pub topic: usize,
    pub from: usize,
}

/// The first row behind a time, counted from row `i` on.
pub open spec fn row_after(times: Seq<i64>, after: i64, i: int) -> int
    decreases times.len() - i,
{
    if i < 0 || i >= times.len() || times[i] > after {
        i
    } else {
        row_after(times, after, i + 1)
    }
}

/// The time up to which a topic has been published once the first `n` topics
/// of an outcome are.
pub open spec fn published_with(
    published: Seq<(String, i64)>,
    topics: Seq<OutputTopic>,
    n: nat,
    name: Seq<char>,
) -> i64
    decreases n,
{
    if n == 0 {
        published_until(published, name)
    } else {
        let topic = topics[n - 1];
        let after = published_with(published, topics, (n - 1) as nat, topic.name@);
        if topic.name@ == name && row_after(topic.times@, after, 0) < topic.times@.len() {
            topic.times@.last()
        } else {
            published_with(published, topics, (n - 1) as nat, name)
        }
    }
}

/// What is still to be published of the first `n` topics of an outcome.
pub open spec fn tails_of(
    published: Seq<(String, i64)>,
    topics: Seq<OutputTopic>,
    n: nat,
) -> Seq<Tail>
    decreases n,
{
    if n == 0 {
        Seq::empty()
    } else {
        let rest = tails_of(published, topics, (n - 1) as nat);
        let topic = topics[n - 1];
        let after = published_with(published, topics, (n - 1) as nat, topic.name@);
        let from = row_after(topic.times@, after, 0);
        if from < topic.times@.len() {
            rest.push(Tail { topic: (n - 1) as usize, from: from as usize })
        } else {
            rest
        }
    }
}

proof fn lemma_row_after(times: Seq<i64>, after: i64, i: int)
    requires
        0 <= i <= times.len(),
    ensures
        i <= row_after(times, after, i) <= times.len(),
        forall|j: int| i <= j < row_after(times, after, i) ==> #[trigger] times[j] <= after,
        row_after(times, after, i) < times.len() ==> times[row_after(times, after, i)] > after,
    decreases times.len() - i,
{
    if i < times.len() && times[i] <= after {
        lemma_row_after(times, after, i + 1);
    }
}

/// Of rows in the order of their times the tail holds exactly those behind the
/// time up to which the topic was published.
pub proof fn tails_hold_what_is_new(times: Seq<i64>, after: i64, j: int)
    requires
        forall|a: int, b: int| 0 <= a <= b < times.len() ==> times[a] <= times[b],
        0 <= j < times.len(),
    ensures
        row_after(times, after, 0) <= j <==> times[j] > after,
{
    lemma_row_after(times, after, 0);
}

/// Each row is published once: once a topic is published up to its last row, the
/// tail of a longer history of it starts with the row behind that one.
pub proof fn rows_are_published_once(known: Seq<i64>, grown: Seq<i64>)
    requires
        0 < known.len() <= grown.len(),
        grown.take(known.len() as int) == known,
        forall|a: int, b: int| 0 <= a < b < grown.len() ==> grown[a] < grown[b],
    ensures
        row_after(grown, known.last(), 0) == known.len(),
{
    lemma_row_after(grown, known.last(), 0);
    let from = row_after(grown, known.last(), 0);
    assert(known.last() == grown[known.len() - 1]);
    if from < known.len() {
        assert(grown[from] > known.last());
        if from < known.len() - 1 {
            assert(grown[from] < grown[known.len() - 1]);
        }
    }
    if from > known.len() {
        assert(grown[known.len() - 1] < grown[known.len() as int]);
    }
}

fn find_row_after(times: &Vec<i64>, after: i64) -> (r: usize)
    ensures
        r == row_after(times@, after, 0),
        r <= times@.len(),
{
    let mut i: usize = 0;
    while i < times.len() && times[i] <= after
        invariant
            i <= times@.len(),
            row_after(times@, after, 0) == row_after(times@, after, i as int),
        decreases times@.len() - i,
    {
        i = i + 1;
    }
    i
}

/// Replacing the last entry of a name changes the time of that name alone.
proof fn lemma_published_update(
    published: Seq<(String, i64)>,
    k: int,
    entry: (String, i64),
    name: Seq<char>,
)
    requires
        0 <= k < published.len(),
        published[k].0@ == name,
        entry.0@ == name,
        forall|j: int| k < j < published.len() ==> (#[trigger] published[j]).0@ != name,
    ensures
        published_until(published.update(k, entry), name) == entry.1,
        forall|other: Seq<char>|
            other != name ==> #[trigger] published_until(published.update(k, entry), other)
                == published_until(published, other),
    decreases published.len(),
{
    let now = published.update(k, entry);
    let rest = published.drop_last();
    if k == published.len() - 1 {
        assert(now.drop_last() =~= rest);
    } else {
        assert(now.drop_last() =~= rest.update(k, entry));
        lemma_published_update(rest, k, entry, name);
        assert(now.last() == published.last());
        assert forall|other: Seq<char>| other != name implies #[trigger] published_until(now, other)
            == published_until(published, other) by {
            assert(published_until(rest.update(k, entry), other) == published_until(rest, other));
        }
    }
}

/// The texts of diagnostics about a node.
pub open spec fn messages_for(diagnostics: Seq<Diagnostic>, node: NodeId) -> Seq<Seq<char>>
    decreases diagnostics.len(),
{
    if diagnostics.len() == 0 {
        Seq::empty()
    } else {
        let rest = messages_for(diagnostics.drop_last(), node);
        if diagnostics.last().node == node {
            rest.push(diagnostics.last().message@)
        } else {
            rest
        }
    }
}

/// Texts with a space between them.
pub open spec fn joined(texts: Seq<Seq<char>>) -> Seq<char>
    decreases texts.len(),
{
    if texts.len() == 0 {
        Seq::empty()
    } else if texts.len() == 1 {
        texts[0]
    } else {
        joined(texts.drop_last()) + " "@ + texts.last()
    }
}

/// Joins the messages of a failed publication.
pub fn join_messages(diagnostics: &Vec<Diagnostic>) -> (r: String)
    ensures
        r@ == joined(Seq::new(diagnostics@.len(), |i: int| diagnostics@[i].message@)),
{
    let ghost all = Seq::new(diagnostics@.len(), |i: int| diagnostics@[i].message@);
    let mut out = String::new();
    let mut i: usize = 0;
    proof {
        assert(all.take(0) =~= Seq::<Seq<char>>::empty());
    }
    while i < diagnostics.len()
        invariant
            i <= diagnostics@.len(),
            all == Seq::new(diagnostics@.len(), |k: int| diagnostics@[k].message@),
            out@ == joined(all.take(i as int)),
        decreases diagnostics@.len() - i,
    {
        proof {
            assert(all.take(i + 1).drop_last() =~= all.take(i as int));
            assert(all.take(i + 1).last() == diagnostics@[i as int].message@);
        }
        if i > 0 {
            out.append(" ");
        }
        let ghost before = out@;
        out.append(diagnostics[i].message.as_str());
        proof {
            assert(out@ =~= joined(all.take(i + 1)));
        }
        i = i + 1;
    }
    proof {
        assert(all.take(i as int) =~= all);
    }
    out
}

impl<S> DataFlowController<S> {
    /// Graph, selection and history are those of `other`.
    pub open spec fn same_edits(self, other: Self) -> bool {
        &&& self.graph == other.graph
        &&& self.selection == other.selection
        &&& self.dirty == other.dirty
        &&& self.undo == other.undo
        &&& self.redo == other.redo
    }

    /// Requests and diagnostics are those of `other`.
    pub open spec fn same_requests(self, other: Self) -> bool {
        &&& self.generation == other.generation
        &&& self.in_flight == other.in_flight
        &&& self.pending == other.pending
        &&& self.diagnostics == other.diagnostics
    }

    /// What concerns publications is that of `other`.
    pub open spec fn same_publications(self, other: Self) -> bool {
        &&& self.publications_in_flight == other.publications_in_flight
        &&& self.live_watermark_t == other.live_watermark_t
        &&& self.previews == other.previews
        &&& self.live_source == other.live_source
        &&& self.last_published_t == other.last_published_t
    }

    /// Nothing is selected twice, and the histories are bounded.
    pub open spec fn well_formed(self) -> bool {
        &&& self.selection@.no_duplicates()
        &&& self.undo@.len() <= UNDO_CAPACITY
        &&& self.redo@.len() <= UNDO_CAPACITY
    }

    /// What has come of an edit, made with a controller that was `before`: it can
    /// be undone, nothing can be redone, the graph is to be evaluated, and a live
    /// publication is to be set up again.
    pub open spec fn edited(self, before: Self, edit: AppliedEdit) -> bool {
        &&& self.graph == edit.graph
        &&& self.undo@ == pushed(before.undo@, edit.inverse)
        &&& self.redo@.len() == 0
        &&& self.dirty
        &&& self.needs_eval
        &&& self.live_needs_reset == (before.live_needs_reset || before.live_source is Some)
        &&& self.same_requests(before)
        &&& self.same_publications(before)
    }

    /// What has come of undoing a step, in a controller that was `before`: it can
    /// be redone, and what is no longer there is no longer selected.
    pub open spec fn undone(self, before: Self, edit: AppliedEdit) -> bool {
        &&& self.graph == edit.graph
        &&& self.redo@ == pushed(before.redo@, edit.inverse)
        &&& self.undo == before.undo
        &&& self.dirty
        &&& self.needs_eval
        &&& self.selection@ == existing(before.selection@, edit.graph.nodes@)
        &&& self.live_needs_reset == (before.live_needs_reset || before.live_source is Some)
        &&& self.same_requests(before)
        &&& self.same_publications(before)
    }

    /// What has come of redoing a step, in a controller that was `before`: it can
    /// be undone again, and the selection stays as it is.
    pub open spec fn redone(self, before: Self, edit: AppliedEdit) -> bool {
        &&& self.graph == edit.graph
        &&& self.undo@ == pushed(before.undo@, edit.inverse)
        &&& self.redo == before.redo
        &&& self.dirty
        &&& self.needs_eval
        &&& self.selection == before.selection
        &&& self.live_needs_reset == (before.live_needs_reset || before.live_source is Some)
        &&& self.same_requests(before)
        &&& self.same_publications(before)
    }

    /// Nothing has been done with the graph, and it is to be evaluated.
    pub open spec fn is_initial(self) -> bool {
        &&& self.well_formed()
        &&& self.selection@.len() == 0
        &&& !self.dirty
        &&& self.undo@.len() == 0
        &&& self.redo@.len() == 0
        &&& self.generation == 0
        &&& !self.in_flight
        &&& self.pending is None
        &&& self.needs_eval
        &&& self.diagnostics@.len() == 0
        &&& self.publications_in_flight == 0
        &&& self.live_watermark_t is None
        &&& self.previews@.len() == 0
        &&& self.live_source is None
        &&& self.last_published_t@.len() == 0
        &&& !self.live_needs_reset
    }

    /// What has come of a request, made to a controller that was `before`: a
    /// free evaluator takes it, and for a busy one it waits.
    pub open spec fn queued(self, before: Self, r: QueueStep<S>, request: RequestView<S>) -> bool {
        &&& self.in_flight
        &&& before.in_flight ==> r is CancelRunning && (self.pending matches Some(p) && p@
            == request)
        &&& !before.in_flight ==> (r matches QueueStep::Launch(q) && q@ == request) && self.pending
            == before.pending
    }

    pub fn new(graph: Graph) -> (r: DataFlowController<S>)
        ensures
            r.graph == graph,
            r.is_initial(),
    {
        DataFlowController {
            graph,
            selection: Vec::new(),
            dirty: false,
            undo: Vec::new(),
            redo: Vec::new(),
            generation: 0,
            in_flight: false,
            pending: None,
            needs_eval: true,
            diagnostics: Vec::new(),
            publications_in_flight: 0,
            live_watermark_t: None,
            previews: Vec::new(),
            live_source: None,
            last_published_t: Vec::new(),
            live_needs_reset: false,
        }
    }

    /// Starts over with another graph.
    pub fn replace_graph(&mut self, graph: Graph)
        ensures
            final(self).graph == graph,
            final(self).is_initial(),
    {
        *self = DataFlowController::new(graph);
    }

    /// The live publication no longer fits: it is to be set up again.
    pub fn invalidate_live(&mut self)
        ensures
            final(self).live_needs_reset == (old(self).live_needs_reset
                || old(self).live_source is Some),
            final(self).same_edits(*old(self)),
            final(self).same_requests(*old(self)),
            final(self).same_publications(*old(self)),
            final(self).needs_eval == old(self).needs_eval,
    {
        if self.live_source.is_some() {
            self.live_needs_reset = true;
        }
    }

    /// Takes over the outcome of an edit: it can be undone, nothing can be
    /// redone, and the graph is to be evaluated. A failed edit changes nothing.
    pub fn apply(&mut self, outcome: Result<AppliedEdit, String>) -> (r: Result<(), String>)
        requires
            old(self).well_formed(),
        ensures
            final(self).well_formed(),
            r is Ok <==> outcome is Ok,
            outcome matches Err(message) ==> r == Err::<(), String>(message) && *final(self)
                == *old(self),
            outcome matches Ok(edit) ==> final(self).edited(*old(self), edit)
                && final(self).selection@ == existing(old(self).selection@, edit.graph.nodes@),
    {
        let edit = match outcome {
            Ok(edit) => edit,
            Err(message) => {
                return Err(message);
            },
        };
        self.graph = edit.graph;
        push_bounded(&mut self.undo, edit.inverse);
        self.redo = Vec::new();
        self.dirty = true;
        self.needs_eval = true;
        self.invalidate_live();
        self.selection = keep_existing(&self.selection, &self.graph);
        proof {
            lemma_existing_unique(old(self).selection@, self.graph.nodes@);
        }
        Ok(())
    }

    /// The edit that undoes the last step. It leaves the history.
    pub fn take_undo(&mut self) -> (r: Option<GraphCommand>)
        requires
            old(self).well_formed(),
        ensures
            final(self).well_formed(),
            old(self).undo@.len() == 0 ==> r is None && final(self).undo@ == old(self).undo@,
            old(self).undo@.len() > 0 ==> r == Some(old(self).undo@.last()) && final(self).undo@
                == old(self).undo@.drop_last(),
            final(self).graph == old(self).graph,
            final(self).selection == old(self).selection,
            final(self).dirty == old(self).dirty,
            final(self).redo == old(self).redo,
            final(self).needs_eval == old(self).needs_eval,
            final(self).live_needs_reset == old(self).live_needs_reset,
            final(self).same_requests(*old(self)),
            final(self).same_publications(*old(self)),
    {
        self.undo.pop()
    }

    /// The edit that redoes the step last undone. It leaves the history.
    pub fn take_redo(&mut self) -> (r: Option<GraphCommand>)
        requires
            old(self).well_formed(),
        ensures
            final(self).well_formed(),
            old(self).redo@.len() == 0 ==> r is None && final(self).redo@ == old(self).redo@,
            old(self).redo@.len() > 0 ==> r == Some(old(self).redo@.last()) && final(self).redo@
                == old(self).redo@.drop_last(),
            final(self).graph == old(self).graph,
            final(self).selection == old(self).selection,
            final(self).dirty == old(self).dirty,
            final(self).undo == old(self).undo,
            final(self).needs_eval == old(self).needs_eval,
            final(self).live_needs_reset == old(self).live_needs_reset,
            final(self).same_requests(*old(self)),
            final(self).same_publications(*old(self)),
    {
        self.redo.pop()
    }

    /// Takes over the outcome of undoing: it can be redone. Where undoing
    /// failed nothing changes.
    pub fn undo(&mut self, outcome: Option<AppliedEdit>)
        requires
            old(self).well_formed(),
        ensures
            final(self).well_formed(),
            outcome is None ==> *final(self) == *old(self),
            outcome matches Some(edit) ==> final(self).undone(*old(self), edit),
    {
        let edit = match outcome {
            Some(edit) => edit,
            None => {
                return;
            },
        };
        self.graph = edit.graph;
        push_bounded(&mut self.redo, edit.inverse);
        self.dirty = true;
        self.needs_eval = true;
        self.invalidate_live();
        self.selection = keep_existing(&self.selection, &self.graph);
        proof {
            lemma_existing_unique(old(self).selection@, self.graph.nodes@);
        }
    }

    /// Takes over the outcome of redoing: it can be undone again. The selection
    /// stays as it is. Where redoing failed nothing changes.
    pub fn redo(&mut self, outcome: Option<AppliedEdit>)
        requires
            old(self).well_formed(),
        ensures
            final(self).well_formed(),
            outcome is None ==> *final(self) == *old(self),
            outcome matches Some(edit) ==> final(self).redone(*old(self), edit),
    {
        let edit = match outcome {
            Some(edit) => edit,
            None => {
                return;
            },
        };
        self.graph = edit.graph;
        push_bounded(&mut self.undo, edit.inverse);
        self.dirty = true;
        self.needs_eval = true;
        self.invalidate_live();
    }

    pub fn can_undo(&self) -> (r: bool)
        ensures
            r == (self.undo@.len() > 0),
    {
        self.undo.len() > 0
    }

    pub fn can_redo(&self) -> (r: bool)
        ensures
            r == (self.redo@.len() > 0),
    {
        self.redo.len() > 0
    }

    pub fn needs_eval(&self) -> (r: bool)
        ensures
            r == self.needs_eval,
    {
        self.needs_eval
    }

    /// The single selected node, or `None` when none or several are selected.
    pub fn sole_selection(&self) -> (r: Option<NodeId>)
        ensures
            r == if self.selection@.len() == 1 {
                Some(self.selection@[0])
            } else {
                None
            },
    {
        if self.selection.len() == 1 {
            Some(self.selection[0])
        } else {
            None
        }
    }

    /// Binds or clears the source of a data field for this session. That is no
    /// edit: it cannot be undone and leaves the graph clean, but the graph is
    /// evaluated again and a live publication is set up anew.
    pub fn set_field_source(&mut self, node: NodeId, source: Option<String>)
        requires
            old(self).well_formed(),
        ensures
            final(self).well_formed(),
            ({
                let at = node_index(old(self).graph.nodes@, node, 0);
                let changes = rebinds(old(self).graph.nodes@, node, source);
                &&& !changes ==> *final(self) == *old(self)
                &&& changes ==> {
                    &&& node_models(final(self).graph.nodes@) == node_models(
                        old(self).graph.nodes@,
                    ).update(
                        at.unwrap(),
                        rebound(old(self).graph.nodes@[at.unwrap()]@, source),
                    )
                    &&& final(self).needs_eval
                    &&& final(self).live_needs_reset == (old(self).live_needs_reset
                        || old(self).live_source is Some)
                }
                &&& final(self).graph.edges == old(self).graph.edges
                &&& final(self).graph.name == old(self).graph.name
                &&& final(self).graph.viewport == old(self).graph.viewport
                &&& final(self).selection == old(self).selection
                &&& final(self).dirty == old(self).dirty
                &&& final(self).undo == old(self).undo
                &&& final(self).redo == old(self).redo
                &&& final(self).same_requests(*old(self))
                &&& final(self).same_publications(*old(self))
            }),
    {
        let at = match self.graph.find_node(node) {
            Some(at) => at,
            None => {
                return;
            },
        };
        let changes = match &self.graph.nodes[at].kind {
            NodeKind::DataField(selector) => !same_optional(&selector.source, &source),
            _ => false,
        };
        if !changes {
            return;
        }
        let ghost before = self.graph.nodes@;
        let current = self.graph.nodes[at].duplicate();
        if let NodeKind::DataField(mut selector) = current.kind {
            selector.source = source;
            let next = Node {
                id: current.id,
                pos: current.pos,
                kind: NodeKind::DataField(selector),
            };
            self.graph.nodes.set(at, next);
            proof {
                assert(node_models(self.graph.nodes@) =~= node_models(before).update(
                    at as int,
                    rebound(before[at as int]@, source),
                ));
            }
        }
        self.needs_eval = true;
        self.invalidate_live();
    }

    /// The texts of the diagnostics about a node.
    pub fn diagnostics_for(&self, node: NodeId) -> (r: Vec<&str>)
        ensures
            Seq::new(r@.len(), |i: int| r@[i]@) == messages_for(self.diagnostics@, node),
    {
        let mut out: Vec<&str> = Vec::new();
        let all = &self.diagnostics;
        let mut i: usize = 0;
        proof {
            assert(all@.take(0) =~= Seq::<Diagnostic>::empty());
            assert(Seq::new(out@.len(), |k: int| out@[k]@) =~= Seq::<Seq<char>>::empty());
        }
        while i < all.len()
            invariant
                i <= all@.len(),
                Seq::new(out@.len(), |k: int| out@[k]@) == messages_for(
                    all@.take(i as int),
                    node,
                ),
            decreases all@.len() - i,
        {
            proof {
                assert(all@.take(i + 1).drop_last() =~= all@.take(i as int));
                assert(all@.take(i + 1).last() == all@[i as int]);
            }
            if all[i].node == node {
                let ghost before = out@;
                out.push(all[i].message.as_str());
                proof {
                    assert(Seq::new(out@.len(), |k: int| out@[k]@) =~= Seq::new(
                        before.len(),
                        |k: int| before[k]@,
                    ).push(all@[i as int].message@));
                }
            }
            i = i + 1;
        }
        proof {
            assert(all@.take(i as int) =~= all@);
        }
        out
    }

    pub fn is_evaluating(&self) -> (r: bool)
        ensures
            r == (self.in_flight || self.pending is Some || self.publications_in_flight > 0),
    {
        self.in_flight || self.pending.is_some() || self.publications_in_flight > 0
    }

    pub fn is_live_published(&self) -> (r: bool)
        ensures
            r == self.live_source is Some,
    {
        self.live_source.is_some()
    }

    /// Whether the live publication is to be set up again; asking clears it.
    pub fn take_needs_live_reset(&mut self) -> (r: bool)
        ensures
            r == old(self).live_needs_reset,
            !final(self).live_needs_reset,
            final(self).same_edits(*old(self)),
            final(self).same_requests(*old(self)),
            final(self).same_publications(*old(self)),
            final(self).needs_eval == old(self).needs_eval,
    {
        let r = self.live_needs_reset;
        self.live_needs_reset = false;
        r
    }

    /// Ends the live publication and forgets how far it had come. Returns the
    /// source to close.
    pub fn reset_live(&mut self) -> (r: Option<SourceId>)
        ensures
            r == old(self).live_source,
            final(self).live_source is None,
            final(self).last_published_t@.len() == 0,
            final(self).live_watermark_t is None,
            final(self).previews@.len() == 0,
            final(self).publications_in_flight == old(self).publications_in_flight,
            final(self).live_needs_reset == old(self).live_needs_reset,
            final(self).same_edits(*old(self)),
            final(self).same_requests(*old(self)),
            final(self).needs_eval == old(self).needs_eval,
    {
        let source = self.live_source.take();
        self.last_published_t = Vec::new();
        self.live_watermark_t = None;
        self.previews = Vec::new();
        source
    }
}

/// Whether binding the node to the source changes anything: it is a data field
/// with another source.
pub open spec fn rebinds(nodes: Seq<Node>, node: NodeId, source: Option<String>) -> bool {
    match node_index(nodes, node, 0) {
        Some(at) => match nodes[at]@.kind {
            KindView::DataField(selector) => selector.source != crate::graph::optional_text(
                source,
            ),
            _ => false,
        },
        None => false,
    }
}

/// A data field with another source.
pub open spec fn rebound(node: NodeModel, source: Option<String>) -> NodeModel {
    match node.kind {
        KindView::DataField(selector) => NodeModel {
            kind: KindView::DataField(
                crate::graph::SelectorView {
                    source: crate::graph::optional_text(source),
                    ..selector
                },
            ),
            ..node
        },
        _ => node,
    }
}

fn same_optional(a: &Option<String>, b: &Option<String>) -> (r: bool)
    ensures
        r == (crate::graph::optional_text(*a) == crate::graph::optional_text(*b)),
{
    match (a, b) {
        (Some(x), Some(y)) => same_text(x.as_str(), y.as_str()),
        (None, None) => true,
        _ => false,
    }
}

proof fn lemma_existing_unique(selection: Seq<NodeId>, nodes: Seq<Node>)
    requires
        selection.no_duplicates(),
    ensures
        existing(selection, nodes).no_duplicates(),
        forall|id: NodeId| #[trigger]
            existing(selection, nodes).contains(id) ==> selection.contains(id),
    decreases selection.len(),
{
    if selection.len() > 0 {
        let short = selection.drop_last();
        assert forall|i: int, j: int|
            0 <= i < short.len() && 0 <= j < short.len() && i != j implies short[i] != short[j] by {
            assert(selection[i] != selection[j]);
        }
        lemma_existing_unique(short, nodes);
        let rest = existing(short, nodes);
        let out = existing(selection, nodes);
        assert(!rest.contains(selection.last())) by {
            if rest.contains(selection.last()) {
                assert(short.contains(selection.last()));
                let i = choose|i: int| 0 <= i < short.len() && short[i] == selection.last();
                assert(selection[i] == selection[selection.len() - 1]);
            }
        }
        assert forall|id: NodeId| #[trigger] out.contains(id) implies selection.contains(id) by {
            let i = choose|i: int| 0 <= i < out.len() && out[i] == id;
            if i < rest.len() {
                assert(rest.contains(rest[i]));
                assert(short.contains(id));
                let j = choose|j: int| 0 <= j < short.len() && short[j] == id;
                assert(selection[j] == id);
            } else {
                assert(selection[selection.len() - 1] == id);
            }
        }
        assert forall|i: int, j: int|
            0 <= i < out.len() && 0 <= j < out.len() && i != j implies out[i] != out[j] by {
            if i < rest.len() && j < rest.len() {
                assert(rest[i] != rest[j]);
            } else if i < rest.len() {
                assert(rest.contains(rest[i]));
            } else if j < rest.len() {
                assert(rest.contains(rest[j]));
            }
        }
    }
}

/// Copied nodes and the edges between them.
pub struct Clipboard {
    pub nodes: Vec<Node>,
    pub edges: Vec<Edge>,
}

/// The nodes of a graph that are in the selection.
pub open spec fn selected_nodes(nodes: Seq<Node>, selection: Seq<NodeId>, n: nat) -> Seq<NodeModel>
    decreases n,
{
    if n == 0 {
        Seq::empty()
    } else {
        let rest = selected_nodes(nodes, selection, (n - 1) as nat);
        if selection.contains(nodes[n - 1].id) {
            rest.push(nodes[n - 1]@)
        } else {
            rest
        }
    }
}

/// Whether a list of nodes has the id.
pub open spec fn has_model(nodes: Seq<NodeModel>, id: NodeId) -> bool {
    exists|i: int| 0 <= i < nodes.len() && (#[trigger] nodes[i]).id == id
}

/// The first `n` edges whose two ends are among the nodes.
pub open spec fn inner_edges(edges: Seq<Edge>, nodes: Seq<NodeModel>, n: nat) -> Seq<Edge>
    decreases n,
{
    if n == 0 {
        Seq::empty()
    } else {
        let rest = inner_edges(edges, nodes, (n - 1) as nat);
        let e = edges[n - 1];
        if has_model(nodes, e.from) && has_model(nodes, e.to) {
            rest.push(e)
        } else {
            rest
        }
    }
}

fn lists_node(nodes: &Vec<Node>, id: NodeId) -> (r: bool)
    ensures
        r == has_model(node_models(nodes@), id),
{
    let ghost all = node_models(nodes@);
    let mut i: usize = 0;
    while i < nodes.len()
        invariant
            i <= nodes@.len(),
            all == node_models(nodes@),
            forall|j: int| 0 <= j < i ==> (#[trigger] all[j]).id != id,
        decreases nodes@.len() - i,
    {
        assert(all[i as int] == nodes@[i as int]@);
        if nodes[i].id == id {
            return true;
        }
        i = i + 1;
    }
    false
}

impl Clipboard {
    pub fn is_empty(&self) -> (r: bool)
        ensures
            r == (self.nodes@.len() == 0),
    {
        self.nodes.len() == 0
    }
}

/// The copy of node `id`, the last of several.
pub open spec fn mapped_id(nodes: Seq<NodeModel>, ids: Seq<NodeId>, id: NodeId, n: nat) -> Option<
    NodeId,
>
    decreases n,
{
    if n == 0 {
        None
    } else if nodes[n - 1].id == id {
        Some(ids[n - 1])
    } else {
        mapped_id(nodes, ids, id, (n - 1) as nat)
    }
}

/// The commands that add copies of the first `n` nodes.
pub open spec fn copy_commands(
    nodes: Seq<NodeModel>,
    ids: Seq<NodeId>,
    positions: Seq<[u32; 2]>,
    n: nat,
) -> Seq<CommandView>
    decreases n,
{
    if n == 0 {
        Seq::empty()
    } else {
        copy_commands(nodes, ids, positions, (n - 1) as nat).push(
            CommandView::AddNode {
                node: NodeModel {
                    id: ids[n - 1],
                    pos: positions[n - 1],
                    kind: nodes[n - 1].kind,
                },
            },
        )
    }
}

/// The commands that connect the copies as the first `n` edges connected the
/// originals.
pub open spec fn connect_commands(
    nodes: Seq<NodeModel>,
    ids: Seq<NodeId>,
    edges: Seq<Edge>,
    n: nat,
) -> Seq<CommandView>
    decreases n,
{
    if n == 0 {
        Seq::empty()
    } else {
        let rest = connect_commands(nodes, ids, edges, (n - 1) as nat);
        let e = edges[n - 1];
        match (
            mapped_id(nodes, ids, e.from, nodes.len()),
            mapped_id(nodes, ids, e.to, nodes.len()),
        ) {
            (Some(from), Some(to)) => rest.push(
                CommandView::Connect {
                    edge: Edge { from, from_port: e.from_port, to, to_port: e.to_port },
                },
            ),
            _ => rest,
        }
    }
}

/// The edit that pastes a clipboard as the nodes `ids` at `positions`: all
/// nodes, then the edges between them, as one step; `None` for an empty one.
pub fn paste_command(
    clipboard: &Clipboard,
    ids: &Vec<NodeId>,
    positions: &Vec<[u32; 2]>,
) -> (r: Option<GraphCommand>)
    requires
        ids@.len() == clipboard.nodes@.len(),
        positions@.len() == clipboard.nodes@.len(),
    ensures
        r is None <==> clipboard.nodes@.len() == 0,
        r matches Some(command) ==> command_view(command) == CommandView::Batch(
            copy_commands(
                node_models(clipboard.nodes@),
                ids@,
                positions@,
                clipboard.nodes@.len(),
            ) + connect_commands(
                node_models(clipboard.nodes@),
                ids@,
                clipboard.edges@,
                clipboard.edges@.len(),
            ),
        ),
{
    if clipboard.is_empty() {
        return None;
    }
    let ghost nodes = node_models(clipboard.nodes@);
    let mut commands: Vec<GraphCommand> = Vec::new();
    let mut i: usize = 0;
    while i < clipboard.nodes.len()
        invariant
            i <= clipboard.nodes@.len(),
            ids@.len() == clipboard.nodes@.len(),
            positions@.len() == clipboard.nodes@.len(),
            nodes == node_models(clipboard.nodes@),
            command_views(commands, commands@.len()) == copy_commands(
                nodes,
                ids@,
                positions@,
                i as nat,
            ),
        decreases clipboard.nodes@.len() - i,
    {
        assert(nodes[i as int] == clipboard.nodes@[i as int]@);
        let command = GraphCommand::AddNode {
            node: Node {
                id: ids[i],
                pos: positions[i],
                kind: clipboard.nodes[i].kind.duplicate(),
            },
        };
        let ghost before = commands;
        commands.push(command);
        proof {
            lemma_command_push(before, commands, command);
        }
        i = i + 1;
    }
    let ghost copies = copy_commands(nodes, ids@, positions@, nodes.len());
    let mut j: usize = 0;
    proof {
        assert(copies + Seq::<CommandView>::empty() =~= copies);
    }
    while j < clipboard.edges.len()
        invariant
            j <= clipboard.edges@.len(),
            ids@.len() == clipboard.nodes@.len(),
            nodes == node_models(clipboard.nodes@),
            command_views(commands, commands@.len()) == copies + connect_commands(
                nodes,
                ids@,
                clipboard.edges@,
                j as nat,
            ),
        decreases clipboard.edges@.len() - j,
    {
        let e = clipboard.edges[j];
        let from = find_mapped(&clipboard.nodes, ids, e.from);
        let to = find_mapped(&clipboard.nodes, ids, e.to);
        if let (Some(from), Some(to)) = (from, to) {
            let command = GraphCommand::Connect {
                edge: Edge { from, from_port: e.from_port, to, to_port: e.to_port },
            };
            let ghost before = commands;
            commands.push(command);
            proof {
                lemma_command_push(before, commands, command);
                assert(command_views(commands, commands@.len()) =~= copies + connect_commands(
                    nodes,
                    ids@,
                    clipboard.edges@,
                    (j + 1) as nat,
                ));
            }
        }
        j = j + 1;
    }
    Some(GraphCommand::Batch(commands))
}

fn find_mapped(nodes: &Vec<Node>, ids: &Vec<NodeId>, id: NodeId) -> (r: Option<NodeId>)
    requires
        ids@.len() == nodes@.len(),
    ensures
        r == mapped_id(node_models(nodes@), ids@, id, nodes@.len()),
{
    let ghost all = node_models(nodes@);
    let mut n: usize = nodes.len();
    while n > 0
        invariant
            n <= nodes@.len(),
            ids@.len() == nodes@.len(),
            all == node_models(nodes@),
            mapped_id(all, ids@, id, nodes@.len()) == mapped_id(all, ids@, id, n as nat),
        decreases n,
    {
        assert(all[n - 1] == nodes@[n - 1]@);
        if nodes[n - 1].id == id {
            return Some(ids[n - 1]);
        }
        n = n - 1;
    }
    None
}

/// The commands that remove the nodes of a list.
pub open spec fn remove_commands(ids: Seq<NodeId>) -> Seq<CommandView> {
    Seq::new(ids.len(), |i: int| CommandView::RemoveNode { id: ids[i] })
}

impl<S> DataFlowController<S> {
    /// Copies what is selected, with the edges inside it.
    pub fn copy_selection(&self) -> (r: Clipboard)
        ensures
            node_models(r.nodes@) == selected_nodes(
                self.graph.nodes@,
                self.selection@,
                self.graph.nodes@.len(),
            ),
            r.edges@ == inner_edges(
                self.graph.edges@,
                node_models(r.nodes@),
                self.graph.edges@.len(),
            ),
    {
        let mut nodes: Vec<Node> = Vec::new();
        let all = &self.graph.nodes;
        let mut i: usize = 0;
        proof {
            assert(node_models(nodes@) =~= Seq::<NodeModel>::empty());
        }
        while i < all.len()
            invariant
                i <= all@.len(),
                node_models(nodes@) == selected_nodes(all@, self.selection@, i as nat),
            decreases all@.len() - i,
        {
            if has_id(&self.selection, all[i].id) {
                let ghost before = nodes@;
                let copy = all[i].duplicate();
                nodes.push(copy);
                proof {
                    assert(node_models(nodes@) =~= node_models(before).push(copy@));
                }
            }
            i = i + 1;
        }
        let mut edges: Vec<Edge> = Vec::new();
        let lines = &self.graph.edges;
        let mut j: usize = 0;
        while j < lines.len()
            invariant
                j <= lines@.len(),
                edges@ == inner_edges(lines@, node_models(nodes@), j as nat),
            decreases lines@.len() - j,
        {
            if lists_node(&nodes, lines[j].from) && lists_node(&nodes, lines[j].to) {
                edges.push(lines[j]);
            }
            j = j + 1;
        }
        Clipboard { nodes, edges }
    }

    /// The edit that removes what is selected, as one step; `None` where
    /// nothing is. The selection is empty afterwards.
    pub fn delete_selection(&mut self) -> (r: Option<GraphCommand>)
        requires
            old(self).well_formed(),
        ensures
            final(self).well_formed(),
            final(self).selection@.len() == 0,
            r is None <==> old(self).selection@.len() == 0,
            r matches Some(command) ==> command_view(command) == CommandView::Batch(
                remove_commands(old(self).selection@),
            ),
            final(self).graph == old(self).graph,
            final(self).undo == old(self).undo,
            final(self).redo == old(self).redo,
            final(self).dirty == old(self).dirty,
            final(self).needs_eval == old(self).needs_eval,
            final(self).live_needs_reset == old(self).live_needs_reset,
            final(self).same_requests(*old(self)),
            final(self).same_publications(*old(self)),
    {
        if self.selection.len() == 0 {
            return None;
        }
        let mut ids: Vec<NodeId> = Vec::new();
        core::mem::swap(&mut ids, &mut self.selection);
        let ghost all = remove_commands(ids@);
        let mut commands: Vec<GraphCommand> = Vec::new();
        let mut i: usize = 0;
        proof {
            assert(all.take(0) =~= Seq::<CommandView>::empty());
        }
        while i < ids.len()
            invariant
                i <= ids@.len(),
                all == remove_commands(ids@),
                command_views(commands, commands@.len()) == all.take(i as int),
            decreases ids@.len() - i,
        {
            let command = GraphCommand::RemoveNode { id: ids[i] };
            let ghost before = commands;
            commands.push(command);
            proof {
                lemma_command_push(before, commands, command);
                assert(all.take(i + 1) =~= all.take(i as int).push(all[i as int]));
            }
            i = i + 1;
        }
        proof {
            assert(all.take(i as int) =~= all);
        }
        Some(GraphCommand::Batch(commands))
    }

    /// Takes over the outcome of pasting: as any edit, and the new nodes are
    /// selected.
    pub fn paste(&mut self, outcome: Result<AppliedEdit, String>, ids: Vec<NodeId>) -> (r: Result<
        (),
        String,
    >)
        requires
            old(self).well_formed(),
            ids@.no_duplicates(),
        ensures
            final(self).well_formed(),
            r is Ok <==> outcome is Ok,
            outcome matches Err(message) ==> r == Err::<(), String>(message) && *final(self)
                == *old(self),
            outcome matches Ok(edit) ==> final(self).edited(*old(self), edit)
                && final(self).selection == ids,
    {
        match self.apply(outcome) {
            Ok(()) => {
                self.selection = ids;
                Ok(())
            },
            Err(message) => Err(message),
        }
    }

    fn queue(
        &mut self,
        input: S,
        publish: bool,
        window: Option<(i64, i64)>,
        live: bool,
        preview_from_t: Option<i64>,
        snapshot_max_t: Option<i64>,
        latest: u64,
    ) -> (r: QueueStep<S>)
        ensures
            final(self).generation == next_generation(latest),
            !final(self).needs_eval,
            final(self).same_edits(*old(self)),
            final(self).same_publications(*old(self)),
            final(self).live_needs_reset == old(self).live_needs_reset,
            final(self).diagnostics == old(self).diagnostics,
            ({
                let request = RequestView {
                    generation: next_generation(latest),
                    targets: targets_of(old(self).graph.nodes@, old(self).selection@),
                    input,
                    publish,
                    window,
                    live,
                    preview_from_t,
                    snapshot_max_t,
                };
                final(self).queued(*old(self), r, request)
            }),
    {
        self.generation = following_generation(latest);
        self.needs_eval = false;
        let request = EvalRequest {
            generation: self.generation,
            targets: eval_targets(&self.graph, &self.selection),
            input,
            publish,
            window,
            live,
            preview_from_t,
            snapshot_max_t,
        };
        if self.in_flight {
            self.pending = Some(request);
            QueueStep::CancelRunning
        } else {
            self.in_flight = true;
            QueueStep::Launch(request)
        }
    }

    /// Asks for an evaluation. `latest` is the generation of the latest request
    /// of any graph.
    pub fn request_eval(&mut self, input: S, latest: u64) -> (r: QueueStep<S>)
        ensures
            final(self).generation == next_generation(latest),
            !final(self).needs_eval,
            final(self).same_edits(*old(self)),
            final(self).same_publications(*old(self)),
            final(self).live_needs_reset == old(self).live_needs_reset,
            final(self).diagnostics == old(self).diagnostics,
            ({
                let request = RequestView {
                    generation: next_generation(latest),
                    targets: targets_of(old(self).graph.nodes@, old(self).selection@),
                    input,
                    publish: false,
                    window: None,
                    live: false,
                    preview_from_t: None,
                    snapshot_max_t: None,
                };
                final(self).queued(*old(self), r, request)
            }),
    {
        self.queue(input, false, None, false, None, None, latest)
    }

    /// Asks for an evaluation whose outcome is published.
    pub fn request_publish(&mut self, input: S, latest: u64) -> (r: QueueStep<S>)
        ensures
            final(self).generation == next_generation(latest),
            !final(self).needs_eval,
            final(self).same_edits(*old(self)),
            final(self).same_publications(*old(self)),
            final(self).live_needs_reset == old(self).live_needs_reset,
            final(self).diagnostics == old(self).diagnostics,
            ({
                let request = RequestView {
                    generation: next_generation(latest),
                    targets: targets_of(old(self).graph.nodes@, old(self).selection@),
                    input,
                    publish: true,
                    window: None,
                    live: false,
                    preview_from_t: None,
                    snapshot_max_t: None,
                };
                final(self).queued(*old(self), r, request)
            }),
    {
        self.queue(input, true, None, false, None, None, latest)
    }

    /// Asks for an evaluation of what has arrived since the watermark. The
    /// watermark itself moves only when an outcome survives: a request that is
    /// superseded leaves what it would have read to the next one.
    pub fn request_live(
        &mut self,
        input: S,
        snapshot_max: Option<i64>,
        overlap_us: i64,
        append: bool,
        latest: u64,
    ) -> (r: QueueStep<S>)
        ensures
            final(self).generation == next_generation(latest),
            !final(self).needs_eval,
            final(self).same_edits(*old(self)),
            final(self).same_publications(*old(self)),
            final(self).live_needs_reset == old(self).live_needs_reset,
            final(self).diagnostics == old(self).diagnostics,
            ({
                let request = RequestView {
                    generation: next_generation(latest),
                    targets: targets_of(old(self).graph.nodes@, old(self).selection@),
                    input,
                    publish: append,
                    window: live_window(old(self).live_watermark_t, snapshot_max, overlap_us),
                    live: true,
                    preview_from_t: old(self).live_watermark_t,
                    snapshot_max_t: snapshot_max,
                };
                final(self).queued(*old(self), r, request)
            }),
    {
        let mark = self.live_watermark_t;
        let window = match (mark, snapshot_max) {
            (Some(mark), Some(max)) => Some((saturating_difference(mark, overlap_us), max)),
            _ => None,
        };
        self.queue(input, append, window, true, mark, snapshot_max, latest)
    }

    /// Takes over that the evaluator has finished a request. An outcome of the
    /// latest generation counts; a live one moves the watermark. The request
    /// that waits, if any, is launched.
    pub fn poll(
        &mut self,
        generation: u64,
        live: bool,
        snapshot_max_t: Option<i64>,
        diagnostics: Vec<Diagnostic>,
    ) -> (r: (Reception, Option<EvalRequest<S>>))
        ensures
            r.0 == reception_of(old(self).generation, generation, live),
            r.1 == old(self).pending,
            final(self).pending is None,
            final(self).in_flight == old(self).pending is Some,
            final(self).live_watermark_t == watermark_after(
                old(self).live_watermark_t,
                r.0,
                snapshot_max_t,
            ),
            final(self).diagnostics == if r.0 == Reception::Stale {
                old(self).diagnostics
            } else {
                diagnostics
            },
            final(self).generation == old(self).generation,
            final(self).needs_eval == old(self).needs_eval,
            final(self).same_edits(*old(self)),
            final(self).previews == old(self).previews,
            final(self).publications_in_flight == old(self).publications_in_flight,
            final(self).live_source == old(self).live_source,
            final(self).last_published_t == old(self).last_published_t,
            final(self).live_needs_reset == old(self).live_needs_reset,
    {
        self.in_flight = false;
        let reception = if generation != self.generation {
            Reception::Stale
        } else if live {
            Reception::Live
        } else {
            Reception::Settled
        };
        if generation == self.generation {
            if live && snapshot_max_t.is_some() {
                self.live_watermark_t = snapshot_max_t;
            }
            self.diagnostics = diagnostics;
        }
        let next = self.pending.take();
        if next.is_some() {
            self.in_flight = true;
        }
        (reception, next)
    }

    /// Decides whether statistics of one output, which end at `end`, hold
    /// anything new, and remembers how far they go.
    pub fn admit_preview(&mut self, node: NodeId, port: u32, end: Option<i64>) -> (r: PreviewStep)
        ensures
            r == preview_step(old(self).previews@, node, port, end),
            final(self).previews@ == previews_after(old(self).previews@, node, port, end),
            final(self).same_edits(*old(self)),
            final(self).same_requests(*old(self)),
            final(self).needs_eval == old(self).needs_eval,
            final(self).publications_in_flight == old(self).publications_in_flight,
            final(self).live_watermark_t == old(self).live_watermark_t,
            final(self).live_source == old(self).live_source,
            final(self).last_published_t == old(self).last_published_t,
            final(self).live_needs_reset == old(self).live_needs_reset,
    {
        let ghost all = self.previews@;
        let mut i: usize = 0;
        while i < self.previews.len() && !(self.previews[i].node == node && self.previews[i].port
            == port)
            invariant
                i <= self.previews@.len(),
                all == self.previews@,
                *self == *old(self),
                progress_index(all, node, port, 0) == progress_index(all, node, port, i as int),
            ensures
                i <= self.previews@.len(),
                *self == *old(self),
                progress_index(all, node, port, 0) == if i < self.previews@.len() {
                    Some(i as int)
                } else {
                    None
                },
            decreases self.previews@.len() - i,
        {
            i = i + 1;
        }
        if i == self.previews.len() {
            self.previews.push(PreviewProgress { node, port, end_t: end });
            return PreviewStep::Seed;
        }
        if let (Some(previous), Some(end)) = (self.previews[i].end_t, end) {
            if end <= previous {
                return PreviewStep::Skip;
            }
        }
        if end.is_some() {
            self.previews.set(i, PreviewProgress { node, port, end_t: end });
        }
        PreviewStep::Merge
    }

    /// Decides for each output of a live outcome whether its statistics hold
    /// anything new, and remembers how far they go.
    pub fn merge_live_previews(&mut self, ends: &Vec<PreviewEnd>) -> (r: Vec<PreviewStep>)
        ensures
            final(self).previews@ == merged_upto(old(self).previews@, ends@, ends@.len()).0,
            r@ == merged_upto(old(self).previews@, ends@, ends@.len()).1,
            final(self).same_edits(*old(self)),
            final(self).same_requests(*old(self)),
            final(self).needs_eval == old(self).needs_eval,
            final(self).publications_in_flight == old(self).publications_in_flight,
            final(self).live_watermark_t == old(self).live_watermark_t,
            final(self).live_source == old(self).live_source,
            final(self).last_published_t == old(self).last_published_t,
            final(self).live_needs_reset == old(self).live_needs_reset,
    {
        let mut steps: Vec<PreviewStep> = Vec::new();
        let mut i: usize = 0;
        while i < ends.len()
            invariant
                i <= ends@.len(),
                (self.previews@, steps@) == merged_upto(old(self).previews@, ends@, i as nat),
                self.same_edits(*old(self)),
                self.same_requests(*old(self)),
                self.needs_eval == old(self).needs_eval,
                self.publications_in_flight == old(self).publications_in_flight,
                self.live_watermark_t == old(self).live_watermark_t,
                self.live_source == old(self).live_source,
                self.last_published_t == old(self).last_published_t,
                self.live_needs_reset == old(self).live_needs_reset,
            decreases ends@.len() - i,
        {
            let step = self.admit_preview(ends[i].node, ends[i].port, ends[i].end_t);
            steps.push(step);
            i = i + 1;
        }
        steps
    }

    /// What becomes of the outputs of an ordinary outcome: they are published,
    /// or the log says why they cannot be.
    pub fn handle_publish(&mut self, outputs: &Option<Result<(), Vec<Diagnostic>>>) -> (r:
        PublishStep)
        requires
            old(self).publications_in_flight < usize::MAX,
        ensures
            match *outputs {
                None => r is Nothing,
                Some(Ok(())) => r is Publish,
                Some(Err(diagnostics)) => r matches PublishStep::Refuse(text) && text@ == joined(
                    Seq::new(diagnostics@.len(), |i: int| diagnostics@[i].message@),
                ),
            },
            final(self).publications_in_flight == old(self).publications_in_flight + if (
            r is Publish) {
                1int
            } else {
                0
            },
            final(self).same_edits(*old(self)),
            final(self).same_requests(*old(self)),
            final(self).needs_eval == old(self).needs_eval,
            final(self).live_watermark_t == old(self).live_watermark_t,
            final(self).previews == old(self).previews,
            final(self).live_source == old(self).live_source,
            final(self).last_published_t == old(self).last_published_t,
            final(self).live_needs_reset == old(self).live_needs_reset,
    {
        match outputs {
            None => PublishStep::Nothing,
            Some(Ok(())) => {
                self.publications_in_flight = self.publications_in_flight + 1;
                PublishStep::Publish
            },
            Some(Err(diagnostics)) => PublishStep::Refuse(join_messages(diagnostics)),
        }
    }

    /// What becomes of the outputs of a live outcome: their tails are appended
    /// to the live source, which is opened first where there is none, or the
    /// log says why they cannot be.
    pub fn append_publish(&self, outputs: &Option<Result<(), Vec<Diagnostic>>>) -> (r: AppendStep)
        ensures
            match *outputs {
                None => r is Nothing,
                Some(Ok(())) => r == match self.live_source {
                    Some(source) => AppendStep::Append(source),
                    None => AppendStep::Open,
                },
                Some(Err(diagnostics)) => r matches AppendStep::Refuse(text) && text@ == joined(
                    Seq::new(diagnostics@.len(), |i: int| diagnostics@[i].message@),
                ),
            },
    {
        match outputs {
            None => AppendStep::Nothing,
            Some(Ok(())) => match self.live_source {
                Some(source) => AppendStep::Append(source),
                None => AppendStep::Open,
            },
            Some(Err(diagnostics)) => AppendStep::Refuse(join_messages(diagnostics)),
        }
    }

    /// Takes over the end of a publication, and says what goes to the log: of
    /// an older generation nothing, nor of one that was given up.
    pub fn publication_done(
        &mut self,
        generation: u64,
        name: &str,
        outcome: Result<Option<SourceId>, String>,
    ) -> (r: Option<(LogLevel, String)>)
        ensures
            final(self).publications_in_flight == if old(self).publications_in_flight > 0 {
                old(self).publications_in_flight - 1
            } else {
                0
            },
            final(self).same_edits(*old(self)),
            final(self).same_requests(*old(self)),
            final(self).needs_eval == old(self).needs_eval,
            final(self).live_watermark_t == old(self).live_watermark_t,
            final(self).previews == old(self).previews,
            final(self).live_source == old(self).live_source,
            final(self).last_published_t == old(self).last_published_t,
            final(self).live_needs_reset == old(self).live_needs_reset,
            generation != old(self).generation ==> r is None,
            generation == old(self).generation ==> match outcome {
                Ok(Some(_)) => r matches Some(line) && line.0 == LogLevel::Info && line.1@
                    == "Published data flow '"@ + name@ + "'."@,
                Ok(None) => r is None,
                Err(message) => r == Some((LogLevel::Error, message)),
            },
    {
        if self.publications_in_flight > 0 {
            self.publications_in_flight = self.publications_in_flight - 1;
        }
        if generation != self.generation {
            return None;
        }
        match outcome {
            Ok(Some(_)) => {
                let mut text = "Published data flow '".to_owned();
                text.append(name);
                text.append("'.");
                Some((LogLevel::Info, text))
            },
            Ok(None) => None,
            Err(message) => Some((LogLevel::Error, message)),
        }
    }

    /// One more than the place of a topic's entry, zero for none.
    fn published_place(&self, topic: &str) -> (r: usize)
        ensures
            r <= self.last_published_t@.len(),
            r > 0 ==> self.last_published_t@[r - 1].0@ == topic@ && published_until(
                self.last_published_t@,
                topic@,
            ) == self.last_published_t@[r - 1].1,
            r == 0 ==> published_until(self.last_published_t@, topic@) == i64::MIN,
            forall|j: int|
                r <= j < self.last_published_t@.len() ==> (
                #[trigger] self.last_published_t@[j]).0@ != topic@,
    {
        let all = &self.last_published_t;
        let mut n: usize = all.len();
        proof {
            assert(all@.take(n as int) =~= all@);
        }
        while n > 0
            invariant
                n <= all@.len(),
                *all == self.last_published_t,
                published_until(all@, topic@) == published_until(all@.take(n as int), topic@),
                forall|j: int| n <= j < all@.len() ==> (#[trigger] all@[j]).0@ != topic@,
            decreases n,
        {
            proof {
                assert(all@.take(n as int).drop_last() =~= all@.take(n - 1));
                assert(all@.take(n as int).last() == all@[n - 1]);
            }
            if same_text(all[n - 1].0.as_str(), topic) {
                return n;
            }
            n = n - 1;
        }
        0
    }

    /// The time behind which rows of a topic are still to be published.
    fn tail_start(&self, topic: &str) -> (r: i64)
        ensures
            r == published_until(self.last_published_t@, topic@),
    {
        let n = self.published_place(topic);
        if n > 0 {
            self.last_published_t[n - 1].1
        } else {
            i64::MIN
        }
    }

    /// Records the last row of a tail that is being published. A tail without
    /// rows changes nothing, and need not be published.
    fn record_tail(&mut self, topic: &str, last: Option<i64>) -> (r: bool)
        ensures
            r == last is Some,
            last is None ==> final(self).last_published_t == old(self).last_published_t,
            last matches Some(t) ==> published_until(final(self).last_published_t@, topic@) == t,
            forall|other: Seq<char>|
                other != topic@ ==> #[trigger] published_until(
                    final(self).last_published_t@,
                    other,
                ) == published_until(old(self).last_published_t@, other),
            final(self).same_edits(*old(self)),
            final(self).same_requests(*old(self)),
            final(self).needs_eval == old(self).needs_eval,
            final(self).publications_in_flight == old(self).publications_in_flight,
            final(self).live_watermark_t == old(self).live_watermark_t,
            final(self).previews == old(self).previews,
            final(self).live_source == old(self).live_source,
            final(self).live_needs_reset == old(self).live_needs_reset,
    {
        let t = match last {
            Some(t) => t,
            None => {
                return false;
            },
        };
        let ghost before = self.last_published_t@;
        let n = self.published_place(topic);
        if n > 0 {
            let name = self.last_published_t[n - 1].0.clone();
            self.last_published_t.set(n - 1, (name, t));
            proof {
                let now = self.last_published_t@;
                lemma_published_update(before, n - 1, now[n - 1], topic@);
                assert(now =~= before.update(n - 1, now[n - 1]));
            }
        } else {
            self.last_published_t.push((topic.to_owned(), t));
            proof {
                let now = self.last_published_t@;
                assert(now.drop_last() =~= before);
            }
        }
        true
    }

    /// What is still to be published of the topics of a live outcome. It counts
    /// as published from now on.
    pub fn take_tails(&mut self, topics: &Vec<OutputTopic>) -> (r: Vec<Tail>)
        ensures
            r@ == tails_of(old(self).last_published_t@, topics@, topics@.len()),
            forall|name: Seq<char>| #[trigger]
                published_until(final(self).last_published_t@, name) == published_with(
                    old(self).last_published_t@,
                    topics@,
                    topics@.len(),
                    name,
                ),
            final(self).same_edits(*old(self)),
            final(self).same_requests(*old(self)),
            final(self).needs_eval == old(self).needs_eval,
            final(self).publications_in_flight == old(self).publications_in_flight,
            final(self).live_watermark_t == old(self).live_watermark_t,
            final(self).previews == old(self).previews,
            final(self).live_source == old(self).live_source,
            final(self).live_needs_reset == old(self).live_needs_reset,
    {
        let mut tails: Vec<Tail> = Vec::new();
        let mut i: usize = 0;
        while i < topics.len()
            invariant
                i <= topics@.len(),
                tails@ == tails_of(old(self).last_published_t@, topics@, i as nat),
                forall|name: Seq<char>| #[trigger]
                    published_until(self.last_published_t@, name) == published_with(
                        old(self).last_published_t@,
                        topics@,
                        i as nat,
                        name,
                    ),
                self.same_edits(*old(self)),
                self.same_requests(*old(self)),
                self.needs_eval == old(self).needs_eval,
                self.publications_in_flight == old(self).publications_in_flight,
                self.live_watermark_t == old(self).live_watermark_t,
                self.previews == old(self).previews,
                self.live_source == old(self).live_source,
                self.live_needs_reset == old(self).live_needs_reset,
            decreases topics@.len() - i,
        {
            let topic = &topics[i];
            let after = self.tail_start(topic.name.as_str());
            let from = find_row_after(&topic.times, after);
            let last = if from < topic.times.len() {
                Some(topic.times[topic.times.len() - 1])
            } else {
                None
            };
            let ghost before = self.last_published_t@;
            if self.record_tail(topic.name.as_str(), last) {
                tails.push(Tail { topic: i, from });
            }
            proof {
                assert forall|name: Seq<char>| #[trigger]
                    published_until(self.last_published_t@, name) == published_with(
                        old(self).last_published_t@,
                        topics@,
                        (i + 1) as nat,
                        name,
                    ) by {
                    assert(published_until(before, name) == published_with(
                        old(self).last_published_t@,
                        topics@,
                        i as nat,
                        name,
                    ));
                }
            }
            i = i + 1;
        }
        tails
    }

    /// The source of the live publication; `None` where it is to be opened.
    pub fn live_source(&self) -> (r: Option<SourceId>)
        ensures
            r == self.live_source,
    {
        self.live_source
    }

    /// Takes over the source that was opened for the live publication.
    pub fn live_opened(&mut self, source: SourceId)
        ensures
            final(self).live_source == match old(self).live_source {
                Some(known) => Some(known),
                None => Some(source),
            },
            final(self).same_edits(*old(self)),
            final(self).same_requests(*old(self)),
            final(self).needs_eval == old(self).needs_eval,
            final(self).publications_in_flight == old(self).publications_in_flight,
            final(self).live_watermark_t == old(self).live_watermark_t,
            final(self).previews == old(self).previews,
            final(self).last_published_t == old(self).last_published_t,
            final(self).live_needs_reset == old(self).live_needs_reset,
    {
        if self.live_source.is_none() {
            self.live_source = Some(source);
        }
    }
}

/// The sources under which graphs are published, by name.
pub struct PublishedSources {
    pub entries: Vec<(String, SourceId)>,
}

/// The first entry of a name, from `i` on.
pub open spec fn entry_index(entries: Seq<(String, SourceId)>, name: Seq<char>, i: int) -> Option<
    int,
>
    decreases entries.len() - i,
{
    if i < 0 || i >= entries.len() {
        None
    } else if entries[i].0@ == name {
        Some(i)
    } else {
        entry_index(entries, name, i + 1)
    }
}

/// A name is published under one source at most.
pub open spec fn names_differ(entries: Seq<(String, SourceId)>) -> bool {
    forall|a: int, b: int|
        0 <= a < b < entries.len() ==> (#[trigger] entries[a]).0@ != (#[trigger] entries[b]).0@
}

proof fn lemma_no_entry(entries: Seq<(String, SourceId)>, name: Seq<char>, i: int)
    requires
        0 <= i,
        entry_index(entries, name, i) is None,
    ensures
        forall|j: int| i <= j < entries.len() ==> (#[trigger] entries[j]).0@ != name,
    decreases entries.len() - i,
{
    if i < entries.len() {
        lemma_no_entry(entries, name, i + 1);
    }
}

/// What becomes of a source that has been filled.
#[derive(Clone, Copy, Debug, PartialEq, Eq, Structural)]
pub enum CommitStep {
    /// A newer request has come: the source is removed again.
    Retract,
    /// It is the first of its name.
    Keep,
    /// It takes the place of another, which is removed.
    Replace(SourceId),
}

/// Whether a publication may begin: no newer request has come.
pub fn may_publish(generation: u64, latest: u64) -> (r: bool)
    ensures
        r == (generation == latest),
{
    generation == latest
}

impl PublishedSources {
    pub fn new() -> (r: PublishedSources)
        ensures
            r.entries@.len() == 0,
            names_differ(r.entries@),
    {
        PublishedSources { entries: Vec::new() }
    }

    /// Decides what becomes of a source that has been filled for a graph.
    pub fn commit(&mut self, name: &str, source: SourceId, generation: u64, latest: u64) -> (r:
        CommitStep)
        ensures
            ({
                let at = entry_index(old(self).entries@, name@, 0);
                &&& generation != latest ==> r == CommitStep::Retract && final(self).entries@
                    == old(self).entries@
                &&& generation == latest && at is Some ==> r == CommitStep::Replace(
                    old(self).entries@[at.unwrap()].1,
                ) && final(self).entries@ == old(self).entries@.update(
                    at.unwrap(),
                    (old(self).entries@[at.unwrap()].0, source),
                )
                &&& generation == latest && at is None ==> r == CommitStep::Keep
                    && final(self).entries@.len() == old(self).entries@.len() + 1
                    && final(self).entries@.drop_last() == old(self).entries@
                    && final(self).entries@.last().0@ == name@ && final(self).entries@.last().1
                    == source
            }),
            names_differ(old(self).entries@) ==> names_differ(final(self).entries@),
    {
        if generation != latest {
            return CommitStep::Retract;
        }
        let mut i: usize = 0;
        while i < self.entries.len() && !same_text(self.entries[i].0.as_str(), name)
            invariant
                i <= self.entries@.len(),
                *self == *old(self),
                entry_index(self.entries@, name@, 0) == entry_index(
                    self.entries@,
                    name@,
                    i as int,
                ),
            ensures
                i <= self.entries@.len(),
                *self == *old(self),
                entry_index(self.entries@, name@, 0) == if i < self.entries@.len() {
                    Some(i as int)
                } else {
                    None
                },
            decreases self.entries@.len() - i,
        {
            i = i + 1;
        }
        if i < self.entries.len() {
            let previous = self.entries[i].1;
            let key = self.entries[i].0.clone();
            self.entries.set(i, (key, source));
            CommitStep::Replace(previous)
        } else {
            proof {
                lemma_no_entry(self.entries@, name@, 0);
            }
            self.entries.push((name.to_owned(), source));
            proof {
                assert(self.entries@.drop_last() =~= old(self).entries@);
            }
            CommitStep::Keep
        }
    }
}

/// The counts and times of a preview.
#[derive(Clone, Copy, Debug, PartialEq, Eq, Structural)]
pub struct PreviewCounts {
    pub count: u64,
    pub nan_count: u64,
    pub t0_us: i64,
    pub t1_us: i64,
}

/// The counts of two stretches of a signal together.
pub open spec fn merged_counts(a: PreviewCounts, b: PreviewCounts) -> PreviewCounts {
    let timed = b.t0_us != 0 || b.t1_us != 0;
    let unset = a.count == 0 && a.t0_us == 0 && a.t1_us == 0;
    PreviewCounts {
        count: (a.count + b.count) as u64,
        nan_count: (a.nan_count + b.nan_count) as u64,
        t0_us: if timed && unset { b.t0_us } else { a.t0_us },
        t1_us: if timed { b.t1_us } else { a.t1_us },
    }
}

impl PreviewCounts {
    /// Adds the counts of a later stretch.
    pub fn merge(&mut self, other: PreviewCounts)
        requires
            old(self).count + other.count <= u64::MAX,
            old(self).nan_count + other.nan_count <= u64::MAX,
        ensures
            *final(self) == merged_counts(*old(self), other),
    {
        self.nan_count = self.nan_count + other.nan_count;
        if other.t0_us != 0 || other.t1_us != 0 {
            if self.count == 0 && self.t0_us == 0 && self.t1_us == 0 {
                self.t0_us = other.t0_us;
            }
            self.t1_us = other.t1_us;
        }
        self.count = self.count + other.count;
    }
}

/// Whether a sample at `t` enters a preview of what is behind `from`.
pub open spec fn enters(t: i64, from: Option<i64>) -> bool {
    match from {
        Some(from) => t > from,
        None => true,
    }
}

/// The time of a sample, zero where the list of times is too short.
pub open spec fn sample_time(times: Seq<i64>, i: int) -> i64 {
    if i < times.len() {
        times[i]
    } else {
        0
    }
}

/// The counts of the first `n` samples, and whether any has entered.
pub open spec fn counts_upto(
    times: Seq<i64>,
    missing: Seq<bool>,
    from: Option<i64>,
    n: nat,
) -> (PreviewCounts, bool)
    decreases n,
{
    if n == 0 {
        (PreviewCounts { count: 0, nan_count: 0, t0_us: 0, t1_us: 0 }, false)
    } else {
        let (before, any) = counts_upto(times, missing, from, (n - 1) as nat);
        let t = sample_time(times, n - 1);
        if enters(t, from) {
            (
                PreviewCounts {
                    count: (before.count + if missing[n - 1] { 0int } else { 1 }) as u64,
                    nan_count: (before.nan_count + if missing[n - 1] { 1int } else { 0 }) as u64,
                    t0_us: if any { before.t0_us } else { t },
                    t1_us: t,
                },
                true,
            )
        } else {
            (before, any)
        }
    }
}

/// The counts of the samples of a signal behind `from`; `missing` marks those
/// that are not numbers.
pub fn preview_counts_from(times: &Vec<i64>, missing: &Vec<bool>, from: Option<i64>) -> (r:
    PreviewCounts)
    ensures
        r == counts_upto(times@, missing@, from, missing@.len()).0,
{
    let mut counts = PreviewCounts { count: 0, nan_count: 0, t0_us: 0, t1_us: 0 };
    let mut any = false;
    let mut i: usize = 0;
    while i < missing.len()
        invariant
            i <= missing@.len(),
            counts.count <= i,
            counts.nan_count <= i,
            counts_upto(times@, missing@, from, i as nat) == (counts, any),
        decreases missing@.len() - i,
    {
        let t: i64 = if i < times.len() {
            times[i]
        } else {
            0
        };
        let inside = match from {
            Some(from) => t > from,
            None => true,
        };
        if inside {
            if !any {
                counts.t0_us = t;
            }
            any = true;
            counts.t1_us = t;
            if missing[i] {
                counts.nan_count = counts.nan_count + 1;
            } else {
                counts.count = counts.count + 1;
            }
        }
        i = i + 1;
    }
    counts
}

proof fn lemma_progress_index(previews: Seq<PreviewProgress>, node: NodeId, port: u32, i: int)
    requires
        0 <= i,
    ensures
        match progress_index(previews, node, port, i) {
            Some(k) => i <= k < previews.len() && previews[k].node == node && previews[k].port
                == port && (forall|j: int|
                i <= j < k ==> !((#[trigger] previews[j]).node == node && previews[j].port
                    == port)),
            None => forall|j: int|
                i <= j < previews.len() ==> !((#[trigger] previews[j]).node == node
                    && previews[j].port == port),
        },
    decreases previews.len() - i,
{
    if i < previews.len() && !(previews[i].node == node && previews[i].port == port) {
        lemma_progress_index(previews, node, port, i + 1);
    }
}

/// No stretch of a signal enters a running preview twice: statistics that end
/// no later than what has been offered before are skipped.
pub proof fn previews_count_each_stretch_once(
    previews: Seq<PreviewProgress>,
    node: NodeId,
    port: u32,
    first: i64,
    second: i64,
)
    requires
        second <= first,
    ensures
        preview_step(
            previews_after(previews, node, port, Some(first)),
            node,
            port,
            Some(second),
        ) == PreviewStep::Skip,
{
    let after = previews_after(previews, node, port, Some(first));
    lemma_progress_index(previews, node, port, 0);
    lemma_progress_index(after, node, port, 0);
    match progress_index(previews, node, port, 0) {
        None => {
            assert(after[previews.len() as int].node == node);
            let k = progress_index(after, node, port, 0).unwrap();
            if k < previews.len() {
                assert(after[k] == previews[k]);
            }
        },
        Some(i) => {
            assert(after[i].node == node && after[i].port == port);
            let k = progress_index(after, node, port, 0).unwrap();
            if k < i {
                assert(after[k] == previews[k]);
            }
        },
    }
}

proof fn lemma_counts_bounded(times: Seq<i64>, missing: Seq<bool>, from: Option<i64>, n: nat)
    requires
        n <= missing.len() <= u64::MAX,
    ensures
        counts_upto(times, missing, from, n).0.count + counts_upto(
            times,
            missing,
            from,
            n,
        ).0.nan_count <= n,
        !counts_upto(times, missing, from, n).1 ==> counts_upto(times, missing, from, n).0 == (
        PreviewCounts { count: 0, nan_count: 0, t0_us: 0, t1_us: 0 }),
    decreases n,
{
    if n > 0 {
        lemma_counts_bounded(times, missing, from, (n - 1) as nat);
    }
}

proof fn lemma_counts_split(
    times: Seq<i64>,
    missing: Seq<bool>,
    mark: i64,
    k: nat,
    n: nat,
)
    requires
        k <= n <= missing.len(),
        missing.len() == times.len(),
        missing.len() <= u64::MAX,
        forall|i: int| 0 <= i < k ==> 0 < #[trigger] times[i] <= mark,
        forall|i: int| k <= i < n ==> #[trigger] times[i] > mark,
        k == 0 ==> forall|i: int| 0 <= i < n ==> 0 < #[trigger] times[i],
    ensures
        ({
            let (a, seen_a) = counts_upto(times, missing, None, k);
            let (b, seen_b) = counts_upto(times, missing, Some(mark), n);
            let (whole, seen) = counts_upto(times, missing, None, n);
            &&& seen_a == (k > 0)
            &&& seen_b == (n > k)
            &&& seen == (n > 0)
            &&& whole.count == a.count + b.count
            &&& whole.nan_count == a.nan_count + b.nan_count
            &&& seen_a ==> a.t0_us > 0 && whole.t0_us == a.t0_us
            &&& !seen_a && seen_b ==> whole.t0_us == b.t0_us
            &&& seen_b ==> b.t1_us > 0 && whole.t1_us == b.t1_us
            &&& !seen_b ==> whole == a
        }),
    decreases n,
{
    lemma_counts_bounded(times, missing, None, n);
    if n > k {
        lemma_counts_split(times, missing, mark, k, (n - 1) as nat);
        lemma_counts_bounded(times, missing, None, (n - 1) as nat);
        lemma_counts_bounded(times, missing, Some(mark), (n - 1) as nat);
        assert(times[n - 1] > mark);
        if k > 0 {
            assert(0 < times[0] <= mark);
        } else {
            assert(0 < times[n - 1]);
        }
    } else if n > 0 {
        lemma_first_counts(times, missing, mark, n);
    }
}

proof fn lemma_first_counts(times: Seq<i64>, missing: Seq<bool>, mark: i64, n: nat)
    requires
        0 < n <= missing.len(),
        missing.len() == times.len(),
        missing.len() <= u64::MAX,
        forall|i: int| 0 <= i < n ==> 0 < #[trigger] times[i] <= mark,
    ensures
        counts_upto(times, missing, None, n).1,
        counts_upto(times, missing, None, n).0.t0_us > 0,
        counts_upto(times, missing, Some(mark), n) == (
            PreviewCounts { count: 0, nan_count: 0, t0_us: 0, t1_us: 0 },
            false,
        ),
    decreases n,
{
    assert(0 < times[n - 1] <= mark);
    if n > 1 {
        lemma_first_counts(times, missing, mark, (n - 1) as nat);
    } else {
        assert(counts_upto(times, missing, None, 0) == (
            PreviewCounts { count: 0, nan_count: 0, t0_us: 0, t1_us: 0 },
            false,
        ));
        assert(counts_upto(times, missing, Some(mark), 0) == (
            PreviewCounts { count: 0, nan_count: 0, t0_us: 0, t1_us: 0 },
            false,
        ));
    }
}

/// A running preview spans the whole session: the counts up to a watermark,
/// merged with those of what lies behind it, are the counts of everything. The
/// times ascend and are positive.
pub proof fn running_previews_span_the_session(
    times: Seq<i64>,
    missing: Seq<bool>,
    mark: i64,
    k: nat,
)
    requires
        k <= missing.len(),
        missing.len() == times.len(),
        missing.len() <= u64::MAX,
        forall|i: int| 0 <= i < times.len() ==> 0 < #[trigger] times[i],
        forall|i: int| 0 <= i < k ==> #[trigger] times[i] <= mark,
        forall|i: int| k <= i < times.len() ==> #[trigger] times[i] > mark,
    ensures
        merged_counts(
            counts_upto(times, missing, None, k).0,
            counts_upto(times, missing, Some(mark), missing.len()).0,
        ) == counts_upto(times, missing, None, missing.len()).0,
{
    lemma_counts_split(times, missing, mark, k, missing.len());
    lemma_counts_bounded(times, missing, None, k);
    lemma_counts_bounded(times, missing, Some(mark), missing.len());
    lemma_counts_bounded(times, missing, None, missing.len());
}

} // verus!
