//! The editor of one data-flow graph: its title, what it does with the events
//! of the canvas and of the menu, and when it asks for an evaluation.

use crate::add_menu::{ActionView, AddAction, AddMenuMode, AddMenuState};
use crate::canvas::{CanvasEvent, EventView};
use crate::canvas_state::{placed, GraphCanvasState};
use crate::controller::{
    existing, inner_edges, live_window, messages_for, next_generation, selected_nodes,
    targets_of, AppliedEdit, Clipboard, DataFlowController, LogLevel, QueueStep, RequestView,
};
use crate::graph::{
    command_view, command_views, has_incoming, lemma_command_push, node_index, node_models,
    CommandView, Edge, Graph, GraphCommand, KindView, Node, NodeId, NodeKind,
    NodeModel, ScriptSpec,
};
use crate::registry::{all_templates, made, templates, ADD_DATA_INDEX};
use crate::snapshot::SourceId;
use crate::text::same_text;
use vstd::prelude::*;

verus! {

/// What is put on the clipboard of the system when nodes are copied.
pub const CLIPBOARD_SENTINEL: &'static str = "delog-dataflow-clipboard";

/// The code of a script as it is being edited.
pub struct ScriptEditorState {
    pub node: NodeId,
    /// The code that the node has.
    pub baseline: String,
    pub buffer: String,
}

/// What the toolbar asks for.
#[derive(Clone, Copy, Debug, PartialEq, Eq, Structural)]
pub enum EditorAction {
    Save,
    Run,
}

/// The editor of one graph.
pub struct DataFlowEditor<S> {
    pub id: u64,
    pub controller: DataFlowController<S>,
    pub canvas: GraphCanvasState,
    pub add_menu: Option<AddMenuState>,
    pub name_edit: String,
    pub loaded_name: Option<String>,
    /// The time of the last live request, as a bit pattern.
    pub last_live_request_s: u64,
    pub last_live_epoch: u64,
    pub pending_live_publish: bool,
    pub clipboard: Clipboard,
    pub script_editor: Option<ScriptEditorState>,
}

/// The title of an editor: a new graph under its first name is untitled, and a
/// dot marks what is not saved.
pub open spec fn editor_title(
    loaded: bool,
    name_edit: Seq<char>,
    unsaved: bool,
) -> Seq<char> {
    let name = if !loaded && name_edit == "untitled"@ {
        "Untitled"@
    } else {
        name_edit
    };
    if unsaved {
        name + " \u{2022}"@
    } else {
        name
    }
}

/// Whether the code of a script differs from what its node has.
pub open spec fn script_edited(state: Option<ScriptEditorState>) -> bool {
    state matches Some(state) && state.buffer@ != state.baseline@
}

/// What an event of the canvas leads to.
pub enum EditorStep {
    Nothing,
    /// The selection has changed: the graph is evaluated.
    RequestEval,
    Apply(GraphCommand),
    /// The event is refused, with a line for the log.
    Refuse(String),
}

#[verifier::ext_equal]
pub ghost enum StepView {
    Nothing,
    RequestEval,
    Apply(CommandView),
    Refuse(Seq<char>),
}

impl View for EditorStep {
    type V = StepView;

    open spec fn view(&self) -> StepView {
        match self {
            EditorStep::Nothing => StepView::Nothing,
            EditorStep::RequestEval => StepView::RequestEval,
            EditorStep::Apply(command) => StepView::Apply(command_view(*command)),
            EditorStep::Refuse(text) => StepView::Refuse(text@),
        }
    }
}

/// The commands that remove the edges into some inputs, from the last to the
/// first.
pub open spec fn disconnects(endpoints: Seq<(NodeId, u32)>) -> Seq<CommandView> {
    Seq::new(
        endpoints.len(),
        |i: int|
            {
                let end = endpoints[endpoints.len() - 1 - i];
                CommandView::Disconnect { to: end.0, to_port: end.1 }
            },
    )
}

/// Removes the edges into some inputs as one step, from the last to the first.
pub fn disconnect_many_command(endpoints: &Vec<(NodeId, u32)>) -> (r: GraphCommand)
    ensures
        command_view(r) == CommandView::Batch(disconnects(endpoints@)),
{
    let ghost all = disconnects(endpoints@);
    let mut commands: Vec<GraphCommand> = Vec::new();
    let count: usize = endpoints.len();
    let mut i: usize = 0;
    proof {
        assert(all.take(0) =~= Seq::<CommandView>::empty());
    }
    while i < count
        invariant
            i <= count == endpoints@.len(),
            all == disconnects(endpoints@),
            command_views(commands, commands@.len()) == all.take(i as int),
        decreases count - i,
    {
        let (to, to_port) = endpoints[count - 1 - i];
        let command = GraphCommand::Disconnect { to, to_port };
        let ghost before = commands;
        commands.push(command);
        proof {
            lemma_command_push(before, commands, command);
            assert(all.take(i + 1) =~= all.take(i as int).push(all[i as int]));
        }
        i = i + 1;
    }
    proof {
        assert(all.take(i as int) =~= all);
    }
    GraphCommand::Batch(commands)
}

/// What an event of the canvas leads to. `refusal` says why the graph does not
/// take a connection.
pub open spec fn event_step(
    event: EventView,
    edges: Seq<Edge>,
    refusal: Option<Seq<char>>,
) -> StepView {
    match event {
        EventView::Select(_) => StepView::RequestEval,
        EventView::Moved { id, from, to } => StepView::Apply(
            CommandView::Batch(seq![CommandView::MoveNode { id, to }]),
        ),
        EventView::Connect { from, from_port, to, to_port } => match refusal {
            Some(text) => StepView::Refuse("Cannot connect nodes: "@ + text),
            None => StepView::Apply(
                CommandView::Connect { edge: Edge { from, from_port, to, to_port } },
            ),
        },
        EventView::Disconnect { to, to_port } => if has_incoming(edges, to, to_port) {
            StepView::Apply(CommandView::Disconnect { to, to_port })
        } else {
            StepView::Nothing
        },
        EventView::DisconnectMany { endpoints } => if endpoints.len() > 0 {
            StepView::Apply(CommandView::Batch(disconnects(endpoints)))
        } else {
            StepView::Nothing
        },
        EventView::Delete(id) => StepView::Apply(CommandView::RemoveNode { id }),
        EventView::OpenAddMenu { .. } => StepView::Nothing,
        EventView::EditKind { id, kind } => StepView::Apply(CommandView::SetKind { id, kind }),
    }
}

/// What a choice of the menu adds.
pub open spec fn added_kind(action: ActionView) -> Option<KindView> {
    match action {
        ActionView::Template(index) => if index == ADD_DATA_INDEX {
            None
        } else {
            Some(made(all_templates()[index as int].blueprint))
        },
        ActionView::Data(hit) => Some(KindView::DataField(hit.selector)),
        ActionView::Close => None,
    }
}

/// What the keys ask for.
#[derive(Clone, Copy, Debug, PartialEq, Eq, Structural)]
pub struct ShortcutKeys {
    pub copy: bool,
    pub paste: bool,
    pub delete: bool,
}

/// A key event that the editor reads.
#[derive(Clone, Copy, Debug, PartialEq, Eq, Structural)]
pub enum KeyEvent {
    Copy,
    Cut,
    Paste,
    /// The delete or the backspace key; whether it went down.
    Delete { pressed: bool },
    Other,
}

/// What the events of a frame ask for.
pub open spec fn keys_asked(events: Seq<KeyEvent>) -> ShortcutKeys {
    ShortcutKeys {
        copy: events.contains(KeyEvent::Copy) || events.contains(KeyEvent::Cut),
        paste: events.contains(KeyEvent::Paste),
        delete: events.contains(KeyEvent::Delete { pressed: true }),
    }
}

/// What the events of a frame ask for.
pub fn shortcut_keys(events: &Vec<KeyEvent>) -> (r: ShortcutKeys)
    ensures
        r == keys_asked(events@),
{
    let mut keys = ShortcutKeys { copy: false, paste: false, delete: false };
    let mut i: usize = 0;
    while i < events.len()
        invariant
            i <= events@.len(),
            keys.copy == exists|j: int|
                0 <= j < i && (#[trigger] events@[j] == KeyEvent::Copy || events@[j]
                    == KeyEvent::Cut),
            keys.paste == exists|j: int| 0 <= j < i && #[trigger] events@[j] == KeyEvent::Paste,
            keys.delete == exists|j: int|
                0 <= j < i && #[trigger] events@[j] == (KeyEvent::Delete { pressed: true }),
        decreases events@.len() - i,
    {
        match events[i] {
            KeyEvent::Copy | KeyEvent::Cut => {
                keys.copy = true;
            },
            KeyEvent::Paste => {
                keys.paste = true;
            },
            KeyEvent::Delete { pressed: true } => {
                keys.delete = true;
            },
            _ => {},
        }
        i = i + 1;
    }
    keys
}

/// When a live request is due: the store has changed since the last, and the
/// interval between requests has passed.
pub fn should_tick_live(interval_passed: bool, epoch: u64, last_epoch: u64) -> (r: bool)
    ensures
        r == (epoch != last_epoch && interval_passed),
{
    epoch != last_epoch && interval_passed
}

/// What the toolbar offers.
pub struct ToolbarState {
    pub can_save: bool,
    pub can_undo: bool,
    pub can_redo: bool,
    pub has_selection: bool,
    /// The button that runs the graph gives way to a sign that it is running.
    pub running: bool,
    pub run_hint: &'static str,
}

/// What one round of an editor has led to.
pub struct DriveOutcome<S> {
    /// A live source that is to be closed.
    pub closed: Option<SourceId>,
    pub request: Option<QueueStep<S>>,
}

/// The state of the store that an editor is driven with.
pub struct DriveInput<S> {
    pub input: S,
    pub epoch: u64,
    pub snapshot_max: Option<i64>,
    pub overlap_us: i64,
    /// The time, as a bit pattern.
    pub now_s: u64,
    pub interval_passed: bool,
    pub live_connected: bool,
    /// The generation of the latest request of any graph.
    pub latest: u64,
}

impl<S> DataFlowEditor<S> {
    /// The history is bounded and nothing is selected twice.
    pub open spec fn well_formed(self) -> bool {
        self.controller.well_formed()
    }

    /// Everything but the controller is that of `other`.
    pub open spec fn same_surroundings(self, other: Self) -> bool {
        &&& self.id == other.id
        &&& self.canvas == other.canvas
        &&& self.add_menu == other.add_menu
        &&& self.name_edit == other.name_edit
        &&& self.loaded_name == other.loaded_name
        &&& self.last_live_request_s == other.last_live_request_s
        &&& self.last_live_epoch == other.last_live_epoch
        &&& self.pending_live_publish == other.pending_live_publish
        &&& self.clipboard == other.clipboard
        &&& self.script_editor == other.script_editor
    }

    /// An editor of a graph; a graph with nodes is shown whole.
    pub fn new(id: u64, graph: Graph, loaded_name: Option<String>) -> (r: DataFlowEditor<S>)
        ensures
            is_fresh(r, id, graph, loaded_name),
    {
        let mut canvas = GraphCanvasState::default();
        canvas.reset(&graph);
        if graph.nodes.len() > 0 {
            canvas.request_fit();
        }
        let name_edit = graph.name.clone();
        DataFlowEditor {
            id,
            controller: DataFlowController::new(graph),
            canvas,
            add_menu: None,
            name_edit,
            loaded_name,
            last_live_request_s: 0,
            last_live_epoch: 0,
            pending_live_publish: false,
            clipboard: Clipboard { nodes: Vec::new(), edges: Vec::new() },
            script_editor: None,
        }
    }

    /// Whether something is not saved: the graph, its name, or a script.
    pub open spec fn is_unsaved(self) -> bool {
        script_edited(self.script_editor) || self.controller.dirty || self.name_edit@
            != self.controller.graph.name@
    }

    /// Whether something is not saved: the graph, its name, or a script.
    pub fn has_unsaved_changes(&self) -> (r: bool)
        ensures
            r == self.is_unsaved(),
    {
        if let Some(state) = &self.script_editor {
            if !same_text(state.buffer.as_str(), state.baseline.as_str()) {
                return true;
            }
        }
        self.controller.dirty || !same_text(
            self.name_edit.as_str(),
            self.controller.graph.name.as_str(),
        )
    }

    /// The title of the editor's tab.
    pub fn title(&self) -> (r: String)
        ensures
            r@ == editor_title(self.loaded_name is Some, self.name_edit@, self.is_unsaved()),
    {
        let mut title = if self.loaded_name.is_none() && same_text(
            self.name_edit.as_str(),
            "untitled",
        ) {
            "Untitled".to_owned()
        } else {
            self.name_edit.clone()
        };
        if self.has_unsaved_changes() {
            title.append(" \u{2022}");
        }
        title
    }

    /// Takes over the outcome of an edit, with a line for the log where it
    /// failed.
    pub fn apply(&mut self, outcome: Result<AppliedEdit, String>) -> (r: Option<
        (LogLevel, String),
    >)
        requires
            old(self).well_formed(),
        ensures
            final(self).well_formed(),
            final(self).same_surroundings(*old(self)),
            outcome matches Err(error) ==> final(self).controller == old(self).controller && (
            r matches Some(line) && line.0 == LogLevel::Error && line.1@
                == "Data-flow edit failed: "@ + error@),
            outcome matches Ok(edit) ==> {
                &&& r is None
                &&& final(self).controller.edited(old(self).controller, edit)
                &&& final(self).controller.selection@ == existing(
                    old(self).controller.selection@,
                    edit.graph.nodes@,
                )
            },
    {
        match self.controller.apply(outcome) {
            Ok(()) => None,
            Err(error) => {
                let mut text = "Data-flow edit failed: ".to_owned();
                text.append(error.as_str());
                Some((LogLevel::Error, text))
            },
        }
    }

    /// Takes a choice of the menu. Choosing data turns to the list of fields;
    /// another choice closes the menu, and the result is the node to add, under
    /// the id `id`. Without a choice the menu stays open.
    pub fn take_menu_action(&mut self, action: Option<AddAction>, id: NodeId) -> (r: Option<
        GraphCommand,
    >)
        requires
            action matches Some(AddAction::Template(index)) ==> index == ADD_DATA_INDEX || index
                < all_templates().len(),
        ensures
            final(self).controller == old(self).controller,
            final(self).id == old(self).id,
            final(self).canvas == old(self).canvas,
            final(self).name_edit == old(self).name_edit,
            final(self).loaded_name == old(self).loaded_name,
            final(self).last_live_request_s == old(self).last_live_request_s,
            final(self).last_live_epoch == old(self).last_live_epoch,
            final(self).pending_live_publish == old(self).pending_live_publish,
            final(self).clipboard == old(self).clipboard,
            final(self).script_editor == old(self).script_editor,
            old(self).add_menu is None ==> r is None && final(self).add_menu is None,
            old(self).add_menu matches Some(menu) ==> match action {
                None => r is None && final(self).add_menu == Some(menu),
                Some(action) => {
                    &&& r matches Some(command) ==> added_kind(action@) is Some && command_view(
                        command,
                    ) == (CommandView::AddNode {
                        node: NodeModel {
                            id,
                            pos: menu.canvas_pos,
                            kind: added_kind(action@).unwrap(),
                        },
                    })
                    &&& r is None ==> added_kind(action@) is None
                    &&& action@ == ActionView::Template(ADD_DATA_INDEX) ==> final(self).add_menu
                        == Some(
                        AddMenuState {
                            mode: AddMenuMode::Data,
                            highlighted: 0,
                            focus_requested: true,
                            ..menu
                        },
                    )
                    &&& action@ != ActionView::Template(ADD_DATA_INDEX) ==> {
                        final(self).add_menu is None
                    }
                },
            },
    {
        let mut menu = match self.add_menu.take() {
            Some(menu) => menu,
            None => {
                return None;
            },
        };
        match action {
            Some(AddAction::Template(index)) => {
                if index == ADD_DATA_INDEX {
                    menu.mode = AddMenuMode::Data;
                    menu.highlighted = 0;
                    menu.focus_requested = true;
                    self.add_menu = Some(menu);
                    return None;
                }
                let all = templates();
                proof {
                    assert(all@[index as int]@ == all_templates()[index as int]);
                }
                Some(
                    GraphCommand::AddNode {
                        node: Node { id, pos: menu.canvas_pos, kind: all[index].make() },
                    },
                )
            },
            Some(AddAction::Data(hit)) => Some(
                GraphCommand::AddNode {
                    node: Node {
                        id,
                        pos: menu.canvas_pos,
                        kind: NodeKind::DataField(hit.selector),
                    },
                },
            ),
            Some(AddAction::Close) => None,
            None => {
                self.add_menu = Some(menu);
                None
            },
        }
    }

    /// Takes over the outcome of adding a node from the menu. The node is
    /// selected in any case.
    pub fn added(&mut self, outcome: Result<AppliedEdit, String>, id: NodeId) -> (r: Option<
        (LogLevel, String),
    >)
        requires
            old(self).well_formed(),
        ensures
            final(self).well_formed(),
            final(self).same_surroundings(*old(self)),
            final(self).controller.selection@ == seq![id],
            outcome matches Err(error) ==> final(self).controller == (DataFlowController {
                selection: final(self).controller.selection,
                ..old(self).controller
            }) && (r matches Some(line) && line.0 == LogLevel::Error && line.1@
                == "Data-flow edit failed: "@ + error@),
            outcome matches Ok(edit) ==> r is None && final(self).controller.edited(
                old(self).controller,
                edit,
            ),
    {
        let line = self.apply(outcome);
        let mut selection: Vec<NodeId> = Vec::new();
        selection.push(id);
        self.controller.selection = selection;
        proof {
            assert(self.controller.selection@ =~= seq![id]);
        }
        line
    }

    /// Takes an event of the canvas. `refusal` says why the graph does not take
    /// a connection.
    pub fn handle_canvas_event(&mut self, event: CanvasEvent, refusal: Option<String>) -> (r:
        EditorStep)
        requires
            old(self).well_formed(),
        ensures
            final(self).well_formed(),
            r@ == event_step(
                event@,
                old(self).controller.graph.edges@,
                match refusal {
                    Some(text) => Some(text@),
                    None => None,
                },
            ),
            final(self).controller == (DataFlowController {
                selection: final(self).controller.selection,
                ..old(self).controller
            }),
            final(self).same_surroundings(
                DataFlowEditor {
                    controller: final(self).controller,
                    add_menu: final(self).add_menu,
                    ..*old(self)
                },
            ),
            match event {
                CanvasEvent::Select(None) => final(self).controller.selection@ == Seq::<
                    NodeId,
                >::empty(),
                CanvasEvent::Select(Some(id)) => final(self).controller.selection@ == seq![id],
                _ => final(self).controller.selection == old(self).controller.selection,
            },
            match event {
                CanvasEvent::OpenAddMenu { canvas_pos, screen_pos } => final(self).add_menu matches Some(menu) && menu.screen_pos == screen_pos
                    && menu.canvas_pos == canvas_pos && menu.query@.len() == 0 && menu.mode
                    == AddMenuMode::Templates && menu.highlighted == 0 && menu.focus_requested
                    && !menu.dismiss_armed,
                _ => final(self).add_menu == old(self).add_menu,
            },
    {
        match event {
            CanvasEvent::Select(selected) => {
                let mut selection: Vec<NodeId> = Vec::new();
                if let Some(id) = selected {
                    selection.push(id);
                    proof {
                        assert(selection@ =~= seq![id]);
                    }
                }
                self.controller.selection = selection;
                EditorStep::RequestEval
            },
            CanvasEvent::Moved { id, from: _, to } => {
                let mut commands: Vec<GraphCommand> = Vec::new();
                let command = GraphCommand::MoveNode { id, to };
                let ghost before = commands;
                commands.push(command);
                proof {
                    lemma_command_push(before, commands, command);
                    assert(command_views(commands, commands@.len()) =~= seq![
                        CommandView::MoveNode { id, to },
                    ]);
                }
                EditorStep::Apply(GraphCommand::Batch(commands))
            },
            CanvasEvent::Connect { from, from_port, to, to_port } => match refusal {
                Some(error) => {
                    let mut text = "Cannot connect nodes: ".to_owned();
                    text.append(error.as_str());
                    EditorStep::Refuse(text)
                },
                None => EditorStep::Apply(
                    GraphCommand::Connect { edge: Edge { from, from_port, to, to_port } },
                ),
            },
            CanvasEvent::Disconnect { to, to_port } => {
                if self.controller.graph.is_connected(to, to_port) {
                    EditorStep::Apply(GraphCommand::Disconnect { to, to_port })
                } else {
                    EditorStep::Nothing
                }
            },
            CanvasEvent::DisconnectMany { endpoints } => {
                if endpoints.len() > 0 {
                    EditorStep::Apply(disconnect_many_command(&endpoints))
                } else {
                    EditorStep::Nothing
                }
            },
            CanvasEvent::Delete(id) => EditorStep::Apply(GraphCommand::RemoveNode { id }),
            CanvasEvent::OpenAddMenu { canvas_pos, screen_pos } => {
                self.add_menu = Some(AddMenuState::new(screen_pos, canvas_pos));
                EditorStep::Nothing
            },
            CanvasEvent::EditKind { id, kind } => EditorStep::Apply(
                GraphCommand::SetKind { id, kind },
            ),
        }
    }

    /// The nodes about which there is a diagnostic.
    pub fn issue_nodes(&self) -> (r: Vec<NodeId>)
        ensures
            r@ == nodes_with_issues(*self, self.controller.graph.nodes@.len()),
    {
        let nodes = &self.controller.graph.nodes;
        let mut out: Vec<NodeId> = Vec::new();
        let mut i: usize = 0;
        while i < nodes.len()
            invariant
                i <= nodes@.len(),
                *nodes == self.controller.graph.nodes,
                out@ == nodes_with_issues(*self, i as nat),
            decreases nodes@.len() - i,
        {
            if self.controller.diagnostics_for(nodes[i].id).len() > 0 {
                out.push(nodes[i].id);
            }
            i = i + 1;
        }
        out
    }

    /// Takes the keys of a frame, unless a text field wants them or the pointer
    /// is elsewhere. Copies right away; the result says what else is to be
    /// done, in this order: put the sentinel on the system's clipboard, paste,
    /// delete what is selected then, which after a paste is what was pasted.
    pub fn handle_shortcuts(
        &mut self,
        keys: ShortcutKeys,
        window_active: bool,
        wants_keyboard: bool,
    ) -> (r: ShortcutKeys)
        ensures
            ({
                let active = window_active && !wants_keyboard;
                let copied = active && keys.copy;
                &&& copied ==> node_models(final(self).clipboard.nodes@) == selected_nodes(
                    old(self).controller.graph.nodes@,
                    old(self).controller.selection@,
                    old(self).controller.graph.nodes@.len(),
                ) && final(self).clipboard.edges@ == inner_edges(
                    old(self).controller.graph.edges@,
                    node_models(final(self).clipboard.nodes@),
                    old(self).controller.graph.edges@.len(),
                )
                &&& !copied ==> final(self).clipboard == old(self).clipboard
                &&& r.copy == (copied && final(self).clipboard.nodes@.len() > 0)
                &&& r.paste == (active && keys.paste && final(self).clipboard.nodes@.len() > 0)
                &&& r.delete == (active && keys.delete && (r.paste
                    || old(self).controller.selection@.len() > 0))
            }),
            final(self).controller == old(self).controller,
            final(self).same_surroundings(
                DataFlowEditor { clipboard: final(self).clipboard, ..*old(self) },
            ),
    {
        if !window_active || wants_keyboard {
            return ShortcutKeys { copy: false, paste: false, delete: false };
        }
        if keys.copy {
            self.clipboard = self.controller.copy_selection();
        }
        let paste = keys.paste && !self.clipboard.is_empty();
        ShortcutKeys {
            copy: keys.copy && !self.clipboard.is_empty(),
            paste,
            delete: keys.delete && (paste || self.controller.selection.len() > 0),
        }
    }

    /// One round: ends a live publication that no longer holds, and asks for
    /// an evaluation where one is due.
    pub fn drive(&mut self, given: DriveInput<S>) -> (r: DriveOutcome<S>)
        ensures
            ({
                let before = old(self).controller;
                let after = final(self).controller;
                let ended = ends_live(before, given.live_connected);
                let tick = given.live_connected && given.epoch != old(self).last_live_epoch
                    && given.interval_passed;
                let published = before.live_source is Some && !ended;
                let seeds = tick && old(self).pending_live_publish && !published;
                let mark = if ended || seeds {
                    None
                } else {
                    before.live_watermark_t
                };
                let asked = !given.live_connected && before.needs_eval;
                &&& r.closed == if ended {
                    before.live_source
                } else {
                    None
                }
                &&& after.live_source == if ended {
                    None
                } else {
                    before.live_source
                }
                &&& after.live_watermark_t == mark
                &&& ended || seeds ==> after.last_published_t@.len() == 0 && after.previews@.len()
                    == 0
                &&& !ended && !seeds ==> after.last_published_t == before.last_published_t
                    && after.previews == before.previews
                &&& !after.live_needs_reset
                &&& final(self).pending_live_publish == (given.live_connected && !tick && (old(self).pending_live_publish))
                &&& final(self).last_live_epoch == if tick {
                    given.epoch
                } else {
                    old(self).last_live_epoch
                }
                &&& final(self).last_live_request_s == if tick {
                    given.now_s
                } else {
                    old(self).last_live_request_s
                }
                &&& r.request is Some <==> tick || asked
                &&& tick || asked ==> after.queued(
                    before,
                    r.request.unwrap(),
                    RequestView {
                        generation: next_generation(given.latest),
                        targets: targets_of(before.graph.nodes@, before.selection@),
                        input: given.input,
                        publish: tick && (published || old(self).pending_live_publish),
                        window: if tick {
                            live_window(mark, given.snapshot_max, given.overlap_us)
                        } else {
                            None
                        },
                        live: tick,
                        preview_from_t: if tick {
                            mark
                        } else {
                            None
                        },
                        snapshot_max_t: if tick {
                            given.snapshot_max
                        } else {
                            None
                        },
                    },
                ) && after.generation == next_generation(given.latest) && !after.needs_eval
                &&& !(tick || asked) ==> after.same_requests(before) && after.needs_eval
                    == before.needs_eval
                &&& after.same_edits(before)
                &&& after.diagnostics == before.diagnostics
                &&& after.publications_in_flight == before.publications_in_flight
            }),
            final(self).same_surroundings(
                DataFlowEditor {
                    controller: final(self).controller,
                    pending_live_publish: final(self).pending_live_publish,
                    last_live_epoch: final(self).last_live_epoch,
                    last_live_request_s: final(self).last_live_request_s,
                    ..*old(self)
                },
            ),
    {
        let mut closed: Option<SourceId> = None;
        if !given.live_connected && self.controller.is_live_published() {
            closed = self.controller.reset_live();
        }
        if !given.live_connected {
            self.pending_live_publish = false;
        }
        if self.controller.take_needs_live_reset() {
            let source = self.controller.reset_live();
            if closed.is_none() {
                closed = source;
            }
        }
        if given.live_connected {
            if !should_tick_live(given.interval_passed, given.epoch, self.last_live_epoch) {
                return DriveOutcome { closed, request: None };
            }
            if self.pending_live_publish && !self.controller.is_live_published() {
                self.controller.reset_live();
            }
            let append = self.controller.is_live_published() || self.pending_live_publish;
            self.pending_live_publish = false;
            let step = self.controller.request_live(
                given.input,
                given.snapshot_max,
                given.overlap_us,
                append,
                given.latest,
            );
            self.last_live_request_s = given.now_s;
            self.last_live_epoch = given.epoch;
            return DriveOutcome { closed, request: Some(step) };
        }
        if self.controller.needs_eval() {
            let step = self.controller.request_eval(given.input, given.latest);
            return DriveOutcome { closed, request: Some(step) };
        }
        DriveOutcome { closed, request: None }
    }

    /// What the toolbar offers.
    pub fn toolbar(&self, live_connected: bool) -> (r: ToolbarState)
        ensures
            r.can_save == (self.name_edit@.len() > 0),
            r.can_undo == (self.controller.undo@.len() > 0),
            r.can_redo == (self.controller.redo@.len() > 0),
            r.has_selection == (self.controller.selection@.len() > 0),
            r.running == (!live_connected && (self.controller.in_flight
                || self.controller.pending is Some || self.controller.publications_in_flight
                > 0)),
            r.run_hint@ == if live_connected {
                "Run (publish live output)"@
            } else {
                "Run"@
            },
    {
        ToolbarState {
            can_save: self.name_edit.as_str().unicode_len() > 0,
            can_undo: self.controller.can_undo(),
            can_redo: self.controller.can_redo(),
            has_selection: self.controller.selection.len() > 0,
            running: !live_connected && self.controller.is_evaluating(),
            run_hint: if live_connected {
                "Run (publish live output)"
            } else {
                "Run"
            },
        }
    }

    /// Takes over the name where the field for it has been left.
    pub fn commit_name(&mut self, lost_focus: bool)
        ensures
            ({
                let renamed = lost_focus && old(self).name_edit@
                    != old(self).controller.graph.name@;
                final(self).controller == if renamed {
                    DataFlowController {
                        graph: Graph {
                            name: old(self).name_edit,
                            ..old(self).controller.graph
                        },
                        dirty: true,
                        ..old(self).controller
                    }
                } else {
                    old(self).controller
                }
            }),
            final(self).same_surroundings(*old(self)),
    {
        if lost_focus && !same_text(self.name_edit.as_str(), self.controller.graph.name.as_str()) {
            self.controller.graph.name = self.name_edit.clone();
            self.controller.dirty = true;
        }
    }

    /// Runs the graph under its name: publishes it now, or with the next live
    /// request.
    pub fn run(&mut self, input: S, live_connected: bool, latest: u64) -> (r: Option<QueueStep<S>>)
        ensures
            ({
                let before = old(self).controller;
                let after = final(self).controller;
                let named = Graph { name: old(self).name_edit, ..before.graph };
                &&& after.graph == named
                &&& r is None <==> live_connected
                &&& live_connected ==> after == (DataFlowController { graph: named, ..before })
                &&& !live_connected ==> {
                    &&& after.queued(
                        before,
                        r.unwrap(),
                        RequestView {
                            generation: next_generation(latest),
                            targets: targets_of(before.graph.nodes@, before.selection@),
                            input,
                            publish: true,
                            window: None,
                            live: false,
                            preview_from_t: None,
                            snapshot_max_t: None,
                        },
                    )
                    &&& after.generation == next_generation(latest)
                    &&& !after.needs_eval
                    &&& after.same_edits(DataFlowController { graph: named, ..before })
                    &&& after.diagnostics == before.diagnostics
                    &&& after.live_needs_reset == before.live_needs_reset
                    &&& after.same_publications(before)
                }
            }),
            final(self).pending_live_publish == (old(self).pending_live_publish
                || live_connected),
            final(self).same_surroundings(
                DataFlowEditor {
                    controller: final(self).controller,
                    pending_live_publish: final(self).pending_live_publish,
                    ..*old(self)
                },
            ),
    {
        self.controller.graph.name = self.name_edit.clone();
        if live_connected {
            self.pending_live_publish = true;
            None
        } else {
            Some(self.controller.request_publish(input, latest))
        }
    }

    /// The edit that gives a script the code that is in its editor, where that
    /// differs from what the script has.
    pub fn script_change(&self) -> (r: Option<GraphCommand>)
        ensures
            match r {
                Some(command) => script_update(*self) == Some(command_view(command)),
                None => script_update(*self) is None,
            },
    {
        let state = match &self.script_editor {
            Some(state) => state,
            None => {
                return None;
            },
        };
        if same_text(state.buffer.as_str(), state.baseline.as_str()) {
            return None;
        }
        let at = match self.controller.graph.find_node(state.node) {
            Some(at) => at,
            None => {
                return None;
            },
        };
        let copy = self.controller.graph.nodes[at].kind.duplicate();
        match copy {
            NodeKind::Script(spec) => Some(
                GraphCommand::SetKind {
                    id: state.node,
                    kind: NodeKind::Script(
                        ScriptSpec {
                            name: spec.name,
                            inputs: spec.inputs,
                            outputs: spec.outputs,
                            code: state.buffer.clone(),
                        },
                    ),
                },
            ),
            _ => None,
        }
    }

    /// Takes over the outcome of that edit; a failure is for the log.
    pub fn script_changed(&mut self, outcome: Result<AppliedEdit, String>) -> (r: Result<
        (),
        String,
    >)
        requires
            old(self).well_formed(),
        ensures
            final(self).well_formed(),
            outcome matches Err(error) ==> r == Err::<(), String>(error) && *final(self)
                == *old(self),
            outcome matches Ok(edit) ==> {
                &&& r is Ok
                &&& final(self).controller.edited(old(self).controller, edit)
                &&& final(self).controller.selection@ == existing(
                    old(self).controller.selection@,
                    edit.graph.nodes@,
                )
                &&& !script_edited(final(self).script_editor)
                &&& match old(self).script_editor {
                    Some(state) => final(self).script_editor == Some(
                        ScriptEditorState { baseline: state.buffer, ..state },
                    ),
                    None => final(self).script_editor is None,
                }
                &&& final(self).same_surroundings(
                    DataFlowEditor {
                        controller: final(self).controller,
                        script_editor: final(self).script_editor,
                        ..*old(self)
                    },
                )
            },
    {
        match self.controller.apply(outcome) {
            Ok(()) => {
                if let Some(state) = self.script_editor.take() {
                    let baseline = state.buffer.clone();
                    self.script_editor = Some(
                        ScriptEditorState { node: state.node, baseline, buffer: state.buffer },
                    );
                }
                Ok(())
            },
            Err(error) => Err(error),
        }
    }

    /// Takes over the outcome of writing the graph under its name to the store,
    /// with a line for the log. Returns whether it is saved.
    pub fn save(&mut self, outcome: Result<(), String>) -> (r: (bool, (LogLevel, String)))
        ensures
            ({
                let named = Graph { name: old(self).name_edit, ..old(self).controller.graph };
                match outcome {
                    Ok(()) => {
                        &&& r.0
                        &&& r.1.0 == LogLevel::Info
                        &&& r.1.1@ == "Saved data flow '"@ + old(self).name_edit@ + "'"@
                        &&& final(self).controller == (DataFlowController {
                            graph: named,
                            dirty: false,
                            ..old(self).controller
                        })
                        &&& final(self).loaded_name == Some(old(self).name_edit)
                        &&& final(self).is_unsaved() == script_edited(old(self).script_editor)
                    },
                    Err(error) => {
                        &&& !r.0
                        &&& r.1 == (LogLevel::Error, error)
                        &&& final(self).controller == (DataFlowController {
                            graph: named,
                            ..old(self).controller
                        })
                        &&& final(self).loaded_name == old(self).loaded_name
                    },
                }
            }),
            final(self).same_surroundings(
                DataFlowEditor {
                    controller: final(self).controller,
                    loaded_name: final(self).loaded_name,
                    ..*old(self)
                },
            ),
    {
        self.controller.graph.name = self.name_edit.clone();
        match outcome {
            Ok(()) => {
                self.controller.dirty = false;
                self.loaded_name = Some(self.controller.graph.name.clone());
                let mut text = "Saved data flow '".to_owned();
                text.append(self.controller.graph.name.as_str());
                text.append("'");
                (true, (LogLevel::Info, text))
            },
            Err(error) => (false, (LogLevel::Error, error)),
        }
    }
}

/// A new editor of a graph: nothing has been done, nothing is selected, and a
/// graph with nodes is to be shown whole.
pub open spec fn is_fresh<S>(
    editor: DataFlowEditor<S>,
    id: u64,
    graph: Graph,
    loaded_name: Option<String>,
) -> bool {
    let controller = editor.controller;
    let canvas = editor.canvas;
    &&& editor.well_formed()
    &&& !editor.is_unsaved()
    &&& editor.id == id
    &&& editor.name_edit == graph.name
    &&& editor.loaded_name == loaded_name
    &&& editor.add_menu is None
    &&& editor.last_live_request_s == 0
    &&& editor.last_live_epoch == 0
    &&& !editor.pending_live_publish
    &&& editor.clipboard.nodes@.len() == 0
    &&& editor.clipboard.edges@.len() == 0
    &&& editor.script_editor is None
    &&& controller.graph == graph
    &&& controller.is_initial()
    &&& canvas.viewport == graph.viewport
    &&& canvas.viewport_initialized
    &&& canvas.layout@ == placed(Map::empty(), Map::empty(), graph.nodes@, graph.nodes@.len())
    &&& canvas.edge_start is None
    &&& canvas.selected_edges@.len() == 0
    &&& canvas.drag_origins@ == Map::<u64, [u32; 2]>::empty()
    &&& canvas.pending_positions@ == Map::<u64, [u32; 2]>::empty()
    &&& canvas.fit_requested == (graph.nodes@.len() > 0)
}

/// The first `n` nodes about which there is a diagnostic.
pub open spec fn nodes_with_issues<S>(editor: DataFlowEditor<S>, n: nat) -> Seq<NodeId>
    decreases n,
{
    if n == 0 {
        Seq::empty()
    } else {
        let rest = nodes_with_issues(editor, (n - 1) as nat);
        let id = editor.controller.graph.nodes@[n - 1].id;
        if messages_for(editor.controller.diagnostics@, id).len() > 0 {
            rest.push(id)
        } else {
            rest
        }
    }
}

/// Whether a round ends the live publication: the connection is gone, or an
/// edit has made it obsolete.
pub open spec fn ends_live<S>(controller: DataFlowController<S>, live_connected: bool) -> bool {
    !live_connected && controller.live_source is Some || controller.live_needs_reset
}

/// The edit that saving a script's code takes.
pub open spec fn script_update<S>(editor: DataFlowEditor<S>) -> Option<CommandView> {
    match editor.script_editor {
        Some(state) => if state.buffer@ == state.baseline@ {
            None
        } else {
            match node_index(editor.controller.graph.nodes@, state.node, 0) {
                Some(at) => match editor.controller.graph.nodes@[at].kind@ {
                    KindView::Script { name, inputs, outputs, code } => Some(
                        CommandView::SetKind {
                            id: state.node,
                            kind: KindView::Script { name, inputs, outputs, code: state.buffer@ },
                        },
                    ),
                    _ => None,
                },
                None => None,
            }
        },
        None => None,
    }
}

/// The line for the log about something that failed.
pub fn failure_line(what: &str, error: &str) -> (r: (LogLevel, String))
    ensures
        r.0 == LogLevel::Error,
        r.1@ == what@ + " failed: "@ + error@,
{
    let mut text = what.to_owned();
    text.append(" failed: ");
    text.append(error);
    (LogLevel::Error, text)
}

} // verus!
