use delog_app::add_menu::AddMenuState;
use delog_app::controller::{AppliedEdit, LogLevel};
use delog_app::editor::{DataFlowEditor, EditorAction};
use delog_app::graph::{Graph, GraphCommand, Node, NodeId, NodeKind};
use delog_app::window::{
    available_copy_name, close_choice, close_request, delete_choice, duplicated_line,
    editor_request, free_name, library_request, CloseDecision, DataFlowTab, DataFlowUi, DockStep,
    LibraryAction, WorkspaceAction,
};
use std::collections::BTreeMap;

type Ui = DataFlowUi<()>;

fn node(id: u64) -> Node {
    Node {
        id: NodeId(id),
        pos: [12f32.to_bits(), 24f32.to_bits()],
        kind: NodeKind::Add,
    }
}

fn graph(name: &str, nodes: &[u64]) -> Graph {
    let mut graph = Graph::new(name);
    graph.nodes = nodes.iter().map(|id| node(*id)).collect();
    graph
}

/// A workspace with a store and a dock that has the tabs of its editors.
struct Desk {
    ui: Ui,
    files: BTreeMap<String, usize>,
    tabs: Vec<u64>,
    front: u64,
}

impl Desk {
    fn new() -> Self {
        let ui = Ui::new();
        let front = ui.active;
        Desk {
            ui,
            files: BTreeMap::new(),
            tabs: vec![front],
            front,
        }
    }

    fn store(&mut self, graph: &Graph) -> Result<(), String> {
        if graph.name.is_empty() || graph.name.contains('/') {
            return Err(format!("invalid graph name '{}'", graph.name));
        }
        self.files.insert(graph.name.clone(), graph.nodes.len());
        Ok(())
    }

    fn stored(&self) -> Vec<String> {
        self.files.keys().cloned().collect()
    }

    fn load(&self, name: &str) -> Result<Graph, String> {
        match self.files.get(name) {
            Some(count) => Ok(graph(name, &(1..=*count as u64).collect::<Vec<_>>())),
            None => Err(format!("failed to read '{name}'")),
        }
    }

    fn follow(&mut self, steps: Vec<DockStep>) {
        for step in steps {
            match step {
                DockStep::Append { id, beside } => {
                    assert!(self.tabs.contains(&beside));
                    self.tabs.push(id);
                }
                DockStep::Focus(id) => self.front = id,
                DockStep::Remove(id) => self.tabs.retain(|tab| *tab != id),
                DockStep::AskFocus => {
                    let front = self.tabs.last().copied();
                    let more = self.ui.refocus(front);
                    self.follow(more);
                }
            }
        }
        assert_eq!(self.front, self.ui.active);
        assert_eq!(
            self.tabs,
            self.ui.editors.iter().map(|e| e.id).collect::<Vec<_>>()
        );
    }

    fn open(&mut self, name: &str) -> Option<(LogLevel, String)> {
        let loaded = self.load(name);
        let (steps, line) = self.ui.edit_named(name, loaded);
        self.follow(steps);
        line
    }

    fn request_close(&mut self, id: u64) {
        let steps = self.ui.request_close(id);
        self.follow(steps);
    }

    fn new_graph(&mut self) {
        let stored = self.stored();
        let steps = self.ui.new_graph(&stored);
        self.follow(steps);
    }

    fn save(&mut self, id: u64) -> (bool, (LogLevel, String)) {
        let stored = self.stored();
        if let Some(line) = self.ui.save_refusal(id, &stored) {
            return (false, line);
        }
        let at = self.ui.find_editor(id).unwrap();
        let mut named = graph(&self.ui.editors[at].name_edit, &[]);
        named.nodes = self.ui.editors[at].controller.graph.nodes.clone();
        let outcome = self.store(&named);
        let step = self.ui.save_editor(id, &stored, outcome);
        if let Some(former) = step.remove {
            self.files.remove(&former);
        }
        (step.saved, step.line)
    }

    fn answer(&mut self, decision: CloseDecision) -> Vec<(LogLevel, String)> {
        let mut logs = Vec::new();
        let mut saved = false;
        if decision == CloseDecision::Save {
            let (ok, line) = self.save(self.ui.pending_close.unwrap());
            saved = ok;
            logs.push(line);
        }
        let message = logs.last().map(|(_, text)| text.clone());
        let steps = self.ui.close_confirm(decision, saved, message);
        self.follow(steps);
        logs
    }

    fn active(&mut self) -> &mut DataFlowEditor<()> {
        let at = self.ui.find_editor(self.ui.active).unwrap();
        &mut self.ui.editors[at]
    }
}

#[test]
fn opening_and_viewing_a_saved_flow_closes_without_save_confirmation() {
    let mut desk = Desk::new();
    desk.store(&graph("saved", &[1])).unwrap();
    desk.open("saved");
    let id = desk.ui.active;
    assert!(!desk.active().has_unsaved_changes());
    assert_eq!(desk.active().title(), "saved");
    assert!(desk.active().canvas.fit_requested());
    desk.request_close(id);
    assert_eq!(desk.ui.pending_close, None);
    assert!(desk.ui.find_editor(id).is_none());
    assert_eq!(desk.active().title(), "Untitled");
}

#[test]
fn opening_another_flow_preserves_unsaved_edits_and_undo() {
    let mut desk = Desk::new();
    desk.store(&graph("first", &[])).unwrap();
    desk.store(&graph("second", &[])).unwrap();
    desk.open("first");
    let edit = AppliedEdit {
        graph: graph("first", &[1]),
        inverse: GraphCommand::RemoveNode { id: NodeId(1) },
    };
    desk.active().controller.apply(Ok(edit)).unwrap();
    desk.active().controller.selection = vec![NodeId(1)];
    desk.open("second");
    desk.open("first");

    assert_eq!(desk.active().controller.graph.nodes.len(), 1);
    assert!(desk.active().controller.dirty);
    assert_eq!(desk.active().controller.sole_selection(), Some(NodeId(1)));
    assert!(desk.active().controller.can_undo());
}

#[test]
fn closing_data_flow_clears_open_add_menu() {
    let mut desk = Desk::new();
    desk.ui.open = true;
    desk.active().add_menu = Some(AddMenuState::new([20, 30], [4, 5]));

    desk.ui.update_open(false);

    assert!(!desk.ui.open);
    assert!(desk.active().add_menu.is_none());
    assert!(!desk.ui.attends_keys());
    desk.ui.update_open(true);
    assert!(desk.ui.attends_keys());
}

#[test]
fn opening_an_open_flow_focuses_its_existing_tab() {
    let mut desk = Desk::new();
    desk.store(&graph("first", &[])).unwrap();
    desk.store(&graph("second", &[])).unwrap();
    assert!(desk.open("first").is_none());
    let first = desk.ui.active;
    assert!(desk.open("second").is_none());
    assert!(desk.open("first").is_none());
    assert_eq!(desk.ui.active, first);
    assert_eq!(desk.ui.editors.len(), 2);
}

#[test]
fn closing_the_last_editor_replaces_it_with_a_clean_untitled_canvas() {
    let mut desk = Desk::new();
    let previous = desk.ui.active;
    desk.request_close(previous);
    assert_eq!(desk.ui.editors.len(), 1);
    assert_ne!(desk.ui.active, previous);
    assert_eq!(desk.active().title(), "Untitled");
    assert!(desk.active().controller.graph.nodes.is_empty());
    assert!(desk.active().controller.graph.edges.is_empty());
    assert!(!desk.active().controller.can_undo());
    assert_eq!(desk.ui.closed_editors.len(), 1);
}

#[test]
fn closing_an_inactive_tab_keeps_the_active_graph() {
    let mut desk = Desk::new();
    let first = desk.ui.active;
    desk.new_graph();
    let second = desk.ui.active;
    desk.request_close(first);
    assert_eq!(desk.ui.active, second);
    assert_eq!(desk.ui.editors.len(), 1);
    assert_eq!(desk.active().name_edit, "untitled 2");
}

#[test]
fn closing_the_active_tab_brings_another_to_the_front() {
    let mut desk = Desk::new();
    let first = desk.ui.active;
    desk.new_graph();
    let second = desk.ui.active;
    desk.request_close(second);
    assert_eq!(desk.ui.active, first);
    desk.new_graph();
    desk.active().add_menu = Some(AddMenuState::new([1, 2], [3, 4]));
    let steps = desk.ui.focus_editor(first);
    desk.follow(steps);
    assert!(desk.ui.editors.iter().all(|editor| editor.add_menu.is_none()));
    assert!(desk.ui.focus_editor(99).is_empty());
}

#[test]
fn workspace_tab_close_policy_protects_the_library_and_inspector() {
    let desk = Desk::new();
    for tab in [DataFlowTab::Dataflows, DataFlowTab::Inspector] {
        assert!(!tab.is_closeable());
    }
    assert!(DataFlowTab::Editor(desk.ui.active).is_closeable());
    assert!(close_request(DataFlowTab::Inspector).is_none());
    assert!(matches!(
        close_request(DataFlowTab::Editor(1)),
        Some(WorkspaceAction::Close(1))
    ));
}

#[test]
fn tabs_have_titles_and_requests() {
    let desk = Desk::new();
    let title = |tab| desk.ui.tab_title(tab);
    assert_eq!(title(DataFlowTab::Dataflows).as_deref(), Some("Dataflows"));
    assert_eq!(title(DataFlowTab::Inspector).as_deref(), Some("Inspector"));
    assert_eq!(title(DataFlowTab::Editor(1)).as_deref(), Some("Untitled"));
    assert_eq!(title(DataFlowTab::Editor(9)), None);
    assert!(desk.ui.is_marked(DataFlowTab::Editor(1)));
    assert!(!desk.ui.is_marked(DataFlowTab::Editor(2)));
    assert!(matches!(
        library_request(LibraryAction::Edit, "a".to_owned()),
        WorkspaceAction::Open(name) if name == "a"
    ));
    assert!(matches!(
        library_request(LibraryAction::Remove, "a".to_owned()),
        WorkspaceAction::Delete(_)
    ));
    assert!(matches!(editor_request(4, EditorAction::Run), WorkspaceAction::Run(4)));
}

fn cancelling_close_preserves() {
    let mut desk = Desk::new();
    let id = desk.ui.active;
    desk.active().name_edit = "draft".to_owned();
    desk.request_close(id);
    assert_eq!(desk.ui.pending_close, Some(id));
    assert_eq!(
        desk.ui.close_question().as_deref(),
        Some("Save changes to \u{201c}draft\u{201d} before closing?")
    );
    desk.request_close(id);
    desk.answer(CloseDecision::Cancel);
    assert_eq!(desk.ui.pending_close, None);
    assert_eq!(desk.ui.active, id);
    assert_eq!(desk.active().name_edit, "draft");
}

#[test]
fn window_tests_cancelling_close_preserves_the_unsaved_graph() {
    cancelling_close_preserves();
}

#[test]
fn window_store_tests_cancelling_close_preserves_the_unsaved_graph() {
    cancelling_close_preserves();
}

fn discarding_opens_untitled() {
    let mut desk = Desk::new();
    desk.active().name_edit = "draft".to_owned();
    desk.request_close(desk.ui.active);
    desk.answer(CloseDecision::Discard);
    assert_eq!(desk.ui.pending_close, None);
    assert_eq!(desk.active().title(), "Untitled");
    assert!(desk.stored().is_empty());
}

#[test]
fn window_tests_discarding_the_last_tab_opens_untitled_without_saving() {
    discarding_opens_untitled();
}

#[test]
fn window_store_tests_discarding_the_last_tab_opens_untitled_without_saving() {
    discarding_opens_untitled();
}

fn save_on_close_persists() {
    let mut desk = Desk::new();
    desk.active().name_edit = "draft".to_owned();
    desk.request_close(desk.ui.active);
    desk.answer(CloseDecision::Save);
    assert_eq!(desk.ui.pending_close, None);
    assert_eq!(desk.active().title(), "Untitled");
    assert_eq!(desk.load("draft").unwrap().name, "draft");
}

#[test]
fn window_tests_save_on_close_persists_the_document_and_replaces_the_last_tab() {
    save_on_close_persists();
}

#[test]
fn window_store_tests_save_on_close_persists_the_document_and_replaces_the_last_tab() {
    save_on_close_persists();
}

fn failed_save_keeps_the_document() {
    let mut desk = Desk::new();
    let id = desk.ui.active;
    desk.active().name_edit = "invalid/name".to_owned();
    desk.request_close(id);
    let logs = desk.answer(CloseDecision::Save);
    assert_eq!(desk.ui.pending_close, Some(id));
    assert_eq!(desk.ui.active, id);
    assert_eq!(logs.len(), 1);
    assert!(logs[0].1.contains("invalid graph name"));
    assert_eq!(desk.ui.close_error.as_ref(), Some(&logs[0].1));
}

#[test]
fn window_tests_a_failed_save_on_close_keeps_the_document_and_confirmation_open() {
    failed_save_keeps_the_document();
}

#[test]
fn window_store_tests_a_failed_save_on_close_keeps_the_document_and_confirmation_open() {
    failed_save_keeps_the_document();
}

fn save_cannot_overwrite_another_open_flow() {
    let mut desk = Desk::new();
    desk.store(&graph("first", &[])).unwrap();
    desk.store(&graph("second", &[7])).unwrap();
    desk.open("second");
    desk.open("first");
    let first = desk.ui.active;
    desk.active().name_edit = "second".to_owned();
    desk.request_close(first);
    let logs = desk.answer(CloseDecision::Save);
    assert_eq!(desk.load("second").unwrap().nodes.len(), 1);
    assert_eq!(desk.ui.pending_close, Some(first));
    assert_eq!(desk.active().loaded_name.as_deref(), Some("first"));
    assert_eq!(
        logs[0].1,
        "Data flow 'second' is already open in another tab. Choose a different name."
    );
}

#[test]
fn window_tests_save_on_close_cannot_overwrite_another_open_flow() {
    save_cannot_overwrite_another_open_flow();
}

#[test]
fn window_store_tests_save_on_close_cannot_overwrite_another_open_flow() {
    save_cannot_overwrite_another_open_flow();
}

#[test]
fn renaming_a_saved_flow_moves_its_file_instead_of_leaving_the_old_one() {
    let mut desk = Desk::new();
    desk.store(&graph("first", &[7])).unwrap();
    desk.open("first");
    let id = desk.ui.active;
    desk.active().name_edit = "renamed".to_owned();

    assert!(desk.save(id).0);

    assert_eq!(desk.stored(), vec!["renamed".to_string()]);
    assert_eq!(desk.load("renamed").unwrap().nodes.len(), 1);
    assert_eq!(desk.active().loaded_name.as_deref(), Some("renamed"));
}

#[test]
fn renaming_onto_an_existing_saved_flow_is_refused() {
    let mut desk = Desk::new();
    desk.store(&graph("first", &[])).unwrap();
    desk.store(&graph("second", &[7])).unwrap();
    desk.open("first");
    let id = desk.ui.active;
    desk.active().name_edit = "second".to_owned();

    let (saved, line) = desk.save(id);

    assert!(!saved);
    assert_eq!(desk.stored(), vec!["first".to_string(), "second".into()]);
    assert_eq!(desk.load("second").unwrap().nodes.len(), 1);
    assert_eq!(desk.active().loaded_name.as_deref(), Some("first"));
    assert!(line.1.contains("already exists"));
}

#[test]
fn opening_a_named_flow_reveals_the_window_with_that_graph_loaded() {
    let mut desk = Desk::new();
    desk.store(&graph("fusion", &[3])).unwrap();
    assert!(!desk.ui.open);

    let loaded = desk.load("fusion");
    let (steps, line) = desk.ui.open_named("fusion", loaded);
    desk.follow(steps);

    assert!(line.is_none());
    assert!(desk.ui.open);
    assert_eq!(desk.active().loaded_name.as_deref(), Some("fusion"));
    assert_eq!(desk.active().controller.graph.nodes.len(), 1);

    let loaded = desk.load("fusion");
    let (steps, line) = desk.ui.open_named("fusion", loaded);
    desk.follow(steps);
    assert!(line.is_none());
    assert_eq!(desk.ui.editors.len(), 1);
}

#[test]
fn opening_a_missing_flow_reports_the_failure() {
    let mut desk = Desk::new();
    let loaded = desk.load("absent");
    let (_, line) = desk.ui.open_named("absent", loaded);
    assert!(desk.ui.open);
    assert_eq!(line.unwrap().0, LogLevel::Error);
}

#[test]
fn deleting_a_saved_flow_leaves_its_editor_unsaved() {
    let mut desk = Desk::new();
    desk.store(&graph("first", &[7])).unwrap();
    desk.open("first");
    desk.ui.pending_delete = Some("first".to_owned());
    assert_eq!(
        desk.ui.delete_question().as_deref(),
        Some("Delete \u{201c}first\u{201d} from the library?")
    );
    assert_eq!(desk.ui.delete_confirm(false, Ok(())), None);
    assert_eq!(desk.active().loaded_name.as_deref(), Some("first"));
    desk.ui.pending_delete = Some("first".to_owned());
    assert_eq!(
        desk.ui.delete_confirm(true, Err("busy".to_owned())),
        Some((LogLevel::Error, "busy".to_owned()))
    );
    desk.ui.pending_delete = Some("first".to_owned());
    assert_eq!(
        desk.ui.delete_confirm(true, Ok(())),
        Some((LogLevel::Info, "Deleted data flow 'first'".to_owned()))
    );
    assert!(desk.active().loaded_name.is_none());
    assert!(desk.active().has_unsaved_changes());
}

#[test]
fn names_are_numbered_until_one_is_free() {
    let names = |all: &[&str]| all.iter().map(|name| name.to_string()).collect::<Vec<_>>();
    assert_eq!(available_copy_name(&names(&[]), "flow"), "flow_copy");
    assert_eq!(
        available_copy_name(&names(&["flow_copy", "flow_copy_2"]), "flow"),
        "flow_copy_3"
    );
    assert_eq!(free_name(&names(&["untitled", "untitled 3"]), "untitled", " "), "untitled 2");
    assert_eq!(
        duplicated_line("a", "a_copy"),
        (LogLevel::Info, "Duplicated data flow 'a' as 'a_copy'".to_owned())
    );
}

#[test]
fn questions_are_answered_by_their_buttons() {
    assert_eq!(close_choice(true, false, false, true), Some(CloseDecision::Save));
    assert_eq!(close_choice(true, true, false, false), Some(CloseDecision::Discard));
    assert_eq!(close_choice(false, false, true, false), Some(CloseDecision::Cancel));
    assert_eq!(close_choice(false, false, false, true), Some(CloseDecision::Cancel));
    assert_eq!(close_choice(false, false, false, false), None);
    assert_eq!(delete_choice(true, false, true), Some(true));
    assert_eq!(delete_choice(false, false, true), Some(false));
    assert_eq!(delete_choice(false, false, false), None);
}

#[test]
fn scripts_are_looked_for_in_every_open_graph() {
    let mut desk = Desk::new();
    assert!(!desk.ui.has_script_node());
    desk.active().controller.graph.nodes.push(Node {
        id: NodeId(1),
        pos: [0, 0],
        kind: NodeKind::Script(delog_app::graph::ScriptSpec {
            name: String::new(),
            inputs: Vec::new(),
            outputs: Vec::new(),
            code: String::new(),
        }),
    });
    assert!(desk.ui.has_script_node());
}
