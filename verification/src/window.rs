//! The workspace of data-flow graphs: which editors are open, which of them is
//! in front, and what is asked before one is closed or a graph is deleted.

use crate::controller::{DataFlowController, LogLevel};
use crate::editor::{editor_title, is_fresh, DataFlowEditor, EditorAction};
use crate::graph::{copy_optional, Graph, NodeKind, Viewport, UNIT_ZOOM};
use crate::text::{decimal, has_text, push_decimal, same_text, views};
use vstd::prelude::*;

verus! {

/// A tab of the workspace.
#[derive(Clone, Copy, Debug, PartialEq, Eq, Structural)]
pub enum DataFlowTab {
    Dataflows,
    Editor(u64),
    Inspector,
}

impl DataFlowTab {
    /// Only editors can be closed.
    pub fn is_closeable(self) -> (r: bool)
        ensures
            r == (self is Editor),
    {
        match self {
            DataFlowTab::Editor(_) => true,
            _ => false,
        }
    }
}

/// What is to be done with an editor that is being closed.
#[derive(Clone, Copy, Debug, PartialEq, Eq, Structural)]
pub enum CloseDecision {
    Save,
    Discard,
    Cancel,
}

/// What is done with a saved graph in the library.
#[derive(Clone, Copy, Debug, PartialEq, Eq, Structural)]
pub enum LibraryAction {
    Load,
    Edit,
    Duplicate,
    Remove,
}

/// What the tabs of the workspace ask for.
pub enum WorkspaceAction {
    New,
    Open(String),
    Duplicate(String),
    Delete(String),
    Close(u64),
    Save(u64),
    Run(u64),
}

/// What an action of the library asks for.
pub fn library_request(action: LibraryAction, name: String) -> (r: WorkspaceAction)
    ensures
        r == match action {
            LibraryAction::Load => WorkspaceAction::Open(name),
            LibraryAction::Edit => WorkspaceAction::Open(name),
            LibraryAction::Duplicate => WorkspaceAction::Duplicate(name),
            LibraryAction::Remove => WorkspaceAction::Delete(name),
        },
{
    match action {
        LibraryAction::Load | LibraryAction::Edit => WorkspaceAction::Open(name),
        LibraryAction::Duplicate => WorkspaceAction::Duplicate(name),
        LibraryAction::Remove => WorkspaceAction::Delete(name),
    }
}

/// What an action of an editor asks for.
pub fn editor_request(id: u64, action: EditorAction) -> (r: WorkspaceAction)
    ensures
        r == match action {
            EditorAction::Save => WorkspaceAction::Save(id),
            EditorAction::Run => WorkspaceAction::Run(id),
        },
{
    match action {
        EditorAction::Save => WorkspaceAction::Save(id),
        EditorAction::Run => WorkspaceAction::Run(id),
    }
}

/// What the close button of a tab asks for; only editors have one.
pub fn close_request(tab: DataFlowTab) -> (r: Option<WorkspaceAction>)
    ensures
        r == match tab {
            DataFlowTab::Editor(id) => Some(WorkspaceAction::Close(id)),
            _ => None,
        },
{
    match tab {
        DataFlowTab::Editor(id) => Some(WorkspaceAction::Close(id)),
        _ => None,
    }
}

/// A change of the tabs that are shown.
#[derive(Clone, Copy, Debug, PartialEq, Eq, Structural)]
pub enum DockStep {
    /// A tab for the editor comes beside the tab of another.
    Append { id: u64, beside: u64 },
    Focus(u64),
    Remove(u64),
    /// The tab that is in front now is to be told to the workspace.
    AskFocus,
}

/// What has come of saving an editor.
pub struct SaveStep {
    pub saved: bool,
    pub line: (LogLevel, String),
    /// The name under which the graph is to be removed from the store.
    pub remove: Option<String>,
}

/// The workspace.
pub struct DataFlowUi<S> {
    pub open: bool,
    /// The open editors, in the order in which they were opened.
    pub editors: Vec<DataFlowEditor<S>>,
    pub active: u64,
    pub next_id: u64,
    pub pending_close: Option<u64>,
    pub close_error: Option<String>,
    pub pending_delete: Option<String>,
    /// Closed editors whose evaluations are still to be stopped.
    pub closed_editors: Vec<DataFlowEditor<S>>,
}

/// Where the editor stands, from `i` on.
pub open spec fn editor_index<S>(editors: Seq<DataFlowEditor<S>>, id: u64, i: int) -> Option<int>
    decreases editors.len() - i,
{
    if i < 0 || i >= editors.len() {
        None
    } else if editors[i].id == id {
        Some(i)
    } else {
        editor_index(editors, id, i + 1)
    }
}

/// Whether the editor is open.
pub open spec fn is_open<S>(editors: Seq<DataFlowEditor<S>>, id: u64) -> bool {
    editor_index(editors, id, 0) is Some
}

proof fn lemma_editor_index<S>(editors: Seq<DataFlowEditor<S>>, id: u64, i: int)
    requires
        0 <= i,
    ensures
        match editor_index(editors, id, i) {
            Some(k) => i <= k < editors.len() && editors[k].id == id && (forall|j: int|
                i <= j < k ==> (#[trigger] editors[j]).id != id),
            None => forall|j: int| i <= j < editors.len() ==> (#[trigger] editors[j]).id != id,
        },
    decreases editors.len() - i,
{
    if i < editors.len() && editors[i].id != id {
        lemma_editor_index(editors, id, i + 1);
    }
}

/// The editor without its menu.
pub open spec fn without_menu<S>(editor: DataFlowEditor<S>) -> DataFlowEditor<S> {
    DataFlowEditor { add_menu: None, ..editor }
}

/// The editors after another one has come to the front: the menu of the one
/// that was there is closed.
pub open spec fn after_activation<S>(
    editors: Seq<DataFlowEditor<S>>,
    active: u64,
    id: u64,
) -> Seq<DataFlowEditor<S>> {
    if active != id && is_open(editors, id) {
        match editor_index(editors, active, 0) {
            Some(k) => editors.update(k, without_menu(editors[k])),
            None => editors,
        }
    } else {
        editors
    }
}

/// A name followed by a number.
pub open spec fn numbered(base: Seq<char>, separator: Seq<char>, n: nat) -> Seq<char> {
    base + separator + decimal(n)
}

/// The first of `base`, then `base` with 2, 3 and so on, that is not taken.
pub open spec fn is_free_name(
    taken: Seq<Seq<char>>,
    base: Seq<char>,
    separator: Seq<char>,
    name: Seq<char>,
) -> bool {
    if !taken.contains(base) {
        name == base
    } else {
        exists|n: nat|
            2 <= n && !taken.contains(#[trigger] numbered(base, separator, n)) && name == numbered(
                base,
                separator,
                n,
            ) && (forall|m: nat| 2 <= m < n ==> taken.contains(#[trigger] numbered(base, separator, m)))
    }
}

/// Enough different numbers make one name that is not taken.
proof fn lemma_names_run_out(
    taken: Seq<Seq<char>>,
    base: Seq<char>,
    separator: Seq<char>,
    n: nat,
)
    requires
        2 <= n,
        forall|m: nat| 2 <= m < n ==> taken.contains(#[trigger] numbered(base, separator, m)),
    ensures
        n - 2 <= taken.len(),
{
    let tried = Seq::new((n - 2) as nat, |i: int| numbered(base, separator, (i + 2) as nat));
    assert(tried.no_duplicates()) by {
        assert forall|i: int, j: int|
            0 <= i < tried.len() && 0 <= j < tried.len() && i != j implies tried[i] != tried[j] by {
            if tried[i] == tried[j] {
                let prefix = (base + separator).len() as int;
                let a = decimal((i + 2) as nat);
                let b = decimal((j + 2) as nat);
                assert(a =~= tried[i].skip(prefix));
                assert(b =~= tried[j].skip(prefix));
                crate::text::decimals_are_distinct((i + 2) as nat, (j + 2) as nat);
            }
        }
    }
    tried.unique_seq_to_set();
    taken.lemma_cardinality_of_set();
    vstd::seq_lib::seq_to_set_is_finite(taken);
    assert(tried.to_set().subset_of(taken.to_set())) by {
        assert forall|x: Seq<char>| tried.to_set().contains(x) implies taken.to_set().contains(
            x,
        ) by {
            let i = choose|i: int| 0 <= i < tried.len() && tried[i] == x;
            assert(taken.contains(numbered(base, separator, (i + 2) as nat)));
        }
    }
    vstd::set_lib::lemma_len_subset(tried.to_set(), taken.to_set());
}

/// The first of `base`, then `base` with 2, 3 and so on, that is not taken.
pub fn free_name(taken: &Vec<String>, base: &str, separator: &str) -> (r: String)
    requires
        taken@.len() + 2 < usize::MAX,
    ensures
        is_free_name(views(taken@), base@, separator@, r@),
{
    let ghost all = views(taken@);
    if !has_text(taken, base) {
        return base.to_owned();
    }
    let mut n: u64 = 2;
    loop
        invariant
            2 <= n,
            n - 2 <= all.len(),
            all == views(taken@),
            all.contains(base@),
            taken@.len() + 2 < usize::MAX,
            forall|m: nat|
                2 <= m < n ==> all.contains(#[trigger] numbered(base@, separator@, m)),
        decreases all.len() + 2 - n,
    {
        let mut name = base.to_owned();
        name.append(separator);
        push_decimal(&mut name, n);
        if !has_text(taken, name.as_str()) {
            proof {
                assert(name@ == numbered(base@, separator@, n as nat));
            }
            return name;
        }
        proof {
            assert forall|m: nat| 2 <= m < n + 1 implies all.contains(
                #[trigger] numbered(base@, separator@, m),
            ) by {
                if m == n {
                    assert(name@ == numbered(base@, separator@, m));
                }
            }
            lemma_names_run_out(all, base@, separator@, (n + 1) as nat);
        }
        n = n + 1;
    }
}

/// The name for a copy of a graph.
pub fn available_copy_name(existing: &Vec<String>, name: &str) -> (r: String)
    requires
        existing@.len() + 2 < usize::MAX,
    ensures
        is_free_name(views(existing@), name@ + "_copy"@, "_"@, r@),
{
    let mut base = name.to_owned();
    base.append("_copy");
    free_name(existing, base.as_str(), "_")
}

/// A free name is not taken.
pub proof fn free_names_are_not_taken(
    taken: Seq<Seq<char>>,
    base: Seq<char>,
    separator: Seq<char>,
    name: Seq<char>,
)
    requires
        is_free_name(taken, base, separator, name),
    ensures
        !taken.contains(name),
{
}

/// A graph without nodes, under a name.
pub open spec fn is_blank(graph: Graph, name: Seq<char>) -> bool {
    &&& graph.name@ == name
    &&& graph.nodes@.len() == 0
    &&& graph.edges@.len() == 0
    &&& graph.viewport == (Viewport { offset: [0, 0], zoom: UNIT_ZOOM })
}

impl<S> DataFlowUi<S> {
    /// There is an editor, the editors stand in the order of their ids, and the
    /// next id is behind them.
    pub open spec fn well_formed(self) -> bool {
        &&& self.editors@.len() > 0
        &&& forall|i: int, j: int|
            0 <= i < j < self.editors@.len() ==> (#[trigger] self.editors@[i]).id < (
            #[trigger] self.editors@[j]).id
        &&& forall|i: int|
            0 <= i < self.editors@.len() ==> (#[trigger] self.editors@[i]).id < self.next_id
        &&& forall|i: int|
            0 <= i < self.editors@.len() ==> (#[trigger] self.editors@[i]).well_formed()
    }

    /// The editor in front is open.
    pub open spec fn has_front(self) -> bool {
        is_open(self.editors@, self.active)
    }

    /// What has come of taking an editor away from the workspace `before`: the
    /// last one makes way for an empty graph, and the others close up. One that
    /// is not open leaves all as it is.
    pub open spec fn closed(self, before: Self, id: u64, steps: Seq<DockStep>) -> bool {
        match editor_index(before.editors@, id, 0) {
            None => {
                &&& steps == Seq::<DockStep>::empty()
                &&& self.editors == before.editors
                &&& self.active == before.active
                &&& self.next_id == before.next_id
                &&& self.closed_editors == before.closed_editors
            },
            Some(k) => if before.editors@.len() == 1 {
                &&& steps == seq![
                    DockStep::Append { id: before.next_id, beside: id },
                    DockStep::Focus(before.next_id),
                    DockStep::Remove(id),
                ]
                &&& self.editors@.len() == 1
                &&& is_fresh(
                    self.editors@[0],
                    before.next_id,
                    self.editors@[0].controller.graph,
                    None,
                )
                &&& is_blank(self.editors@[0].controller.graph, "untitled"@)
                &&& self.active == before.next_id
                &&& self.next_id == before.next_id + 1
                &&& self.closed_editors@ == before.closed_editors@.push(
                    without_menu(before.editors@[k]),
                )
                &&& self.has_front()
            } else {
                &&& steps == if before.active == id {
                    seq![DockStep::Remove(id), DockStep::AskFocus]
                } else {
                    seq![DockStep::Remove(id)]
                }
                &&& self.editors@ == before.editors@.remove(k)
                &&& self.active == before.active
                &&& self.next_id == before.next_id
                &&& self.closed_editors@ == before.closed_editors@.push(before.editors@[k])
                &&& self.has_front() == (before.active != id)
            },
        }
    }

    /// What has come of opening a saved graph in the workspace `before`. One that
    /// is open already comes to the front; otherwise what the store has loaded
    /// does, in place of an only editor that holds nothing.
    pub open spec fn opened(
        self,
        before: Self,
        name: Seq<char>,
        loaded: Result<Graph, String>,
        steps: Seq<DockStep>,
        line: Option<(LogLevel, String)>,
    ) -> bool {
        match (loaded_as(before.editors@, name, 0), loaded) {
            (Some(id), _) => {
                &&& steps == seq![DockStep::Focus(id)]
                &&& line is None
                &&& self.active == id
                &&& self.editors@ == after_activation(before.editors@, before.active, id)
                &&& self.next_id == before.next_id
                &&& self.closed_editors == before.closed_editors
            },
            (None, Err(error)) => {
                &&& steps == Seq::<DockStep>::empty()
                &&& line == Some((LogLevel::Error, error))
                &&& self.active == before.active
                &&& self.editors == before.editors
                &&& self.next_id == before.next_id
                &&& self.closed_editors == before.closed_editors
            },
            (None, Ok(graph)) => {
                let added = self.editors@.last();
                let first = seq![
                    DockStep::Append { id: before.next_id, beside: before.active },
                    DockStep::Focus(before.next_id),
                ];
                &&& line is None
                &&& self.active == before.next_id
                &&& self.next_id == before.next_id + 1
                &&& added.loaded_name matches Some(text) && text@ == name
                &&& is_fresh(added, before.next_id, graph, added.loaded_name)
                &&& has_only_blank(before) ==> {
                    &&& self.editors@.len() == 1
                    &&& self.closed_editors@ == before.closed_editors@.push(
                        without_menu(before.editors@[0]),
                    )
                    &&& steps == first.push(DockStep::Remove(before.active))
                }
                &&& !has_only_blank(before) ==> {
                    &&& self.editors@.len() == before.editors@.len() + 1
                    &&& self.editors@.drop_last() == menu_closed(before.editors@, before.active)
                    &&& self.closed_editors == before.closed_editors
                    &&& steps == first
                }
            },
        }
    }

    /// What is asked, and what has been closed, is as in `other`.
    pub open spec fn same_questions(self, other: Self) -> bool {
        &&& self.open == other.open
        &&& self.pending_close == other.pending_close
        &&& self.close_error == other.close_error
        &&& self.pending_delete == other.pending_delete
        &&& self.closed_editors == other.closed_editors
    }

    /// A workspace with one empty graph.
    pub fn new() -> (r: DataFlowUi<S>)
        ensures
            r.well_formed(),
            r.has_front(),
            !r.open,
            r.editors@.len() == 1,
            is_blank(r.editors@[0].controller.graph, "untitled"@),
            is_fresh(r.editors@[0], 1, r.editors@[0].controller.graph, None),
            r.active == 1,
            r.next_id == 2,
            r.pending_close is None,
            r.close_error is None,
            r.pending_delete is None,
            r.closed_editors@.len() == 0,
    {
        let mut editors: Vec<DataFlowEditor<S>> = Vec::new();
        editors.push(DataFlowEditor::new(1, Graph::new("untitled"), None));
        let ui = DataFlowUi {
            open: false,
            editors,
            active: 1,
            next_id: 2,
            pending_close: None,
            close_error: None,
            pending_delete: None,
            closed_editors: Vec::new(),
        };
        proof {
            lemma_editor_index(ui.editors@, 1, 0);
            assert(ui.editors@[0].id == 1);
        }
        ui
    }

    /// Where an editor stands.
    pub fn find_editor(&self, id: u64) -> (r: Option<usize>)
        ensures
            editor_index(self.editors@, id, 0) == match r {
                Some(i) => Some(i as int),
                None => None,
            },
            r matches Some(i) ==> i < self.editors@.len() && self.editors@[i as int].id == id,
    {
        let mut i: usize = 0;
        while i < self.editors.len()
            invariant
                i <= self.editors@.len(),
                editor_index(self.editors@, id, 0) == editor_index(self.editors@, id, i as int),
            decreases self.editors@.len() - i,
        {
            if self.editors[i].id == id {
                return Some(i);
            }
            i = i + 1;
        }
        None
    }

    /// The title of a tab; an editor that is not open has none.
    pub fn tab_title(&self, tab: DataFlowTab) -> (r: Option<String>)
        ensures
            match tab {
                DataFlowTab::Dataflows => r matches Some(text) && text@ == "Dataflows"@,
                DataFlowTab::Inspector => r matches Some(text) && text@ == "Inspector"@,
                DataFlowTab::Editor(id) => match editor_index(self.editors@, id, 0) {
                    Some(k) => r matches Some(text) && text@ == editor_title(
                        self.editors@[k].loaded_name is Some,
                        self.editors@[k].name_edit@,
                        self.editors@[k].is_unsaved(),
                    ),
                    None => r is None,
                },
            },
    {
        match tab {
            DataFlowTab::Dataflows => Some("Dataflows".to_owned()),
            DataFlowTab::Inspector => Some("Inspector".to_owned()),
            DataFlowTab::Editor(id) => match self.find_editor(id) {
                Some(k) => Some(self.editors[k].title()),
                None => None,
            },
        }
    }

    /// Whether a tab is marked as the one in front.
    pub fn is_marked(&self, tab: DataFlowTab) -> (r: bool)
        ensures
            r == match tab {
                DataFlowTab::Editor(id) => id == self.active,
                _ => true,
            },
    {
        match tab {
            DataFlowTab::Editor(id) => id == self.active,
            _ => true,
        }
    }

    /// Whether any open graph holds a script.
    pub fn has_script_node(&self) -> (r: bool)
        ensures
            r == exists|i: int|
                0 <= i < self.editors@.len() && holds_script(
                    (#[trigger] self.editors@[i]).controller.graph,
                ),
    {
        let mut i: usize = 0;
        while i < self.editors.len()
            invariant
                i <= self.editors@.len(),
                forall|j: int|
                    0 <= j < i ==> !holds_script((#[trigger] self.editors@[j]).controller.graph),
            decreases self.editors@.len() - i,
        {
            if graph_holds_script(&self.editors[i].controller.graph) {
                return true;
            }
            i = i + 1;
        }
        false
    }

    /// Brings an open editor to the front. The menu of the one that was there
    /// is closed.
    pub fn activate(&mut self, id: u64)
        requires
            old(self).well_formed(),
        ensures
            final(self).well_formed(),
            final(self).editors@ == after_activation(old(self).editors@, old(self).active, id),
            final(self).active == if is_open(old(self).editors@, id) {
                id
            } else {
                old(self).active
            },
            final(self).has_front() == (old(self).has_front() || is_open(old(self).editors@, id)),
            final(self).next_id == old(self).next_id,
            final(self).same_questions(*old(self)),
    {
        proof {
            lemma_editor_index(self.editors@, id, 0);
            lemma_editor_index(self.editors@, self.active, 0);
        }
        if self.active != id && self.find_editor(id).is_some() {
            if let Some(k) = self.find_editor(self.active) {
                self.editors[k].add_menu = None;
                proof {
                    assert(self.editors@ =~= old(self).editors@.update(
                        k as int,
                        without_menu(old(self).editors@[k as int]),
                    ));
                    lemma_same_ids(old(self).editors@, self.editors@, id, 0);
                }
            }
            self.active = id;
        }
    }

    /// Brings an open editor to the front, in the dock too.
    pub fn focus_editor(&mut self, id: u64) -> (r: Vec<DockStep>)
        requires
            old(self).well_formed(),
        ensures
            final(self).well_formed(),
            r@ == if is_open(old(self).editors@, id) {
                seq![DockStep::Focus(id)]
            } else {
                Seq::empty()
            },
            final(self).editors@ == after_activation(old(self).editors@, old(self).active, id),
            final(self).active == if is_open(old(self).editors@, id) {
                id
            } else {
                old(self).active
            },
            final(self).has_front() == (old(self).has_front() || is_open(old(self).editors@, id)),
            final(self).next_id == old(self).next_id,
            final(self).same_questions(*old(self)),
    {
        let mut steps: Vec<DockStep> = Vec::new();
        if self.find_editor(id).is_some() {
            steps.push(DockStep::Focus(id));
            self.activate(id);
        }
        proof {
            if is_open(old(self).editors@, id) {
                assert(steps@ =~= seq![DockStep::Focus(id)]);
            }
        }
        steps
    }

    /// Opens an editor of a graph beside the one in front, and brings it there.
    pub fn add_editor(&mut self, graph: Graph, loaded_name: Option<String>) -> (r: Vec<DockStep>)
        requires
            old(self).well_formed(),
            old(self).has_front(),
            old(self).next_id < u64::MAX,
        ensures
            final(self).well_formed(),
            final(self).has_front(),
            r@ == seq![
                DockStep::Append { id: old(self).next_id, beside: old(self).active },
                DockStep::Focus(old(self).next_id),
            ],
            final(self).editors@.len() == old(self).editors@.len() + 1,
            final(self).editors@.drop_last() == menu_closed(old(self).editors@, old(self).active),
            is_fresh(final(self).editors@.last(), old(self).next_id, graph, loaded_name),
            final(self).active == old(self).next_id,
            final(self).next_id == old(self).next_id + 1,
            final(self).same_questions(*old(self)),
    {
        let id: u64 = self.next_id;
        let beside: u64 = self.active;
        self.next_id = id + 1;
        self.editors.push(DataFlowEditor::new(id, graph, loaded_name));
        proof {
            let now = self.editors@;
            let before = old(self).editors@;
            assert(now.drop_last() =~= before);
            assert forall|i: int| 0 <= i < before.len() implies (#[trigger] now[i]) == before[i] by {}
            lemma_editor_index(now, id, 0);
            assert(now[before.len() as int].id == id);
            lemma_editor_index(now, beside, 0);
            lemma_editor_index(before, beside, 0);
        }
        let ghost extended = self.editors@;
        self.activate(id);
        proof {
            let before = old(self).editors@;
            let k = editor_index(before, beside, 0).unwrap();
            let k2 = editor_index(extended, beside, 0).unwrap();
            assert(extended[k].id == beside);
            if k2 < k {
                assert(before[k2].id == beside);
            }
            assert(self.editors@.drop_last() =~= menu_closed(before, beside));
        }
        let mut steps: Vec<DockStep> = Vec::new();
        steps.push(DockStep::Append { id, beside });
        steps.push(DockStep::Focus(id));
        proof {
            assert(steps@ =~= seq![DockStep::Append { id, beside }, DockStep::Focus(id)]);
        }
        steps
    }

    /// Opens an editor of an empty graph under a name that neither a saved nor
    /// an open graph has.
    pub fn new_graph(&mut self, stored: &Vec<String>) -> (r: Vec<DockStep>)
        requires
            old(self).well_formed(),
            old(self).has_front(),
            old(self).next_id < u64::MAX,
            stored@.len() + old(self).editors@.len() + 2 < usize::MAX,
        ensures
            final(self).well_formed(),
            final(self).has_front(),
            r@ == seq![
                DockStep::Append { id: old(self).next_id, beside: old(self).active },
                DockStep::Focus(old(self).next_id),
            ],
            final(self).editors@.len() == old(self).editors@.len() + 1,
            final(self).editors@.drop_last() == menu_closed(old(self).editors@, old(self).active),
            ({
                let added = final(self).editors@.last();
                &&& is_fresh(added, old(self).next_id, added.controller.graph, None)
                &&& is_blank(added.controller.graph, added.controller.graph.name@)
                &&& is_free_name(
                    views(stored@) + open_names(old(self).editors@),
                    "untitled"@,
                    " "@,
                    added.controller.graph.name@,
                )
            }),
            final(self).active == old(self).next_id,
            final(self).next_id == old(self).next_id + 1,
            final(self).same_questions(*old(self)),
    {
        let mut names: Vec<String> = Vec::new();
        let mut i: usize = 0;
        proof {
            assert(views(names@) =~= views(stored@).take(0));
        }
        while i < stored.len()
            invariant
                i <= stored@.len(),
                names@.len() == i,
                views(names@) == views(stored@).take(i as int),
            decreases stored@.len() - i,
        {
            let ghost before = names@;
            names.push(stored[i].clone());
            proof {
                assert(views(names@) =~= views(before).push(stored@[i as int]@));
                assert(views(stored@).take(i + 1) =~= views(stored@).take(i as int).push(
                    stored@[i as int]@,
                ));
            }
            i = i + 1;
        }
        let ghost opened = open_names(self.editors@);
        proof {
            assert(views(stored@).take(i as int) =~= views(stored@));
            assert(views(stored@) + opened.take(0) =~= views(stored@));
        }
        let mut j: usize = 0;
        while j < self.editors.len()
            invariant
                j <= self.editors@.len(),
                *self == *old(self),
                opened == open_names(self.editors@),
                names@.len() == stored@.len() + j,
                views(names@) == views(stored@) + opened.take(j as int),
            decreases self.editors@.len() - j,
        {
            let ghost before = names@;
            names.push(self.editors[j].name_edit.clone());
            proof {
                assert(views(names@) =~= views(before).push(opened[j as int]));
                assert(opened.take(j + 1) =~= opened.take(j as int).push(opened[j as int]));
                assert(views(names@) =~= views(stored@) + opened.take(j + 1));
            }
            j = j + 1;
        }
        proof {
            assert(opened.take(j as int) =~= opened);
        }
        let name = free_name(&names, "untitled", " ");
        self.add_editor(Graph::new(name.as_str()), None)
    }

    /// The editor in which a saved graph is open.
    pub fn find_loaded(&self, name: &str) -> (r: Option<u64>)
        ensures
            r == loaded_as(self.editors@, name@, 0),
    {
        let mut i: usize = 0;
        while i < self.editors.len()
            invariant
                i <= self.editors@.len(),
                loaded_as(self.editors@, name@, 0) == loaded_as(self.editors@, name@, i as int),
            decreases self.editors@.len() - i,
        {
            if let Some(loaded) = &self.editors[i].loaded_name {
                if same_text(loaded.as_str(), name) {
                    return Some(self.editors[i].id);
                }
            }
            i = i + 1;
        }
        None
    }

    /// Whether the only editor holds nothing worth keeping: an unnamed graph
    /// without nodes.
    pub fn only_blank(&self) -> (r: bool)
        ensures
            r == has_only_blank(*self),
    {
        if self.editors.len() != 1 {
            return false;
        }
        let editor = &self.editors[0];
        editor.loaded_name.is_none() && same_text(editor.name_edit.as_str(), "untitled")
            && editor.controller.graph.nodes.len() == 0 && !editor.has_unsaved_changes()
    }

    /// Takes an editor away. The last one makes way for an empty graph. Where
    /// it was in front, the dock is asked what is there now.
    pub fn close_editor(&mut self, id: u64) -> (r: Vec<DockStep>)
        requires
            old(self).well_formed(),
            old(self).has_front(),
            old(self).next_id < u64::MAX,
        ensures
            final(self).well_formed(),
            final(self).open == old(self).open,
            final(self).pending_close == old(self).pending_close,
            final(self).close_error == old(self).close_error,
            final(self).pending_delete == old(self).pending_delete,
            final(self).closed(*old(self), id, r@),
    {
        let k = match self.find_editor(id) {
            Some(k) => k,
            None => {
                return Vec::new();
            },
        };
        proof {
            lemma_editor_index(old(self).editors@, id, 0);
            lemma_editor_index(old(self).editors@, old(self).active, 0);
        }
        let single = self.editors.len() == 1;
        let mut steps: Vec<DockStep> = if single {
            self.add_editor(Graph::new("untitled"), None)
        } else {
            Vec::new()
        };
        let ghost grown = *self;
        let editor = self.editors.remove(k);
        self.closed_editors.push(editor);
        steps.push(DockStep::Remove(id));
        if self.active == id {
            steps.push(DockStep::AskFocus);
        }
        proof {
            lemma_editor_index(self.editors@, self.active, 0);
            let before = old(self).editors@;
            if single {
                assert(grown.editors@.drop_last()[0] == menu_closed(before, old(self).active)[0]);
                assert(self.editors@[0] == grown.editors@[1]);
                assert(grown.editors@[0] == without_menu(before[0]));
                assert(steps@ =~= seq![
                    DockStep::Append { id: old(self).next_id, beside: id },
                    DockStep::Focus(old(self).next_id),
                    DockStep::Remove(id),
                ]);
            } else {
                assert(self.editors@ =~= before.remove(k as int));
                let front = editor_index(before, old(self).active, 0).unwrap();
                if old(self).active != id {
                    let at = if front < k { front } else { front - 1 };
                    assert(self.editors@[at].id == old(self).active);
                    assert(steps@ =~= seq![DockStep::Remove(id)]);
                } else {
                    assert(front == k);
                    assert forall|j: int| 0 <= j < self.editors@.len() implies (
                    #[trigger] self.editors@[j]).id != id by {
                        if j < k {
                            assert(before[j].id < before[k as int].id);
                        } else {
                            assert(self.editors@[j] == before[j + 1]);
                            assert(before[k as int].id < before[j + 1].id);
                        }
                    }
                    assert(steps@ =~= seq![DockStep::Remove(id), DockStep::AskFocus]);
                }
            }
        }
        steps
    }

    /// Takes over which editor the dock has in front after one was taken away;
    /// where it has none there, the first comes to the front.
    pub fn refocus(&mut self, front: Option<u64>) -> (r: Vec<DockStep>)
        requires
            old(self).well_formed(),
            front matches Some(id) ==> is_open(old(self).editors@, id),
        ensures
            final(self).well_formed(),
            final(self).has_front(),
            final(self).active == match front {
                Some(id) => id,
                None => old(self).editors@[0].id,
            },
            r@ == seq![DockStep::Focus(final(self).active)],
            final(self).editors == old(self).editors,
            final(self).next_id == old(self).next_id,
            final(self).same_questions(*old(self)),
    {
        let next: u64 = match front {
            Some(id) => id,
            None => self.editors[0].id,
        };
        proof {
            lemma_editor_index(self.editors@, next, 0);
            assert(self.editors@[0].id == self.editors@[0].id);
        }
        self.active = next;
        let mut steps: Vec<DockStep> = Vec::new();
        steps.push(DockStep::Focus(next));
        proof {
            assert(steps@ =~= seq![DockStep::Focus(next)]);
        }
        steps
    }

    /// Opens a saved graph. One that is open already comes to the front.
    /// Otherwise what the store has loaded is shown, in place of an only editor
    /// that holds nothing; an error is for the log.
    pub fn edit_named(&mut self, name: &str, loaded: Result<Graph, String>) -> (r: (
        Vec<DockStep>,
        Option<(LogLevel, String)>,
    ))
        requires
            old(self).well_formed(),
            old(self).has_front(),
            old(self).next_id < u64::MAX - 1,
        ensures
            final(self).well_formed(),
            final(self).has_front(),
            final(self).opened(*old(self), name@, loaded, r.0@, r.1),
            final(self).open == old(self).open,
            final(self).pending_close == old(self).pending_close,
            final(self).close_error == old(self).close_error,
            final(self).pending_delete == old(self).pending_delete,
    {
        if let Some(id) = self.find_loaded(name) {
            proof {
                lemma_loaded_is_open(self.editors@, name@, 0);
            }
            return (self.focus_editor(id), None);
        }
        match loaded {
            Err(error) => (Vec::new(), Some((LogLevel::Error, error))),
            Ok(graph) => {
                let blank = self.only_blank();
                let previous: u64 = self.active;
                proof {
                    lemma_editor_index(old(self).editors@, previous, 0);
                }
                let mut steps = self.add_editor(graph, Some(name.to_owned()));
                let ghost grown = *self;
                if blank {
                    proof {
                        assert(grown.editors@.drop_last()[0] == menu_closed(
                            old(self).editors@,
                            previous,
                        )[0]);
                        assert(grown.editors@[0].id == previous);
                        assert(editor_index(grown.editors@, previous, 0) == Some(0int));
                    }
                    let mut more = self.close_editor(previous);
                    steps.append(&mut more);
                    proof {
                        assert(self.editors@[0] == grown.editors@[1]);
                        lemma_editor_index(self.editors@, self.active, 0);
                        assert(self.editors@[0].id == self.active);
                        assert(steps@ =~= seq![
                            DockStep::Append { id: old(self).next_id, beside: previous },
                            DockStep::Focus(old(self).next_id),
                        ].push(DockStep::Remove(previous)));
                    }
                }
                (steps, None)
            },
        }
    }

    /// Says so where another tab has the name of this editor's graph.
    pub fn name_available(&self, id: u64) -> (r: Option<(LogLevel, String)>)
        requires
            self.well_formed(),
            is_open(self.editors@, id),
        ensures
            ({
                let name = self.editors@[editor_index(self.editors@, id, 0).unwrap()].name_edit@;
                &&& r is Some <==> name_taken(self.editors@, id, name)
                &&& r matches Some(line) ==> line.0 == LogLevel::Error && line.1@
                    == "Data flow '"@ + name
                    + "' is already open in another tab. Choose a different name."@
            }),
    {
        proof {
            lemma_editor_index(self.editors@, id, 0);
        }
        let at = match self.find_editor(id) {
            Some(at) => at,
            None => {
                return None;
            },
        };
        let name = self.editors[at].name_edit.as_str();
        let mut i: usize = 0;
        while i < self.editors.len()
            invariant
                i <= self.editors@.len(),
                at < self.editors@.len(),
                name@ == self.editors@[at as int].name_edit@,
                editor_index(self.editors@, id, 0) == Some(at as int),
                forall|j: int| 0 <= j < i ==> !has_name(#[trigger] self.editors@[j], id, name@),
            decreases self.editors@.len() - i,
        {
            let other = &self.editors[i];
            let loaded_same = match &other.loaded_name {
                Some(loaded) => same_text(loaded.as_str(), name),
                None => false,
            };
            if other.id != id && (loaded_same || same_text(other.name_edit.as_str(), name)) {
                proof {
                    assert(has_name(self.editors@[i as int], id, name@));
                }
                let mut text = "Data flow '".to_owned();
                text.append(name);
                text.append("' is already open in another tab. Choose a different name.");
                return Some((LogLevel::Error, text));
            }
            i = i + 1;
        }
        None
    }

    /// Asks before an editor with unsaved changes is closed, and closes another
    /// one. While something is being asked nothing happens.
    pub fn request_close(&mut self, id: u64) -> (r: Vec<DockStep>)
        requires
            old(self).well_formed(),
            old(self).has_front(),
            old(self).next_id < u64::MAX,
        ensures
            final(self).well_formed(),
            ({
                let at = editor_index(old(self).editors@, id, 0);
                let idle = old(self).pending_close is Some || at is None;
                &&& idle ==> r@ == Seq::<DockStep>::empty() && *final(self) == *old(self)
                &&& !idle && old(self).editors@[at.unwrap()].is_unsaved() ==> {
                    &&& r@ == seq![DockStep::Focus(id)]
                    &&& final(self).pending_close == Some(id)
                    &&& final(self).close_error is None
                    &&& final(self).active == id
                    &&& final(self).editors@ == after_activation(
                        old(self).editors@,
                        old(self).active,
                        id,
                    )
                    &&& final(self).closed_editors == old(self).closed_editors
                    &&& final(self).has_front()
                    &&& final(self).next_id == old(self).next_id
                    &&& final(self).open == old(self).open
                    &&& final(self).pending_delete == old(self).pending_delete
                }
                &&& !idle && !old(self).editors@[at.unwrap()].is_unsaved() ==> {
                    &&& final(self).closed(*old(self), id, r@)
                    &&& !is_open(final(self).editors@, id)
                    &&& final(self).open == old(self).open
                    &&& final(self).pending_close is None
                    &&& final(self).close_error == old(self).close_error
                    &&& final(self).pending_delete == old(self).pending_delete
                }
            }),
    {
        if self.pending_close.is_some() {
            return Vec::new();
        }
        proof {
            lemma_editor_index(self.editors@, id, 0);
        }
        match self.find_editor(id) {
            None => Vec::new(),
            Some(at) => {
                if self.editors[at].has_unsaved_changes() {
                    self.pending_close = Some(id);
                    self.close_error = None;
                    self.focus_editor(id)
                } else {
                    let steps = self.close_editor(id);
                    proof {
                        lemma_closed(old(self).editors@, self.editors@, id, old(self).next_id);
                    }
                    steps
                }
            },
        }
    }

    /// Says why an editor cannot be saved under its name: another tab has the
    /// name, or the graph was saved under another one and the store has a graph
    /// of this name already.
    pub fn save_refusal(&self, id: u64, stored: &Vec<String>) -> (r: Option<(LogLevel, String)>)
        requires
            self.well_formed(),
            is_open(self.editors@, id),
        ensures
            ({
                let editor = self.editors@[editor_index(self.editors@, id, 0).unwrap()];
                let taken = name_taken(self.editors@, id, editor.name_edit@);
                &&& r is Some <==> taken || overwrites(editor, views(stored@))
                &&& r matches Some(line) ==> line.0 == LogLevel::Error && line.1@ == if taken {
                    "Data flow '"@ + editor.name_edit@
                        + "' is already open in another tab. Choose a different name."@
                } else {
                    "Data flow '"@ + editor.name_edit@
                        + "' already exists. Choose a different name."@
                }
            }),
    {
        proof {
            lemma_editor_index(self.editors@, id, 0);
        }
        if let Some(line) = self.name_available(id) {
            return Some(line);
        }
        match self.find_editor(id) {
            Some(at) => {
                let editor = &self.editors[at];
                if editor.is_renamed() && has_text(stored, editor.name_edit.as_str()) {
                    let mut text = "Data flow '".to_owned();
                    text.append(editor.name_edit.as_str());
                    text.append("' already exists. Choose a different name.");
                    Some((LogLevel::Error, text))
                } else {
                    None
                }
            },
            None => None,
        }
    }

    /// Saves an editor, unless that is refused: takes over the outcome of
    /// writing its graph to the store, with a line for the log. Where a graph
    /// has been saved under another name, the result holds the name under which
    /// it is to be removed.
    pub fn save_editor(&mut self, id: u64, stored: &Vec<String>, outcome: Result<(), String>) -> (r:
        SaveStep)
        requires
            old(self).well_formed(),
            is_open(old(self).editors@, id),
        ensures
            final(self).well_formed(),
            ({
                let at = editor_index(old(self).editors@, id, 0).unwrap();
                let editor = old(self).editors@[at];
                let now = final(self).editors@[at];
                let taken = name_taken(old(self).editors@, id, editor.name_edit@);
                let refused = taken || overwrites(editor, views(stored@));
                &&& refused ==> !r.saved && *final(self) == *old(self) && r.remove is None
                    && r.line.0 == LogLevel::Error && r.line.1@ == if taken {
                    "Data flow '"@ + editor.name_edit@
                        + "' is already open in another tab. Choose a different name."@
                } else {
                    "Data flow '"@ + editor.name_edit@
                        + "' already exists. Choose a different name."@
                }
                &&& !refused ==> {
                    &&& r.saved == outcome is Ok
                    &&& outcome matches Err(error) ==> r.line == (LogLevel::Error, error)
                    &&& outcome is Ok ==> r.line.0 == LogLevel::Info && r.line.1@
                        == "Saved data flow '"@ + editor.name_edit@ + "'"@
                    &&& r.remove == if outcome is Ok && was_renamed(editor) {
                        editor.loaded_name
                    } else {
                        None
                    }
                    &&& final(self).editors@ == old(self).editors@.update(at, now)
                    &&& now.controller == (DataFlowController {
                        graph: Graph { name: editor.name_edit, ..editor.controller.graph },
                        dirty: outcome is Err && editor.controller.dirty,
                        ..editor.controller
                    })
                    &&& now.loaded_name == if outcome is Ok {
                        Some(editor.name_edit)
                    } else {
                        editor.loaded_name
                    }
                    &&& now.same_surroundings(
                        DataFlowEditor {
                            controller: now.controller,
                            loaded_name: now.loaded_name,
                            ..editor
                        },
                    )
                }
            }),
            final(self).active == old(self).active,
            final(self).next_id == old(self).next_id,
            final(self).same_questions(*old(self)),
    {
        proof {
            lemma_editor_index(self.editors@, id, 0);
        }
        if let Some(line) = self.save_refusal(id, stored) {
            return SaveStep { saved: false, line, remove: None };
        }
        match self.find_editor(id) {
            Some(at) => {
                let former = if self.editors[at].is_renamed() {
                    copy_optional(&self.editors[at].loaded_name)
                } else {
                    None
                };
                let (saved, line) = self.editors[at].save(outcome);
                proof {
                    assert(self.editors@ =~= old(self).editors@.update(
                        at as int,
                        self.editors@[at as int],
                    ));
                }
                let remove = if saved {
                    former
                } else {
                    None
                };
                SaveStep { saved, line, remove }
            },
            None => SaveStep {
                saved: false,
                line: (LogLevel::Error, String::new()),
                remove: None,
            },
        }
    }

    /// Opens the window on a saved graph.
    pub fn open_named(&mut self, name: &str, loaded: Result<Graph, String>) -> (r: (
        Vec<DockStep>,
        Option<(LogLevel, String)>,
    ))
        requires
            old(self).well_formed(),
            old(self).has_front(),
            old(self).next_id < u64::MAX - 1,
        ensures
            final(self).well_formed(),
            final(self).has_front(),
            final(self).open,
            final(self).opened(*old(self), name@, loaded, r.0@, r.1),
            final(self).pending_close == old(self).pending_close,
            final(self).close_error == old(self).close_error,
            final(self).pending_delete == old(self).pending_delete,
    {
        self.open = true;
        self.edit_named(name, loaded)
    }

    /// Takes over what the user has decided about an editor that is being
    /// closed. `saved` says whether saving succeeded, `message` what the log
    /// says last.
    pub fn close_confirm(
        &mut self,
        decision: CloseDecision,
        saved: bool,
        message: Option<String>,
    ) -> (r: Vec<DockStep>)
        requires
            old(self).well_formed(),
            old(self).has_front(),
            old(self).next_id < u64::MAX,
        ensures
            final(self).well_formed(),
            match old(self).pending_close {
                None => r@ == Seq::<DockStep>::empty() && *final(self) == *old(self),
                Some(id) => {
                    let open = is_open(old(self).editors@, id);
                    let closes = open && (decision == CloseDecision::Discard || decision
                        == CloseDecision::Save && saved);
                    let fails = open && decision == CloseDecision::Save && !saved;
                    &&& final(self).pending_close == if fails {
                        Some(id)
                    } else {
                        None
                    }
                    &&& final(self).close_error == if fails {
                        message
                    } else if open {
                        None
                    } else {
                        old(self).close_error
                    }
                    &&& closes ==> final(self).closed(*old(self), id, r@) && !is_open(
                        final(self).editors@,
                        id,
                    )
                    &&& !closes ==> r@ == Seq::<DockStep>::empty() && final(self).editors
                        == old(self).editors && final(self).active == old(self).active
                        && final(self).closed_editors == old(self).closed_editors
                        && final(self).next_id == old(self).next_id
                },
            },
            final(self).open == old(self).open,
            final(self).pending_delete == old(self).pending_delete,
    {
        let id: u64 = match self.pending_close {
            Some(id) => id,
            None => {
                return Vec::new();
            },
        };
        proof {
            lemma_editor_index(self.editors@, id, 0);
        }
        if self.find_editor(id).is_none() {
            self.pending_close = None;
            return Vec::new();
        }
        let closes = match decision {
            CloseDecision::Save => saved,
            CloseDecision::Discard => true,
            CloseDecision::Cancel => false,
        };
        if !closes && decision == CloseDecision::Save {
            self.close_error = message;
            return Vec::new();
        }
        self.pending_close = None;
        self.close_error = None;
        if closes {
            let steps = self.close_editor(id);
            proof {
                lemma_closed(old(self).editors@, self.editors@, id, old(self).next_id);
            }
            steps
        } else {
            Vec::new()
        }
    }

    /// Takes over what the user has decided about deleting a saved graph, and
    /// the outcome where it was deleted. Editors of it hold it unsaved.
    pub fn delete_confirm(&mut self, delete: bool, outcome: Result<(), String>) -> (r: Option<
        (LogLevel, String),
    >)
        requires
            old(self).well_formed(),
        ensures
            final(self).well_formed(),
            final(self).pending_delete is None,
            final(self).active == old(self).active,
            final(self).next_id == old(self).next_id,
            final(self).open == old(self).open,
            final(self).pending_close == old(self).pending_close,
            final(self).close_error == old(self).close_error,
            final(self).closed_editors == old(self).closed_editors,
            match old(self).pending_delete {
                Some(name) => if delete && outcome is Ok {
                    &&& r matches Some(line) && line.0 == LogLevel::Info && line.1@
                        == "Deleted data flow '"@ + name@ + "'"@
                    &&& final(self).editors@ == Seq::new(
                        old(self).editors@.len(),
                        |i: int| orphaned(old(self).editors@[i], name@),
                    )
                } else {
                    &&& final(self).editors == old(self).editors
                    &&& r == match outcome {
                        Err(error) => if delete {
                            Some((LogLevel::Error, error))
                        } else {
                            None
                        },
                        Ok(()) => None,
                    }
                },
                None => r is None && final(self).editors == old(self).editors,
            },
    {
        let name = match self.pending_delete.take() {
            Some(name) => name,
            None => {
                return None;
            },
        };
        if !delete {
            return None;
        }
        match outcome {
            Err(error) => Some((LogLevel::Error, error)),
            Ok(()) => {
                let ghost before = self.editors@;
                let mut i: usize = 0;
                while i < self.editors.len()
                    invariant
                        i <= self.editors@.len(),
                        self.editors@.len() == before.len(),
                        forall|j: int|
                            0 <= j < i ==> #[trigger] self.editors@[j] == orphaned(
                                before[j],
                                name@,
                            ),
                        forall|j: int|
                            i <= j < before.len() ==> #[trigger] self.editors@[j] == before[j],
                        self.active == old(self).active,
                        self.next_id == old(self).next_id,
                        self.open == old(self).open,
                        self.pending_close == old(self).pending_close,
                        self.close_error == old(self).close_error,
                        self.pending_delete is None,
                        self.closed_editors == old(self).closed_editors,
                    decreases self.editors@.len() - i,
                {
                    let loaded = match &self.editors[i].loaded_name {
                        Some(loaded) => same_text(loaded.as_str(), name.as_str()),
                        None => false,
                    };
                    if loaded {
                        self.editors[i].loaded_name = None;
                        self.editors[i].controller.dirty = true;
                    }
                    i = i + 1;
                }
                proof {
                    assert(self.editors@ =~= Seq::new(
                        before.len(),
                        |k: int| orphaned(before[k], name@),
                    ));
                }
                let mut text = "Deleted data flow '".to_owned();
                text.append(name.as_str());
                text.append("'");
                Some((LogLevel::Info, text))
            },
        }
    }

    /// Opens or closes the window. Closing it closes every menu.
    pub fn update_open(&mut self, open: bool)
        requires
            old(self).well_formed(),
        ensures
            final(self).well_formed(),
            final(self).open == open,
            final(self).editors@ == if open {
                old(self).editors@
            } else {
                Seq::new(
                    old(self).editors@.len(),
                    |i: int| without_menu(old(self).editors@[i]),
                )
            },
            final(self).active == old(self).active,
            final(self).next_id == old(self).next_id,
            final(self).pending_close == old(self).pending_close,
            final(self).close_error == old(self).close_error,
            final(self).pending_delete == old(self).pending_delete,
            final(self).closed_editors == old(self).closed_editors,
    {
        self.open = open;
        if open {
            return;
        }
        let ghost before = self.editors@;
        let mut i: usize = 0;
        while i < self.editors.len()
            invariant
                i <= self.editors@.len(),
                self.editors@.len() == before.len(),
                forall|j: int|
                    0 <= j < i ==> #[trigger] self.editors@[j] == without_menu(before[j]),
                forall|j: int| i <= j < before.len() ==> #[trigger] self.editors@[j] == before[j],
                self.open == open,
                self.active == old(self).active,
                self.next_id == old(self).next_id,
                self.pending_close == old(self).pending_close,
                self.close_error == old(self).close_error,
                self.pending_delete == old(self).pending_delete,
                self.closed_editors == old(self).closed_editors,
            decreases self.editors@.len() - i,
        {
            self.editors[i].add_menu = None;
            i = i + 1;
        }
        proof {
            assert(self.editors@ =~= Seq::new(before.len(), |k: int| without_menu(before[k])));
        }
    }

    /// Whether the menu and the keys of the editor in front are attended to:
    /// the window is open and nothing is being asked.
    pub fn attends_keys(&self) -> (r: bool)
        ensures
            r == (self.open && self.pending_close is None && self.pending_delete is None),
    {
        self.open && self.pending_close.is_none() && self.pending_delete.is_none()
    }

    /// The question before an editor is closed.
    pub fn close_question(&self) -> (r: Option<String>)
        ensures
            match self.pending_close {
                Some(id) => match editor_index(self.editors@, id, 0) {
                    Some(k) => r matches Some(text) && text@ == "Save changes to \u{201c}"@
                        + self.editors@[k].name_edit@ + "\u{201d} before closing?"@,
                    None => r is None,
                },
                None => r is None,
            },
    {
        let id: u64 = match self.pending_close {
            Some(id) => id,
            None => {
                return None;
            },
        };
        match self.find_editor(id) {
            Some(k) => {
                let mut text = "Save changes to \u{201c}".to_owned();
                text.append(self.editors[k].name_edit.as_str());
                text.append("\u{201d} before closing?");
                Some(text)
            },
            None => None,
        }
    }

    /// The question before a saved graph is deleted.
    pub fn delete_question(&self) -> (r: Option<String>)
        ensures
            match self.pending_delete {
                Some(name) => r matches Some(text) && text@ == "Delete \u{201c}"@ + name@
                    + "\u{201d} from the library?"@,
                None => r is None,
            },
    {
        match &self.pending_delete {
            Some(name) => {
                let mut text = "Delete \u{201c}".to_owned();
                text.append(name.as_str());
                text.append("\u{201d} from the library?");
                Some(text)
            },
            None => None,
        }
    }
}

/// Whether the graph of an editor was saved under another name than it has now.
pub open spec fn was_renamed<S>(editor: DataFlowEditor<S>) -> bool {
    editor.loaded_name matches Some(loaded) && loaded@ != editor.name_edit@
}

/// Whether saving a graph that was renamed would overwrite another.
pub open spec fn overwrites<S>(editor: DataFlowEditor<S>, stored: Seq<Seq<char>>) -> bool {
    was_renamed(editor) && stored.contains(editor.name_edit@)
}

impl<S> DataFlowEditor<S> {
    /// Whether the graph was saved under another name than it has now.
    pub fn is_renamed(&self) -> (r: bool)
        ensures
            r == was_renamed(*self),
    {
        match &self.loaded_name {
            Some(loaded) => !same_text(loaded.as_str(), self.name_edit.as_str()),
            None => false,
        }
    }
}

/// An editor after the saved graph of a name has been deleted.
pub open spec fn orphaned<S>(editor: DataFlowEditor<S>, name: Seq<char>) -> DataFlowEditor<S> {
    if editor.loaded_name matches Some(loaded) && loaded@ == name {
        DataFlowEditor {
            loaded_name: None,
            controller: DataFlowController { dirty: true, ..editor.controller },
            ..editor
        }
    } else {
        editor
    }
}

/// What the buttons of the question mean, the last of several; leaving it
/// without a button cancels.
pub fn close_choice(save: bool, discard: bool, cancel: bool, dismissed: bool) -> (r: Option<
    CloseDecision,
>)
    ensures
        r == if cancel {
            Some(CloseDecision::Cancel)
        } else if discard {
            Some(CloseDecision::Discard)
        } else if save {
            Some(CloseDecision::Save)
        } else if dismissed {
            Some(CloseDecision::Cancel)
        } else {
            None
        },
{
    if cancel {
        Some(CloseDecision::Cancel)
    } else if discard {
        Some(CloseDecision::Discard)
    } else if save {
        Some(CloseDecision::Save)
    } else if dismissed {
        Some(CloseDecision::Cancel)
    } else {
        None
    }
}

/// Whether the buttons of the question delete; leaving it without a button does
/// not.
pub fn delete_choice(delete: bool, cancel: bool, dismissed: bool) -> (r: Option<bool>)
    ensures
        r == if cancel {
            Some(false)
        } else if delete {
            Some(true)
        } else if dismissed {
            Some(false)
        } else {
            None
        },
{
    if cancel {
        Some(false)
    } else if delete {
        Some(true)
    } else if dismissed {
        Some(false)
    } else {
        None
    }
}

/// The line for the log about a copied graph.
pub fn duplicated_line(name: &str, copy: &str) -> (r: (LogLevel, String))
    ensures
        r.0 == LogLevel::Info,
        r.1@ == "Duplicated data flow '"@ + name@ + "' as '"@ + copy@ + "'"@,
{
    let mut text = "Duplicated data flow '".to_owned();
    text.append(name);
    text.append("' as '");
    text.append(copy);
    text.append("'");
    (LogLevel::Info, text)
}

/// Whether another editor than `id` has the name.
pub open spec fn has_name<S>(editor: DataFlowEditor<S>, id: u64, name: Seq<char>) -> bool {
    editor.id != id && (editor.name_edit@ == name || (editor.loaded_name matches Some(loaded)
        && loaded@ == name))
}

/// Whether any editor but `id` has the name.
pub open spec fn name_taken<S>(editors: Seq<DataFlowEditor<S>>, id: u64, name: Seq<char>) -> bool {
    exists|i: int| 0 <= i < editors.len() && has_name(#[trigger] editors[i], id, name)
}

proof fn lemma_loaded_is_open<S>(editors: Seq<DataFlowEditor<S>>, name: Seq<char>, i: int)
    requires
        0 <= i,
    ensures
        loaded_as(editors, name, i) matches Some(id) ==> is_open(editors, id),
    decreases editors.len() - i,
{
    if i < editors.len() {
        lemma_loaded_is_open(editors, name, i + 1);
        lemma_editor_index(editors, editors[i].id, 0);
    }
}

/// A closed editor is no longer open.
proof fn lemma_closed<S>(
    before: Seq<DataFlowEditor<S>>,
    after: Seq<DataFlowEditor<S>>,
    id: u64,
    next_id: u64,
)
    requires
        forall|i: int, j: int|
            0 <= i < j < before.len() ==> (#[trigger] before[i]).id < (#[trigger] before[j]).id,
        forall|i: int| 0 <= i < before.len() ==> (#[trigger] before[i]).id < next_id,
        match editor_index(before, id, 0) {
            Some(k) => after == before.remove(k) || before.len() == 1 && after.len() == 1
                && after[0].id == next_id,
            None => false,
        },
    ensures
        !is_open(after, id),
{
    lemma_editor_index(before, id, 0);
    lemma_editor_index(after, id, 0);
    let k = editor_index(before, id, 0).unwrap();
    if let Some(j) = editor_index(after, id, 0) {
        if after == before.remove(k) {
            if j < k {
                assert(before[j].id < before[k].id);
            } else {
                assert(after[j] == before[j + 1]);
                assert(before[k].id < before[j + 1].id);
            }
        } else {
            assert(before[0].id < next_id);
        }
    }
}

/// The editors after the menu of one of them is closed.
pub open spec fn menu_closed<S>(editors: Seq<DataFlowEditor<S>>, id: u64) -> Seq<
    DataFlowEditor<S>,
> {
    match editor_index(editors, id, 0) {
        Some(k) => editors.update(k, without_menu(editors[k])),
        None => editors,
    }
}

/// The names of the open graphs.
pub open spec fn open_names<S>(editors: Seq<DataFlowEditor<S>>) -> Seq<Seq<char>> {
    Seq::new(editors.len(), |i: int| editors[i].name_edit@)
}

/// The first editor, from `i` on, whose graph was loaded under a name.
pub open spec fn loaded_as<S>(editors: Seq<DataFlowEditor<S>>, name: Seq<char>, i: int) -> Option<
    u64,
>
    decreases editors.len() - i,
{
    if i < 0 || i >= editors.len() {
        None
    } else if editors[i].loaded_name matches Some(loaded) && loaded@ == name {
        Some(editors[i].id)
    } else {
        loaded_as(editors, name, i + 1)
    }
}

/// Whether the only editor holds an unnamed graph without nodes.
pub open spec fn has_only_blank<S>(ui: DataFlowUi<S>) -> bool {
    &&& ui.editors@.len() == 1
    &&& ui.editors@[0].loaded_name is None
    &&& ui.editors@[0].name_edit@ == "untitled"@
    &&& ui.editors@[0].controller.graph.nodes@.len() == 0
    &&& !ui.editors@[0].is_unsaved()
}

/// Whether a graph holds a script.
pub open spec fn holds_script(graph: Graph) -> bool {
    exists|i: int| 0 <= i < graph.nodes@.len() && (#[trigger] graph.nodes@[i]).kind is Script
}

fn graph_holds_script(graph: &Graph) -> (r: bool)
    ensures
        r == holds_script(*graph),
{
    let mut i: usize = 0;
    while i < graph.nodes.len()
        invariant
            i <= graph.nodes@.len(),
            forall|j: int| 0 <= j < i ==> !((#[trigger] graph.nodes@[j]).kind is Script),
        decreases graph.nodes@.len() - i,
    {
        if let NodeKind::Script(_) = &graph.nodes[i].kind {
            return true;
        }
        i = i + 1;
    }
    false
}

proof fn lemma_same_ids<S>(
    a: Seq<DataFlowEditor<S>>,
    b: Seq<DataFlowEditor<S>>,
    id: u64,
    i: int,
)
    requires
        0 <= i,
        a.len() == b.len(),
        forall|j: int| 0 <= j < a.len() ==> (#[trigger] a[j]).id == (#[trigger] b[j]).id,
    ensures
        editor_index(a, id, i) == editor_index(b, id, i),
    decreases a.len() - i,
{
    if i < a.len() {
        lemma_same_ids(a, b, id, i + 1);
    }
}

} // verus!
