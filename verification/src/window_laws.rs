//! What holds of the open graphs.

use crate::controller::LogLevel;
use crate::editor::{editor_title, nodes_with_issues, DataFlowEditor};
use crate::graph::{Graph, NodeId};
use crate::window::{
    after_activation, editor_index, has_name, has_only_blank, is_free_name, loaded_as, menu_closed,
    name_taken, numbered, orphaned, DataFlowUi, DockStep,
};
use vstd::prelude::*;

verus! {

proof fn lemma_index<S>(editors: Seq<DataFlowEditor<S>>, id: u64, i: int)
    requires
        0 <= i,
    ensures
        match editor_index(editors, id, i) {
            Some(k) => i <= k < editors.len() && editors[k].id == id,
            None => forall|j: int| i <= j < editors.len() ==> (#[trigger] editors[j]).id != id,
        },
    decreases editors.len() - i,
{
    if i < editors.len() && editors[i].id != id {
        lemma_index(editors, id, i + 1);
    }
}

/// Closing a graph closes that graph and no other: the others stay as they are,
/// the closed one is handed out, and there is always one left.
pub proof fn closing_takes_away_one_graph<S>(
    before: DataFlowUi<S>,
    after: DataFlowUi<S>,
    id: u64,
    steps: Seq<DockStep>,
    k: int,
)
    requires
        before.well_formed(),
        after.closed(before, id, steps),
        0 <= k < before.editors@.len(),
        before.editors@[k].id == id,
    ensures
        after.editors@.len() > 0,
        forall|i: int|
            0 <= i < before.editors@.len() && i != k ==> after.editors@.contains(
                #[trigger] before.editors@[i],
            ),
        forall|i: int| 0 <= i < after.editors@.len() ==> (#[trigger] after.editors@[i]).id != id,
        before.editors@.len() > 1 ==> after.editors@.len() == before.editors@.len() - 1,
        before.editors@.len() == 1 ==> after.editors@[0].controller.graph.nodes@.len() == 0,
        after.closed_editors@.len() == before.closed_editors@.len() + 1,
        after.closed_editors@.last().id == id,
        after.closed_editors@.last().controller == before.editors@[k].controller,
        steps.contains(DockStep::Remove(id)),
{
    lemma_index(before.editors@, id, 0);
    let found = editor_index(before.editors@, id, 0).unwrap();
    if found < k {
        assert(before.editors@[found].id < before.editors@[k].id);
    } else if k < found {
        assert(before.editors@[k].id < before.editors@[found].id);
    }
    assert(found == k);
    if before.editors@.len() > 1 {
        let all = before.editors@.remove(k);
        assert forall|i: int| 0 <= i < before.editors@.len() && i != k implies all.contains(
            #[trigger] before.editors@[i],
        ) by {
            if i < k {
                assert(all[i] == before.editors@[i]);
            } else {
                assert(all[i - 1] == before.editors@[i]);
            }
        }
        assert forall|i: int| 0 <= i < all.len() implies (#[trigger] all[i]).id != id by {
            if i < k {
                assert(before.editors@[i].id < before.editors@[k].id);
            } else {
                assert(before.editors@[k].id < before.editors@[i + 1].id);
            }
        }
        assert(steps[0] == DockStep::Remove(id));
    } else {
        assert(steps[2] == DockStep::Remove(id));
        assert(before.editors@[0].id < before.next_id);
    }
}

proof fn lemma_loaded<S>(editors: Seq<DataFlowEditor<S>>, name: Seq<char>, i: int)
    requires
        0 <= i,
    ensures
        match loaded_as(editors, name, i) {
            Some(id) => exists|k: int|
                i <= k < editors.len() && (#[trigger] editors[k]).id == id && (
                editors[k].loaded_name matches Some(loaded) && loaded@ == name),
            None => forall|k: int|
                i <= k < editors.len() ==> !((#[trigger] editors[k]).loaded_name matches Some(
                    loaded,
                ) && loaded@ == name),
        },
    decreases editors.len() - i,
{
    if i < editors.len() {
        lemma_loaded(editors, name, i + 1);
    }
}

/// A saved graph is open once: where it is open already it comes to the front and
/// nothing is added; else what was loaded is opened under its name, in front.
pub proof fn saved_graphs_are_opened_once<S>(
    before: DataFlowUi<S>,
    after: DataFlowUi<S>,
    name: Seq<char>,
    loaded: Result<Graph, String>,
    steps: Seq<DockStep>,
    line: Option<(LogLevel, String)>,
)
    requires
        before.well_formed(),
        after.opened(before, name, loaded, steps, line),
    ensures
        ({
            let is_loaded = exists|k: int|
                0 <= k < before.editors@.len() && (
                (#[trigger] before.editors@[k]).loaded_name matches Some(text) && text@ == name);
            &&& is_loaded ==> after.editors@.len() == before.editors@.len() && line is None
                && exists|k: int|
                0 <= k < before.editors@.len() && (#[trigger] before.editors@[k]).id == after.active
                    && (before.editors@[k].loaded_name matches Some(text) && text@ == name)
            &&& !is_loaded ==> match loaded {
                Ok(graph) => {
                    let added = after.editors@.last();
                    &&& added.id == after.active
                    &&& added.controller.graph == graph
                    &&& added.loaded_name matches Some(text) && text@ == name
                    &&& line is None
                },
                Err(error) => after.editors == before.editors && after.active == before.active
                    && line == Some((LogLevel::Error, error)),
            }
        }),
{
    lemma_loaded(before.editors@, name, 0);
    lemma_index(before.editors@, before.active, 0);
    if let Some(id) = loaded_as(before.editors@, name, 0) {
        let k = choose|k: int|
            0 <= k < before.editors@.len() && (#[trigger] before.editors@[k]).id == id && (
            before.editors@[k].loaded_name matches Some(text) && text@ == name);
        assert(before.editors@[k].id == after.active);
    }
}

/// Opening a graph closes no other, but for an only one that is empty and has
/// nothing to save.
pub proof fn opening_loses_nothing<S>(
    before: DataFlowUi<S>,
    after: DataFlowUi<S>,
    name: Seq<char>,
    loaded: Result<Graph, String>,
    steps: Seq<DockStep>,
    line: Option<(LogLevel, String)>,
    i: int,
)
    requires
        before.well_formed(),
        after.opened(before, name, loaded, steps, line),
        0 <= i < before.editors@.len(),
        before.editors@[i].controller.graph.nodes@.len() > 0 || before.editors@[i].is_unsaved()
            || before.editors@[i].loaded_name is Some || before.editors@.len() > 1,
    ensures
        exists|k: int|
            0 <= k < after.editors@.len() && (#[trigger] after.editors@[k]).id
                == before.editors@[i].id && after.editors@[k].controller
                == before.editors@[i].controller && after.editors@[k].name_edit
                == before.editors@[i].name_edit,
        after.closed_editors == before.closed_editors,
{
    lemma_index(before.editors@, before.active, 0);
    assert(!has_only_blank(before));
    match (loaded_as(before.editors@, name, 0), loaded) {
        (None, Ok(_)) => {
            let kept = menu_closed(before.editors@, before.active);
            assert(after.editors@.drop_last()[i] == kept[i]);
            assert(after.editors@[i] == kept[i]);
            assert(after.editors@[i].id == before.editors@[i].id);
        },
        _ => {
            assert(after.editors@[i].id == before.editors@[i].id);
        },
    }
}

/// Bringing a graph to the front changes nothing of any graph; only the menu of
/// the one that was in front closes.
pub proof fn fronting_changes_no_graph<S>(
    editors: Seq<DataFlowEditor<S>>,
    active: u64,
    id: u64,
    i: int,
)
    requires
        0 <= i < editors.len(),
    ensures
        after_activation(editors, active, id).len() == editors.len(),
        after_activation(editors, active, id)[i] == editors[i] || (editors[i].id == active
            && active != id && after_activation(editors, active, id)[i] == (DataFlowEditor {
            add_menu: None,
            ..editors[i]
        })),
{
    lemma_index(editors, active, 0);
}

/// Deleting a saved graph leaves the open ones as they are; one that was loaded
/// from it has to be saved anew.
pub proof fn deleted_files_leave_open_graphs<S>(editor: DataFlowEditor<S>, name: Seq<char>)
    ensures
        ({
            let now = orphaned(editor, name);
            let loaded = editor.loaded_name matches Some(text) && text@ == name;
            &&& now.controller.graph == editor.controller.graph
            &&& now.name_edit == editor.name_edit
            &&& now.id == editor.id
            &&& loaded ==> now.loaded_name is None && now.controller.dirty
            &&& !loaded ==> now == editor
        }),
{
}

/// A name is taken where another open graph has it or was loaded under it.
pub proof fn names_are_taken_by_other_graphs<S>(
    editors: Seq<DataFlowEditor<S>>,
    id: u64,
    name: Seq<char>,
)
    ensures
        name_taken(editors, id, name) <==> exists|i: int|
            0 <= i < editors.len() && (#[trigger] editors[i]).id != id && (editors[i].name_edit@
                == name || (editors[i].loaded_name matches Some(text) && text@ == name)),
{
    if exists|i: int|
        0 <= i < editors.len() && (#[trigger] editors[i]).id != id && (editors[i].name_edit@ == name
            || (editors[i].loaded_name matches Some(text) && text@ == name)) {
        let i = choose|i: int|
            0 <= i < editors.len() && (#[trigger] editors[i]).id != id && (editors[i].name_edit@
                == name || (editors[i].loaded_name matches Some(text) && text@ == name));
        assert(has_name(editors[i], id, name));
    }
    if name_taken(editors, id, name) {
        let i = choose|i: int|
            0 <= i < editors.len() && has_name(#[trigger] editors[i], id, name);
        assert(editors[i].id != id);
    }
}

/// A free name is not taken, begins with the name that was asked for, and is that
/// name itself where it can be.
pub proof fn free_names_begin_with_what_was_asked_for(
    taken: Seq<Seq<char>>,
    base: Seq<char>,
    separator: Seq<char>,
    name: Seq<char>,
)
    requires
        is_free_name(taken, base, separator, name),
    ensures
        !taken.contains(name),
        base.is_prefix_of(name),
        !taken.contains(base) ==> name == base,
        name != base ==> (base + separator).is_prefix_of(name),
{
    if taken.contains(base) {
        let n = choose|n: nat|
            2 <= n && !taken.contains(#[trigger] numbered(base, separator, n)) && name == numbered(
                base,
                separator,
                n,
            ) && (forall|m: nat| 2 <= m < n ==> taken.contains(#[trigger] numbered(base, separator, m)));
        assert(name.take(base.len() as int) =~= base);
        assert(name.take((base + separator).len() as int) =~= base + separator);
    } else {
        assert(name.take(base.len() as int) =~= base);
    }
}

/// The title of a graph is its name, marked where there is something to save.
pub proof fn titles_tell_what_is_unsaved(loaded: bool, name: Seq<char>)
    requires
        name != "untitled"@ || loaded,
    ensures
        editor_title(loaded, name, false) == name,
        name.is_prefix_of(editor_title(loaded, name, true)),
        editor_title(loaded, name, true) != name,
{
    reveal_strlit(" \u{2022}");
    let marked = editor_title(loaded, name, true);
    assert(marked.take(name.len() as int) =~= name);
    assert(marked.len() == name.len() + 2);
}

/// The nodes with issues are those about which there is a diagnostic.
pub proof fn issues_are_those_of_the_diagnostics<S>(
    editor: DataFlowEditor<S>,
    n: nat,
    id: NodeId,
)
    requires
        n <= editor.controller.graph.nodes@.len(),
    ensures
        nodes_with_issues(editor, n).contains(id) <==> (exists|i: int|
            0 <= i < n && (#[trigger] editor.controller.graph.nodes@[i]).id == id) && exists|d: int|
            0 <= d < editor.controller.diagnostics@.len() && (
            #[trigger] editor.controller.diagnostics@[d]).node == id,
    decreases n,
{
    let nodes = editor.controller.graph.nodes@;
    if n > 0 {
        issues_are_those_of_the_diagnostics(editor, (n - 1) as nat, id);
        let rest = nodes_with_issues(editor, (n - 1) as nat);
        let all = nodes_with_issues(editor, n);
        if rest.contains(id) {
            assert(all[rest.index_of(id)] == id);
        }
        if all.len() > rest.len() {
            assert(all[all.len() - 1] == nodes[n - 1].id);
        }
        lemma_messages(editor.controller.diagnostics@, nodes[n - 1].id);
    }
}

proof fn lemma_messages(diagnostics: Seq<crate::controller::Diagnostic>, id: NodeId)
    ensures
        crate::controller::messages_for(diagnostics, id).len() > 0 <==> exists|d: int|
            0 <= d < diagnostics.len() && (#[trigger] diagnostics[d]).node == id,
    decreases diagnostics.len(),
{
    if diagnostics.len() > 0 {
        let short = diagnostics.drop_last();
        lemma_messages(short, id);
        assert(diagnostics[diagnostics.len() - 1] == diagnostics.last());
        if exists|d: int| 0 <= d < short.len() && (#[trigger] short[d]).node == id {
            let d = choose|d: int| 0 <= d < short.len() && (#[trigger] short[d]).node == id;
            assert(diagnostics[d].node == id);
        }
        if exists|d: int| 0 <= d < diagnostics.len() && (#[trigger] diagnostics[d]).node == id {
            let d = choose|d: int|
                0 <= d < diagnostics.len() && (#[trigger] diagnostics[d]).node == id;
            if d < short.len() {
                assert(short[d].node == id);
            }
        }
    }
}

/// A graph has something to save where an edit, its name or a script differs from
/// what was saved.
pub proof fn unsaved_graphs_differ_from_what_was_saved<S>(editor: DataFlowEditor<S>)
    ensures
        editor.controller.dirty ==> editor.is_unsaved(),
        editor.name_edit@ != editor.controller.graph.name@ ==> editor.is_unsaved(),
        editor.script_editor matches Some(script) && script.buffer@ != script.baseline@
            ==> editor.is_unsaved(),
        !editor.controller.dirty && editor.name_edit@ == editor.controller.graph.name@
            && editor.script_editor is None ==> !editor.is_unsaved(),
{
}

} // verus!
