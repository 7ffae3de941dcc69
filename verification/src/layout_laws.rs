//! What holds of saving and loading together.

use crate::layout_doc::{
    clamped_scale, node_view, premultiplied_color, tree_view, GhostTrace, LayoutDoc, NedReference,
    OriMapping, PaneTree, PosMapping, TraceRef, TreeView, VehicleConfig,
};
use crate::layout_load::{
    applied, node_tree, node_trees, plot_state, source_of, vehicle_of, vehicles_of,
};
use crate::layout_resolve::{resolved, ResolverView, Setting};
use crate::layout_save::{
    ghost_layout, ghost_layouts, names_of, root_layout, trace_layout, trace_layouts, tree_layout,
    tree_layouts, vehicle_layout, vehicle_layouts, view_layout,
};
use crate::snapshot::{topic_index, FieldId, StoreSnapshot, TopicId, TopicInfo};
use vstd::prelude::*;

verus! {

/// Whether the names of a field lead back to it.
pub open spec fn found_again(setting: Setting, field: FieldId) -> bool {
    names_of(setting.snapshot, field) matches Some(names) && resolved(setting, names@) == Some(
        field,
    )
}

/// Whether a plot finds all its traces again and none of its ghosts.
pub open spec fn plot_restorable(
    setting: Setting,
    traces: Seq<TraceRef>,
    ghosts: Seq<GhostTrace>,
) -> bool {
    &&& forall|i: int|
        0 <= i < traces.len() ==> found_again(setting, (#[trigger] traces[i]).field)
    &&& forall|i: int|
        0 <= i < ghosts.len() ==> resolved(
            setting,
            ghost_layout(#[trigger] ghosts[i]).field@,
        ) is None
}

/// Whether every plot can be restored, and every container has at least two
/// children.
pub open spec fn restorable(setting: Setting, tree: TreeView) -> bool
    decreases tree, 0nat,
{
    match tree {
        TreeView::Plot { traces, ghosts, .. } => plot_restorable(setting, traces, ghosts),
        TreeView::Scene3D(_) => true,
        TreeView::Split { children, .. } => children.len() >= 2 && all_restorable(
            setting,
            children,
            children.len(),
        ),
    }
}

/// Whether the first `n` children can be restored.
pub open spec fn all_restorable(setting: Setting, children: Seq<TreeView>, n: nat) -> bool
    decreases children, n,
{
    if n == 0 || n > children.len() {
        true
    } else {
        all_restorable(setting, children, (n - 1) as nat) && restorable(setting, children[n - 1])
    }
}

proof fn lemma_trace_layouts(setting: Setting, traces: Seq<TraceRef>)
    requires
        forall|i: int| 0 <= i < traces.len() ==> found_again(setting, (#[trigger] traces[i]).field),
    ensures
        trace_layouts(setting.snapshot, traces).len() == traces.len(),
        forall|i: int|
            0 <= i < traces.len() ==> Some(
                #[trigger] trace_layouts(setting.snapshot, traces)[i],
            ) == trace_layout(setting.snapshot, traces[i]),
    decreases traces.len(),
{
    if traces.len() > 0 {
        let short = traces.drop_last();
        assert forall|i: int| 0 <= i < short.len() implies found_again(
            setting,
            (#[trigger] short[i]).field,
        ) by {
            assert(traces[i] == short[i]);
        }
        lemma_trace_layouts(setting, short);
        assert(found_again(setting, traces[traces.len() - 1].field));
    }
}

proof fn lemma_plot_restored(
    setting: Setting,
    state: ResolverView,
    traces: Seq<TraceRef>,
    ghosts: Seq<GhostTrace>,
    n: nat,
)
    requires
        plot_restorable(setting, traces, ghosts),
        n <= traces.len() + ghosts.len(),
    ensures
        ({
            let saved = trace_layouts(setting.snapshot, traces) + ghost_layouts(ghosts);
            let plot = plot_state(setting, state, saved, n);
            &&& plot.traces == traces.take(if n <= traces.len() { n as int } else { traces.len() as int })
            &&& plot.ghosts == ghosts.take(if n <= traces.len() { 0 } else { n - traces.len() })
        }),
    decreases n,
{
    lemma_trace_layouts(setting, traces);
    let saved = trace_layouts(setting.snapshot, traces) + ghost_layouts(ghosts);
    if n == 0 {
        assert(traces.take(0) =~= Seq::<TraceRef>::empty());
        assert(ghosts.take(0) =~= Seq::<GhostTrace>::empty());
    } else {
        lemma_plot_restored(setting, state, traces, ghosts, (n - 1) as nat);
        let k = n - 1;
        if k < traces.len() {
            assert(saved[k] == trace_layouts(setting.snapshot, traces)[k]);
            assert(found_again(setting, traces[k].field));
            assert(traces.take(n as int) =~= traces.take(k).push(traces[k]));
            assert(ghosts.take(0) =~= Seq::<GhostTrace>::empty());
        } else {
            let g = k - traces.len();
            assert(saved[k] == ghost_layout(ghosts[g]));
            assert(resolved(setting, ghost_layout(ghosts[g]).field@) is None);
            assert(ghosts.take(g + 1) =~= ghosts.take(g).push(ghosts[g]));
            assert(traces.take(traces.len() as int) =~= traces);
        }
    }
}

proof fn lemma_tree_layouts_at(setting: Setting, children: Seq<TreeView>, n: nat)
    requires
        n <= children.len(),
    ensures
        tree_layouts(setting.snapshot, children, n).len() == n,
        forall|i: int|
            0 <= i < n ==> #[trigger] tree_layouts(setting.snapshot, children, n)[i]
                == tree_layout(setting.snapshot, children[i]),
    decreases n,
{
    if n > 0 {
        lemma_tree_layouts_at(setting, children, (n - 1) as nat);
    }
}

/// A workspace that is saved and loaded again, with every trace found and every
/// ghost still missing, is what it was.
pub proof fn saved_workspaces_are_restored(setting: Setting, state: ResolverView, tree: TreeView)
    requires
        restorable(setting, tree),
    ensures
        node_tree(setting, state, tree_layout(setting.snapshot, tree)).1 == Some(tree),
    decreases tree, 0nat,
{
    match tree {
        TreeView::Plot { traces, ghosts, .. } => {
            let n = (traces.len() + ghosts.len()) as nat;
            lemma_trace_layouts(setting, traces);
            lemma_plot_restored(setting, state, traces, ghosts, n);
            assert(traces.take(traces.len() as int) =~= traces);
            assert(ghosts.take(ghosts.len() as int) =~= ghosts);
        },
        TreeView::Scene3D(_) => {},
        TreeView::Split { split, children } => {
            lemma_tree_layouts_at(setting, children, children.len());
            lemma_children_restored(setting, state, children, children.len());
            assert(children.take(children.len() as int) =~= children);
        },
    }
}

proof fn lemma_children_restored(
    setting: Setting,
    state: ResolverView,
    children: Seq<TreeView>,
    n: nat,
)
    requires
        n <= children.len(),
        all_restorable(setting, children, n),
    ensures
        node_trees(
            setting,
            state,
            tree_layouts(setting.snapshot, children, children.len()),
            n,
        ).1 == children.take(n as int),
    decreases children, n,
{
    let saved = tree_layouts(setting.snapshot, children, children.len());
    lemma_tree_layouts_at(setting, children, children.len());
    if n == 0 {
        assert(children.take(0) =~= Seq::<TreeView>::empty());
    } else {
        lemma_children_restored(setting, state, children, (n - 1) as nat);
        let before = node_trees(setting, state, saved, (n - 1) as nat).0;
        saved_workspaces_are_restored(setting, before, children[n - 1]);
        assert(saved[n - 1] == tree_layout(setting.snapshot, children[n - 1]));
        assert(children.take(n as int) =~= children.take(n - 1).push(children[n - 1]));
    }
}

/// Whether the fields of a position are found again.
pub open spec fn pos_restorable(setting: Setting, pos: PosMapping) -> bool {
    match pos {
        PosMapping::Ned { north, east, down, reference } => found_again(setting, north)
            && found_again(setting, east) && found_again(setting, down) && match reference {
            Some(NedReference::Fields { lat, lon, alt }) => found_again(setting, lat)
                && found_again(setting, lon) && found_again(setting, alt),
            _ => true,
        },
        PosMapping::Gps { lat, lon, alt, .. } => found_again(setting, lat) && found_again(
            setting,
            lon,
        ) && found_again(setting, alt),
    }
}

/// Whether the fields of an orientation are found again.
pub open spec fn ori_restorable(setting: Setting, ori: OriMapping) -> bool {
    match ori {
        OriMapping::Static => true,
        OriMapping::Euler { roll, pitch, yaw, .. } => found_again(setting, roll) && found_again(
            setting,
            pitch,
        ) && found_again(setting, yaw),
        OriMapping::Quat { w, x, y, z } => found_again(setting, w) && found_again(setting, x)
            && found_again(setting, y) && found_again(setting, z),
    }
}

/// The field by which the source of a vehicle is found.
pub open spec fn leading_id(pos: PosMapping) -> FieldId {
    match pos {
        PosMapping::Ned { north, .. } => north,
        PosMapping::Gps { lat, .. } => lat,
    }
}

/// A vehicle that is saved and loaded again is what it was, if its fields are
/// found again, its source is that of its leading field, its colours are not
/// dimmed by their alpha and its scale is not too small.
pub proof fn saved_vehicles_are_restored(setting: Setting, state: ResolverView, v: VehicleConfig)
    requires
        vehicle_restorable(setting, v),
    ensures
        vehicle_layout(setting.snapshot, v) matches Some(saved) && vehicle_of(
            setting,
            state,
            saved,
        ).1 == Some(v),
{
}

/// Opaque colours are not dimmed.
pub proof fn opaque_colors_are_kept(c: [u8; 4])
    requires
        c[3] == 255,
    ensures
        premultiplied_color(c) == c,
{
}

/// Whether a vehicle is what it was after it is saved and loaded again.
pub open spec fn vehicle_restorable(setting: Setting, v: VehicleConfig) -> bool {
    &&& pos_restorable(setting, v.pos)
    &&& ori_restorable(setting, v.ori)
    &&& source_of(setting.snapshot, leading_id(v.pos)) == Some(v.source)
    &&& premultiplied_color(v.color) == v.color
    &&& premultiplied_color(v.path_color) == v.path_color
    &&& clamped_scale(v.scale) == v.scale
}

proof fn lemma_vehicle_layouts(setting: Setting, vehicles: Seq<VehicleConfig>)
    requires
        forall|i: int|
            0 <= i < vehicles.len() ==> vehicle_restorable(setting, #[trigger] vehicles[i]),
    ensures
        vehicle_layouts(setting.snapshot, vehicles).len() == vehicles.len(),
        forall|i: int|
            0 <= i < vehicles.len() ==> Some(
                #[trigger] vehicle_layouts(setting.snapshot, vehicles)[i],
            ) == vehicle_layout(setting.snapshot, vehicles[i]),
    decreases vehicles.len(),
{
    if vehicles.len() > 0 {
        let rest = vehicles.drop_last();
        assert forall|i: int| 0 <= i < rest.len() implies vehicle_restorable(
            setting,
            #[trigger] rest[i],
        ) by {
            assert(rest[i] == vehicles[i]);
        }
        lemma_vehicle_layouts(setting, rest);
        let last = vehicles[vehicles.len() - 1];
        assert(vehicle_restorable(setting, last));
        saved_vehicles_are_restored(setting, ResolverView {
            warnings: Seq::empty(),
            ambiguities: Seq::empty(),
        }, last);
        let all = vehicle_layouts(setting.snapshot, vehicles);
        assert forall|i: int| 0 <= i < vehicles.len() implies Some(#[trigger] all[i])
            == vehicle_layout(setting.snapshot, vehicles[i]) by {
            if i < rest.len() {
                assert(all[i] == vehicle_layouts(setting.snapshot, rest)[i]);
                assert(rest[i] == vehicles[i]);
            }
        }
    }
}

proof fn lemma_vehicles_restored(
    setting: Setting,
    state: ResolverView,
    vehicles: Seq<VehicleConfig>,
    n: nat,
)
    requires
        n <= vehicles.len(),
        forall|i: int|
            0 <= i < vehicles.len() ==> vehicle_restorable(setting, #[trigger] vehicles[i]),
    ensures
        vehicles_of(setting, state, vehicle_layouts(setting.snapshot, vehicles), n).1
            == vehicles.take(n as int),
    decreases n,
{
    if n == 0 {
        assert(vehicles.take(0) =~= Seq::<VehicleConfig>::empty());
    } else {
        lemma_vehicles_restored(setting, state, vehicles, (n - 1) as nat);
        lemma_vehicle_layouts(setting, vehicles);
        let saved = vehicle_layouts(setting.snapshot, vehicles);
        let before = vehicles_of(setting, state, saved, (n - 1) as nat).0;
        assert(vehicle_restorable(setting, vehicles[n - 1]));
        assert(Some(saved[n - 1]) == vehicle_layout(setting.snapshot, vehicles[n - 1]));
        saved_vehicles_are_restored(setting, before, vehicles[n - 1]);
        assert(vehicles.take(n as int) =~= vehicles.take(n - 1).push(vehicles[n - 1]));
    }
}

/// A layout that is saved and loaded again sets what was saved: the panes, the
/// range of time, the playback and the vehicles. That the view follows the
/// whole data is kept where there is a view.
pub proof fn saved_layouts_are_restored(
    setting: Setting,
    state: ResolverView,
    doc: LayoutDoc,
    tree: TreeView,
    view: Option<(i64, i64)>,
    fit_all: bool,
    vehicles: Seq<VehicleConfig>,
)
    requires
        node_view(doc.workspace.root) == tree_layout(setting.snapshot, tree),
        doc.view == view_layout(view, fit_all),
        doc.vehicles@ == vehicle_layouts(setting.snapshot, vehicles),
        restorable(setting, tree),
        forall|i: int|
            0 <= i < vehicles.len() ==> vehicle_restorable(setting, #[trigger] vehicles[i]),
    ensures
        ({
            let loaded = applied(setting, state, doc);
            &&& loaded.root == tree
            &&& loaded.view == view
            &&& view is Some ==> loaded.fit_all == fit_all
            &&& loaded.speed == doc.playback.speed
            &&& loaded.follow_live == doc.playback.follow_live
            &&& loaded.vehicles == vehicles
        }),
{
    saved_workspaces_are_restored(setting, state, tree);
    let mid = node_tree(setting, state, node_view(doc.workspace.root)).0;
    lemma_vehicle_layouts(setting, vehicles);
    lemma_vehicles_restored(setting, mid, vehicles, vehicles.len());
    assert(vehicles.take(vehicles.len() as int) =~= vehicles);
}

/// Whether two snapshots have the same fields in the same topics, under the same
/// names. Their sources may differ in everything.
pub open spec fn same_naming(a: StoreSnapshot, b: StoreSnapshot) -> bool {
    &&& a.fields@.len() == b.fields@.len()
    &&& forall|i: int|
        0 <= i < a.fields@.len() ==> (#[trigger] a.fields@[i]).id == b.fields@[i].id
            && a.fields@[i].topic == b.fields@[i].topic && a.fields@[i].name == b.fields@[i].name
    &&& a.topics@.len() == b.topics@.len()
    &&& forall|i: int|
        0 <= i < a.topics@.len() ==> (#[trigger] a.topics@[i]).id == b.topics@[i].id
            && a.topics@[i].name == b.topics@[i].name
}

proof fn lemma_same_topic_index(a: Seq<TopicInfo>, b: Seq<TopicInfo>, id: TopicId, i: int)
    requires
        a.len() == b.len(),
        forall|k: int| 0 <= k < a.len() ==> (#[trigger] a[k]).id == b[k].id,
        0 <= i <= a.len(),
    ensures
        topic_index(a, id, i) == topic_index(b, id, i),
        topic_index(a, id, i) matches Some(t) ==> 0 <= t < a.len(),
    decreases a.len() - i,
{
    if i < a.len() {
        assert(a[i].id == b[i].id);
        lemma_same_topic_index(a, b, id, i + 1);
    }
}

proof fn lemma_same_names(a: StoreSnapshot, b: StoreSnapshot)
    requires
        same_naming(a, b),
    ensures
        forall|field: FieldId| #[trigger] names_of(a, field) == names_of(b, field),
{
    assert forall|field: FieldId| #[trigger] names_of(a, field) == names_of(b, field) by {
        if field.0 < a.fields@.len() {
            let entry = a.fields@[field.0 as int];
            lemma_same_topic_index(a.topics@, b.topics@, entry.topic, 0);
            if let Some(t) = topic_index(a.topics@, entry.topic, 0) {
                assert(a.topics@[t].name == b.topics@[t].name);
            }
        }
    }
}

proof fn lemma_same_traces(a: StoreSnapshot, b: StoreSnapshot, traces: Seq<TraceRef>)
    requires
        same_naming(a, b),
    ensures
        trace_layouts(a, traces) == trace_layouts(b, traces),
    decreases traces.len(),
{
    lemma_same_names(a, b);
    if traces.len() > 0 {
        lemma_same_traces(a, b, traces.drop_last());
    }
}

proof fn lemma_same_tree(a: StoreSnapshot, b: StoreSnapshot, tree: TreeView)
    requires
        same_naming(a, b),
    ensures
        tree_layout(a, tree) == tree_layout(b, tree),
    decreases tree, 0nat,
{
    match tree {
        TreeView::Plot { traces, .. } => {
            lemma_same_traces(a, b, traces);
        },
        TreeView::Scene3D(_) => {},
        TreeView::Split { children, .. } => {
            lemma_same_trees(a, b, children, children.len());
        },
    }
}

proof fn lemma_same_trees(a: StoreSnapshot, b: StoreSnapshot, children: Seq<TreeView>, n: nat)
    requires
        same_naming(a, b),
    ensures
        tree_layouts(a, children, n) == tree_layouts(b, children, n),
    decreases children, n,
{
    if n > 0 && n <= children.len() {
        lemma_same_trees(a, b, children, (n - 1) as nat);
        lemma_same_tree(a, b, children[n - 1]);
    }
}

proof fn lemma_same_vehicles(
    a: StoreSnapshot,
    b: StoreSnapshot,
    vehicles: Seq<VehicleConfig>,
    others: Seq<VehicleConfig>,
)
    requires
        same_naming(a, b),
        vehicles.len() == others.len(),
        forall|i: int|
            0 <= i < vehicles.len() ==> #[trigger] vehicles[i] == (VehicleConfig {
                source: vehicles[i].source,
                ..others[i]
            }),
    ensures
        vehicle_layouts(a, vehicles) == vehicle_layouts(b, others),
    decreases vehicles.len(),
{
    lemma_same_names(a, b);
    if vehicles.len() > 0 {
        let short = vehicles.drop_last();
        assert forall|i: int| 0 <= i < short.len() implies #[trigger] short[i] == (VehicleConfig {
            source: short[i].source,
            ..others.drop_last()[i]
        }) by {
            assert(short[i] == vehicles[i]);
        }
        lemma_same_vehicles(a, b, short, others.drop_last());
        assert(vehicles[vehicles.len() - 1] == vehicles.last());
    }
}

/// A layout names topics and fields and no source: whatever the sources are, and
/// whichever of them the vehicles come from, the same panes and vehicles are
/// saved alike.
pub proof fn layouts_do_not_depend_on_sources(
    a: StoreSnapshot,
    b: StoreSnapshot,
    root: Option<&PaneTree>,
    vehicles: Seq<VehicleConfig>,
    others: Seq<VehicleConfig>,
)
    requires
        same_naming(a, b),
        vehicles.len() == others.len(),
        forall|i: int|
            0 <= i < vehicles.len() ==> #[trigger] vehicles[i] == (VehicleConfig {
                source: vehicles[i].source,
                ..others[i]
            }),
    ensures
        root_layout(a, root) == root_layout(b, root),
        vehicle_layouts(a, vehicles) == vehicle_layouts(b, others),
{
    if let Some(tree) = root {
        lemma_same_tree(a, b, tree_view(*tree));
    }
    lemma_same_vehicles(a, b, vehicles, others);
}

} // verus!
