//! What each part of a layout says, and what it becomes.

use crate::gpu::TraceMode;
use crate::layout::{
    choices_of, name_chars, sanitized, storage_place, without_underscores, Platform, StorageRoots,
};
use crate::layout_doc::{
    mode_from_layout, mode_to_layout, model_kind, model_layout, premultiplied_color, FieldRef,
    GhostTrace, LayoutDoc, ModelKind, ModelLayout, NedRefLayout, NedReference, NodeView, OriLayout,
    OriMapping, PosLayout, PosMapping, RefView, TraceLayout, TraceRef, TreeView, VehicleConfig,
    VehicleLayout, MIN_SCALE_BITS,
};
use crate::layout_load::{
    applied, node_refs, node_tree, node_trees, nodes_refs, ori_mapping, ori_refs, plot_state,
    pos_mapping, pos_refs, source_of, vehicle_of, vehicle_refs,
};
use crate::layout_resolve::{resolved, AmbiguousField, ResolverView, Setting};
use crate::layout_save::{
    ghost_layout, names_of, ori_layout, pos_layout, trace_layout, tree_layout, tree_layouts,
    vehicle_layout, view_layout,
};
use crate::snapshot::{topic_index, FieldId, SourceId, StoreSnapshot, TopicInfo};
use vstd::prelude::*;

verus! {

proof fn lemma_topic_at(topics: Seq<TopicInfo>, t: int, from: int)
    requires
        0 <= from <= t < topics.len(),
        forall|k: int| from <= k < t ==> (#[trigger] topics[k]).id != topics[t].id,
    ensures
        topic_index(topics, topics[t].id, from) == Some(t),
    decreases t - from,
{
    if from < t {
        lemma_topic_at(topics, t, from + 1);
    }
}

/// A field is written by the name of its topic and its own, and comes from the
/// source of its topic.
pub proof fn fields_are_written_by_their_names(snapshot: StoreSnapshot, n: u32, t: int)
    requires
        n < snapshot.fields@.len(),
        snapshot.fields@[n as int].id == FieldId(n),
        0 <= t < snapshot.topics@.len(),
        snapshot.topics@[t].id == snapshot.fields@[n as int].topic,
        forall|k: int|
            0 <= k < t ==> (#[trigger] snapshot.topics@[k]).id != snapshot.topics@[t].id,
    ensures
        names_of(snapshot, FieldId(n)) matches Some(names) && names.topic@
            == snapshot.topics@[t].name@ && names.field@ == snapshot.fields@[n as int].name@,
        source_of(snapshot, FieldId(n)) == Some(snapshot.topics@[t].source),
{
    lemma_topic_at(snapshot.topics@, t, 0);
}

/// The modes of traces and the models of vehicles are written under their own
/// names and read back as what they were.
pub proof fn modes_and_models_keep_their_names(mode: TraceMode, model: ModelKind)
    ensures
        mode is Line <==> mode_to_layout(mode) is Line,
        mode is Scatter <==> mode_to_layout(mode) is Scatter,
        mode is Step <==> mode_to_layout(mode) is Step,
        mode_from_layout(mode_to_layout(mode)) == mode,
        model is Quad <==> model_layout(model) is Quad,
        model is FixedWing <==> model_layout(model) is FixedWing,
        model is DeltaWing <==> model_layout(model) is DeltaWing,
        model is Cone <==> model_layout(model) is Cone,
        model matches ModelKind::CustomGlb(file) ==> (
        model_layout(model) matches ModelLayout::CustomGlb { path } && path == file),
        model_kind(model_layout(model)) == model,
{
}

/// A trace is written with the names of its own field and its own looks.
pub proof fn traces_are_written_as_they_are(snapshot: StoreSnapshot, trace: TraceRef)
    ensures
        trace_layout(snapshot, trace) is Some <==> names_of(snapshot, trace.field) is Some,
        trace_layout(snapshot, trace) matches Some(written) ==> names_of(snapshot, trace.field)
            == Some(written.field) && written.color == trace.color && written.width_px
            == trace.width_px && written.visible == trace.visible && (written.mode is Step
            <==> trace.mode is Step) && (written.mode is Scatter <==> trace.mode is Scatter),
{
}

/// A ghost is written with the names that it stands for and its own looks.
pub proof fn ghosts_are_written_as_they_are(ghost_trace: GhostTrace)
    ensures
        ({
            let written = ghost_layout(ghost_trace);
            &&& written.field.topic == ghost_trace.topic
            &&& written.field.field == ghost_trace.field
            &&& written.color == ghost_trace.color
            &&& written.width_px == ghost_trace.width_px
            &&& written.visible == ghost_trace.visible
            &&& written.mode is Step <==> ghost_trace.mode is Step
            &&& written.mode is Scatter <==> ghost_trace.mode is Scatter
        }),
{
}

/// Whether a trace of a plot is what a layout asks for.
pub open spec fn shows(shown: TraceRef, asked: TraceLayout, field: FieldId) -> bool {
    &&& shown.field == field
    &&& shown.color == asked.color
    &&& shown.width_px == asked.width_px
    &&& shown.visible == asked.visible
    &&& shown.mode is Line <==> asked.mode is Line
    &&& shown.mode is Scatter <==> asked.mode is Scatter
}

/// Whether a ghost stands for what a layout asks for.
pub open spec fn stands_for(shown: GhostTrace, asked: TraceLayout) -> bool {
    &&& shown.topic == asked.field.topic
    &&& shown.field == asked.field.field
    &&& shown.color == asked.color
    &&& shown.width_px == asked.width_px
    &&& shown.visible == asked.visible
    &&& shown.mode is Line <==> asked.mode is Line
    &&& shown.mode is Scatter <==> asked.mode is Scatter
}

/// How many of the first `n` traces are found.
pub open spec fn found_before(setting: Setting, traces: Seq<TraceLayout>, n: int) -> nat
    decreases n,
{
    if n <= 0 {
        0
    } else {
        found_before(setting, traces, n - 1) + if resolved(
            setting,
            traces[n - 1].field@,
        ) is Some {
            1nat
        } else {
            0nat
        }
    }
}

/// A plot shows each trace whose field is found, as the layout asks for it, and a
/// ghost in place of each other, both in the order of the layout.
pub proof fn plots_show_what_is_asked_for(
    setting: Setting,
    state: ResolverView,
    traces: Seq<TraceLayout>,
    n: nat,
    i: int,
)
    requires
        0 <= i < n <= traces.len(),
    ensures
        ({
            let plot = plot_state(setting, state, traces, n);
            let at = found_before(setting, traces, i) as int;
            &&& plot.traces.len() == found_before(setting, traces, n as int)
            &&& plot.ghosts.len() == n - found_before(setting, traces, n as int)
            &&& at <= i
            &&& match resolved(setting, traces[i].field@) {
                Some(field) => at < plot.traces.len() && shows(plot.traces[at], traces[i], field),
                None => i - at < plot.ghosts.len() && stands_for(plot.ghosts[i - at], traces[i]),
            }
        }),
    decreases n,
{
    lemma_plot_counts(setting, state, traces, n);
    lemma_plot_counts(setting, state, traces, i as nat);
    let plot = plot_state(setting, state, traces, n);
    let before = plot_state(setting, state, traces, (n - 1) as nat);
    lemma_plot_counts(setting, state, traces, (n - 1) as nat);
    if i < n - 1 {
        plots_show_what_is_asked_for(setting, state, traces, (n - 1) as nat, i);
        let at = found_before(setting, traces, i) as int;
        if resolved(setting, traces[i].field@) is Some {
            assert(plot.traces[at] == before.traces[at]);
        } else {
            assert(plot.ghosts[i - at] == before.ghosts[i - at]);
        }
    }
}

proof fn lemma_plot_counts(
    setting: Setting,
    state: ResolverView,
    traces: Seq<TraceLayout>,
    n: nat,
)
    requires
        n <= traces.len(),
    ensures
        ({
            let plot = plot_state(setting, state, traces, n);
            &&& plot.traces.len() == found_before(setting, traces, n as int)
            &&& plot.ghosts.len() == n - found_before(setting, traces, n as int)
        }),
    decreases n,
{
    if n > 0 {
        lemma_plot_counts(setting, state, traces, (n - 1) as nat);
    }
}

/// The panes of a split are written in their order, each as it is by itself.
pub proof fn panes_are_written_in_order(
    snapshot: StoreSnapshot,
    children: Seq<TreeView>,
    n: nat,
    i: int,
)
    requires
        0 <= i < n <= children.len(),
    ensures
        tree_layouts(snapshot, children, n).len() == n,
        tree_layouts(snapshot, children, n)[i] == tree_layout(snapshot, children[i]),
    decreases n,
{
    lemma_layouts_len(snapshot, children, n);
    if i < n - 1 {
        panes_are_written_in_order(snapshot, children, (n - 1) as nat, i);
    } else {
        lemma_layouts_len(snapshot, children, (n - 1) as nat);
    }
}

proof fn lemma_layouts_len(snapshot: StoreSnapshot, children: Seq<TreeView>, n: nat)
    requires
        n <= children.len(),
    ensures
        tree_layouts(snapshot, children, n).len() == n,
    decreases n,
{
    if n > 0 {
        lemma_layouts_len(snapshot, children, (n - 1) as nat);
    }
}

/// A pane is written as what it is: a plot with its own switches and first its
/// traces, a scene as that scene, a split with its direction.
pub proof fn panes_are_written_as_they_are(snapshot: StoreSnapshot, tree: TreeView)
    ensures
        match tree {
            TreeView::Plot { traces, ghosts, show_legend, show_tooltip } => tree_layout(
                snapshot,
                tree,
            ) matches NodeView::Plot { traces: written, show_legend: legend, show_tooltip: tooltip }
                && legend == show_legend && tooltip == show_tooltip && written.len()
                >= ghosts.len() && forall|g: int|
                0 <= g < ghosts.len() ==> #[trigger] written[written.len() - ghosts.len() + g]
                    == ghost_layout(ghosts[g]),
            TreeView::Scene3D(scene) => tree_layout(snapshot, tree) == NodeView::Scene3d(scene),
            TreeView::Split { split, children } => tree_layout(
                snapshot,
                tree,
            ) matches NodeView::Split { split: written, children: parts } && written == split
                && parts.len() == children.len(),
        },
{
    if let TreeView::Split { split, children } = tree {
        lemma_layouts_len(snapshot, children, children.len());
    }
}

/// A split becomes the panes that its parts become, in their order; one part
/// alone takes its place, and none leaves nothing.
pub proof fn splits_become_their_panes(
    setting: Setting,
    state: ResolverView,
    node: NodeView,
)
    ensures
        node matches NodeView::Split { split, children } ==> ({
            let parts = node_trees(setting, state, children, children.len()).1;
            let tree = node_tree(setting, state, node).1;
            &&& parts.len() == 0 <==> tree is None
            &&& parts.len() == 1 ==> tree == Some(parts[0])
            &&& parts.len() > 1 ==> (tree matches Some(
                TreeView::Split { split: direction, children: panes },
            ) && direction == split && panes == parts)
        }),
        node matches NodeView::Scene3d(scene) ==> node_tree(setting, state, node).1 == Some(
            TreeView::Scene3D(scene),
        ),
        node matches NodeView::Plot { show_legend, show_tooltip, .. } ==> (node_tree(
            setting,
            state,
            node,
        ).1 matches Some(TreeView::Plot { show_legend: legend, show_tooltip: tooltip, .. })
            && legend == show_legend && tooltip == show_tooltip),
{
}

/// One more part of a split comes behind the panes of those before it.
pub proof fn parts_are_read_in_order(
    setting: Setting,
    state: ResolverView,
    children: Seq<NodeView>,
    n: nat,
)
    requires
        n < children.len(),
    ensures
        ({
            let (mid, before) = node_trees(setting, state, children, n);
            let (end, all) = node_trees(setting, state, children, n + 1);
            let (last, tree) = node_tree(setting, mid, children[n as int]);
            &&& end == last
            &&& before.is_prefix_of(all)
            &&& all.len() == before.len() + if tree is Some {
                1nat
            } else {
                0nat
            }
            &&& tree is Some ==> Some(all.last()) == tree
        }),
{
    let (mid, before) = node_trees(setting, state, children, n);
    let (end, all) = node_trees(setting, state, children, n + 1);
    assert(before.is_prefix_of(all)) by {
        assert(all.take(before.len() as int) =~= before);
    }
}

/// The position of a vehicle is written with the names of its own fields, each
/// in its place.
pub proof fn positions_are_written_as_they_are(snapshot: StoreSnapshot, pos: PosMapping)
    ensures
        match pos {
            PosMapping::Gps { lat, lon, alt, lat_lon_dege7, alt_mm, alt_offset_m } => {
                &&& pos_layout(snapshot, pos) is Some <==> names_of(snapshot, lat) is Some
                    && names_of(snapshot, lon) is Some && names_of(snapshot, alt) is Some
                &&& pos_layout(snapshot, pos) matches Some(written) ==> (
                written matches PosLayout::Gps {
                    lat: a,
                    lon: b,
                    alt: c,
                    lat_lon_dege7: scaled,
                    alt_mm: millimetres,
                    alt_offset_m: offset,
                } && Some(a) == names_of(snapshot, lat) && Some(b) == names_of(snapshot, lon)
                    && Some(c) == names_of(snapshot, alt) && scaled == lat_lon_dege7 && millimetres
                    == alt_mm && offset == alt_offset_m)
            },
            PosMapping::Ned { north, east, down, reference } => {
                &&& pos_layout(snapshot, pos) matches Some(written) ==> (
                written matches PosLayout::Ned { north: a, east: b, down: c, reference: origin }
                    && Some(a) == names_of(snapshot, north) && Some(b) == names_of(snapshot, east)
                    && Some(c) == names_of(snapshot, down) && match reference {
                    None => origin is None,
                    Some(NedReference::Manual { lat_deg, lon_deg, alt_m }) => origin matches Some(
                        NedRefLayout::Manual { lat_deg: x, lon_deg: y, alt_m: z },
                    ) && x == lat_deg && y == lon_deg && z == alt_m,
                    Some(NedReference::Fields { lat, lon, alt }) => origin matches Some(
                        NedRefLayout::Fields { lat: x, lon: y, alt: z },
                    ) && Some(x) == names_of(snapshot, lat) && Some(y) == names_of(snapshot, lon)
                        && Some(z) == names_of(snapshot, alt),
                })
                &&& reference is None ==> (pos_layout(snapshot, pos) is Some <==> names_of(
                    snapshot,
                    north,
                ) is Some && names_of(snapshot, east) is Some && names_of(snapshot, down) is Some)
            },
        },
{
}

/// The orientation of a vehicle is written with the names of its own fields, each
/// in its place.
pub proof fn orientations_are_written_as_they_are(snapshot: StoreSnapshot, ori: OriMapping)
    ensures
        match ori {
            OriMapping::Static => ori_layout(snapshot, ori) == Some(OriLayout::Static),
            OriMapping::Euler { roll, pitch, yaw, degrees } => {
                &&& ori_layout(snapshot, ori) is Some <==> names_of(snapshot, roll) is Some
                    && names_of(snapshot, pitch) is Some && names_of(snapshot, yaw) is Some
                &&& ori_layout(snapshot, ori) matches Some(written) ==> (
                written matches OriLayout::Euler { roll: a, pitch: b, yaw: c, degrees: unit }
                    && Some(a) == names_of(snapshot, roll) && Some(b) == names_of(snapshot, pitch)
                    && Some(c) == names_of(snapshot, yaw) && unit == degrees)
            },
            OriMapping::Quat { w, x, y, z } => {
                &&& ori_layout(snapshot, ori) is Some <==> names_of(snapshot, w) is Some
                    && names_of(snapshot, x) is Some && names_of(snapshot, y) is Some && names_of(
                    snapshot,
                    z,
                ) is Some
                &&& ori_layout(snapshot, ori) matches Some(written) ==> (
                written matches OriLayout::Quat { w: a, x: b, y: c, z: d } && Some(a)
                    == names_of(snapshot, w) && Some(b) == names_of(snapshot, x) && Some(c)
                    == names_of(snapshot, y) && Some(d) == names_of(snapshot, z))
            },
        },
{
}

/// A vehicle is written with its own label, looks and size, where its position
/// and its orientation can be.
pub proof fn vehicles_are_written_as_they_are(snapshot: StoreSnapshot, v: VehicleConfig)
    ensures
        vehicle_layout(snapshot, v) is Some <==> pos_layout(snapshot, v.pos) is Some && ori_layout(
            snapshot,
            v.ori,
        ) is Some,
        vehicle_layout(snapshot, v) matches Some(written) ==> {
            &&& written.label == v.label
            &&& written.show == v.show
            &&& written.color == v.color
            &&& written.path_color == v.path_color
            &&& written.scale == v.scale
            &&& written.model == model_layout(v.model)
            &&& Some(written.position) == pos_layout(snapshot, v.pos)
            &&& Some(written.orientation) == ori_layout(snapshot, v.ori)
        },
{
}

/// A position is read with the fields that its own references lead to, each in
/// its place, where all of them are found.
pub proof fn positions_are_read_as_written(setting: Setting, state: ResolverView, pos: PosLayout)
    ensures
        match pos {
            PosLayout::Gps { lat, lon, alt, lat_lon_dege7, alt_mm, alt_offset_m } => {
                let read = pos_mapping(setting, state, pos).1;
                &&& read is Some <==> resolved(setting, lat@) is Some && resolved(
                    setting,
                    lon@,
                ) is Some && resolved(setting, alt@) is Some
                &&& read matches Some(mapping) ==> (mapping matches PosMapping::Gps {
                    lat: a,
                    lon: b,
                    alt: c,
                    lat_lon_dege7: scaled,
                    alt_mm: millimetres,
                    alt_offset_m: offset,
                } && Some(a) == resolved(setting, lat@) && Some(b) == resolved(setting, lon@)
                    && Some(c) == resolved(setting, alt@) && scaled == lat_lon_dege7 && millimetres
                    == alt_mm && offset == alt_offset_m)
            },
            PosLayout::Ned { north, east, down, reference } => {
                let read = pos_mapping(setting, state, pos).1;
                &&& read is Some <==> resolved(setting, north@) is Some && resolved(
                    setting,
                    east@,
                ) is Some && resolved(setting, down@) is Some && (reference matches Some(
                    NedRefLayout::Fields { lat, lon, alt },
                ) ==> resolved(setting, lat@) is Some && resolved(setting, lon@) is Some
                    && resolved(setting, alt@) is Some)
                &&& read matches Some(mapping) ==> (mapping matches PosMapping::Ned {
                    north: a,
                    east: b,
                    down: c,
                    reference: origin,
                } && Some(a) == resolved(setting, north@) && Some(b) == resolved(setting, east@)
                    && Some(c) == resolved(setting, down@) && match reference {
                    None => origin is None,
                    Some(NedRefLayout::Manual { lat_deg, lon_deg, alt_m }) => origin matches Some(
                        NedReference::Manual { lat_deg: x, lon_deg: y, alt_m: z },
                    ) && x == lat_deg && y == lon_deg && z == alt_m,
                    Some(NedRefLayout::Fields { lat, lon, alt }) => origin matches Some(
                        NedReference::Fields { lat: x, lon: y, alt: z },
                    ) && Some(x) == resolved(setting, lat@) && Some(y) == resolved(setting, lon@)
                        && Some(z) == resolved(setting, alt@),
                })
            },
        },
{
}

/// An orientation is read with the fields that its own references lead to, each
/// in its place, where all of them are found.
pub proof fn orientations_are_read_as_written(
    setting: Setting,
    state: ResolverView,
    ori: OriLayout,
)
    ensures
        match ori {
            OriLayout::Static => ori_mapping(setting, state, ori).1 == Some(OriMapping::Static),
            OriLayout::Euler { roll, pitch, yaw, degrees } => {
                let read = ori_mapping(setting, state, ori).1;
                &&& read is Some <==> resolved(setting, roll@) is Some && resolved(
                    setting,
                    pitch@,
                ) is Some && resolved(setting, yaw@) is Some
                &&& read matches Some(mapping) ==> (mapping matches OriMapping::Euler {
                    roll: a,
                    pitch: b,
                    yaw: c,
                    degrees: unit,
                } && Some(a) == resolved(setting, roll@) && Some(b) == resolved(setting, pitch@)
                    && Some(c) == resolved(setting, yaw@) && unit == degrees)
            },
            OriLayout::Quat { w, x, y, z } => {
                let read = ori_mapping(setting, state, ori).1;
                &&& read is Some <==> resolved(setting, w@) is Some && resolved(setting, x@) is Some
                    && resolved(setting, y@) is Some && resolved(setting, z@) is Some
                &&& read matches Some(mapping) ==> (mapping matches OriMapping::Quat {
                    w: a,
                    x: b,
                    y: c,
                    z: d,
                } && Some(a) == resolved(setting, w@) && Some(b) == resolved(setting, x@)
                    && Some(c) == resolved(setting, y@) && Some(d) == resolved(setting, z@))
            },
        },
{
}

/// A vehicle is read with its own label and looks, and belongs to the source of
/// its position.
pub proof fn vehicles_are_read_as_written(
    setting: Setting,
    state: ResolverView,
    v: VehicleLayout,
)
    ensures
        vehicle_of(setting, state, v).1 matches Some(read) ==> {
            &&& read.label == v.label
            &&& read.show == v.show
            &&& read.model == model_kind(v.model)
            &&& read.color == premultiplied_color(v.color)
            &&& read.path_color == premultiplied_color(v.path_color)
            &&& v.scale >= MIN_SCALE_BITS && v.scale <= 0x7f80_0000 ==> read.scale == v.scale
            &&& read.scale >= MIN_SCALE_BITS
            &&& read.pos is Gps <==> v.position is Gps
            &&& read.pos matches PosMapping::Gps { lat, .. } ==> source_of(setting.snapshot, lat)
                == Some(read.source)
            &&& read.pos matches PosMapping::Ned { north, .. } ==> source_of(
                setting.snapshot,
                north,
            ) == Some(read.source)
        },
{
}

/// The range of time is written as it is, and as following the data where it
/// does; it is read back alike.
pub proof fn views_are_kept(
    view: Option<(i64, i64)>,
    fit_all: bool,
    setting: Setting,
    state: ResolverView,
    doc: LayoutDoc,
)
    requires
        doc.view == view_layout(view, fit_all),
    ensures
        match view {
            Some((from, to)) => view_layout(view, fit_all) matches Some(written) && written.min_us
                == from && written.max_us == to && (written.mode is Full <==> fit_all),
            None => view_layout(view, fit_all) is None,
        },
        applied(setting, state, doc).view == view,
        view is Some ==> applied(setting, state, doc).fit_all == fit_all,
        applied(setting, state, doc).speed == doc.playback.speed,
        applied(setting, state, doc).follow_live == doc.playback.follow_live,
{
}

proof fn lemma_concat_holds<T>(a: Seq<T>, b: Seq<T>, x: T)
    ensures
        (a + b).contains(x) <==> a.contains(x) || b.contains(x),
{
    if a.contains(x) {
        assert((a + b)[a.index_of(x)] == x);
    }
    if b.contains(x) {
        assert((a + b)[a.len() + b.index_of(x)] == x);
    }
    if (a + b).contains(x) {
        let i = (a + b).index_of(x);
        if i < a.len() {
            assert(a[i] == x);
        } else {
            assert(b[i - a.len()] == x);
        }
    }
}

/// Every reference of a position or an orientation is looked at before a layout
/// is applied.
pub proof fn vehicle_references_are_looked_at(
    vehicles: Seq<VehicleLayout>,
    n: nat,
    i: int,
    key: RefView,
)
    requires
        0 <= i < n <= vehicles.len(),
        match vehicles[i].position {
            PosLayout::Gps { lat, lon, alt, .. } => key == lat@ || key == lon@ || key == alt@,
            PosLayout::Ned { north, east, down, reference } => key == north@ || key == east@ || key
                == down@ || (reference matches Some(NedRefLayout::Fields { lat, lon, alt }) && (key
                == lat@ || key == lon@ || key == alt@)),
        } || match vehicles[i].orientation {
            OriLayout::Static => false,
            OriLayout::Euler { roll, pitch, yaw, .. } => key == roll@ || key == pitch@ || key
                == yaw@,
            OriLayout::Quat { w, x, y, z } => key == w@ || key == x@ || key == y@ || key == z@,
        },
    ensures
        vehicle_refs(vehicles, n).contains(key),
    decreases n,
{
    let rest = vehicle_refs(vehicles, (n - 1) as nat);
    let pos = pos_refs(vehicles[n - 1].position);
    let ori = ori_refs(vehicles[n - 1].orientation);
    lemma_concat_holds(rest, pos, key);
    lemma_concat_holds(rest + pos, ori, key);
    if i < n - 1 {
        vehicle_references_are_looked_at(vehicles, (n - 1) as nat, i, key);
    } else {
        match vehicles[i].position {
            PosLayout::Gps { lat, lon, alt, .. } => {
                assert(pos[0] == lat@ && pos[1] == lon@ && pos[2] == alt@);
            },
            PosLayout::Ned { north, east, down, reference } => {
                assert(pos[0] == north@ && pos[1] == east@ && pos[2] == down@);
                if let Some(NedRefLayout::Fields { lat, lon, alt }) = reference {
                    assert(pos[3] == lat@ && pos[4] == lon@ && pos[5] == alt@);
                }
            },
        }
        match vehicles[i].orientation {
            OriLayout::Static => {},
            OriLayout::Euler { roll, pitch, yaw, .. } => {
                assert(ori[0] == roll@ && ori[1] == pitch@ && ori[2] == yaw@);
            },
            OriLayout::Quat { w, x, y, z } => {
                assert(ori[0] == w@ && ori[1] == x@ && ori[2] == y@ && ori[3] == z@);
            },
        }
    }
}

/// Every reference of a plot, and of each part of a split, is looked at before a
/// layout is applied.
pub proof fn pane_references_are_looked_at(node: NodeView, i: int, key: RefView)
    ensures
        match node {
            NodeView::Plot { traces, .. } => 0 <= i < traces.len() ==> node_refs(node).contains(
                traces[i].field@,
            ),
            NodeView::Scene3d(_) => true,
            NodeView::Split { children, .. } => 0 <= i < children.len() && node_refs(
                children[i],
            ).contains(key) ==> node_refs(node).contains(key),
        },
{
    match node {
        NodeView::Plot { traces, .. } => {
            if 0 <= i < traces.len() {
                assert(node_refs(node)[i] == traces[i].field@);
            }
        },
        NodeView::Scene3d(_) => {},
        NodeView::Split { children, .. } => {
            if 0 <= i < children.len() && node_refs(children[i]).contains(key) {
                lemma_nodes_refs(children, children.len(), i, key);
            }
        },
    }
}

proof fn lemma_nodes_refs(children: Seq<NodeView>, n: nat, i: int, key: RefView)
    requires
        0 <= i < n <= children.len(),
        node_refs(children[i]).contains(key),
    ensures
        nodes_refs(children, n).contains(key),
    decreases n,
{
    lemma_concat_holds(nodes_refs(children, (n - 1) as nat), node_refs(children[n - 1]), key);
    if i < n - 1 {
        lemma_nodes_refs(children, (n - 1) as nat, i, key);
    }
}

/// What was selected for an ambiguous field is the choice that is made for it.
pub proof fn selections_become_choices(
    ambiguities: Seq<AmbiguousField>,
    field: FieldRef,
    source: SourceId,
)
    ensures
        choices_of(ambiguities).contains((field, source)) <==> exists|i: int|
            0 <= i < ambiguities.len() && (#[trigger] ambiguities[i]).field == field
                && ambiguities[i].selected < ambiguities[i].candidates@.len()
                && ambiguities[i].candidates@[ambiguities[i].selected as int].source == source,
    decreases ambiguities.len(),
{
    if ambiguities.len() > 0 {
        let short = ambiguities.drop_last();
        let last = ambiguities.len() - 1;
        let rest = choices_of(short);
        let all = choices_of(ambiguities);
        selections_become_choices(short, field, source);
        assert(ambiguities[last] == ambiguities.last());
        if rest.contains((field, source)) {
            assert(all[rest.index_of((field, source))] == (field, source));
            let i = choose|i: int|
                0 <= i < short.len() && (#[trigger] short[i]).field == field && short[i].selected
                    < short[i].candidates@.len()
                    && short[i].candidates@[short[i].selected as int].source == source;
            assert(ambiguities[i] == short[i]);
        }
        if all.len() > rest.len() {
            assert(all[all.len() - 1] == (
                ambiguities.last().field,
                ambiguities.last().candidates@[ambiguities.last().selected as int].source,
            ));
        }
        if exists|i: int|
            0 <= i < ambiguities.len() && (#[trigger] ambiguities[i]).field == field
                && ambiguities[i].selected < ambiguities[i].candidates@.len()
                && ambiguities[i].candidates@[ambiguities[i].selected as int].source == source {
            let i = choose|i: int|
                0 <= i < ambiguities.len() && (#[trigger] ambiguities[i]).field == field
                    && ambiguities[i].selected < ambiguities[i].candidates@.len()
                    && ambiguities[i].candidates@[ambiguities[i].selected as int].source == source;
            if i < last {
                assert(short[i] == ambiguities[i]);
            }
        }
    }
}

proof fn lemma_no_underscores_to_strip(s: Seq<char>)
    requires
        s.len() > 0,
        s.first() != '_',
        s.last() != '_',
    ensures
        without_underscores(s) == s,
{
}

/// A name of letters, digits and dashes is stored under itself.
pub proof fn plain_names_are_kept(name: Seq<char>)
    requires
        name.len() > 0,
        forall|i: int|
            0 <= i < name.len() ==> ('a' <= #[trigger] name[i] <= 'z') || ('A' <= name[i] <= 'Z')
                || ('0' <= name[i] <= '9') || name[i] == '-',
    ensures
        sanitized(name) == name,
{
    let chars = name_chars(name);
    assert(chars =~= name);
    assert(name[0] == name.first() && name[name.len() - 1] == name.last());
    lemma_no_underscores_to_strip(chars);
}

/// Each platform has its own place for the files: on Windows the directory for
/// the data of applications, elsewhere one below the home of the user, unless
/// one was set.
pub proof fn files_are_kept_where_the_platform_has_them(platform: Platform, roots: StorageRoots)
    ensures
        platform is Windows ==> storage_place(platform, roots).0 == roots.app_data,
        platform is MacOs ==> storage_place(platform, roots).0 == roots.home,
        platform is Other && roots.data_home is Some ==> storage_place(platform, roots).0
            == roots.data_home,
        platform is Other && roots.data_home is None ==> storage_place(platform, roots).0
            == roots.home,
{
}

} // verus!
