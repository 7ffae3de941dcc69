//! Building the workspace that a layout describes.

use crate::layout_doc::{
    clamp_scale, clamped_scale, mode_from_layout, model_from_layout, model_kind, node_view,
    node_views, plot_view, premultiplied_color, rgba_to_color, tree_view, tree_views, FieldRef,
    GhostTrace, LayoutDoc, LayoutNode, NedRefLayout, NedReference, NodeView, OriLayout, OriMapping,
    PaneTree, PlotPane, PosLayout, PosMapping, SplitLayout, TraceLayout, TraceRef, TreeView,
    VehicleConfig, VehicleLayout, ViewMode,
};
use crate::layout_resolve::{
    after, ambiguity_views, resolved, AmbiguousField, Resolver, ResolverView, Setting,
};
use crate::snapshot::{topic_index, FieldId, SourceId, StoreSnapshot};
use crate::text::views;
use vstd::prelude::*;

verus! {

/// The trace that a layout asks for, once its field is found.
pub open spec fn trace_of(trace: TraceLayout, field: FieldId) -> TraceRef {
    TraceRef {
        field,
        color: trace.color,
        width_px: trace.width_px,
        mode: mode_from_layout(trace.mode),
        visible: trace.visible,
    }
}

/// The ghost that stands for a trace whose field is not found.
pub open spec fn ghost_of(trace: TraceLayout) -> GhostTrace {
    GhostTrace {
        topic: trace.field.topic,
        field: trace.field.field,
        color: trace.color,
        width_px: trace.width_px,
        mode: mode_from_layout(trace.mode),
        visible: trace.visible,
    }
}

/// The trace that a layout asks for, if its field is found.
pub fn trace_from_layout(trace: &TraceLayout, resolver: &mut Resolver<'_>) -> (r: Option<TraceRef>)
    ensures
        final(resolver).setting() == old(resolver).setting(),
        final(resolver)@ == after(old(resolver)@, old(resolver).setting(), trace.field@),
        r == match resolved(old(resolver).setting(), trace.field@) {
            Some(field) => Some(trace_of(*trace, field)),
            None => None,
        },
{
    match resolver.resolve(&trace.field) {
        Some(field) => Some(
            TraceRef {
                field,
                color: trace.color,
                width_px: trace.width_px,
                mode: trace.mode.mode(),
                visible: trace.visible,
            },
        ),
        None => None,
    }
}

/// The ghost that stands for a trace whose field is not found.
pub fn ghost_from_layout(trace: &TraceLayout) -> (r: GhostTrace)
    ensures
        r == ghost_of(*trace),
{
    GhostTrace {
        topic: trace.field.topic.clone(),
        field: trace.field.field.clone(),
        color: trace.color,
        width_px: trace.width_px,
        mode: trace.mode.mode(),
        visible: trace.visible,
    }
}

/// The traces and ghosts of the first `n` traces of a plot, and the state of
/// the resolver behind them.
pub ghost struct PlotState {
    pub state: ResolverView,
    pub traces: Seq<TraceRef>,
    pub ghosts: Seq<GhostTrace>,
}

pub open spec fn plot_state(
    setting: Setting,
    state: ResolverView,
    traces: Seq<TraceLayout>,
    n: nat,
) -> PlotState
    decreases n,
{
    if n == 0 {
        PlotState { state, traces: Seq::empty(), ghosts: Seq::empty() }
    } else {
        let before = plot_state(setting, state, traces, (n - 1) as nat);
        let trace = traces[n - 1];
        let next = after(before.state, setting, trace.field@);
        match resolved(setting, trace.field@) {
            Some(field) => PlotState {
                state: next,
                traces: before.traces.push(trace_of(trace, field)),
                ..before
            },
            None => PlotState {
                state: next,
                ghosts: before.ghosts.push(ghost_of(trace)),
                ..before
            },
        }
    }
}

/// The panes of a list of children: none, the only one, or a container.
pub open spec fn gathered(split: SplitLayout, children: Seq<TreeView>) -> Option<TreeView> {
    if children.len() == 0 {
        None
    } else if children.len() == 1 {
        Some(children[0])
    } else {
        Some(TreeView::Split { split, children })
    }
}

/// The panes that a layout describes, and the state of the resolver behind them.
pub open spec fn node_tree(setting: Setting, state: ResolverView, node: NodeView) -> (
    ResolverView,
    Option<TreeView>,
)
    decreases node, 0nat,
{
    match node {
        NodeView::Plot { traces, show_legend, show_tooltip } => {
            let plot = plot_state(setting, state, traces, traces.len());
            (
                plot.state,
                Some(
                    TreeView::Plot {
                        traces: plot.traces,
                        ghosts: plot.ghosts,
                        show_legend,
                        show_tooltip,
                    },
                ),
            )
        },
        NodeView::Scene3d(scene) => (state, Some(TreeView::Scene3D(scene))),
        NodeView::Split { split, children } => {
            let (next, trees) = node_trees(setting, state, children, children.len());
            (next, gathered(split, trees))
        },
    }
}

/// The panes of the first `n` children that have any.
pub open spec fn node_trees(
    setting: Setting,
    state: ResolverView,
    children: Seq<NodeView>,
    n: nat,
) -> (ResolverView, Seq<TreeView>)
    decreases children, n,
{
    if n == 0 || n > children.len() {
        (state, Seq::empty())
    } else {
        let (before, trees) = node_trees(setting, state, children, (n - 1) as nat);
        let (next, tree) = node_tree(setting, before, children[n - 1]);
        (
            next,
            match tree {
                Some(tree) => trees.push(tree),
                None => trees,
            },
        )
    }
}

proof fn lemma_tree_views_same(a: Vec<PaneTree>, b: Vec<PaneTree>, n: nat)
    requires
        n <= a@.len(),
        n <= b@.len(),
        forall|i: int| 0 <= i < n ==> a@[i] == b@[i],
    ensures
        tree_views(a, n) == tree_views(b, n),
        tree_views(a, n).len() == n,
    decreases n,
{
    if n > 0 {
        lemma_tree_views_same(a, b, (n - 1) as nat);
    }
}

proof fn lemma_node_views_len(children: Vec<LayoutNode>, n: nat)
    requires
        n <= children@.len(),
    ensures
        node_views(children, n).len() == n,
        forall|i: int|
            0 <= i < n ==> #[trigger] node_views(children, n)[i] == node_view(children@[i]),
    decreases n,
{
    if n > 0 {
        lemma_node_views_len(children, (n - 1) as nat);
    }
}

proof fn lemma_tree_views_at(children: Vec<PaneTree>, n: nat)
    requires
        n <= children@.len(),
    ensures
        tree_views(children, n).len() == n,
        forall|i: int|
            0 <= i < n ==> #[trigger] tree_views(children, n)[i] == tree_view(children@[i]),
    decreases n,
{
    if n > 0 {
        lemma_tree_views_at(children, (n - 1) as nat);
    }
}

fn plot_from_layout(
    traces: &Vec<TraceLayout>,
    show_legend: bool,
    show_tooltip: bool,
    resolver: &mut Resolver<'_>,
) -> (r: PlotPane)
    ensures
        final(resolver).setting() == old(resolver).setting(),
        ({
            let plot = plot_state(
                old(resolver).setting(),
                old(resolver)@,
                traces@,
                traces@.len(),
            );
            &&& final(resolver)@ == plot.state
            &&& plot_view(r) == (TreeView::Plot {
                traces: plot.traces,
                ghosts: plot.ghosts,
                show_legend,
                show_tooltip,
            })
        }),
{
    let ghost setting = resolver.setting();
    let ghost start = resolver@;
    let mut pane = PlotPane { traces: Vec::new(), ghosts: Vec::new(), show_legend, show_tooltip };
    let mut i: usize = 0;
    while i < traces.len()
        invariant
            i <= traces@.len(),
            resolver.setting() == setting,
            pane.show_legend == show_legend,
            pane.show_tooltip == show_tooltip,
            plot_state(setting, start, traces@, i as nat) == (PlotState {
                state: resolver@,
                traces: pane.traces@,
                ghosts: pane.ghosts@,
            }),
        decreases traces@.len() - i,
    {
        match trace_from_layout(&traces[i], resolver) {
            Some(trace) => pane.traces.push(trace),
            None => pane.ghosts.push(ghost_from_layout(&traces[i])),
        }
        i = i + 1;
    }
    pane
}

/// The panes that a layout describes, if it describes any.
pub fn tree_from_layout(node: &LayoutNode, resolver: &mut Resolver<'_>) -> (r: Option<PaneTree>)
    ensures
        final(resolver).setting() == old(resolver).setting(),
        final(resolver)@ == node_tree(
            old(resolver).setting(),
            old(resolver)@,
            node_view(*node),
        ).0,
        node_tree(old(resolver).setting(), old(resolver)@, node_view(*node)).1 == match r {
            Some(tree) => Some(tree_view(tree)),
            None => None,
        },
    decreases *node, 0nat,
{
    match node {
        LayoutNode::Plot { traces, show_legend, show_tooltip } => Some(
            PaneTree::Plot(plot_from_layout(traces, *show_legend, *show_tooltip, resolver)),
        ),
        LayoutNode::Scene3d(scene) => Some(PaneTree::Scene3D(*scene)),
        LayoutNode::Split { split, children } => {
            proof {
                lemma_node_views_len(*children, children@.len());
            }
            let mut trees = trees_from_layout(children, resolver);
            proof {
                lemma_tree_views_at(trees, trees@.len());
            }
            if trees.len() == 0 {
                None
            } else if trees.len() == 1 {
                trees.pop()
            } else {
                Some(PaneTree::Split { split: *split, children: trees })
            }
        },
    }
}

fn trees_from_layout(children: &Vec<LayoutNode>, resolver: &mut Resolver<'_>) -> (r: Vec<PaneTree>)
    ensures
        final(resolver).setting() == old(resolver).setting(),
        node_trees(
            old(resolver).setting(),
            old(resolver)@,
            node_views(*children, children@.len()),
            children@.len(),
        ) == (final(resolver)@, tree_views(r, r@.len())),
    decreases *children, children@.len(),
{
    let ghost setting = resolver.setting();
    let ghost start = resolver@;
    let ghost all = node_views(*children, children@.len());
    let mut out: Vec<PaneTree> = Vec::new();
    let mut i: usize = 0;
    proof {
        lemma_node_views_len(*children, children@.len());
    }
    while i < children.len()
        invariant
            i <= children@.len(),
            resolver.setting() == setting,
            all.len() == children@.len(),
            forall|k: int| 0 <= k < children@.len() ==> #[trigger] all[k] == node_view(children@[k]),
            node_trees(setting, start, all, i as nat) == (resolver@, tree_views(out, out@.len())),
        decreases children@.len() - i,
    {
        assert(all[i as int] == node_view(children@[i as int]));
        if let Some(tree) = tree_from_layout(&children[i], resolver) {
            let ghost before = out;
            out.push(tree);
            proof {
                lemma_tree_views_same(before, out, before@.len());
            }
        }
        i = i + 1;
    }
    out
}

/// Three references one after the other: the first that is not found ends it.
pub open spec fn three(
    setting: Setting,
    state: ResolverView,
    a: RefOf,
    b: RefOf,
    c: RefOf,
) -> (ResolverView, Option<(FieldId, FieldId, FieldId)>) {
    let s1 = after(state, setting, a);
    match resolved(setting, a) {
        None => (s1, None),
        Some(x) => {
            let s2 = after(s1, setting, b);
            match resolved(setting, b) {
                None => (s2, None),
                Some(y) => {
                    let s3 = after(s2, setting, c);
                    match resolved(setting, c) {
                        None => (s3, None),
                        Some(z) => (s3, Some((x, y, z))),
                    }
                },
            }
        },
    }
}

/// A reference as names.
pub type RefOf = crate::layout_doc::RefView;

fn resolve_three(resolver: &mut Resolver<'_>, a: &FieldRef, b: &FieldRef, c: &FieldRef) -> (r: Option<
    (FieldId, FieldId, FieldId),
>)
    ensures
        final(resolver).setting() == old(resolver).setting(),
        three(old(resolver).setting(), old(resolver)@, a@, b@, c@) == (final(resolver)@, r),
{
    let x = match resolver.resolve(a) {
        Some(x) => x,
        None => {
            return None;
        },
    };
    let y = match resolver.resolve(b) {
        Some(y) => y,
        None => {
            return None;
        },
    };
    match resolver.resolve(c) {
        Some(z) => Some((x, y, z)),
        None => None,
    }
}

/// The position that a layout asks for.
pub open spec fn pos_mapping(setting: Setting, state: ResolverView, pos: PosLayout) -> (
    ResolverView,
    Option<PosMapping>,
) {
    match pos {
        PosLayout::Ned { north, east, down, reference } => {
            let (next, fields) = three(setting, state, north@, east@, down@);
            match fields {
                None => (next, None),
                Some((north, east, down)) => match reference {
                    None => (
                        next,
                        Some(PosMapping::Ned { north, east, down, reference: None }),
                    ),
                    Some(NedRefLayout::Manual { lat_deg, lon_deg, alt_m }) => (
                        next,
                        Some(
                            PosMapping::Ned {
                                north,
                                east,
                                down,
                                reference: Some(
                                    NedReference::Manual { lat_deg, lon_deg, alt_m },
                                ),
                            },
                        ),
                    ),
                    Some(NedRefLayout::Fields { lat, lon, alt }) => {
                        let (last, origin) = three(setting, next, lat@, lon@, alt@);
                        (
                            last,
                            match origin {
                                Some((lat, lon, alt)) => Some(
                                    PosMapping::Ned {
                                        north,
                                        east,
                                        down,
                                        reference: Some(NedReference::Fields { lat, lon, alt }),
                                    },
                                ),
                                None => None,
                            },
                        )
                    },
                },
            }
        },
        PosLayout::Gps { lat, lon, alt, lat_lon_dege7, alt_mm, alt_offset_m } => {
            let (next, fields) = three(setting, state, lat@, lon@, alt@);
            (
                next,
                match fields {
                    Some((lat, lon, alt)) => Some(
                        PosMapping::Gps { lat, lon, alt, lat_lon_dege7, alt_mm, alt_offset_m },
                    ),
                    None => None,
                },
            )
        },
    }
}

/// The position that a layout asks for, if its fields are found.
pub fn pos_from_layout(pos: &PosLayout, resolver: &mut Resolver<'_>) -> (r: Option<PosMapping>)
    ensures
        final(resolver).setting() == old(resolver).setting(),
        pos_mapping(old(resolver).setting(), old(resolver)@, *pos) == (final(resolver)@, r),
{
    match pos {
        PosLayout::Ned { north, east, down, reference } => {
            let (north, east, down) = match resolve_three(resolver, north, east, down) {
                Some(fields) => fields,
                None => {
                    return None;
                },
            };
            let reference = match reference {
                None => None,
                Some(NedRefLayout::Manual { lat_deg, lon_deg, alt_m }) => Some(
                    NedReference::Manual { lat_deg: *lat_deg, lon_deg: *lon_deg, alt_m: *alt_m },
                ),
                Some(NedRefLayout::Fields { lat, lon, alt }) => {
                    match resolve_three(resolver, lat, lon, alt) {
                        Some((lat, lon, alt)) => Some(NedReference::Fields { lat, lon, alt }),
                        None => {
                            return None;
                        },
                    }
                },
            };
            Some(PosMapping::Ned { north, east, down, reference })
        },
        PosLayout::Gps { lat, lon, alt, lat_lon_dege7, alt_mm, alt_offset_m } => {
            match resolve_three(resolver, lat, lon, alt) {
                Some((lat, lon, alt)) => Some(
                    PosMapping::Gps {
                        lat,
                        lon,
                        alt,
                        lat_lon_dege7: *lat_lon_dege7,
                        alt_mm: *alt_mm,
                        alt_offset_m: *alt_offset_m,
                    },
                ),
                None => None,
            }
        },
    }
}

/// The orientation that a layout asks for.
pub open spec fn ori_mapping(setting: Setting, state: ResolverView, ori: OriLayout) -> (
    ResolverView,
    Option<OriMapping>,
) {
    match ori {
        OriLayout::Static => (state, Some(OriMapping::Static)),
        OriLayout::Euler { roll, pitch, yaw, degrees } => {
            let (next, fields) = three(setting, state, roll@, pitch@, yaw@);
            (
                next,
                match fields {
                    Some((roll, pitch, yaw)) => Some(
                        OriMapping::Euler { roll, pitch, yaw, degrees },
                    ),
                    None => None,
                },
            )
        },
        OriLayout::Quat { w, x, y, z } => {
            let (next, fields) = three(setting, state, w@, x@, y@);
            match fields {
                Some((w, x, y)) => (
                    after(next, setting, z@),
                    match resolved(setting, z@) {
                        Some(z) => Some(OriMapping::Quat { w, x, y, z }),
                        None => None,
                    },
                ),
                None => (next, None),
            }
        },
    }
}

/// The orientation that a layout asks for, if its fields are found.
pub fn ori_from_layout(ori: &OriLayout, resolver: &mut Resolver<'_>) -> (r: Option<OriMapping>)
    ensures
        final(resolver).setting() == old(resolver).setting(),
        ori_mapping(old(resolver).setting(), old(resolver)@, *ori) == (final(resolver)@, r),
{
    match ori {
        OriLayout::Static => Some(OriMapping::Static),
        OriLayout::Euler { roll, pitch, yaw, degrees } => {
            match resolve_three(resolver, roll, pitch, yaw) {
                Some((roll, pitch, yaw)) => Some(
                    OriMapping::Euler { roll, pitch, yaw, degrees: *degrees },
                ),
                None => None,
            }
        },
        OriLayout::Quat { w, x, y, z } => {
            match resolve_three(resolver, w, x, y) {
                Some((w, x, y)) => match resolver.resolve(z) {
                    Some(z) => Some(OriMapping::Quat { w, x, y, z }),
                    None => None,
                },
                None => None,
            }
        },
    }
}

/// The field by which the source of a vehicle is found.
pub open spec fn leading_field(pos: PosLayout) -> FieldRef {
    match pos {
        PosLayout::Ned { north, .. } => north,
        PosLayout::Gps { lat, .. } => lat,
    }
}

/// The source of a field.
pub open spec fn source_of(snapshot: StoreSnapshot, field: FieldId) -> Option<SourceId> {
    if field.0 < snapshot.fields@.len() {
        match topic_index(snapshot.topics@, snapshot.fields@[field.0 as int].topic, 0) {
            Some(t) => Some(snapshot.topics@[t].source),
            None => None,
        }
    } else {
        None
    }
}

fn field_source(snapshot: &StoreSnapshot, field: FieldId) -> (r: Option<SourceId>)
    ensures
        r == source_of(*snapshot, field),
{
    let i: usize = field.0 as usize;
    if i >= snapshot.fields.len() {
        return None;
    }
    match snapshot.find_topic(snapshot.fields[i].topic) {
        Some(t) => Some(snapshot.topics[t].source),
        None => None,
    }
}

/// The vehicle that a layout asks for.
pub open spec fn vehicle_of(setting: Setting, state: ResolverView, v: VehicleLayout) -> (
    ResolverView,
    Option<VehicleConfig>,
) {
    let lead = leading_field(v.position)@;
    let s1 = after(state, setting, lead);
    let source = match resolved(setting, lead) {
        Some(field) => source_of(setting.snapshot, field),
        None => None,
    };
    match source {
        None => (s1, None),
        Some(source) => {
            let (s2, pos) = pos_mapping(setting, s1, v.position);
            match pos {
                None => (s2, None),
                Some(pos) => {
                    let (s3, ori) = ori_mapping(setting, s2, v.orientation);
                    match ori {
                        None => (s3, None),
                        Some(ori) => (
                            s3,
                            Some(
                                VehicleConfig {
                                    source,
                                    label: v.label,
                                    show: v.show,
                                    pos,
                                    ori,
                                    model: model_kind(v.model),
                                    color: premultiplied_color(v.color),
                                    path_color: premultiplied_color(v.path_color),
                                    scale: clamped_scale(v.scale),
                                },
                            ),
                        ),
                    }
                },
            }
        },
    }
}

/// The vehicle that a layout asks for, if its fields are found.
pub fn vehicle_from_layout(v: &VehicleLayout, resolver: &mut Resolver<'_>) -> (r: Option<
    VehicleConfig,
>)
    ensures
        final(resolver).setting() == old(resolver).setting(),
        vehicle_of(old(resolver).setting(), old(resolver)@, *v) == (final(resolver)@, r),
{
    let lead = match &v.position {
        PosLayout::Ned { north, .. } => north,
        PosLayout::Gps { lat, .. } => lat,
    };
    let source = match resolver.resolve(lead) {
        Some(field) => field_source(resolver.snapshot, field),
        None => None,
    };
    let source = match source {
        Some(source) => source,
        None => {
            return None;
        },
    };
    let pos = match pos_from_layout(&v.position, resolver) {
        Some(pos) => pos,
        None => {
            return None;
        },
    };
    let ori = match ori_from_layout(&v.orientation, resolver) {
        Some(ori) => ori,
        None => {
            return None;
        },
    };
    Some(
        VehicleConfig {
            source,
            label: v.label.clone(),
            show: v.show,
            pos,
            ori,
            model: model_from_layout(&v.model),
            color: rgba_to_color(v.color),
            path_color: rgba_to_color(v.path_color),
            scale: clamp_scale(v.scale),
        },
    )
}

/// The vehicles of the first `n` that can be built.
pub open spec fn vehicles_of(
    setting: Setting,
    state: ResolverView,
    vehicles: Seq<VehicleLayout>,
    n: nat,
) -> (ResolverView, Seq<VehicleConfig>)
    decreases n,
{
    if n == 0 {
        (state, Seq::empty())
    } else {
        let (before, list) = vehicles_of(setting, state, vehicles, (n - 1) as nat);
        let (next, v) = vehicle_of(setting, before, vehicles[n - 1]);
        (
            next,
            match v {
                Some(v) => list.push(v),
                None => list,
            },
        )
    }
}

/// The state after all references of a list have been resolved.
pub open spec fn after_all(setting: Setting, state: ResolverView, keys: Seq<RefOf>) -> ResolverView
    decreases keys.len(),
{
    if keys.len() == 0 {
        state
    } else {
        after(after_all(setting, state, keys.drop_last()), setting, keys.last())
    }
}

/// The references of a plot.
pub open spec fn trace_refs(traces: Seq<TraceLayout>) -> Seq<RefOf> {
    Seq::new(traces.len(), |i: int| traces[i].field@)
}

/// All references of a part of the workspace, in order.
pub open spec fn node_refs(node: NodeView) -> Seq<RefOf>
    decreases node, 0nat,
{
    match node {
        NodeView::Plot { traces, .. } => trace_refs(traces),
        NodeView::Scene3d(_) => Seq::empty(),
        NodeView::Split { children, .. } => nodes_refs(children, children.len()),
    }
}

/// The references of the first `n` children.
pub open spec fn nodes_refs(children: Seq<NodeView>, n: nat) -> Seq<RefOf>
    decreases children, n,
{
    if n == 0 || n > children.len() {
        Seq::empty()
    } else {
        nodes_refs(children, (n - 1) as nat) + node_refs(children[n - 1])
    }
}

/// The references of a position.
pub open spec fn pos_refs(pos: PosLayout) -> Seq<RefOf> {
    match pos {
        PosLayout::Ned { north, east, down, reference } => seq![north@, east@, down@]
            + match reference {
            Some(NedRefLayout::Fields { lat, lon, alt }) => seq![lat@, lon@, alt@],
            _ => Seq::empty(),
        },
        PosLayout::Gps { lat, lon, alt, .. } => seq![lat@, lon@, alt@],
    }
}

/// The references of an orientation.
pub open spec fn ori_refs(ori: OriLayout) -> Seq<RefOf> {
    match ori {
        OriLayout::Static => Seq::empty(),
        OriLayout::Euler { roll, pitch, yaw, .. } => seq![roll@, pitch@, yaw@],
        OriLayout::Quat { w, x, y, z } => seq![w@, x@, y@, z@],
    }
}

/// The references of the first `n` vehicles.
pub open spec fn vehicle_refs(vehicles: Seq<VehicleLayout>, n: nat) -> Seq<RefOf>
    decreases n,
{
    if n == 0 {
        Seq::empty()
    } else {
        vehicle_refs(vehicles, (n - 1) as nat) + pos_refs(vehicles[n - 1].position) + ori_refs(
            vehicles[n - 1].orientation,
        )
    }
}

/// All references of a layout, in order.
pub open spec fn doc_refs(doc: LayoutDoc) -> Seq<RefOf> {
    node_refs(node_view(doc.workspace.root)) + vehicle_refs(doc.vehicles@, doc.vehicles@.len())
}

proof fn lemma_after_all_push(setting: Setting, state: ResolverView, keys: Seq<RefOf>, key: RefOf)
    ensures
        after_all(setting, state, keys.push(key)) == after(
            after_all(setting, state, keys),
            setting,
            key,
        ),
{
    assert(keys.push(key).drop_last() =~= keys);
}

proof fn lemma_after_all_concat(
    setting: Setting,
    state: ResolverView,
    a: Seq<RefOf>,
    b: Seq<RefOf>,
)
    ensures
        after_all(setting, state, a + b) == after_all(setting, after_all(setting, state, a), b),
    decreases b.len(),
{
    if b.len() == 0 {
        assert(a + b =~= a);
    } else {
        lemma_after_all_concat(setting, state, a, b.drop_last());
        assert((a + b).drop_last() =~= a + b.drop_last());
        assert((a + b).last() == b.last());
    }
}

fn collect_node_field_refs(node: &LayoutNode, resolver: &mut Resolver<'_>)
    ensures
        final(resolver).setting() == old(resolver).setting(),
        final(resolver)@ == after_all(
            old(resolver).setting(),
            old(resolver)@,
            node_refs(node_view(*node)),
        ),
    decreases *node, 0nat,
{
    match node {
        LayoutNode::Plot { traces, .. } => {
            let ghost all = trace_refs(traces@);
            let ghost setting = resolver.setting();
            let ghost start = resolver@;
            let mut i: usize = 0;
            proof {
                assert(all.take(0) =~= Seq::<RefOf>::empty());
            }
            while i < traces.len()
                invariant
                    i <= traces@.len(),
                    all == trace_refs(traces@),
                    resolver.setting() == setting,
                    resolver@ == after_all(setting, start, all.take(i as int)),
                decreases traces@.len() - i,
            {
                let _ = resolver.resolve(&traces[i].field);
                proof {
                    assert(all.take(i + 1) =~= all.take(i as int).push(traces@[i as int].field@));
                    lemma_after_all_push(
                        setting,
                        start,
                        all.take(i as int),
                        traces@[i as int].field@,
                    );
                }
                i = i + 1;
            }
            proof {
                assert(all.take(i as int) =~= all);
            }
        },
        LayoutNode::Scene3d(_) => {},
        LayoutNode::Split { children, .. } => {
            proof {
                lemma_node_views_len(*children, children@.len());
            }
            collect_children(children, resolver);
        },
    }
}

fn collect_children(children: &Vec<LayoutNode>, resolver: &mut Resolver<'_>)
    ensures
        final(resolver).setting() == old(resolver).setting(),
        final(resolver)@ == after_all(
            old(resolver).setting(),
            old(resolver)@,
            nodes_refs(node_views(*children, children@.len()), children@.len()),
        ),
    decreases *children, children@.len(),
{
    let ghost setting = resolver.setting();
    let ghost start = resolver@;
    let ghost all = node_views(*children, children@.len());
    let mut i: usize = 0;
    proof {
        lemma_node_views_len(*children, children@.len());
    }
    while i < children.len()
        invariant
            i <= children@.len(),
            resolver.setting() == setting,
            all.len() == children@.len(),
            forall|k: int| 0 <= k < children@.len() ==> #[trigger] all[k] == node_view(children@[k]),
            resolver@ == after_all(setting, start, nodes_refs(all, i as nat)),
        decreases children@.len() - i,
    {
        assert(all[i as int] == node_view(children@[i as int]));
        collect_node_field_refs(&children[i], resolver);
        proof {
            lemma_after_all_concat(
                setting,
                start,
                nodes_refs(all, i as nat),
                node_refs(all[i as int]),
            );
        }
        i = i + 1;
    }
}

fn collect_three(resolver: &mut Resolver<'_>, a: &FieldRef, b: &FieldRef, c: &FieldRef)
    ensures
        final(resolver).setting() == old(resolver).setting(),
        final(resolver)@ == after_all(
            old(resolver).setting(),
            old(resolver)@,
            seq![a@, b@, c@],
        ),
{
    let ghost setting = resolver.setting();
    let ghost start = resolver@;
    let _ = resolver.resolve(a);
    let _ = resolver.resolve(b);
    let _ = resolver.resolve(c);
    proof {
        let none = Seq::<RefOf>::empty();
        lemma_after_all_push(setting, start, none, a@);
        lemma_after_all_push(setting, start, none.push(a@), b@);
        lemma_after_all_push(setting, start, none.push(a@).push(b@), c@);
        assert(none.push(a@).push(b@).push(c@) =~= seq![a@, b@, c@]);
    }
}

fn collect_pos_field_refs(pos: &PosLayout, resolver: &mut Resolver<'_>)
    ensures
        final(resolver).setting() == old(resolver).setting(),
        final(resolver)@ == after_all(old(resolver).setting(), old(resolver)@, pos_refs(*pos)),
{
    let ghost setting = resolver.setting();
    let ghost start = resolver@;
    match pos {
        PosLayout::Ned { north, east, down, reference } => {
            collect_three(resolver, north, east, down);
            let ghost head = seq![north@, east@, down@];
            match reference {
                Some(NedRefLayout::Fields { lat, lon, alt }) => {
                    collect_three(resolver, lat, lon, alt);
                    proof {
                        lemma_after_all_concat(
                            setting,
                            start,
                            head,
                            seq![lat@, lon@, alt@],
                        );
                    }
                },
                _ => {
                    proof {
                        assert(head + Seq::<RefOf>::empty() =~= head);
                    }
                },
            }
        },
        PosLayout::Gps { lat, lon, alt, .. } => {
            collect_three(resolver, lat, lon, alt);
        },
    }
}

fn collect_ori_field_refs(ori: &OriLayout, resolver: &mut Resolver<'_>)
    ensures
        final(resolver).setting() == old(resolver).setting(),
        final(resolver)@ == after_all(old(resolver).setting(), old(resolver)@, ori_refs(*ori)),
{
    let ghost setting = resolver.setting();
    let ghost start = resolver@;
    match ori {
        OriLayout::Static => {},
        OriLayout::Euler { roll, pitch, yaw, .. } => {
            collect_three(resolver, roll, pitch, yaw);
        },
        OriLayout::Quat { w, x, y, z } => {
            collect_three(resolver, w, x, y);
            let _ = resolver.resolve(z);
            proof {
                lemma_after_all_push(setting, start, seq![w@, x@, y@], z@);
                assert(seq![w@, x@, y@].push(z@) =~= seq![w@, x@, y@, z@]);
            }
        },
    }
}

fn collect_field_refs(doc: &LayoutDoc, resolver: &mut Resolver<'_>)
    ensures
        final(resolver).setting() == old(resolver).setting(),
        final(resolver)@ == after_all(old(resolver).setting(), old(resolver)@, doc_refs(*doc)),
{
    let ghost setting = resolver.setting();
    let ghost start = resolver@;
    let ghost head = node_refs(node_view(doc.workspace.root));
    collect_node_field_refs(&doc.workspace.root, resolver);
    let mut i: usize = 0;
    proof {
        assert(head + Seq::<RefOf>::empty() =~= head);
    }
    while i < doc.vehicles.len()
        invariant
            i <= doc.vehicles@.len(),
            resolver.setting() == setting,
            resolver@ == after_all(setting, start, head + vehicle_refs(doc.vehicles@, i as nat)),
        decreases doc.vehicles@.len() - i,
    {
        collect_pos_field_refs(&doc.vehicles[i].position, resolver);
        collect_ori_field_refs(&doc.vehicles[i].orientation, resolver);
        proof {
            let v = doc.vehicles@[i as int];
            let done = head + vehicle_refs(doc.vehicles@, i as nat);
            lemma_after_all_concat(setting, start, done, pos_refs(v.position));
            lemma_after_all_concat(
                setting,
                start,
                done + pos_refs(v.position),
                ori_refs(v.orientation),
            );
            assert(done + pos_refs(v.position) + ori_refs(v.orientation) =~= head + vehicle_refs(
                doc.vehicles@,
                (i + 1) as nat,
            ));
        }
        i = i + 1;
    }
}

/// The workspace and everything else that a layout sets.
pub struct LayoutApply {
    pub root: PaneTree,
    pub view: Option<(i64, i64)>,
    /// Whether the view is to follow the whole range of the data.
    pub fit_all: bool,
    pub speed: u64,
    pub follow_live: bool,
    pub vehicles: Vec<VehicleConfig>,
    /// Warnings about fields that were not found.
    pub diagnostics: Vec<String>,
}

#[verifier::ext_equal]
pub ghost struct ApplyView {
    pub root: TreeView,
    pub view: Option<(i64, i64)>,
    pub fit_all: bool,
    pub speed: u64,
    pub follow_live: bool,
    pub vehicles: Seq<VehicleConfig>,
    pub diagnostics: Seq<Seq<char>>,
}

impl View for LayoutApply {
    type V = ApplyView;

    open spec fn view(&self) -> ApplyView {
        ApplyView {
            root: tree_view(self.root),
            view: self.view,
            fit_all: self.fit_all,
            speed: self.speed,
            follow_live: self.follow_live,
            vehicles: self.vehicles@,
            diagnostics: views(self.diagnostics@),
        }
    }
}

/// An empty plot.
pub open spec fn empty_plot() -> TreeView {
    TreeView::Plot {
        traces: Seq::empty(),
        ghosts: Seq::empty(),
        show_legend: true,
        show_tooltip: true,
    }
}

/// What a layout becomes, given the warnings that there are already.
pub open spec fn applied(setting: Setting, state: ResolverView, doc: LayoutDoc) -> ApplyView {
    let (s1, tree) = node_tree(setting, state, node_view(doc.workspace.root));
    let (s2, vehicles) = vehicles_of(setting, s1, doc.vehicles@, doc.vehicles@.len());
    ApplyView {
        root: match tree {
            Some(tree) => tree,
            None => empty_plot(),
        },
        view: match doc.view {
            Some(v) => Some((v.min_us, v.max_us)),
            None => None,
        },
        fit_all: match doc.view {
            Some(v) => v.mode == ViewMode::Full,
            None => false,
        },
        speed: doc.playback.speed,
        follow_live: doc.playback.follow_live,
        vehicles,
        diagnostics: s2.warnings,
    }
}

/// The state before anything has been resolved.
pub open spec fn clean() -> ResolverView {
    ResolverView { warnings: Seq::empty(), ambiguities: Seq::empty() }
}

/// The state in which the workspace is built: where ambiguities are collected,
/// every reference has been resolved once before.
pub open spec fn prepared(setting: Setting, doc: LayoutDoc) -> ResolverView {
    if setting.collect {
        after_all(setting, clean(), doc_refs(doc))
    } else {
        clean()
    }
}

/// Builds what a layout describes. Where ambiguities are collected and there
/// are any, they are returned instead.
pub fn apply_doc(
    doc: &LayoutDoc,
    snapshot: &StoreSnapshot,
    choices: &Vec<(FieldRef, SourceId)>,
    collect_ambiguities: bool,
) -> (r: Result<LayoutApply, Vec<AmbiguousField>>)
    ensures
        ({
            let setting = Setting {
                snapshot: *snapshot,
                choices: choices@,
                collect: collect_ambiguities,
            };
            let state = prepared(setting, *doc);
            match r {
                Ok(apply) => state.ambiguities.len() == 0 && apply@ == applied(
                    setting,
                    state,
                    *doc,
                ),
                Err(ambiguities) => state.ambiguities.len() > 0 && ambiguity_views(ambiguities@)
                    == state.ambiguities,
            }
        }),
{
    let mut resolver = Resolver::new(snapshot, choices, collect_ambiguities);
    if collect_ambiguities {
        collect_field_refs(doc, &mut resolver);
        proof {
            assert(ambiguity_views(resolver.ambiguities@).len() == resolver.ambiguities@.len());
        }
        if resolver.ambiguities.len() > 0 {
            return Err(resolver.ambiguities);
        }
    }
    Ok(build_doc(doc, resolver))
}

/// Builds what a layout describes, going on from what has been resolved.
pub(crate) fn build_doc(doc: &LayoutDoc, resolver: Resolver<'_>) -> (r: LayoutApply)
    ensures
        r@ == applied(resolver.setting(), resolver@, *doc),
{
    let ghost setting = resolver.setting();
    let mut resolver = resolver;
    let root = match tree_from_layout(&doc.workspace.root, &mut resolver) {
        Some(tree) => tree,
        None => PaneTree::Plot(
            PlotPane {
                traces: Vec::new(),
                ghosts: Vec::new(),
                show_legend: true,
                show_tooltip: true,
            },
        ),
    };
    let ghost mid = resolver@;
    let mut vehicles: Vec<VehicleConfig> = Vec::new();
    let mut i: usize = 0;
    while i < doc.vehicles.len()
        invariant
            i <= doc.vehicles@.len(),
            resolver.setting() == setting,
            vehicles_of(setting, mid, doc.vehicles@, i as nat) == (resolver@, vehicles@),
        decreases doc.vehicles@.len() - i,
    {
        if let Some(v) = vehicle_from_layout(&doc.vehicles[i], &mut resolver) {
            vehicles.push(v);
        }
        i = i + 1;
    }
    LayoutApply {
            root,
            view: match doc.view {
                Some(v) => Some((v.min_us, v.max_us)),
                None => None,
            },
            fit_all: match doc.view {
                Some(v) => v.mode == ViewMode::Full,
                None => false,
            },
            speed: doc.playback.speed,
            follow_live: doc.playback.follow_live,
            vehicles,
            diagnostics: resolver.warnings,
        }
}

} // verus!
