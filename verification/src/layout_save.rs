//! Writing the workspace down as a layout.

use crate::layout_doc::{
    mode_to_layout, model_layout, model_to_layout, node_view, node_views, plot_view, tree_view,
    tree_views, FieldRef, GhostTrace, LayoutDoc, LayoutNode, NedRefLayout, NedReference, NodeView,
    OriLayout, OriMapping, PaneTree, PlaybackLayout, PlotPane, PosLayout, PosMapping, TraceLayout,
    TraceModeLayout, TraceRef, TreeView, VehicleConfig, VehicleLayout, ViewLayout, ViewMode,
    WorkspaceLayout, LAYOUT_VERSION,
};
use crate::snapshot::{topic_index, FieldId, StoreSnapshot};
use vstd::prelude::*;

verus! {

/// The names of a field.
pub open spec fn names_of(snapshot: StoreSnapshot, field: FieldId) -> Option<FieldRef> {
    if field.0 < snapshot.fields@.len() && snapshot.fields@[field.0 as int].id == field {
        let entry = snapshot.fields@[field.0 as int];
        match topic_index(snapshot.topics@, entry.topic, 0) {
            Some(t) => Some(FieldRef { topic: snapshot.topics@[t].name, field: entry.name }),
            None => None,
        }
    } else {
        None
    }
}

/// The names of a field.
pub fn field_ref(snapshot: &StoreSnapshot, field: FieldId) -> (r: Option<FieldRef>)
    ensures
        r == names_of(*snapshot, field),
{
    let i: usize = field.0 as usize;
    if i >= snapshot.fields.len() || snapshot.fields[i].id != field {
        return None;
    }
    let entry = &snapshot.fields[i];
    match snapshot.find_topic(entry.topic) {
        Some(t) => Some(
            FieldRef { topic: snapshot.topics[t].name.clone(), field: entry.name.clone() },
        ),
        None => None,
    }
}

/// A trace as a layout writes it, unless its field is gone.
pub open spec fn trace_layout(snapshot: StoreSnapshot, trace: TraceRef) -> Option<TraceLayout> {
    match names_of(snapshot, trace.field) {
        Some(field) => Some(
            TraceLayout {
                field,
                color: trace.color,
                width_px: trace.width_px,
                mode: mode_to_layout(trace.mode),
                visible: trace.visible,
            },
        ),
        None => None,
    }
}

/// A trace as a layout writes it, unless its field is gone.
pub fn trace_to_layout(trace: &TraceRef, snapshot: &StoreSnapshot) -> (r: Option<TraceLayout>)
    ensures
        r == trace_layout(*snapshot, *trace),
{
    match field_ref(snapshot, trace.field) {
        Some(field) => Some(
            TraceLayout {
                field,
                color: trace.color,
                width_px: trace.width_px,
                mode: TraceModeLayout::of(trace.mode),
                visible: trace.visible,
            },
        ),
        None => None,
    }
}

/// A ghost as a layout writes it.
pub open spec fn ghost_layout(ghost_trace: GhostTrace) -> TraceLayout {
    TraceLayout {
        field: FieldRef { topic: ghost_trace.topic, field: ghost_trace.field },
        color: ghost_trace.color,
        width_px: ghost_trace.width_px,
        mode: mode_to_layout(ghost_trace.mode),
        visible: ghost_trace.visible,
    }
}

/// A ghost as a layout writes it.
pub fn ghost_to_layout(ghost_trace: &GhostTrace) -> (r: TraceLayout)
    ensures
        r == ghost_layout(*ghost_trace),
{
    TraceLayout {
        field: FieldRef { topic: ghost_trace.topic.clone(), field: ghost_trace.field.clone() },
        color: ghost_trace.color,
        width_px: ghost_trace.width_px,
        mode: TraceModeLayout::of(ghost_trace.mode),
        visible: ghost_trace.visible,
    }
}

/// The traces whose fields are still there.
pub open spec fn trace_layouts(snapshot: StoreSnapshot, traces: Seq<TraceRef>) -> Seq<TraceLayout>
    decreases traces.len(),
{
    if traces.len() == 0 {
        Seq::empty()
    } else {
        let rest = trace_layouts(snapshot, traces.drop_last());
        match trace_layout(snapshot, traces.last()) {
            Some(trace) => rest.push(trace),
            None => rest,
        }
    }
}

pub open spec fn ghost_layouts(ghosts: Seq<GhostTrace>) -> Seq<TraceLayout> {
    Seq::new(ghosts.len(), |i: int| ghost_layout(ghosts[i]))
}

/// The panes as a layout writes them: a plot lists its traces, then its ghosts.
pub open spec fn tree_layout(snapshot: StoreSnapshot, tree: TreeView) -> NodeView
    decreases tree, 0nat,
{
    match tree {
        TreeView::Plot { traces, ghosts, show_legend, show_tooltip } => NodeView::Plot {
            traces: trace_layouts(snapshot, traces) + ghost_layouts(ghosts),
            show_legend,
            show_tooltip,
        },
        TreeView::Scene3D(scene) => NodeView::Scene3d(scene),
        TreeView::Split { split, children } => NodeView::Split {
            split,
            children: tree_layouts(snapshot, children, children.len()),
        },
    }
}

/// The first `n` children.
pub open spec fn tree_layouts(snapshot: StoreSnapshot, children: Seq<TreeView>, n: nat) -> Seq<
    NodeView,
>
    decreases children, n,
{
    if n == 0 || n > children.len() {
        Seq::empty()
    } else {
        tree_layouts(snapshot, children, (n - 1) as nat).push(
            tree_layout(snapshot, children[n - 1]),
        )
    }
}

fn plot_to_layout(pane: &PlotPane, snapshot: &StoreSnapshot) -> (r: LayoutNode)
    ensures
        node_view(r) == tree_layout(*snapshot, plot_view(*pane)),
{
    let mut traces: Vec<TraceLayout> = Vec::new();
    let mut i: usize = 0;
    proof {
        assert(pane.traces@.take(0) =~= Seq::<TraceRef>::empty());
    }
    while i < pane.traces.len()
        invariant
            i <= pane.traces@.len(),
            traces@ == trace_layouts(*snapshot, pane.traces@.take(i as int)),
        decreases pane.traces@.len() - i,
    {
        proof {
            assert(pane.traces@.take(i + 1).drop_last() =~= pane.traces@.take(i as int));
            assert(pane.traces@.take(i + 1).last() == pane.traces@[i as int]);
        }
        if let Some(trace) = trace_to_layout(&pane.traces[i], snapshot) {
            traces.push(trace);
        }
        i = i + 1;
    }
    let ghost own = traces@;
    let ghost all = ghost_layouts(pane.ghosts@);
    proof {
        assert(pane.traces@.take(i as int) =~= pane.traces@);
        assert(own + all.take(0) =~= own);
    }
    let mut j: usize = 0;
    while j < pane.ghosts.len()
        invariant
            j <= pane.ghosts@.len(),
            all == ghost_layouts(pane.ghosts@),
            traces@ == own + all.take(j as int),
        decreases pane.ghosts@.len() - j,
    {
        traces.push(ghost_to_layout(&pane.ghosts[j]));
        proof {
            assert(own + all.take(j + 1) =~= (own + all.take(j as int)).push(all[j as int]));
        }
        j = j + 1;
    }
    proof {
        assert(all.take(j as int) =~= all);
    }
    LayoutNode::Plot { traces, show_legend: pane.show_legend, show_tooltip: pane.show_tooltip }
}

/// The panes as a layout writes them.
pub fn node_to_layout(tree: &PaneTree, snapshot: &StoreSnapshot) -> (r: LayoutNode)
    ensures
        node_view(r) == tree_layout(*snapshot, tree_view(*tree)),
    decreases *tree, 0nat,
{
    match tree {
        PaneTree::Plot(pane) => plot_to_layout(pane, snapshot),
        PaneTree::Scene3D(scene) => LayoutNode::Scene3d(*scene),
        PaneTree::Split { split, children } => {
            let nodes = children_to_layout(children, snapshot);
            proof {
                lemma_tree_views_len(*children, children@.len());
            }
            LayoutNode::Split { split: *split, children: nodes }
        },
    }
}

proof fn lemma_tree_views_len(children: Vec<PaneTree>, n: nat)
    requires
        n <= children@.len(),
    ensures
        tree_views(children, n).len() == n,
    decreases n,
{
    if n > 0 {
        lemma_tree_views_len(children, (n - 1) as nat);
    }
}

/// The views of the first `n` children are those of any longer prefix.
pub proof fn lemma_tree_views_prefix(children: Vec<PaneTree>, n: nat, m: nat)
    requires
        n <= m <= children@.len(),
    ensures
        tree_views(children, m).len() == m,
        tree_views(children, n) == tree_views(children, m).take(n as int),
    decreases m,
{
    lemma_tree_views_len(children, m);
    lemma_tree_views_len(children, n);
    if n < m {
        lemma_tree_views_prefix(children, n, (m - 1) as nat);
        assert(tree_views(children, m).take(n as int) =~= tree_views(
            children,
            (m - 1) as nat,
        ).take(n as int));
    } else {
        assert(tree_views(children, m).take(n as int) =~= tree_views(children, m));
    }
}

/// Layouts of the first `n` children depend on these alone.
proof fn lemma_tree_layouts_prefix(
    snapshot: StoreSnapshot,
    a: Seq<TreeView>,
    b: Seq<TreeView>,
    n: nat,
)
    requires
        n <= a.len(),
        n <= b.len(),
        forall|i: int| 0 <= i < n ==> a[i] == b[i],
    ensures
        tree_layouts(snapshot, a, n) == tree_layouts(snapshot, b, n),
    decreases n,
{
    if n > 0 {
        lemma_tree_layouts_prefix(snapshot, a, b, (n - 1) as nat);
    }
}

/// Pushing a node onto a list pushes its view.
pub proof fn lemma_node_views_push(before: Vec<LayoutNode>, now: Vec<LayoutNode>, node: LayoutNode)
    requires
        now@ == before@.push(node),
    ensures
        node_views(now, now@.len()) == node_views(before, before@.len()).push(node_view(node)),
{
    lemma_node_views_same(before, now, before@.len());
}

proof fn lemma_node_views_same(a: Vec<LayoutNode>, b: Vec<LayoutNode>, n: nat)
    requires
        n <= a@.len(),
        n <= b@.len(),
        forall|i: int| 0 <= i < n ==> a@[i] == b@[i],
    ensures
        node_views(a, n) == node_views(b, n),
    decreases n,
{
    if n > 0 {
        lemma_node_views_same(a, b, (n - 1) as nat);
    }
}

fn children_to_layout(children: &Vec<PaneTree>, snapshot: &StoreSnapshot) -> (r: Vec<LayoutNode>)
    ensures
        node_views(r, r@.len()) == tree_layouts(
            *snapshot,
            tree_views(*children, children@.len()),
            children@.len(),
        ),
    decreases *children, children@.len(),
{
    let ghost all = tree_views(*children, children@.len());
    let mut out: Vec<LayoutNode> = Vec::new();
    let mut i: usize = 0;
    proof {
        lemma_tree_views_len(*children, children@.len());
    }
    while i < children.len()
        invariant
            i <= children@.len(),
            all == tree_views(*children, children@.len()),
            all.len() == children@.len(),
            node_views(out, out@.len()) == tree_layouts(*snapshot, all, i as nat),
        decreases children@.len() - i,
    {
        let node = node_to_layout(&children[i], snapshot);
        let ghost before = out;
        out.push(node);
        proof {
            lemma_node_views_push(before, out, node);
            lemma_tree_views_prefix(*children, (i + 1) as nat, children@.len());
            assert(all[i as int] == all.take(i + 1)[i as int]);
            assert(tree_views(*children, (i + 1) as nat).last() == tree_view(children@[i as int]));
        }
        i = i + 1;
    }
    out
}

/// The position of a vehicle as a layout writes it, unless a field is gone.
pub open spec fn pos_layout(snapshot: StoreSnapshot, pos: PosMapping) -> Option<PosLayout> {
    match pos {
        PosMapping::Ned { north, east, down, reference } => match (
            names_of(snapshot, north),
            names_of(snapshot, east),
            names_of(snapshot, down),
        ) {
            (Some(north), Some(east), Some(down)) => match reference {
                None => Some(PosLayout::Ned { north, east, down, reference: None }),
                Some(NedReference::Manual { lat_deg, lon_deg, alt_m }) => Some(
                    PosLayout::Ned {
                        north,
                        east,
                        down,
                        reference: Some(NedRefLayout::Manual { lat_deg, lon_deg, alt_m }),
                    },
                ),
                Some(NedReference::Fields { lat, lon, alt }) => match (
                    names_of(snapshot, lat),
                    names_of(snapshot, lon),
                    names_of(snapshot, alt),
                ) {
                    (Some(lat), Some(lon), Some(alt)) => Some(
                        PosLayout::Ned {
                            north,
                            east,
                            down,
                            reference: Some(NedRefLayout::Fields { lat, lon, alt }),
                        },
                    ),
                    _ => None,
                },
            },
            _ => None,
        },
        PosMapping::Gps { lat, lon, alt, lat_lon_dege7, alt_mm, alt_offset_m } => match (
            names_of(snapshot, lat),
            names_of(snapshot, lon),
            names_of(snapshot, alt),
        ) {
            (Some(lat), Some(lon), Some(alt)) => Some(
                PosLayout::Gps { lat, lon, alt, lat_lon_dege7, alt_mm, alt_offset_m },
            ),
            _ => None,
        },
    }
}

fn three_refs(snapshot: &StoreSnapshot, a: FieldId, b: FieldId, c: FieldId) -> (r: Option<
    (FieldRef, FieldRef, FieldRef),
>)
    ensures
        r == match (names_of(*snapshot, a), names_of(*snapshot, b), names_of(*snapshot, c)) {
            (Some(x), Some(y), Some(z)) => Some((x, y, z)),
            _ => None,
        },
{
    match (field_ref(snapshot, a), field_ref(snapshot, b), field_ref(snapshot, c)) {
        (Some(x), Some(y), Some(z)) => Some((x, y, z)),
        _ => None,
    }
}

/// The position of a vehicle as a layout writes it, unless a field is gone.
pub fn pos_to_layout(pos: &PosMapping, snapshot: &StoreSnapshot) -> (r: Option<PosLayout>)
    ensures
        r == pos_layout(*snapshot, *pos),
{
    match *pos {
        PosMapping::Ned { north, east, down, reference } => {
            let (north, east, down) = match three_refs(snapshot, north, east, down) {
                Some(refs) => refs,
                None => {
                    return None;
                },
            };
            let reference = match reference {
                None => None,
                Some(NedReference::Manual { lat_deg, lon_deg, alt_m }) => Some(
                    NedRefLayout::Manual { lat_deg, lon_deg, alt_m },
                ),
                Some(NedReference::Fields { lat, lon, alt }) => {
                    match three_refs(snapshot, lat, lon, alt) {
                        Some((lat, lon, alt)) => Some(NedRefLayout::Fields { lat, lon, alt }),
                        None => {
                            return None;
                        },
                    }
                },
            };
            Some(PosLayout::Ned { north, east, down, reference })
        },
        PosMapping::Gps { lat, lon, alt, lat_lon_dege7, alt_mm, alt_offset_m } => {
            match three_refs(snapshot, lat, lon, alt) {
                Some((lat, lon, alt)) => Some(
                    PosLayout::Gps { lat, lon, alt, lat_lon_dege7, alt_mm, alt_offset_m },
                ),
                None => None,
            }
        },
    }
}

/// The orientation of a vehicle as a layout writes it, unless a field is gone.
pub open spec fn ori_layout(snapshot: StoreSnapshot, ori: OriMapping) -> Option<OriLayout> {
    match ori {
        OriMapping::Static => Some(OriLayout::Static),
        OriMapping::Euler { roll, pitch, yaw, degrees } => match (
            names_of(snapshot, roll),
            names_of(snapshot, pitch),
            names_of(snapshot, yaw),
        ) {
            (Some(roll), Some(pitch), Some(yaw)) => Some(
                OriLayout::Euler { roll, pitch, yaw, degrees },
            ),
            _ => None,
        },
        OriMapping::Quat { w, x, y, z } => match (
            names_of(snapshot, w),
            names_of(snapshot, x),
            names_of(snapshot, y),
            names_of(snapshot, z),
        ) {
            (Some(w), Some(x), Some(y), Some(z)) => Some(OriLayout::Quat { w, x, y, z }),
            _ => None,
        },
    }
}

/// The orientation of a vehicle as a layout writes it, unless a field is gone.
pub fn ori_to_layout(ori: &OriMapping, snapshot: &StoreSnapshot) -> (r: Option<OriLayout>)
    ensures
        r == ori_layout(*snapshot, *ori),
{
    match *ori {
        OriMapping::Static => Some(OriLayout::Static),
        OriMapping::Euler { roll, pitch, yaw, degrees } => {
            match three_refs(snapshot, roll, pitch, yaw) {
                Some((roll, pitch, yaw)) => Some(OriLayout::Euler { roll, pitch, yaw, degrees }),
                None => None,
            }
        },
        OriMapping::Quat { w, x, y, z } => {
            match (three_refs(snapshot, w, x, y), field_ref(snapshot, z)) {
                (Some((w, x, y)), Some(z)) => Some(OriLayout::Quat { w, x, y, z }),
                _ => None,
            }
        },
    }
}

/// A vehicle as a layout writes it, unless a field is gone.
pub open spec fn vehicle_layout(snapshot: StoreSnapshot, v: VehicleConfig) -> Option<VehicleLayout> {
    match (pos_layout(snapshot, v.pos), ori_layout(snapshot, v.ori)) {
        (Some(position), Some(orientation)) => Some(
            VehicleLayout {
                label: v.label,
                show: v.show,
                model: model_layout(v.model),
                color: v.color,
                path_color: v.path_color,
                scale: v.scale,
                position,
                orientation,
            },
        ),
        _ => None,
    }
}

/// A vehicle as a layout writes it, unless a field is gone.
pub fn vehicle_to_layout(v: &VehicleConfig, snapshot: &StoreSnapshot) -> (r: Option<VehicleLayout>)
    ensures
        r == vehicle_layout(*snapshot, *v),
{
    match (pos_to_layout(&v.pos, snapshot), ori_to_layout(&v.ori, snapshot)) {
        (Some(position), Some(orientation)) => Some(
            VehicleLayout {
                label: v.label.clone(),
                show: v.show,
                model: model_to_layout(&v.model),
                color: v.color,
                path_color: v.path_color,
                scale: v.scale,
                position,
                orientation,
            },
        ),
        _ => None,
    }
}

/// The vehicles whose fields are still there.
pub open spec fn vehicle_layouts(snapshot: StoreSnapshot, vehicles: Seq<VehicleConfig>) -> Seq<
    VehicleLayout,
>
    decreases vehicles.len(),
{
    if vehicles.len() == 0 {
        Seq::empty()
    } else {
        let rest = vehicle_layouts(snapshot, vehicles.drop_last());
        match vehicle_layout(snapshot, vehicles.last()) {
            Some(v) => rest.push(v),
            None => rest,
        }
    }
}

/// What is to be saved.
pub struct CurrentLayout<'a> {
    pub name: String,
    pub root: Option<&'a PaneTree>,
    pub snapshot: &'a StoreSnapshot,
    pub view: Option<(i64, i64)>,
    /// Whether the view follows the whole range of the data.
    pub fit_all: bool,
    pub speed: u64,
    pub follow_live: bool,
    pub vehicles: &'a Vec<VehicleConfig>,
}

/// The root of a layout: an empty plot where there is no pane.
pub open spec fn root_layout(snapshot: StoreSnapshot, root: Option<&PaneTree>) -> NodeView {
    match root {
        Some(tree) => tree_layout(snapshot, tree_view(*tree)),
        None => NodeView::Plot {
            traces: Seq::empty(),
            show_legend: true,
            show_tooltip: true,
        },
    }
}

/// The view as a layout writes it.
pub open spec fn view_layout(view: Option<(i64, i64)>, fit_all: bool) -> Option<ViewLayout> {
    match view {
        Some(v) => Some(
            ViewLayout {
                mode: if fit_all {
                    ViewMode::Full
                } else {
                    ViewMode::Window
                },
                min_us: v.0,
                max_us: v.1,
            },
        ),
        None => None,
    }
}

/// The layout of the present state.
pub fn current_doc(input: CurrentLayout<'_>) -> (r: LayoutDoc)
    ensures
        r.delog_layout == LAYOUT_VERSION,
        r.name == input.name,
        r.view == view_layout(input.view, input.fit_all),
        r.playback == (PlaybackLayout { speed: input.speed, follow_live: input.follow_live }),
        node_view(r.workspace.root) == root_layout(*input.snapshot, input.root),
        r.vehicles@ == vehicle_layouts(*input.snapshot, input.vehicles@),
        r.favorites@.len() == 0,
        r.docks@.len() == 0,
        r.well_formed(),
{
    let root = match input.root {
        Some(tree) => node_to_layout(tree, input.snapshot),
        None => LayoutNode::Plot {
            traces: Vec::new(),
            show_legend: true,
            show_tooltip: true,
        },
    };
    let mut vehicles: Vec<VehicleLayout> = Vec::new();
    let all = input.vehicles;
    let mut i: usize = 0;
    proof {
        assert(all@.take(0) =~= Seq::<VehicleConfig>::empty());
    }
    while i < all.len()
        invariant
            i <= all@.len(),
            vehicles@ == vehicle_layouts(*input.snapshot, all@.take(i as int)),
        decreases all@.len() - i,
    {
        proof {
            assert(all@.take(i + 1).drop_last() =~= all@.take(i as int));
            assert(all@.take(i + 1).last() == all@[i as int]);
        }
        if let Some(v) = vehicle_to_layout(&all[i], input.snapshot) {
            vehicles.push(v);
        }
        i = i + 1;
    }
    proof {
        assert(all@.take(i as int) =~= all@);
    }
    LayoutDoc {
        delog_layout: LAYOUT_VERSION,
        view: match input.view {
            Some(v) => Some(
                ViewLayout {
                    mode: if input.fit_all {
                        ViewMode::Full
                    } else {
                        ViewMode::Window
                    },
                    min_us: v.0,
                    max_us: v.1,
                },
            ),
            None => None,
        },
        playback: PlaybackLayout { speed: input.speed, follow_live: input.follow_live },
        workspace: WorkspaceLayout { root },
        vehicles,
        favorites: Vec::new(),
        docks: Vec::new(),
        name: input.name,
    }
}

} // verus!
