//! What a layout file holds, and what it stands for in the workspace.
//!
//! Layouts deliberately store fields as `topic.field`, never as runtime ids or
//! source labels, so the same setup can be reused across logs. Floating point
//! numbers are held as their bit patterns.

use crate::gpu::TraceMode;
use crate::snapshot::{FieldId, SourceId};
use vstd::prelude::*;

verus! {

/// The version that is written and read.
pub const LAYOUT_VERSION: u32 = 1;

/// A field by the names of its topic and of itself.
#[derive(Clone, Debug)]
pub struct FieldRef {
    pub topic: String,
    pub field: String,
}

impl FieldRef {
    pub fn duplicate(&self) -> (r: FieldRef)
        ensures
            r == *self,
    {
        FieldRef { topic: self.topic.clone(), field: self.field.clone() }
    }
}

/// The two names of a field.
#[verifier::ext_equal]
pub ghost struct RefView {
    pub topic: Seq<char>,
    pub field: Seq<char>,
}

impl View for FieldRef {
    type V = RefView;

    open spec fn view(&self) -> RefView {
        RefView { topic: self.topic@, field: self.field@ }
    }
}

/// Whether a view shows a window of time or everything.
#[derive(Clone, Copy, Debug, PartialEq, Eq, Structural)]
pub enum ViewMode {
    Window,
    Full,
}

/// The range of time that is shown.
#[derive(Clone, Copy, Debug, PartialEq, Eq, Structural)]
pub struct ViewLayout {
    pub mode: ViewMode,
    pub min_us: i64,
    pub max_us: i64,
}

#[derive(Clone, Copy, Debug, PartialEq, Eq, Structural)]
pub struct PlaybackLayout {
    pub speed: u64,
    pub follow_live: bool,
}

/// How the children of a container are arranged.
#[derive(Clone, Copy, Debug, PartialEq, Eq, Structural)]
pub enum SplitLayout {
    Tabs,
    Horizontal,
    Vertical,
    Grid,
}

#[derive(Clone, Copy, Debug, PartialEq, Eq, Structural)]
pub enum TraceModeLayout {
    Line,
    Scatter,
    Step,
}

/// The mode of a trace as a layout writes it.
pub open spec fn mode_to_layout(mode: TraceMode) -> TraceModeLayout {
    match mode {
        TraceMode::Line => TraceModeLayout::Line,
        TraceMode::Scatter => TraceModeLayout::Scatter,
        TraceMode::Step => TraceModeLayout::Step,
    }
}

/// The mode of a trace that a layout asks for.
pub open spec fn mode_from_layout(mode: TraceModeLayout) -> TraceMode {
    match mode {
        TraceModeLayout::Line => TraceMode::Line,
        TraceModeLayout::Scatter => TraceMode::Scatter,
        TraceModeLayout::Step => TraceMode::Step,
    }
}

impl TraceModeLayout {
    pub fn of(mode: TraceMode) -> (r: TraceModeLayout)
        ensures
            r == mode_to_layout(mode),
    {
        match mode {
            TraceMode::Line => TraceModeLayout::Line,
            TraceMode::Scatter => TraceModeLayout::Scatter,
            TraceMode::Step => TraceModeLayout::Step,
        }
    }

    pub fn mode(self) -> (r: TraceMode)
        ensures
            r == mode_from_layout(self),
    {
        match self {
            TraceModeLayout::Line => TraceMode::Line,
            TraceModeLayout::Scatter => TraceMode::Scatter,
            TraceModeLayout::Step => TraceMode::Step,
        }
    }
}

/// A trace of a plot.
#[derive(Clone, Debug)]
pub struct TraceLayout {
    pub field: FieldRef,
    pub color: [u32; 4],
    pub width_px: u32,
    pub mode: TraceModeLayout,
    pub visible: bool,
}

#[derive(Clone, Copy, Debug, PartialEq, Eq, Structural)]
pub struct CameraLayout {
    pub yaw: u32,
    pub pitch: u32,
    pub distance: u32,
}

#[derive(Clone, Copy, Debug, PartialEq, Eq, Structural)]
pub struct SceneLayout {
    pub camera: CameraLayout,
    pub tracked_vehicle: Option<usize>,
}

/// A part of the workspace.
pub enum LayoutNode {
    Plot { traces: Vec<TraceLayout>, show_legend: bool, show_tooltip: bool },
    Scene3d(SceneLayout),
    Split { split: SplitLayout, children: Vec<LayoutNode> },
}

/// A part of the workspace.
#[verifier::ext_equal]
pub ghost enum NodeView {
    Plot { traces: Seq<TraceLayout>, show_legend: bool, show_tooltip: bool },
    Scene3d(SceneLayout),
    Split { split: SplitLayout, children: Seq<NodeView> },
}

pub open spec fn node_view(node: LayoutNode) -> NodeView
    decreases node, 0nat,
{
    match node {
        LayoutNode::Plot { traces, show_legend, show_tooltip } => NodeView::Plot {
            traces: traces@,
            show_legend,
            show_tooltip,
        },
        LayoutNode::Scene3d(scene) => NodeView::Scene3d(scene),
        LayoutNode::Split { split, children } => NodeView::Split {
            split,
            children: node_views(children, children@.len()),
        },
    }
}

/// The first `n` children.
pub open spec fn node_views(children: Vec<LayoutNode>, n: nat) -> Seq<NodeView>
    decreases children, n,
{
    if n == 0 || n > children@.len() {
        Seq::empty()
    } else {
        node_views(children, (n - 1) as nat).push(node_view(children[n - 1]))
    }
}

/// The model of a vehicle; a custom one is a file.
#[derive(Clone, Debug)]
pub enum ModelLayout {
    Quad,
    FixedWing,
    DeltaWing,
    Cone,
    CustomGlb { path: String },
}

#[derive(Clone, Debug)]
pub enum NedRefLayout {
    Manual { lat_deg: u64, lon_deg: u64, alt_m: u64 },
    Fields { lat: FieldRef, lon: FieldRef, alt: FieldRef },
}

#[derive(Clone, Debug)]
pub enum PosLayout {
    Ned { north: FieldRef, east: FieldRef, down: FieldRef, reference: Option<NedRefLayout> },
    Gps {
        lat: FieldRef,
        lon: FieldRef,
        alt: FieldRef,
        /// Lat/lon stored as `degE7` integers (scale 1e-7 to degrees).
        lat_lon_dege7: bool,
        /// Altitude stored in millimetres (scale 1e-3 to metres).
        alt_mm: bool,
        /// Fixed vertical offset in metres (up-positive).
        alt_offset_m: u64,
    },
}

#[derive(Clone, Debug)]
pub enum OriLayout {
    Static,
    Euler { roll: FieldRef, pitch: FieldRef, yaw: FieldRef, degrees: bool },
    Quat { w: FieldRef, x: FieldRef, y: FieldRef, z: FieldRef },
}

#[derive(Clone, Debug)]
pub struct VehicleLayout {
    pub label: String,
    pub show: bool,
    pub model: ModelLayout,
    pub color: [u8; 4],
    pub path_color: [u8; 4],
    pub scale: u32,
    pub position: PosLayout,
    pub orientation: OriLayout,
}

pub struct WorkspaceLayout {
    pub root: LayoutNode,
}

/// A layout file.
pub struct LayoutDoc {
    pub delog_layout: u32,
    pub name: String,
    pub view: Option<ViewLayout>,
    pub playback: PlaybackLayout,
    pub workspace: WorkspaceLayout,
    pub vehicles: Vec<VehicleLayout>,
    pub favorites: Vec<FieldRef>,
    /// Which docks are open, by ascending name.
    pub docks: Vec<(String, bool)>,
}

impl LayoutDoc {
    /// The docks stand by ascending name, each once.
    pub open spec fn well_formed(self) -> bool {
        forall|i: int, j: int|
            0 <= i < j < self.docks@.len() ==> crate::text::text_le(
                (#[trigger] self.docks@[i]).0@,
                (#[trigger] self.docks@[j]).0@,
            ) && self.docks@[i].0@ != self.docks@[j].0@
    }
}

/// A trace that is plotted.
#[derive(Clone, Copy, Debug)]
pub struct TraceRef {
    pub field: FieldId,
    pub color: [u32; 4],
    pub width_px: u32,
    pub mode: TraceMode,
    pub visible: bool,
}

/// A trace whose field is not loaded.
#[derive(Clone, Debug)]
pub struct GhostTrace {
    pub topic: String,
    pub field: String,
    pub color: [u32; 4],
    pub width_px: u32,
    pub mode: TraceMode,
    pub visible: bool,
}

/// A plot.
pub struct PlotPane {
    pub traces: Vec<TraceRef>,
    pub ghosts: Vec<GhostTrace>,
    pub show_legend: bool,
    pub show_tooltip: bool,
}

/// The panes of the workspace.
pub enum PaneTree {
    Plot(PlotPane),
    Scene3D(SceneLayout),
    Split { split: SplitLayout, children: Vec<PaneTree> },
}

/// The panes of the workspace.
#[verifier::ext_equal]
pub ghost enum TreeView {
    Plot {
        traces: Seq<TraceRef>,
        ghosts: Seq<GhostTrace>,
        show_legend: bool,
        show_tooltip: bool,
    },
    Scene3D(SceneLayout),
    Split { split: SplitLayout, children: Seq<TreeView> },
}

pub open spec fn plot_view(pane: PlotPane) -> TreeView {
    TreeView::Plot {
        traces: pane.traces@,
        ghosts: pane.ghosts@,
        show_legend: pane.show_legend,
        show_tooltip: pane.show_tooltip,
    }
}

pub open spec fn tree_view(tree: PaneTree) -> TreeView
    decreases tree, 0nat,
{
    match tree {
        PaneTree::Plot(pane) => plot_view(pane),
        PaneTree::Scene3D(scene) => TreeView::Scene3D(scene),
        PaneTree::Split { split, children } => TreeView::Split {
            split,
            children: tree_views(children, children@.len()),
        },
    }
}

/// The first `n` children.
pub open spec fn tree_views(children: Vec<PaneTree>, n: nat) -> Seq<TreeView>
    decreases children, n,
{
    if n == 0 || n > children@.len() {
        Seq::empty()
    } else {
        tree_views(children, (n - 1) as nat).push(tree_view(children[n - 1]))
    }
}

#[derive(Clone, Debug)]
pub enum ModelKind {
    Quad,
    FixedWing,
    DeltaWing,
    Cone,
    CustomGlb(String),
}

#[derive(Clone, Copy, Debug, PartialEq, Eq, Structural)]
pub enum NedReference {
    Manual { lat_deg: u64, lon_deg: u64, alt_m: u64 },
    Fields { lat: FieldId, lon: FieldId, alt: FieldId },
}

#[derive(Clone, Copy, Debug, PartialEq, Eq, Structural)]
pub enum PosMapping {
    Ned { north: FieldId, east: FieldId, down: FieldId, reference: Option<NedReference> },
    Gps {
        lat: FieldId,
        lon: FieldId,
        alt: FieldId,
        lat_lon_dege7: bool,
        alt_mm: bool,
        alt_offset_m: u64,
    },
}

#[derive(Clone, Copy, Debug, PartialEq, Eq, Structural)]
pub enum OriMapping {
    Static,
    Euler { roll: FieldId, pitch: FieldId, yaw: FieldId, degrees: bool },
    Quat { w: FieldId, x: FieldId, y: FieldId, z: FieldId },
}

/// A vehicle. Its colours are premultiplied with their alpha.
#[derive(Clone, Debug)]
pub struct VehicleConfig {
    pub source: SourceId,
    pub label: String,
    pub show: bool,
    pub pos: PosMapping,
    pub ori: OriMapping,
    pub model: ModelKind,
    pub color: [u8; 4],
    pub path_color: [u8; 4],
    pub scale: u32,
}

/// The model as a layout writes it.
pub open spec fn model_layout(model: ModelKind) -> ModelLayout {
    match model {
        ModelKind::Quad => ModelLayout::Quad,
        ModelKind::FixedWing => ModelLayout::FixedWing,
        ModelKind::DeltaWing => ModelLayout::DeltaWing,
        ModelKind::Cone => ModelLayout::Cone,
        ModelKind::CustomGlb(path) => ModelLayout::CustomGlb { path },
    }
}

/// The model that a layout asks for.
pub open spec fn model_kind(model: ModelLayout) -> ModelKind {
    match model {
        ModelLayout::Quad => ModelKind::Quad,
        ModelLayout::FixedWing => ModelKind::FixedWing,
        ModelLayout::DeltaWing => ModelKind::DeltaWing,
        ModelLayout::Cone => ModelKind::Cone,
        ModelLayout::CustomGlb { path } => ModelKind::CustomGlb(path),
    }
}

pub fn model_to_layout(model: &ModelKind) -> (r: ModelLayout)
    ensures
        r == model_layout(*model),
{
    match model {
        ModelKind::Quad => ModelLayout::Quad,
        ModelKind::FixedWing => ModelLayout::FixedWing,
        ModelKind::DeltaWing => ModelLayout::DeltaWing,
        ModelKind::Cone => ModelLayout::Cone,
        ModelKind::CustomGlb(path) => ModelLayout::CustomGlb { path: path.clone() },
    }
}

pub fn model_from_layout(model: &ModelLayout) -> (r: ModelKind)
    ensures
        r == model_kind(*model),
{
    match model {
        ModelLayout::Quad => ModelKind::Quad,
        ModelLayout::FixedWing => ModelKind::FixedWing,
        ModelLayout::DeltaWing => ModelKind::DeltaWing,
        ModelLayout::Cone => ModelKind::Cone,
        ModelLayout::CustomGlb { path } => ModelKind::CustomGlb(path.clone()),
    }
}

/// A colour channel `v` under the opacity `a`.
pub open spec fn faded(v: u8, a: u8) -> u8 {
    let p = v * a + 128;
    ((p + p / 256) / 256) as u8
}

/// A colour premultiplied with its alpha.
pub open spec fn premultiplied_color(c: [u8; 4]) -> [u8; 4] {
    if c[3] == 0 {
        [0u8, 0u8, 0u8, 0u8]
    } else if c[3] == 255 {
        c
    } else {
        [faded(c[0], c[3]), faded(c[1], c[3]), faded(c[2], c[3]), c[3]]
    }
}

/// `egui::Color32::from_rgba_unmultiplied`, by its four channels. A transparent
/// colour is zero throughout and an opaque one stays as it is; else each
/// channel is scaled by alpha over 255, rounded.
#[verifier::external_body]
pub(crate) fn rgba_to_color(c: [u8; 4]) -> (r: [u8; 4])
    ensures
        r == premultiplied_color(c),
{
    egui::Color32::from_rgba_unmultiplied(c[0], c[1], c[2], c[3]).to_array()
}

/// The least scale of a vehicle: the bit pattern of one hundredth.
pub const MIN_SCALE_BITS: u32 = 0x3c23_d70a;

/// The greater of a scale and the least one, by bit pattern. Negative numbers
/// have the sign bit set; what is not a number lies above infinity.
pub open spec fn clamped_scale(bits: u32) -> u32 {
    if MIN_SCALE_BITS <= bits <= 0x7f80_0000 {
        bits
    } else {
        MIN_SCALE_BITS
    }
}

pub fn clamp_scale(bits: u32) -> (r: u32)
    ensures
        r == clamped_scale(bits),
{
    if MIN_SCALE_BITS <= bits && bits <= 0x7f80_0000 {
        bits
    } else {
        MIN_SCALE_BITS
    }
}

/// Why a layout could not be read or written.
#[derive(Clone, Debug)]
pub enum LayoutError {
    Io(String),
    Json(String),
    UnsupportedVersion(u32),
    NoStorageDir,
    MissingVersion,
}

impl LayoutError {
    /// The error in words.
    pub fn message(&self) -> (r: String)
        ensures
            r@ == match *self {
                LayoutError::Io(e) => "layout IO error: "@ + e@,
                LayoutError::Json(e) => "layout JSON error: "@ + e@,
                LayoutError::UnsupportedVersion(v) => "unsupported layout version "@
                    + crate::text::decimal(v as nat),
                LayoutError::NoStorageDir => "no layout storage directory available"@,
                LayoutError::MissingVersion => "layout JSON is missing `delog_layout`"@,
            },
    {
        match self {
            LayoutError::Io(e) => {
                let mut out = "layout IO error: ".to_owned();
                out.append(e.as_str());
                out
            },
            LayoutError::Json(e) => {
                let mut out = "layout JSON error: ".to_owned();
                out.append(e.as_str());
                out
            },
            LayoutError::UnsupportedVersion(v) => {
                let mut out = "unsupported layout version ".to_owned();
                crate::text::push_decimal(&mut out, *v as u64);
                out
            },
            LayoutError::NoStorageDir => "no layout storage directory available".to_owned(),
            LayoutError::MissingVersion => "layout JSON is missing `delog_layout`".to_owned(),
        }
    }
}

/// Modes and models survive being written and read.
pub proof fn modes_and_models_round_trip(mode: TraceMode, model: ModelKind)
    ensures
        mode_from_layout(mode_to_layout(mode)) == mode,
        model_kind(model_layout(model)) == model,
{
}

} // verus!
