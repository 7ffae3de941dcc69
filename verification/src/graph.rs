//! The data-flow graph: nodes, edges and the commands that edit them. Floating
//! point numbers are held as their bit patterns.

use vstd::prelude::*;

verus! {

/// The identity of a node.
#[derive(Clone, Copy, Debug, PartialEq, Eq, PartialOrd, Ord, Hash, Structural)]
pub struct NodeId(pub u64);

/// A unit conversion.
#[derive(Clone, Copy, Debug, PartialEq, Eq, Structural)]
pub enum ConversionKind {
    RadToDeg,
    DegToRad,
    Heading0To360,
    HeadingPm180,
    MsToKmh,
    KmhToMs,
    MToFt,
    FtToM,
}

/// Which sample stands for a time between samples.
#[derive(Clone, Copy, Debug, PartialEq, Eq, Structural)]
pub enum AlignMode {
    Prev,
    Nearest,
    Linear,
}

/// A comparison that lets samples pass; `filter` numbers the kind.
#[derive(Clone, Copy, Debug, PartialEq, Eq, Structural)]
pub struct FilterSpec {
    pub filter: u32,
    pub value: u64,
    pub upper: u64,
    pub inclusive: bool,
}

/// The name of a field in the store, as the user chose it.
#[derive(Clone, Debug)]
pub struct FieldSelector {
    pub source: Option<String>,
    pub topic: String,
    pub instance: Option<u32>,
    pub field: String,
}

/// A named output with an optional unit.
#[derive(Clone, Debug)]
pub struct OutputFieldSpec {
    pub name: String,
    pub unit: Option<String>,
}

/// A derived topic.
#[derive(Clone, Debug)]
pub struct OutputSpec {
    pub topic: String,
    pub fields: Vec<OutputFieldSpec>,
}

/// A named input of a script.
#[derive(Clone, Debug)]
pub struct ScriptInputSpec {
    pub name: String,
}

/// A script node.
#[derive(Clone, Debug)]
pub struct ScriptSpec {
    pub name: String,
    pub inputs: Vec<ScriptInputSpec>,
    pub outputs: Vec<OutputFieldSpec>,
    pub code: String,
}

/// What a node does.
#[derive(Clone, Debug)]
pub enum NodeKind {
    DataField(FieldSelector),
    Constant { value: u64 },
    Add,
    Subtract,
    Multiply,
    Divide,
    ScaleOffset { multiplier: u64, offset: u64 },
    Convert { kind: ConversionKind },
    Align { mode: AlignMode },
    Filter(FilterSpec),
    Output(OutputSpec),
    Script(ScriptSpec),
    Unknown(String),
}

/// The text of an optional string.
pub open spec fn optional_text(s: Option<String>) -> Option<Seq<char>> {
    match s {
        Some(s) => Some(s@),
        None => None,
    }
}

/// A copy of an optional string.
pub fn copy_optional(s: &Option<String>) -> (r: Option<String>)
    ensures
        r == *s,
{
    match s {
        Some(s) => Some(s.clone()),
        None => None,
    }
}

#[verifier::ext_equal]
pub ghost struct SelectorView {
    pub source: Option<Seq<char>>,
    pub topic: Seq<char>,
    pub instance: Option<u32>,
    pub field: Seq<char>,
}

impl View for FieldSelector {
    type V = SelectorView;

    open spec fn view(&self) -> SelectorView {
        SelectorView {
            source: optional_text(self.source),
            topic: self.topic@,
            instance: self.instance,
            field: self.field@,
        }
    }
}

impl FieldSelector {
    pub fn duplicate(&self) -> (r: FieldSelector)
        ensures
            r == *self,
    {
        FieldSelector {
            source: copy_optional(&self.source),
            topic: self.topic.clone(),
            instance: self.instance,
            field: self.field.clone(),
        }
    }
}

/// A named output with an optional unit.
#[verifier::ext_equal]
pub ghost struct PortView {
    pub name: Seq<char>,
    pub unit: Option<Seq<char>>,
}

impl View for OutputFieldSpec {
    type V = PortView;

    open spec fn view(&self) -> PortView {
        PortView { name: self.name@, unit: optional_text(self.unit) }
    }
}

impl OutputFieldSpec {
    pub fn duplicate(&self) -> (r: OutputFieldSpec)
        ensures
            r == *self,
    {
        OutputFieldSpec { name: self.name.clone(), unit: copy_optional(&self.unit) }
    }
}

pub open spec fn port_views(ports: Seq<OutputFieldSpec>) -> Seq<PortView> {
    Seq::new(ports.len(), |i: int| ports[i]@)
}

pub open spec fn input_views(inputs: Seq<ScriptInputSpec>) -> Seq<Seq<char>> {
    Seq::new(inputs.len(), |i: int| inputs[i].name@)
}

/// What a node does.
#[verifier::ext_equal]
pub ghost enum KindView {
    DataField(SelectorView),
    Constant { value: u64 },
    Add,
    Subtract,
    Multiply,
    Divide,
    ScaleOffset { multiplier: u64, offset: u64 },
    Convert { kind: ConversionKind },
    Align { mode: AlignMode },
    Filter(FilterSpec),
    Output { topic: Seq<char>, fields: Seq<PortView> },
    Script {
        name: Seq<char>,
        inputs: Seq<Seq<char>>,
        outputs: Seq<PortView>,
        code: Seq<char>,
    },
    Unknown(Seq<char>),
}

impl View for NodeKind {
    type V = KindView;

    open spec fn view(&self) -> KindView {
        match self {
            NodeKind::DataField(selector) => KindView::DataField(selector@),
            NodeKind::Constant { value } => KindView::Constant { value: *value },
            NodeKind::Add => KindView::Add,
            NodeKind::Subtract => KindView::Subtract,
            NodeKind::Multiply => KindView::Multiply,
            NodeKind::Divide => KindView::Divide,
            NodeKind::ScaleOffset { multiplier, offset } => KindView::ScaleOffset {
                multiplier: *multiplier,
                offset: *offset,
            },
            NodeKind::Convert { kind } => KindView::Convert { kind: *kind },
            NodeKind::Align { mode } => KindView::Align { mode: *mode },
            NodeKind::Filter(spec) => KindView::Filter(*spec),
            NodeKind::Output(spec) => KindView::Output {
                topic: spec.topic@,
                fields: port_views(spec.fields@),
            },
            NodeKind::Script(spec) => KindView::Script {
                name: spec.name@,
                inputs: input_views(spec.inputs@),
                outputs: port_views(spec.outputs@),
                code: spec.code@,
            },
            NodeKind::Unknown(value) => KindView::Unknown(value@),
        }
    }
}

fn copy_ports(ports: &Vec<OutputFieldSpec>) -> (r: Vec<OutputFieldSpec>)
    ensures
        port_views(r@) == port_views(ports@),
{
    let mut out: Vec<OutputFieldSpec> = Vec::new();
    let mut i: usize = 0;
    while i < ports.len()
        invariant
            i <= ports@.len(),
            port_views(out@) == port_views(ports@).take(i as int),
        decreases ports@.len() - i,
    {
        let ghost before = out@;
        out.push(ports[i].duplicate());
        proof {
            assert(port_views(out@) =~= port_views(before).push(ports@[i as int]@));
            assert(port_views(ports@).take(i + 1) =~= port_views(ports@).take(i as int).push(
                ports@[i as int]@,
            ));
        }
        i = i + 1;
    }
    proof {
        assert(port_views(ports@).take(i as int) =~= port_views(ports@));
    }
    out
}

fn copy_inputs(inputs: &Vec<ScriptInputSpec>) -> (r: Vec<ScriptInputSpec>)
    ensures
        input_views(r@) == input_views(inputs@),
{
    let mut out: Vec<ScriptInputSpec> = Vec::new();
    let mut i: usize = 0;
    while i < inputs.len()
        invariant
            i <= inputs@.len(),
            input_views(out@) == input_views(inputs@).take(i as int),
        decreases inputs@.len() - i,
    {
        let ghost before = out@;
        out.push(ScriptInputSpec { name: inputs[i].name.clone() });
        proof {
            assert(input_views(out@) =~= input_views(before).push(inputs@[i as int].name@));
            assert(input_views(inputs@).take(i + 1) =~= input_views(inputs@).take(i as int).push(
                inputs@[i as int].name@,
            ));
        }
        i = i + 1;
    }
    proof {
        assert(input_views(inputs@).take(i as int) =~= input_views(inputs@));
    }
    out
}

impl NodeKind {
    /// A copy of the kind.
    pub fn duplicate(&self) -> (r: NodeKind)
        ensures
            r@ == self@,
    {
        match self {
            NodeKind::DataField(selector) => NodeKind::DataField(selector.duplicate()),
            NodeKind::Constant { value } => NodeKind::Constant { value: *value },
            NodeKind::Add => NodeKind::Add,
            NodeKind::Subtract => NodeKind::Subtract,
            NodeKind::Multiply => NodeKind::Multiply,
            NodeKind::Divide => NodeKind::Divide,
            NodeKind::ScaleOffset { multiplier, offset } => NodeKind::ScaleOffset {
                multiplier: *multiplier,
                offset: *offset,
            },
            NodeKind::Convert { kind } => NodeKind::Convert { kind: *kind },
            NodeKind::Align { mode } => NodeKind::Align { mode: *mode },
            NodeKind::Filter(spec) => NodeKind::Filter(*spec),
            NodeKind::Output(spec) => NodeKind::Output(
                OutputSpec { topic: spec.topic.clone(), fields: copy_ports(&spec.fields) },
            ),
            NodeKind::Script(spec) => NodeKind::Script(
                ScriptSpec {
                    name: spec.name.clone(),
                    inputs: copy_inputs(&spec.inputs),
                    outputs: copy_ports(&spec.outputs),
                    code: spec.code.clone(),
                },
            ),
            NodeKind::Unknown(value) => NodeKind::Unknown(value.clone()),
        }
    }
}

/// The name of a conversion.
pub open spec fn conversion_label(kind: ConversionKind) -> Seq<char> {
    match kind {
        ConversionKind::RadToDeg => "Radians to Degrees"@,
        ConversionKind::DegToRad => "Degrees to Radians"@,
        ConversionKind::Heading0To360 => "Heading 0..360"@,
        ConversionKind::HeadingPm180 => "Heading -180..180"@,
        ConversionKind::MsToKmh => "m/s to km/h"@,
        ConversionKind::KmhToMs => "km/h to m/s"@,
        ConversionKind::MToFt => "Meters to Feet"@,
        ConversionKind::FtToM => "Feet to Meters"@,
    }
}

impl ConversionKind {
    /// The name of the conversion.
    pub fn label(self) -> (r: &'static str)
        ensures
            r@ == conversion_label(self),
    {
        match self {
            ConversionKind::RadToDeg => "Radians to Degrees",
            ConversionKind::DegToRad => "Degrees to Radians",
            ConversionKind::Heading0To360 => "Heading 0..360",
            ConversionKind::HeadingPm180 => "Heading -180..180",
            ConversionKind::MsToKmh => "m/s to km/h",
            ConversionKind::KmhToMs => "km/h to m/s",
            ConversionKind::MToFt => "Meters to Feet",
            ConversionKind::FtToM => "Feet to Meters",
        }
    }
}

/// A node at a position on the canvas.
#[derive(Clone, Debug)]
pub struct Node {
    pub id: NodeId,
    pub pos: [u32; 2],
    pub kind: NodeKind,
}

#[verifier::ext_equal]
pub ghost struct NodeModel {
    pub id: NodeId,
    pub pos: [u32; 2],
    pub kind: KindView,
}

impl View for Node {
    type V = NodeModel;

    open spec fn view(&self) -> NodeModel {
        NodeModel { id: self.id, pos: self.pos, kind: self.kind@ }
    }
}

impl Node {
    pub fn duplicate(&self) -> (r: Node)
        ensures
            r@ == self@,
    {
        Node { id: self.id, pos: self.pos, kind: self.kind.duplicate() }
    }
}

pub open spec fn node_models(nodes: Seq<Node>) -> Seq<NodeModel> {
    Seq::new(nodes.len(), |i: int| nodes[i]@)
}

/// A connection from an output to an input.
#[derive(Clone, Copy, Debug, PartialEq, Eq, Structural)]
pub struct Edge {
    pub from: NodeId,
    pub from_port: u32,
    pub to: NodeId,
    pub to_port: u32,
}

/// The part of the canvas that is seen: its corner, and its scale.
#[derive(Clone, Copy, Debug, PartialEq, Eq)]
pub struct Viewport {
    pub offset: [u32; 2],
    pub zoom: u32,
}

/// The bit pattern of the number one.
pub const UNIT_ZOOM: u32 = 0x3f80_0000;

impl Default for Viewport {
    fn default() -> (r: Viewport)
        ensures
            r == (Viewport { offset: [0, 0], zoom: UNIT_ZOOM }),
    {
        Viewport { offset: [0, 0], zoom: UNIT_ZOOM }
    }
}

/// A data-flow graph.
pub struct Graph {
    pub name: String,
    pub viewport: Viewport,
    pub nodes: Vec<Node>,
    pub edges: Vec<Edge>,
}

/// Whether a list of nodes holds the id.
pub open spec fn has_node(nodes: Seq<Node>, id: NodeId) -> bool {
    exists|i: int| 0 <= i < nodes.len() && (#[trigger] nodes[i]).id == id
}

/// The first node with the id, from `i` on.
pub open spec fn node_index(nodes: Seq<Node>, id: NodeId, i: int) -> Option<int>
    decreases nodes.len() - i,
{
    if i < 0 || i >= nodes.len() {
        None
    } else if nodes[i].id == id {
        Some(i)
    } else {
        node_index(nodes, id, i + 1)
    }
}

/// Whether an edge leads into the input.
pub open spec fn has_incoming(edges: Seq<Edge>, to: NodeId, port: u32) -> bool {
    exists|i: int|
        0 <= i < edges.len() && (#[trigger] edges[i]).to == to && edges[i].to_port == port
}

impl Graph {
    pub fn new(name: &str) -> (r: Graph)
        ensures
            r.name@ == name@,
            r.nodes@.len() == 0,
            r.edges@.len() == 0,
            r.viewport == (Viewport { offset: [0, 0], zoom: UNIT_ZOOM }),
    {
        Graph {
            name: name.to_owned(),
            viewport: Viewport::default(),
            nodes: Vec::new(),
            edges: Vec::new(),
        }
    }

    /// Whether the graph has the node.
    pub fn contains_node(&self, id: NodeId) -> (r: bool)
        ensures
            r == has_node(self.nodes@, id),
    {
        let mut i: usize = 0;
        while i < self.nodes.len()
            invariant
                i <= self.nodes@.len(),
                forall|j: int| 0 <= j < i ==> (#[trigger] self.nodes@[j]).id != id,
            decreases self.nodes@.len() - i,
        {
            if self.nodes[i].id == id {
                return true;
            }
            i = i + 1;
        }
        false
    }

    /// Where the node stands in the list.
    pub fn find_node(&self, id: NodeId) -> (r: Option<usize>)
        ensures
            node_index(self.nodes@, id, 0) == match r {
                Some(i) => Some(i as int),
                None => None,
            },
            r matches Some(i) ==> i < self.nodes@.len() && self.nodes@[i as int].id == id,
    {
        let mut i: usize = 0;
        while i < self.nodes.len()
            invariant
                i <= self.nodes@.len(),
                node_index(self.nodes@, id, 0) == node_index(self.nodes@, id, i as int),
            decreases self.nodes@.len() - i,
        {
            if self.nodes[i].id == id {
                return Some(i);
            }
            i = i + 1;
        }
        None
    }

    /// Whether an edge leads into the input.
    pub fn is_connected(&self, to: NodeId, port: u32) -> (r: bool)
        ensures
            r == has_incoming(self.edges@, to, port),
    {
        let mut i: usize = 0;
        while i < self.edges.len()
            invariant
                i <= self.edges@.len(),
                forall|j: int|
                    0 <= j < i ==> !((#[trigger] self.edges@[j]).to == to && self.edges@[j].to_port
                        == port),
            decreases self.edges@.len() - i,
        {
            if self.edges[i].to == to && self.edges[i].to_port == port {
                return true;
            }
            i = i + 1;
        }
        false
    }
}

/// An edit of a graph.
pub enum GraphCommand {
    AddNode { node: Node },
    RemoveNode { id: NodeId },
    MoveNode { id: NodeId, to: [u32; 2] },
    Connect { edge: Edge },
    Disconnect { to: NodeId, to_port: u32 },
    SetKind { id: NodeId, kind: NodeKind },
    InsertOutputField { id: NodeId, index: usize, field: OutputFieldSpec },
    RemoveOutputField { id: NodeId, index: usize },
    InsertScriptInput { id: NodeId, index: usize, input: ScriptInputSpec },
    RemoveScriptInput { id: NodeId, index: usize },
    InsertScriptOutput { id: NodeId, index: usize, output: OutputFieldSpec },
    RemoveScriptOutput { id: NodeId, index: usize },
    /// Several edits as one.
    Batch(Vec<GraphCommand>),
}

/// An edit of a graph.
#[verifier::ext_equal]
pub ghost enum CommandView {
    AddNode { node: NodeModel },
    RemoveNode { id: NodeId },
    MoveNode { id: NodeId, to: [u32; 2] },
    Connect { edge: Edge },
    Disconnect { to: NodeId, to_port: u32 },
    SetKind { id: NodeId, kind: KindView },
    InsertOutputField { id: NodeId, index: usize, field: PortView },
    RemoveOutputField { id: NodeId, index: usize },
    InsertScriptInput { id: NodeId, index: usize, input: Seq<char> },
    RemoveScriptInput { id: NodeId, index: usize },
    InsertScriptOutput { id: NodeId, index: usize, output: PortView },
    RemoveScriptOutput { id: NodeId, index: usize },
    Batch(Seq<CommandView>),
}

pub open spec fn command_view(command: GraphCommand) -> CommandView
    decreases command, 0nat,
{
    match command {
        GraphCommand::AddNode { node } => CommandView::AddNode { node: node@ },
        GraphCommand::RemoveNode { id } => CommandView::RemoveNode { id },
        GraphCommand::MoveNode { id, to } => CommandView::MoveNode { id, to },
        GraphCommand::Connect { edge } => CommandView::Connect { edge },
        GraphCommand::Disconnect { to, to_port } => CommandView::Disconnect { to, to_port },
        GraphCommand::SetKind { id, kind } => CommandView::SetKind { id, kind: kind@ },
        GraphCommand::InsertOutputField { id, index, field } => CommandView::InsertOutputField {
            id,
            index,
            field: field@,
        },
        GraphCommand::RemoveOutputField { id, index } => CommandView::RemoveOutputField {
            id,
            index,
        },
        GraphCommand::InsertScriptInput { id, index, input } => CommandView::InsertScriptInput {
            id,
            index,
            input: input.name@,
        },
        GraphCommand::RemoveScriptInput { id, index } => CommandView::RemoveScriptInput {
            id,
            index,
        },
        GraphCommand::InsertScriptOutput { id, index, output } => CommandView::InsertScriptOutput {
            id,
            index,
            output: output@,
        },
        GraphCommand::RemoveScriptOutput { id, index } => CommandView::RemoveScriptOutput {
            id,
            index,
        },
        GraphCommand::Batch(commands) => CommandView::Batch(
            command_views(commands, commands@.len()),
        ),
    }
}

/// The first `n` commands of a batch.
pub open spec fn command_views(commands: Vec<GraphCommand>, n: nat) -> Seq<CommandView>
    decreases commands, n,
{
    if n == 0 || n > commands@.len() {
        Seq::empty()
    } else {
        command_views(commands, (n - 1) as nat).push(command_view(commands[n - 1]))
    }
}

proof fn lemma_command_views_same(a: Vec<GraphCommand>, b: Vec<GraphCommand>, n: nat)
    requires
        n <= a@.len(),
        n <= b@.len(),
        forall|i: int| 0 <= i < n ==> a@[i] == b@[i],
    ensures
        command_views(a, n) == command_views(b, n),
    decreases n,
{
    if n > 0 {
        lemma_command_views_same(a, b, (n - 1) as nat);
    }
}

/// Appending a command appends its view.
pub proof fn lemma_command_push(
    before: Vec<GraphCommand>,
    now: Vec<GraphCommand>,
    command: GraphCommand,
)
    requires
        now@ == before@.push(command),
    ensures
        command_views(now, now@.len()) == command_views(before, before@.len()).push(
            command_view(command),
        ),
{
    lemma_command_views_same(before, now, before@.len());
}

} // verus!
