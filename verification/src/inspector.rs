//! The inspector of the selected node: what it shows, and which edit its
//! controls lead to.

use crate::bits::{equal_doubles, same_double};
use crate::editor::ScriptEditorState;
use crate::graph::{
    command_view, input_views, optional_text, port_views, CommandView, FieldSelector, FilterSpec,
    GraphCommand, KindView, NodeId, NodeKind, OutputFieldSpec, PortView, ScriptInputSpec,
    ScriptSpec, SelectorView,
};
use crate::text::{decimal, push_decimal, same_text, views};
use vstd::prelude::*;

verus! {

/// What the inspector says where not exactly one node is selected.
pub fn selection_message(count: usize) -> (r: Option<String>)
    ensures
        r is None <==> count == 1,
        count == 0 ==> r.unwrap()@ == "Select a node to inspect it"@,
        count > 1 ==> r.unwrap()@ == decimal(count as nat) + " nodes selected"@,
{
    if count == 1 {
        return None;
    }
    let mut text = String::new();
    if count > 1 {
        push_decimal(&mut text, count as u64);
        text.append(" nodes selected");
        proof {
            assert(text@ =~= decimal(count as nat) + " nodes selected"@);
        }
    } else {
        text.append("Select a node to inspect it");
        proof {
            assert(text@ =~= "Select a node to inspect it"@);
        }
    }
    Some(text)
}

/// Whether the source of a field can be chosen: several have the field.
pub fn offers_sources(candidates: usize) -> (r: bool)
    ensures
        r == (candidates > 1),
{
    candidates > 1
}

/// What the list of sources shows.
pub fn source_text(source: &Option<String>) -> (r: String)
    ensures
        r@ == match *source {
            Some(label) => label@,
            None => "(choose)"@,
        },
{
    match source {
        Some(label) => label.clone(),
        None => "(choose)".to_owned(),
    }
}

/// Whether another source than the present one has been chosen.
pub fn source_changed(chosen: &Option<String>, present: &Option<String>) -> (r: bool)
    ensures
        r == (optional_text(*chosen) != optional_text(*present)),
{
    match (chosen, present) {
        (Some(a), Some(b)) => !same_text(a.as_str(), b.as_str()),
        (None, None) => false,
        _ => true,
    }
}

/// What the inspector says of a data field.
pub open spec fn selector_text(selector: SelectorView) -> Seq<Seq<char>> {
    let topic = seq!["Topic: "@ + selector.topic];
    let instance = match selector.instance {
        Some(n) => seq!["Instance: "@ + decimal(n as nat)],
        None => Seq::empty(),
    };
    topic + instance + seq!["Field: "@ + selector.field]
}

/// What the inspector says of a data field, one text a line.
pub fn selector_lines(selector: &FieldSelector) -> (r: Vec<String>)
    ensures
        views(r@) == selector_text(selector@),
{
    let mut lines: Vec<String> = Vec::new();
    let mut topic = "Topic: ".to_owned();
    topic.append(selector.topic.as_str());
    lines.push(topic);
    if let Some(n) = selector.instance {
        let mut instance = "Instance: ".to_owned();
        push_decimal(&mut instance, n as u64);
        lines.push(instance);
    }
    let mut field = "Field: ".to_owned();
    field.append(selector.field.as_str());
    lines.push(field);
    proof {
        assert(views(lines@) =~= selector_text(selector@));
    }
    lines
}

/// The unit that a text stands for; an empty one stands for none.
pub fn unit_of(text: String) -> (r: Option<String>)
    ensures
        r == if text@.len() == 0 {
            None
        } else {
            Some(text)
        },
{
    if text.as_str().unicode_len() == 0 {
        None
    } else {
        Some(text)
    }
}

/// The controls of lists of ports that were used. An output node has one list,
/// its fields. A script has two, its inputs and its outputs.
#[derive(Clone, Copy, Debug, PartialEq, Eq, Structural)]
pub struct PortClicks {
    pub remove_first: Option<usize>,
    pub add_first: bool,
    pub remove_second: Option<usize>,
    pub add_second: bool,
    /// The code of a script is to be taken over.
    pub apply_code: bool,
}

/// The name of a port that is added.
pub open spec fn port_name(prefix: Seq<char>, count: nat) -> Seq<char> {
    prefix + decimal(count + 1)
}

/// The edit of its ports or its code that the controls of a node lead to. Of
/// several the last counts, in the order in which the controls stand.
pub open spec fn port_edit(id: NodeId, kind: KindView, clicks: PortClicks, code: Seq<char>) -> Option<
    CommandView,
> {
    match kind {
        KindView::Output { topic, fields } => if clicks.add_first {
            Some(
                CommandView::InsertOutputField {
                    id,
                    index: fields.len() as usize,
                    field: PortView { name: port_name("field_"@, fields.len()), unit: None },
                },
            )
        } else {
            match clicks.remove_first {
                Some(index) => Some(CommandView::RemoveOutputField { id, index }),
                None => None,
            }
        },
        KindView::Script { name, inputs, outputs, code: present } => if clicks.apply_code {
            Some(
                CommandView::SetKind { id, kind: KindView::Script { name, inputs, outputs, code } },
            )
        } else if clicks.add_second {
            Some(
                CommandView::InsertScriptOutput {
                    id,
                    index: outputs.len() as usize,
                    output: PortView { name: port_name("out_"@, outputs.len()), unit: None },
                },
            )
        } else if clicks.remove_second is Some {
            Some(CommandView::RemoveScriptOutput { id, index: clicks.remove_second.unwrap() })
        } else if clicks.add_first {
            Some(
                CommandView::InsertScriptInput {
                    id,
                    index: inputs.len() as usize,
                    input: port_name("in_"@, inputs.len()),
                },
            )
        } else {
            match clicks.remove_first {
                Some(index) => Some(CommandView::RemoveScriptInput { id, index }),
                None => None,
            }
        },
        _ => None,
    }
}

fn new_port_name(prefix: &str, count: usize) -> (r: String)
    requires
        count < usize::MAX,
    ensures
        r@ == port_name(prefix@, count as nat),
{
    let mut name = prefix.to_owned();
    push_decimal(&mut name, count as u64 + 1);
    name
}

/// Whether a port can be added to each list of a node: the machine can count
/// it.
pub open spec fn has_room(kind: KindView) -> bool {
    match kind {
        KindView::Output { topic, fields } => fields.len() < usize::MAX,
        KindView::Script { name, inputs, outputs, code } => inputs.len() < usize::MAX
            && outputs.len() < usize::MAX,
        _ => true,
    }
}

/// The edit of its ports or its code that the controls of a node lead to.
/// `code` is what the editor of the code holds.
pub fn structural_edit(id: NodeId, kind: &NodeKind, clicks: PortClicks, code: &str) -> (r: Option<
    GraphCommand,
>)
    requires
        has_room(kind@),
    ensures
        port_edit(id, kind@, clicks, code@) == match r {
            Some(command) => Some(command_view(command)),
            None => None,
        },
{
    match kind {
        NodeKind::Output(spec) => {
            if clicks.add_first {
                let index: usize = spec.fields.len();
                return Some(
                    GraphCommand::InsertOutputField {
                        id,
                        index,
                        field: OutputFieldSpec { name: new_port_name("field_", index), unit: None },
                    },
                );
            }
            match clicks.remove_first {
                Some(index) => Some(GraphCommand::RemoveOutputField { id, index }),
                None => None,
            }
        },
        NodeKind::Script(spec) => {
            if clicks.apply_code {
                if let NodeKind::Script(copy) = kind.duplicate() {
                    return Some(
                        GraphCommand::SetKind {
                            id,
                            kind: NodeKind::Script(
                                ScriptSpec {
                                    name: copy.name,
                                    inputs: copy.inputs,
                                    outputs: copy.outputs,
                                    code: code.to_owned(),
                                },
                            ),
                        },
                    );
                }
            }
            if clicks.add_second {
                let index: usize = spec.outputs.len();
                return Some(
                    GraphCommand::InsertScriptOutput {
                        id,
                        index,
                        output: OutputFieldSpec { name: new_port_name("out_", index), unit: None },
                    },
                );
            }
            if let Some(index) = clicks.remove_second {
                return Some(GraphCommand::RemoveScriptOutput { id, index });
            }
            if clicks.add_first {
                let index: usize = spec.inputs.len();
                return Some(
                    GraphCommand::InsertScriptInput {
                        id,
                        index,
                        input: ScriptInputSpec { name: new_port_name("in_", index) },
                    },
                );
            }
            match clicks.remove_first {
                Some(index) => Some(GraphCommand::RemoveScriptInput { id, index }),
                None => None,
            }
        },
        _ => None,
    }
}

/// Whether two filters are equal, their bounds as numbers.
pub open spec fn equal_filters(a: FilterSpec, b: FilterSpec) -> bool {
    a.filter == b.filter && a.inclusive == b.inclusive && equal_doubles(a.value, b.value)
        && equal_doubles(a.upper, b.upper)
}

/// Whether two kinds are equal, the numbers in them as numbers.
pub open spec fn equal_kinds(a: KindView, b: KindView) -> bool {
    match (a, b) {
        (KindView::Constant { value: x }, KindView::Constant { value: y }) => equal_doubles(x, y),
        (
            KindView::ScaleOffset { multiplier: m, offset: o },
            KindView::ScaleOffset { multiplier: n, offset: p },
        ) => equal_doubles(m, n) && equal_doubles(o, p),
        (KindView::Filter(x), KindView::Filter(y)) => equal_filters(x, y),
        _ => a == b,
    }
}

fn same_ports(a: &Vec<OutputFieldSpec>, b: &Vec<OutputFieldSpec>) -> (r: bool)
    ensures
        r == (port_views(a@) == port_views(b@)),
{
    if a.len() != b.len() {
        proof {
            assert(port_views(a@).len() != port_views(b@).len());
        }
        return false;
    }
    let mut i: usize = 0;
    while i < a.len()
        invariant
            i <= a@.len() == b@.len(),
            forall|j: int| 0 <= j < i ==> (#[trigger] a@[j])@ == b@[j]@,
        decreases a@.len() - i,
    {
        if !same_text(a[i].name.as_str(), b[i].name.as_str()) || source_changed(
            &a[i].unit,
            &b[i].unit,
        ) {
            proof {
                assert(port_views(a@)[i as int] != port_views(b@)[i as int]);
            }
            return false;
        }
        i = i + 1;
    }
    proof {
        assert(port_views(a@) =~= port_views(b@));
    }
    true
}

fn same_inputs(a: &Vec<ScriptInputSpec>, b: &Vec<ScriptInputSpec>) -> (r: bool)
    ensures
        r == (input_views(a@) == input_views(b@)),
{
    if a.len() != b.len() {
        proof {
            assert(input_views(a@).len() != input_views(b@).len());
        }
        return false;
    }
    let mut i: usize = 0;
    while i < a.len()
        invariant
            i <= a@.len() == b@.len(),
            forall|j: int| 0 <= j < i ==> (#[trigger] a@[j]).name@ == b@[j].name@,
        decreases a@.len() - i,
    {
        if !same_text(a[i].name.as_str(), b[i].name.as_str()) {
            proof {
                assert(input_views(a@)[i as int] != input_views(b@)[i as int]);
            }
            return false;
        }
        i = i + 1;
    }
    proof {
        assert(input_views(a@) =~= input_views(b@));
    }
    true
}

/// Whether two kinds are equal, the numbers in them as numbers.
pub fn same_kind(a: &NodeKind, b: &NodeKind) -> (r: bool)
    ensures
        r == equal_kinds(a@, b@),
{
    match (a, b) {
        (NodeKind::DataField(x), NodeKind::DataField(y)) => !source_changed(&x.source, &y.source)
            && same_text(x.topic.as_str(), y.topic.as_str()) && x.instance == y.instance
            && same_text(x.field.as_str(), y.field.as_str()),
        (NodeKind::Constant { value: x }, NodeKind::Constant { value: y }) => same_double(*x, *y),
        (NodeKind::Add, NodeKind::Add) => true,
        (NodeKind::Subtract, NodeKind::Subtract) => true,
        (NodeKind::Multiply, NodeKind::Multiply) => true,
        (NodeKind::Divide, NodeKind::Divide) => true,
        (
            NodeKind::ScaleOffset { multiplier: m, offset: o },
            NodeKind::ScaleOffset { multiplier: n, offset: p },
        ) => same_double(*m, *n) && same_double(*o, *p),
        (NodeKind::Convert { kind: x }, NodeKind::Convert { kind: y }) => *x == *y,
        (NodeKind::Align { mode: x }, NodeKind::Align { mode: y }) => *x == *y,
        (NodeKind::Filter(x), NodeKind::Filter(y)) => x.filter == y.filter && x.inclusive
            == y.inclusive && same_double(x.value, y.value) && same_double(x.upper, y.upper),
        (NodeKind::Output(x), NodeKind::Output(y)) => same_text(
            x.topic.as_str(),
            y.topic.as_str(),
        ) && same_ports(&x.fields, &y.fields),
        (NodeKind::Script(x), NodeKind::Script(y)) => same_text(x.name.as_str(), y.name.as_str())
            && same_inputs(&x.inputs, &y.inputs) && same_ports(&x.outputs, &y.outputs)
            && same_text(x.code.as_str(), y.code.as_str()),
        (NodeKind::Unknown(x), NodeKind::Unknown(y)) => same_text(x.as_str(), y.as_str()),
        _ => false,
    }
}

/// The edit that the controls of a node lead to: that of its ports or its code,
/// or else the kind that the controls have made of it.
pub fn inspector_command(
    id: NodeId,
    structural: Option<GraphCommand>,
    edited: NodeKind,
    present: &NodeKind,
) -> (r: Option<GraphCommand>)
    ensures
        match structural {
            Some(command) => r == Some(command),
            None => if equal_kinds(edited@, present@) {
                r is None
            } else {
                r matches Some(command) && command_view(command) == (CommandView::SetKind {
                    id,
                    kind: edited@,
                })
            },
        },
{
    match structural {
        Some(command) => Some(command),
        None => {
            if same_kind(&edited, present) {
                None
            } else {
                Some(GraphCommand::SetKind { id, kind: edited })
            }
        },
    }
}

/// Whether an editor of code stands for a node with a given code.
pub open spec fn fits(state: Option<ScriptEditorState>, id: NodeId, code: Seq<char>) -> bool {
    state matches Some(state) && state.node == id && state.baseline@ == code
}

/// The text in which the code of a node is edited. It starts as the code, and
/// does so again when another node is shown or its code has changed.
pub fn script_editor_buffer<'a>(
    state: &'a mut Option<ScriptEditorState>,
    id: NodeId,
    code: &str,
) -> (r: &'a mut String)
    ensures
        fits(*old(state), id, code@) ==> *r == old(state).unwrap().buffer,
        !fits(*old(state), id, code@) ==> r@ == code@,
        *final(state) matches Some(now) && now.node == id && now.baseline@ == code@ && now.buffer
            == *final(r),
{
    let needs_reset = match state {
        Some(existing) => existing.node != id || !same_text(existing.baseline.as_str(), code),
        None => true,
    };
    if needs_reset {
        *state = Some(
            ScriptEditorState { node: id, baseline: code.to_owned(), buffer: code.to_owned() },
        );
    }
    &mut state.as_mut().unwrap().buffer
}

/// Whether the previews of a node stand among its other controls.
pub fn has_own_preview_section(kind: &NodeKind) -> (r: bool)
    ensures
        r == (kind@ is Script),
{
    match kind {
        NodeKind::Script(_) => true,
        _ => false,
    }
}

/// An edit of a list of ports.
#[derive(Clone, Copy, Debug, PartialEq, Eq, Structural)]
pub enum PortEdit {
    Remove(usize),
    Add,
}

/// The edit of a list of ports that its controls lead to: the last port whose
/// removal was asked for, or else a new port.
pub fn ports_edit(removed: &Vec<usize>, add: bool) -> (r: Option<PortEdit>)
    ensures
        r == if removed@.len() > 0 {
            Some(PortEdit::Remove(removed@.last()))
        } else if add {
            Some(PortEdit::Add)
        } else {
            None
        },
{
    let n: usize = removed.len();
    if n > 0 {
        Some(PortEdit::Remove(removed[n - 1]))
    } else if add {
        Some(PortEdit::Add)
    } else {
        None
    }
}

/// What the control says that removes a port.
pub fn remove_label(noun: &str, name: &str) -> (r: String)
    ensures
        r@ == if name@.len() == 0 {
            "Remove "@ + noun@
        } else {
            "Remove "@ + noun@ + " "@ + name@
        },
{
    let mut text = "Remove ".to_owned();
    text.append(noun);
    if name.unicode_len() > 0 {
        text.append(" ");
        text.append(name);
    }
    text
}

/// A control of a filter.
pub enum FilterControl {
    /// Whether the bound itself passes.
    Inclusive,
    /// A bound, with what stands before its number.
    Bound { upper: bool, prefix: String },
}

/// The controls as texts; `None` stands for the choice whether the bound itself
/// passes.
pub open spec fn control_views(controls: Seq<FilterControl>) -> Seq<Option<(bool, Seq<char>)>> {
    Seq::new(
        controls.len(),
        |i: int|
            match controls[i] {
                FilterControl::Inclusive => None,
                FilterControl::Bound { upper, prefix } => Some((upper, prefix@)),
            },
    )
}

/// The controls of a filter: two bounds for a range, and else the one bound
/// behind the sign of the comparison.
pub open spec fn filter_control_texts(
    supports_inclusive: bool,
    is_range: bool,
    symbol: Seq<char>,
) -> Seq<Option<(bool, Seq<char>)>> {
    (if supports_inclusive {
        seq![None]
    } else {
        Seq::empty()
    }) + (if is_range {
        seq![Some((false, "Min "@)), Some((true, "Max "@))]
    } else {
        seq![Some((false, "x "@ + symbol + " "@))]
    })
}

/// The controls of a filter. `symbol` is the sign of its comparison.
pub fn filter_controls(supports_inclusive: bool, is_range: bool, symbol: &str) -> (r: Vec<
    FilterControl,
>)
    ensures
        control_views(r@) == filter_control_texts(supports_inclusive, is_range, symbol@),
{
    let mut controls: Vec<FilterControl> = Vec::new();
    if supports_inclusive {
        controls.push(FilterControl::Inclusive);
    }
    if is_range {
        controls.push(FilterControl::Bound { upper: false, prefix: "Min ".to_owned() });
        controls.push(FilterControl::Bound { upper: true, prefix: "Max ".to_owned() });
    } else {
        let mut prefix = "x ".to_owned();
        prefix.append(symbol);
        prefix.append(" ");
        controls.push(FilterControl::Bound { upper: false, prefix });
    }
    proof {
        assert(control_views(controls@) =~= filter_control_texts(
            supports_inclusive,
            is_range,
            symbol@,
        ));
    }
    controls
}

/// What the inspector says of a range.
pub fn range_note(is_range: bool) -> (r: Option<&'static str>)
    ensures
        r is Some <==> is_range,
        r matches Some(text) ==> text@
            == "Between includes both bounds. Outside Range keeps values strictly outside them."@,
{
    if is_range {
        Some("Between includes both bounds. Outside Range keeps values strictly outside them.")
    } else {
        None
    }
}

/// What the inspector says is wrong with a node, under a heading: the messages
/// of its evaluation, and then what is wrong with its own settings. Without any
/// there is no heading.
pub open spec fn diagnostic_texts(
    messages: Seq<Seq<char>>,
    validation: Option<Seq<char>>,
) -> Option<(Seq<char>, Seq<Seq<char>>)> {
    let all = match validation {
        Some(message) => messages.push(message),
        None => messages,
    };
    if all.len() == 0 {
        None
    } else {
        Some(("DIAGNOSTICS"@, all))
    }
}

/// What the inspector says is wrong with a node.
pub fn diagnostic_section(messages: Vec<String>, validation: Option<String>) -> (r: Option<
    (&'static str, Vec<String>),
>)
    ensures
        diagnostic_texts(views(messages@), optional_text(validation)) == match r {
            Some((heading, lines)) => Some((heading@, views(lines@))),
            None => None,
        },
{
    let ghost before = messages@;
    let mut lines = messages;
    if let Some(message) = validation {
        lines.push(message);
        proof {
            assert(views(lines@) =~= views(before).push(message@));
        }
    }
    if lines.len() == 0 {
        None
    } else {
        Some(("DIAGNOSTICS", lines))
    }
}

} // verus!
