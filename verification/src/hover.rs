//! What the readout of a plot says: the scale and unit of a field, and the
//! lines of the readout.

use crate::graph::{copy_optional, optional_text};
use crate::layout_doc::TraceRef;
use crate::legend::{field_place, find_place, label_of, trace_label};
use crate::snapshot::{column_index, find_column, topic_index, FieldId, StoreSnapshot};
use std::collections::HashMap;
use vstd::prelude::*;
use vstd::std_specs::hash::*;

verus! {

broadcast use group_hash_axioms;

/// The bit pattern of the number one.
pub const UNIT_MULTIPLIER: u64 = 0x3ff0_0000_0000_0000;

/// The multiplier of a field, as a bit pattern, and its unit, where its topic
/// has a column of its name.
pub open spec fn meta_of(snapshot: StoreSnapshot, field: FieldId) -> (u64, Option<Seq<char>>) {
    match field_place(snapshot, field) {
        None => (UNIT_MULTIPLIER, None),
        Some(i) => {
            let entry = snapshot.fields@[i];
            match topic_index(snapshot.topics@, entry.topic, 0) {
                None => (UNIT_MULTIPLIER, None),
                Some(t) => match snapshot.topics@[t].data {
                    None => (UNIT_MULTIPLIER, None),
                    Some(data) => match column_index(data.columns@, entry.name@, 0) {
                        None => (UNIT_MULTIPLIER, None),
                        Some(c) => (
                            data.columns@[c].multiplier,
                            optional_text(data.columns@[c].unit),
                        ),
                    },
                },
            }
        },
    }
}

/// The multiplier of a field, as a bit pattern, and its unit.
pub fn field_meta(snapshot: &StoreSnapshot, field: FieldId) -> (r: (u64, Option<String>))
    ensures
        (r.0, optional_text(r.1)) == meta_of(*snapshot, field),
{
    let at = match find_place(snapshot, field) {
        Some(at) => at,
        None => {
            return (UNIT_MULTIPLIER, None);
        },
    };
    let entry = &snapshot.fields[at];
    let t = match snapshot.find_topic(entry.topic) {
        Some(t) => t,
        None => {
            return (UNIT_MULTIPLIER, None);
        },
    };
    match &snapshot.topics[t].data {
        None => (UNIT_MULTIPLIER, None),
        Some(data) => match find_column(&data.columns, entry.name.as_str()) {
            None => (UNIT_MULTIPLIER, None),
            Some(c) => (data.columns[c].multiplier, copy_optional(&data.columns[c].unit)),
        },
    }
}

/// A line of the readout: the value of a trace and its unit, with the label of
/// the trace in front where names are shown.
pub open spec fn readout(
    label: Seq<char>,
    value: Seq<char>,
    unit: Option<Seq<char>>,
    named: bool,
) -> Seq<char> {
    let reading = value + " "@ + match unit {
        Some(unit) => unit,
        None => ""@,
    };
    if named {
        label + ": "@ + reading
    } else {
        reading
    }
}

/// A line of the readout.
pub fn readout_line(label: &str, value: &str, unit: &Option<String>, named: bool) -> (r: String)
    ensures
        r@ == readout(label@, value@, optional_text(*unit), named),
{
    let mut line = String::new();
    if named {
        line.append(label);
        line.append(": ");
    }
    line.append(value);
    line.append(" ");
    if let Some(unit) = unit {
        line.append(unit.as_str());
    }
    proof {
        reveal_strlit("");
        assert(line@ =~= readout(label@, value@, optional_text(*unit), named));
    }
    line
}

/// The difference between two cursors: a value in text, with a plus sign where
/// it is positive, and its unit. `None` stands for a gap at either.
pub open spec fn difference(value: Option<(bool, Seq<char>)>, unit: Option<Seq<char>>) -> Seq<
    char,
> {
    match value {
        None => "n/a"@,
        Some((positive, body)) => {
            let signed = if positive {
                "+"@ + body
            } else {
                body
            };
            match unit {
                Some(unit) => if unit.len() > 0 {
                    signed + " "@ + unit
                } else {
                    signed
                },
                None => signed,
            }
        },
    }
}

/// The difference between two cursors in text.
pub fn delta_text(value: Option<(bool, String)>, unit: &Option<String>) -> (r: String)
    ensures
        r@ == difference(
            match value {
                Some((positive, body)) => Some((positive, body@)),
                None => None,
            },
            optional_text(*unit),
        ),
{
    let (positive, body) = match value {
        Some((positive, body)) => (positive, body),
        None => {
            return "n/a".to_owned();
        },
    };
    let mut text = if positive {
        let mut signed = "+".to_owned();
        signed.append(body.as_str());
        signed
    } else {
        body
    };
    if let Some(unit) = unit {
        if unit.as_str().unicode_len() > 0 {
            text.append(" ");
            text.append(unit.as_str());
        }
    }
    text
}

/// A sample of a field: its value, as a bit pattern, and its time.
#[derive(Clone, Copy, Debug, PartialEq, Eq, Structural)]
pub struct Sample {
    pub value: u64,
    pub effective_time_us: i64,
}

/// A trace in the readout. Its value is still to be scaled.
pub struct Row {
    pub field: FieldId,
    pub label: String,
    pub value: u64,
    pub multiplier: u64,
    pub unit: Option<String>,
    pub color: [u32; 4],
    pub effective_time_us: i64,
}

#[verifier::ext_equal]
pub ghost struct RowView {
    pub field: FieldId,
    pub label: Seq<char>,
    pub value: u64,
    pub multiplier: u64,
    pub unit: Option<Seq<char>>,
    pub color: [u32; 4],
    pub effective_time_us: i64,
}

impl View for Row {
    type V = RowView;

    open spec fn view(&self) -> RowView {
        RowView {
            field: self.field,
            label: self.label@,
            value: self.value,
            multiplier: self.multiplier,
            unit: optional_text(self.unit),
            color: self.color,
            effective_time_us: self.effective_time_us,
        }
    }
}

pub open spec fn row_views(rows: Seq<Row>) -> Seq<RowView> {
    Seq::new(rows.len(), |i: int| rows[i]@)
}

/// The row of a trace at a sample.
pub open spec fn row_of(snapshot: StoreSnapshot, trace: TraceRef, sample: Sample) -> RowView {
    let (multiplier, unit) = meta_of(snapshot, trace.field);
    RowView {
        field: trace.field,
        label: label_of(snapshot, trace.field),
        value: sample.value,
        multiplier,
        unit,
        color: trace.color,
        effective_time_us: sample.effective_time_us,
    }
}

/// The rows of the first `n` traces: of those that are visible and have a
/// sample.
pub open spec fn readout_rows(
    snapshot: StoreSnapshot,
    traces: Seq<TraceRef>,
    samples: Seq<Option<Sample>>,
    n: nat,
) -> Seq<RowView>
    decreases n,
{
    if n == 0 {
        Seq::empty()
    } else {
        let rest = readout_rows(snapshot, traces, samples, (n - 1) as nat);
        match samples[n - 1] {
            Some(sample) => if traces[n - 1].visible {
                rest.push(row_of(snapshot, traces[n - 1], sample))
            } else {
                rest
            },
            None => rest,
        }
    }
}

/// The rows of the readout; `samples` holds the sample of each trace.
pub fn sampled_rows(
    snapshot: &StoreSnapshot,
    traces: &Vec<TraceRef>,
    samples: &Vec<Option<Sample>>,
) -> (r: Vec<Row>)
    requires
        samples@.len() == traces@.len(),
    ensures
        row_views(r@) == readout_rows(*snapshot, traces@, samples@, traces@.len()),
{
    let mut rows: Vec<Row> = Vec::new();
    let mut i: usize = 0;
    proof {
        assert(row_views(rows@) =~= Seq::<RowView>::empty());
    }
    while i < traces.len()
        invariant
            i <= traces@.len() == samples@.len(),
            row_views(rows@) == readout_rows(*snapshot, traces@, samples@, i as nat),
        decreases traces@.len() - i,
    {
        if let Some(sample) = samples[i] {
            if traces[i].visible {
                let (multiplier, unit) = field_meta(snapshot, traces[i].field);
                let row = Row {
                    field: traces[i].field,
                    label: trace_label(snapshot, traces[i].field),
                    value: sample.value,
                    multiplier,
                    unit,
                    color: traces[i].color,
                    effective_time_us: sample.effective_time_us,
                };
                let ghost before = rows@;
                rows.push(row);
                proof {
                    assert(row_views(rows@) =~= row_views(before).push(row@));
                }
            }
        }
        i = i + 1;
    }
    rows
}

/// How much a trace differs between the marker and the playhead: its value in
/// text, and whether it is positive.
pub enum TraceDelta {
    /// The field cannot be read.
    Unreadable,
    /// There is no value at the marker or at the playhead.
    Gap,
    Value { positive: bool, body: String },
}

/// The texts of the differences of the first `n` traces, by field.
pub open spec fn delta_texts(
    snapshot: StoreSnapshot,
    traces: Seq<TraceRef>,
    deltas: Seq<TraceDelta>,
    n: nat,
) -> Map<u32, Seq<char>>
    decreases n,
{
    if n == 0 {
        Map::empty()
    } else {
        let rest = delta_texts(snapshot, traces, deltas, (n - 1) as nat);
        let field = traces[n - 1].field;
        let unit = meta_of(snapshot, field).1;
        match deltas[n - 1] {
            TraceDelta::Unreadable => rest,
            TraceDelta::Gap => rest.insert(field.0, difference(None, unit)),
            TraceDelta::Value { positive, body } => rest.insert(
                field.0,
                difference(Some((positive, body@)), unit),
            ),
        }
    }
}

/// What the legend says of the differences between the marker and the playhead,
/// by field; `deltas` holds the difference of each trace.
pub fn marker_deltas(
    snapshot: &StoreSnapshot,
    traces: &Vec<TraceRef>,
    deltas: &Vec<TraceDelta>,
) -> (r: HashMap<u32, String>)
    requires
        deltas@.len() == traces@.len(),
    ensures
        ({
            let texts = delta_texts(*snapshot, traces@, deltas@, traces@.len());
            &&& r@.dom() == texts.dom()
            &&& forall|field: u32| #[trigger]
                r@.dom().contains(field) ==> r@[field]@ == texts[field]
        }),
{
    let mut texts: HashMap<u32, String> = HashMap::new();
    let mut i: usize = 0;
    while i < traces.len()
        invariant
            i <= traces@.len() == deltas@.len(),
            texts@.dom() == delta_texts(*snapshot, traces@, deltas@, i as nat).dom(),
            forall|field: u32| #[trigger]
                texts@.dom().contains(field) ==> texts@[field]@ == delta_texts(
                    *snapshot,
                    traces@,
                    deltas@,
                    i as nat,
                )[field],
        decreases traces@.len() - i,
    {
        let field = traces[i].field;
        let value = match &deltas[i] {
            TraceDelta::Unreadable => {
                i = i + 1;
                continue;
            },
            TraceDelta::Gap => None,
            TraceDelta::Value { positive, body } => Some((*positive, body.clone())),
        };
        let (_, unit) = field_meta(snapshot, field);
        texts.insert(field.0, delta_text(value, &unit));
        i = i + 1;
    }
    texts
}

} // verus!
