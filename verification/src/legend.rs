//! The legend of a plot: the labels of its traces, the filters of texts, and
//! what its controls do to the traces.

use crate::gpu::TraceMode;
use crate::layout_doc::{GhostTrace, TraceRef};
use crate::snapshot::{topic_index, FieldId, StoreSnapshot};
use crate::text::{decimal, push_decimal, trim, trimmed};
use std::collections::HashMap;
use vstd::prelude::*;
use vstd::std_specs::hash::*;

verus! {

broadcast use group_hash_axioms;

/// The corner of the plot in which the legend is.
#[derive(Clone, Copy, Debug, PartialEq, Eq, Structural)]
pub enum LegendPosition {
    TopLeft,
    TopRight,
    BottomLeft,
    BottomRight,
}

/// Whether the legend is at the right, and whether it is at the bottom.
pub fn legend_anchor(position: LegendPosition) -> (r: (bool, bool))
    ensures
        r.0 == (position == LegendPosition::TopRight || position == LegendPosition::BottomRight),
        r.1 == (position == LegendPosition::BottomLeft || position == LegendPosition::BottomRight),
{
    match position {
        LegendPosition::TopLeft => (false, false),
        LegendPosition::TopRight => (true, false),
        LegendPosition::BottomLeft => (false, true),
        LegendPosition::BottomRight => (true, true),
    }
}

/// Whether the legend is shown at all.
pub fn shows_legend(labels: usize, ghosts: usize) -> (r: bool)
    ensures
        r == (labels > 0 || ghosts > 0),
{
    labels > 0 || ghosts > 0
}

/// Where a field stands in a snapshot: at the place that its id gives.
pub open spec fn field_place(snapshot: StoreSnapshot, field: FieldId) -> Option<int> {
    if field.0 < snapshot.fields@.len() && snapshot.fields@[field.0 as int].id == field {
        Some(field.0 as int)
    } else {
        None
    }
}

/// Where a field stands in a snapshot: at the place that its id gives.
pub fn find_place(snapshot: &StoreSnapshot, field: FieldId) -> (r: Option<usize>)
    ensures
        field_place(*snapshot, field) == match r {
            Some(i) => Some(i as int),
            None => None,
        },
        r matches Some(i) ==> i < snapshot.fields@.len(),
{
    let i: usize = field.0 as usize;
    if i < snapshot.fields.len() && snapshot.fields[i].id == field {
        Some(i)
    } else {
        None
    }
}

/// The label of a trace: topic and field, the field alone where its topic is
/// gone, and its number where it is gone itself.
pub open spec fn label_of(snapshot: StoreSnapshot, field: FieldId) -> Seq<char> {
    match field_place(snapshot, field) {
        None => "field "@ + decimal(field.0 as nat),
        Some(i) => {
            let entry = snapshot.fields@[i];
            match topic_index(snapshot.topics@, entry.topic, 0) {
                Some(t) => snapshot.topics@[t].name@ + "."@ + entry.name@,
                None => entry.name@,
            }
        },
    }
}

/// The label of a trace.
pub fn trace_label(snapshot: &StoreSnapshot, field: FieldId) -> (r: String)
    ensures
        r@ == label_of(*snapshot, field),
{
    let at = match find_place(snapshot, field) {
        Some(at) => at,
        None => {
            let mut label = "field ".to_owned();
            push_decimal(&mut label, field.0 as u64);
            return label;
        },
    };
    let entry = &snapshot.fields[at];
    match snapshot.find_topic(entry.topic) {
        Some(t) => {
            let mut label = snapshot.topics[t].name.clone();
            label.append(".");
            label.append(entry.name.as_str());
            label
        },
        None => entry.name.clone(),
    }
}

/// The label of a trace whose field is not there.
pub fn ghost_label(ghost: &GhostTrace) -> (r: String)
    ensures
        r@ == ghost.topic@ + "."@ + ghost.field@ + " (missing)"@,
{
    let mut label = ghost.topic.clone();
    label.append(".");
    label.append(ghost.field.as_str());
    label.append(" (missing)");
    label
}

/// The filters after the first `n` edits. A blank filter is none.
pub open spec fn filters_after(
    filters: Map<u32, String>,
    edits: Seq<(FieldId, String)>,
    n: nat,
) -> Map<u32, String>
    decreases n,
{
    if n == 0 {
        filters
    } else {
        let rest = filters_after(filters, edits, (n - 1) as nat);
        let (field, filter) = edits[n - 1];
        if trimmed(filter@).len() == 0 {
            rest.remove(field.0)
        } else {
            rest.insert(field.0, filter)
        }
    }
}

/// Takes over edits of filters of texts. A blank filter is none.
pub fn apply_filter_edits(filters: &mut HashMap<u32, String>, edits: &Vec<(FieldId, String)>)
    ensures
        final(filters)@ == filters_after(old(filters)@, edits@, edits@.len()),
{
    let mut i: usize = 0;
    while i < edits.len()
        invariant
            i <= edits@.len(),
            filters@ == filters_after(old(filters)@, edits@, i as nat),
        decreases edits@.len() - i,
    {
        let key: u32 = edits[i].0.0;
        if trim(edits[i].1.as_str()).as_str().unicode_len() == 0 {
            filters.remove(&key);
        } else {
            filters.insert(key, edits[i].1.clone());
        }
        i = i + 1;
    }
}

/// What was done in the row of a field.
pub struct LegendEdit {
    pub field: FieldId,
    pub color: Option<[u32; 4]>,
    /// The label was clicked.
    pub toggled: bool,
    pub mode: Option<TraceMode>,
    pub width_px: Option<u32>,
    pub filter: Option<String>,
    pub removed: bool,
}

/// The first trace of a field.
pub open spec fn is_trace_of(traces: Seq<TraceRef>, field: FieldId, k: int) -> bool {
    &&& 0 <= k < traces.len()
    &&& traces[k].field == field
    &&& forall|j: int| 0 <= j < k ==> (#[trigger] traces[j]).field != field
}

/// Whether a field is plotted.
pub open spec fn has_trace(traces: Seq<TraceRef>, field: FieldId) -> bool {
    exists|k: int| is_trace_of(traces, field, k)
}

/// A trace after an edit.
pub open spec fn edited_trace(trace: TraceRef, edit: LegendEdit) -> TraceRef {
    TraceRef {
        field: trace.field,
        color: match edit.color {
            Some(color) => color,
            None => trace.color,
        },
        width_px: match edit.width_px {
            Some(width_px) => width_px,
            None => trace.width_px,
        },
        mode: match edit.mode {
            Some(mode) => mode,
            None => trace.mode,
        },
        visible: trace.visible != edit.toggled,
    }
}

/// The traces after the first `n` edits. A row without a trace does nothing.
pub open spec fn traces_after(traces: Seq<TraceRef>, edits: Seq<LegendEdit>, n: nat) -> Seq<
    TraceRef,
>
    decreases n,
{
    if n == 0 {
        traces
    } else {
        let rest = traces_after(traces, edits, (n - 1) as nat);
        let edit = edits[n - 1];
        if has_trace(rest, edit.field) {
            let k = choose|k: int| is_trace_of(rest, edit.field, k);
            rest.update(k, edited_trace(rest[k], edit))
        } else {
            rest
        }
    }
}

/// The edits of filters among the first `n` edits.
pub open spec fn filter_edits(traces: Seq<TraceRef>, edits: Seq<LegendEdit>, n: nat) -> Seq<
    (FieldId, String),
>
    decreases n,
{
    if n == 0 {
        Seq::empty()
    } else {
        let rest = filter_edits(traces, edits, (n - 1) as nat);
        let edit = edits[n - 1];
        match edit.filter {
            Some(filter) => if has_trace(traces, edit.field) {
                rest.push((edit.field, filter))
            } else {
                rest
            },
            None => rest,
        }
    }
}

/// The last field among the first `n` edits whose trace is to be removed.
pub open spec fn removed_field(traces: Seq<TraceRef>, edits: Seq<LegendEdit>, n: nat) -> Option<
    FieldId,
>
    decreases n,
{
    if n == 0 {
        None
    } else if edits[n - 1].removed && has_trace(traces, edits[n - 1].field) {
        Some(edits[n - 1].field)
    } else {
        removed_field(traces, edits, (n - 1) as nat)
    }
}

/// The legend changes how traces are drawn, never which fields they draw.
pub proof fn legends_keep_the_fields(traces: Seq<TraceRef>, edits: Seq<LegendEdit>, n: nat)
    requires
        n <= edits.len(),
    ensures
        traces_after(traces, edits, n).len() == traces.len(),
        forall|k: int|
            0 <= k < traces.len() ==> (#[trigger] traces_after(traces, edits, n)[k]).field
                == traces[k].field,
        forall|field: FieldId|
            has_trace(traces_after(traces, edits, n), field) == has_trace(traces, field),
    decreases n,
{
    if n > 0 {
        legends_keep_the_fields(traces, edits, (n - 1) as nat);
    }
    let now = traces_after(traces, edits, n);
    assert forall|field: FieldId| has_trace(now, field) == has_trace(traces, field) by {
        if has_trace(traces, field) {
            let k = choose|k: int| is_trace_of(traces, field, k);
            assert(is_trace_of(now, field, k));
        }
        if has_trace(now, field) {
            let k = choose|k: int| is_trace_of(now, field, k);
            assert forall|j: int| 0 <= j < k implies (#[trigger] traces[j]).field != field by {
                assert(now[j].field != field);
            }
            assert(is_trace_of(traces, field, k));
        }
    }
}

fn find_trace(traces: &Vec<TraceRef>, field: FieldId) -> (r: Option<usize>)
    ensures
        match r {
            Some(k) => is_trace_of(traces@, field, k as int),
            None => !has_trace(traces@, field),
        },
{
    let mut i: usize = 0;
    while i < traces.len()
        invariant
            i <= traces@.len(),
            forall|j: int| 0 <= j < i ==> (#[trigger] traces@[j]).field != field,
        decreases traces@.len() - i,
    {
        if traces[i].field == field {
            return Some(i);
        }
        i = i + 1;
    }
    None
}

/// Takes over what was done in the legend, and returns the field whose trace is
/// to be removed.
pub fn apply_legend_edits(
    traces: &mut Vec<TraceRef>,
    filters: &mut HashMap<u32, String>,
    edits: &Vec<LegendEdit>,
) -> (r: Option<FieldId>)
    ensures
        final(traces)@ == traces_after(old(traces)@, edits@, edits@.len()),
        ({
            let changed = filter_edits(old(traces)@, edits@, edits@.len());
            final(filters)@ == filters_after(old(filters)@, changed, changed.len())
        }),
        r == removed_field(old(traces)@, edits@, edits@.len()),
{
    let mut removed: Option<FieldId> = None;
    let mut changed: Vec<(FieldId, String)> = Vec::new();
    let mut i: usize = 0;
    while i < edits.len()
        invariant
            i <= edits@.len(),
            traces@ == traces_after(old(traces)@, edits@, i as nat),
            changed@ == filter_edits(old(traces)@, edits@, i as nat),
            removed == removed_field(old(traces)@, edits@, i as nat),
            filters@ == old(filters)@,
        decreases edits@.len() - i,
    {
        let edit = &edits[i];
        proof {
            legends_keep_the_fields(old(traces)@, edits@, i as nat);
        }
        if let Some(k) = find_trace(traces, edit.field) {
            let ghost before = traces@;
            proof {
                assert(is_trace_of(before, edit.field, k as int));
                let chosen = choose|k: int| is_trace_of(before, edit.field, k);
                assert(chosen == k);
            }
            let trace = traces[k];
            traces.set(
                k,
                TraceRef {
                    field: trace.field,
                    color: match edit.color {
                        Some(color) => color,
                        None => trace.color,
                    },
                    width_px: match edit.width_px {
                        Some(width_px) => width_px,
                        None => trace.width_px,
                    },
                    mode: match edit.mode {
                        Some(mode) => mode,
                        None => trace.mode,
                    },
                    visible: trace.visible != edit.toggled,
                },
            );
            if let Some(filter) = &edit.filter {
                changed.push((edit.field, filter.clone()));
            }
            if edit.removed {
                removed = Some(edit.field);
            }
        }
        i = i + 1;
    }
    apply_filter_edits(filters, &changed);
    removed
}

} // verus!
