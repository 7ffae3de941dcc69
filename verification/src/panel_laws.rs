//! What the panels around the plots show.

use crate::diagnostics::{
    deduplicated, passes, passing, record_origin, record_origins, search_hits, DiagRecord, Severity,
};
use crate::fuzzy::{lowercase, stands_at};
use crate::generate_markers::{markers_of, rows_of, RowView, ValueGroup};
use crate::hover::{delta_texts, difference, meta_of, readout_rows, Sample, TraceDelta};
use crate::image_export::{clamped_rect, flat_channels};
use crate::layout_doc::TraceRef;
use crate::legend::{
    filter_edits, filters_after, has_trace, is_trace_of, label_of, removed_field, traces_after,
    LegendEdit,
};
use crate::search_laws::sorted_texts_ascend;
use crate::snapshot::{column_index, source_index, topic_index, FieldId, SourceInfo, StoreSnapshot};
use crate::text::{
    decimal, decimal_int, sorted_texts, text_le, text_le_antisymmetric, text_le_transitive, trimmed,
};
use vstd::prelude::*;

verus! {

/// A record passes a filter by severity where it is at least that grave.
pub proof fn grave_records_pass(
    snapshot: StoreSnapshot,
    record: DiagRecord,
    least: Severity,
    origin: Seq<char>,
    search: Seq<char>,
)
    requires
        passes(snapshot, record, least, origin, search),
    ensures
        least is Error ==> record.diag.severity is Error,
        least is Warning ==> !(record.diag.severity is Info),
        origin.len() > 0 ==> record_origin(snapshot, record) == origin,
{
}

/// Without further filters, all records pass that are at least as grave as asked
/// for.
pub proof fn other_records_are_not_held_back(
    snapshot: StoreSnapshot,
    record: DiagRecord,
    least: Severity,
    search: Seq<char>,
)
    requires
        lowercase(trimmed(search)).len() == 0,
        least is Info || record.diag.severity is Error || record.diag.severity == least,
    ensures
        passes(snapshot, record, least, Seq::empty(), search),
        passes(snapshot, record, least, record_origin(snapshot, record), search),
{
}

/// A search finds a record by its message, its code, its source, its origin, its
/// time or its place in the file, and by nothing else.
pub proof fn records_are_searched_by_their_texts(
    record: DiagRecord,
    source: Seq<char>,
    origin: Seq<char>,
    needle: Seq<char>,
    i: int,
)
    ensures
        stands_at(lowercase(record.diag.message@), needle, i) ==> search_hits(
            record,
            source,
            origin,
            needle,
        ),
        stands_at(lowercase(record.diag.code@), needle, i) ==> search_hits(
            record,
            source,
            origin,
            needle,
        ),
        stands_at(lowercase(source), needle, i) ==> search_hits(record, source, origin, needle),
        stands_at(lowercase(origin), needle, i) ==> search_hits(record, source, origin, needle),
        record.diag.time_us matches Some(time) ==> (stands_at(decimal_int(time as int), needle, i)
            ==> search_hits(record, source, origin, needle)),
        record.diag.byte_offset matches Some(byte) ==> (stands_at(decimal(byte as nat), needle, i)
            ==> search_hits(record, source, origin, needle)),
        search_hits(record, source, origin, needle) ==> exists|k: int| #[trigger]
            found_at(record, source, origin, needle, k),
{
    if search_hits(record, source, origin, needle) {
        let message = lowercase(record.diag.message@);
        let code = lowercase(record.diag.code@);
        let k = if exists|k: int| stands_at(message, needle, k) {
            choose|k: int| stands_at(message, needle, k)
        } else if exists|k: int| stands_at(code, needle, k) {
            choose|k: int| stands_at(code, needle, k)
        } else if exists|k: int| stands_at(lowercase(source), needle, k) {
            choose|k: int| stands_at(lowercase(source), needle, k)
        } else if exists|k: int| stands_at(lowercase(origin), needle, k) {
            choose|k: int| stands_at(lowercase(origin), needle, k)
        } else if record.diag.time_us is Some && exists|k: int|
            stands_at(decimal_int(record.diag.time_us.unwrap() as int), needle, k) {
            choose|k: int| stands_at(decimal_int(record.diag.time_us.unwrap() as int), needle, k)
        } else {
            choose|k: int| stands_at(decimal(record.diag.byte_offset.unwrap() as nat), needle, k)
        };
        assert(found_at(record, source, origin, needle, k));
    }
}

/// Whether a search text stands at index `k` in one of the texts of a record.
pub open spec fn found_at(
    record: DiagRecord,
    source: Seq<char>,
    origin: Seq<char>,
    needle: Seq<char>,
    k: int,
) -> bool {
    ||| stands_at(lowercase(record.diag.message@), needle, k)
    ||| stands_at(lowercase(record.diag.code@), needle, k)
    ||| stands_at(lowercase(source), needle, k)
    ||| stands_at(lowercase(origin), needle, k)
    ||| record.diag.time_us matches Some(time) && stands_at(decimal_int(time as int), needle, k)
    ||| record.diag.byte_offset matches Some(byte) && stands_at(decimal(byte as nat), needle, k)
}

/// The records that pass are listed, each once and in their order.
pub proof fn passing_records_are_listed_in_order(
    snapshot: StoreSnapshot,
    records: Seq<DiagRecord>,
    least: Severity,
    origin: Seq<char>,
    search: Seq<char>,
    n: nat,
    i: int,
)
    requires
        n <= records.len(),
    ensures
        ({
            let listed = passing(snapshot, records, least, origin, search, n);
            &&& listed.contains(i) <==> 0 <= i < n && passes(
                snapshot,
                records[i],
                least,
                origin,
                search,
            )
            &&& forall|a: int, b: int|
                0 <= a < b < listed.len() ==> #[trigger] listed[a] < #[trigger] listed[b]
            &&& forall|a: int| 0 <= a < listed.len() ==> 0 <= #[trigger] listed[a] < n
        }),
    decreases n,
{
    if n > 0 {
        passing_records_are_listed_in_order(
            snapshot,
            records,
            least,
            origin,
            search,
            (n - 1) as nat,
            i,
        );
        let rest = passing(snapshot, records, least, origin, search, (n - 1) as nat);
        let all = passing(snapshot, records, least, origin, search, n);
        if rest.contains(i) {
            assert(all[rest.index_of(i)] == i);
        }
        if all.len() > rest.len() {
            assert(all[all.len() - 1] == n - 1);
        }
    }
}

proof fn lemma_source_at(sources: Seq<SourceInfo>, s: int, from: int)
    requires
        0 <= from <= s < sources.len(),
        forall|k: int| from <= k < s ==> (#[trigger] sources[k]).id != sources[s].id,
    ensures
        source_index(sources, sources[s].id, from) == Some(s),
    decreases s - from,
{
    if from < s {
        lemma_source_at(sources, s, from + 1);
    }
}

/// The origin of a record is the label of its source, and its code where it has
/// none.
pub proof fn origins_are_sources_or_codes(
    snapshot: StoreSnapshot,
    record: DiagRecord,
    s: int,
)
    requires
        0 <= s < snapshot.sources@.len(),
        forall|k: int|
            0 <= k < s ==> (#[trigger] snapshot.sources@[k]).id != snapshot.sources@[s].id,
    ensures
        record.diag.source == Some(snapshot.sources@[s].id) && snapshot.sources@[s].label@ != "-"@
            ==> record_origin(snapshot, record) == snapshot.sources@[s].label@,
        record.diag.source is None ==> record_origin(snapshot, record) == record.diag.code@,
{
    lemma_source_at(snapshot.sources@, s, 0);
}

proof fn lemma_deduplicated(texts: Seq<Seq<char>>, text: Seq<char>)
    requires
        forall|a: int, b: int| 0 <= a < b < texts.len() ==> text_le(texts[a], texts[b]),
    ensures
        ({
            let list = deduplicated(texts);
            &&& list.contains(text) <==> texts.contains(text)
            &&& texts.len() > 0 ==> list.len() > 0 && list.last() == texts.last()
            &&& forall|a: int, b: int|
                0 <= a < b < list.len() ==> text_le(list[a], list[b]) && list[a] != list[b]
        }),
    decreases texts.len(),
{
    if texts.len() > 0 {
        let short = texts.drop_last();
        let last = texts.last();
        assert forall|a: int, b: int| 0 <= a < b < short.len() implies text_le(
            short[a],
            short[b],
        ) by {
            assert(text_le(texts[a], texts[b]));
        }
        lemma_deduplicated(short, text);
        let rest = deduplicated(short);
        let list = deduplicated(texts);
        assert(texts[texts.len() - 1] == last);
        if short.contains(text) {
            assert(texts[short.index_of(text)] == text);
        }
        if texts.contains(text) && text != last {
            let i = texts.index_of(text);
            assert(short[i] == text);
        }
        if rest.contains(text) {
            assert(list[rest.index_of(text)] == text);
        }
        assert(list[list.len() - 1] == last);
        if list.contains(text) && !rest.contains(text) {
            assert(text == last);
        }
        assert forall|a: int, b: int| 0 <= a < b < list.len() implies text_le(list[a], list[b])
            && list[a] != list[b] by {
            if list.len() == rest.len() {
                assert(list[a] == rest[a] && list[b] == rest[b]);
            } else {
                assert(list[a] == rest[a]);
                if b < rest.len() {
                    assert(list[b] == rest[b]);
                } else {
                    assert(list[b] == last);
                    assert(rest.last() == short.last());
                    assert(rest.last() != last);
                    assert(text_le(texts[texts.len() - 2], texts[texts.len() - 1]));
                    assert(text_le(rest.last(), last));
                    if a < rest.len() - 1 {
                        let z = rest.len() - 1;
                        assert(0 <= a < z < rest.len());
                        assert(text_le(rest[a], rest[z]));
                        assert(rest[a] != rest[z]);
                        text_le_transitive(rest[a], rest.last(), last);
                        if rest[a] == last {
                            text_le_antisymmetric(rest.last(), last);
                        }
                    }
                }
            }
        }
    }
}

/// The list of origins holds each origin once, ascending.
pub proof fn origins_are_listed_once(
    snapshot: StoreSnapshot,
    records: Seq<DiagRecord>,
    text: Seq<char>,
)
    ensures
        ({
            let list = deduplicated(sorted_texts(record_origins(snapshot, records)));
            &&& list.contains(text) <==> exists|i: int|
                0 <= i < records.len() && record_origin(snapshot, #[trigger] records[i]) == text
            &&& forall|a: int, b: int|
                0 <= a < b < list.len() ==> text_le(list[a], list[b]) && list[a] != list[b]
        }),
{
    let all = record_origins(snapshot, records);
    let sorted = sorted_texts(all);
    sorted_texts_ascend(all, text, 0, 0);
    assert forall|a: int, b: int| 0 <= a < b < sorted.len() implies text_le(
        sorted[a],
        sorted[b],
    ) by {
        sorted_texts_ascend(all, text, a, b);
    }
    lemma_deduplicated(sorted, text);
    if all.contains(text) {
        let i = all.index_of(text);
        assert(record_origin(snapshot, records[i]) == text);
    }
    if exists|i: int| 0 <= i < records.len() && record_origin(snapshot, #[trigger] records[i])
        == text {
        let i = choose|i: int|
            0 <= i < records.len() && record_origin(snapshot, #[trigger] records[i]) == text;
        assert(all[i] == text);
    }
}

/// A marker is made at each change of each value that is included, under the name
/// and in the colour of that value, and nowhere else.
pub proof fn markers_stand_at_the_changes(
    rows: Seq<RowView>,
    n: nat,
    time: i64,
    name: Seq<char>,
    color: [u32; 4],
)
    requires
        n <= rows.len(),
    ensures
        markers_of(rows, n).contains((time, name, color)) <==> exists|i: int|
            0 <= i < n && (#[trigger] rows[i]).include_row && rows[i].transitions.contains(time)
                && rows[i].name == name && rows[i].color == color,
    decreases n,
{
    if n > 0 {
        markers_stand_at_the_changes(rows, (n - 1) as nat, time, name, color);
        let rest = markers_of(rows, (n - 1) as nat);
        let all = markers_of(rows, n);
        let row = rows[n - 1];
        let marker = (time, name, color);
        if rest.contains(marker) {
            assert(all[rest.index_of(marker)] == marker);
        }
        if row.include_row && row.transitions.contains(time) && row.name == name && row.color
            == color {
            let k = row.transitions.index_of(time);
            assert(all[rest.len() + k] == marker);
        }
        if all.contains(marker) && !rest.contains(marker) {
            let k = all.index_of(marker);
            if k < rest.len() {
                assert(rest[k] == marker);
            }
            assert(row.transitions[k - rest.len()] == time);
        }
    }
}

/// Each value gets a row with its own changes and colour, which is included.
pub proof fn values_get_their_rows(groups: Seq<ValueGroup>, colors: Seq<[u32; 4]>, i: int)
    requires
        0 <= i < groups.len(),
        groups.len() == colors.len(),
    ensures
        rows_of(groups, colors).len() == groups.len(),
        rows_of(groups, colors)[i].include_row,
        rows_of(groups, colors)[i].label == groups[i].value_label@,
        rows_of(groups, colors)[i].transitions == groups[i].transitions@,
        rows_of(groups, colors)[i].color == colors[i],
        rows_of(groups, colors)[i].name.len() >= groups[i].value_label@.len(),
{
}

/// How many of the first `n` traces have a line in the readout.
pub open spec fn read_before(
    traces: Seq<TraceRef>,
    samples: Seq<Option<Sample>>,
    n: int,
) -> nat
    decreases n,
{
    if n <= 0 {
        0
    } else {
        read_before(traces, samples, n - 1) + if traces[n - 1].visible && samples[n - 1] is Some {
            1nat
        } else {
            0nat
        }
    }
}

/// The readout has a line for each visible trace that has a sample, with its own
/// field, colour and value, in the order of the traces.
pub proof fn visible_traces_are_read_out(
    snapshot: StoreSnapshot,
    traces: Seq<TraceRef>,
    samples: Seq<Option<Sample>>,
    n: nat,
)
    requires
        n <= traces.len(),
        traces.len() == samples.len(),
    ensures
        readout_rows(snapshot, traces, samples, n).len() == read_before(
            traces,
            samples,
            n as int,
        ),
        forall|i: int|
            #![trigger traces[i]]
            0 <= i < n && traces[i].visible && samples[i] is Some ==> {
                let at = read_before(traces, samples, i) as int;
                let row = readout_rows(snapshot, traces, samples, n)[at];
                &&& at < readout_rows(snapshot, traces, samples, n).len()
                &&& row.field == traces[i].field
                &&& row.color == traces[i].color
                &&& row.label == label_of(snapshot, traces[i].field)
                &&& row.value == samples[i].unwrap().value
                &&& row.effective_time_us == samples[i].unwrap().effective_time_us
                &&& (row.multiplier, row.unit) == meta_of(snapshot, traces[i].field)
            },
    decreases n,
{
    if n > 0 {
        visible_traces_are_read_out(snapshot, traces, samples, (n - 1) as nat);
    }
}

/// A trace is labelled with the names of its topic and its field.
pub proof fn traces_are_labelled_by_name(snapshot: StoreSnapshot, n: u32, t: int)
    requires
        n < snapshot.fields@.len(),
        snapshot.fields@[n as int].id == FieldId(n),
        topic_index(snapshot.topics@, snapshot.fields@[n as int].topic, 0) == Some(t),
    ensures
        label_of(snapshot, FieldId(n)) == snapshot.topics@[t].name@ + "."@
            + snapshot.fields@[n as int].name@,
{
}

/// A trace is read with the unit and the multiplier of its own column.
pub proof fn values_have_the_unit_of_their_column(
    snapshot: StoreSnapshot,
    n: u32,
    t: int,
    c: int,
)
    requires
        n < snapshot.fields@.len(),
        snapshot.fields@[n as int].id == FieldId(n),
        topic_index(snapshot.topics@, snapshot.fields@[n as int].topic, 0) == Some(t),
        snapshot.topics@[t].data matches Some(data) && column_index(
            data.columns@,
            snapshot.fields@[n as int].name@,
            0,
        ) == Some(c),
    ensures
        ({
            let column = snapshot.topics@[t].data.unwrap().columns@[c];
            &&& meta_of(snapshot, FieldId(n)).0 == column.multiplier
            &&& column.unit matches Some(unit) ==> meta_of(snapshot, FieldId(n)).1 == Some(unit@)
            &&& column.unit is None ==> meta_of(snapshot, FieldId(n)).1 is None
        }),
{
}

/// A difference has a plus sign where it is positive, and its unit behind it
/// where it has one.
pub proof fn differences_tell_sign_and_unit(
    positive: bool,
    body: Seq<char>,
    unit: Seq<char>,
)
    requires
        body.len() > 0,
        body[0] != '+',
    ensures
        ({
            let bare = difference(Some((positive, body)), None);
            let full = difference(Some((positive, body)), Some(unit));
            &&& bare[0] == '+' <==> positive
            &&& body == if positive {
                bare.skip(1)
            } else {
                bare
            }
            &&& unit.len() == 0 ==> full == bare
            &&& unit.len() > 0 ==> full == bare + " "@ + unit
        }),
{
    reveal_strlit("+");
    let bare = difference(Some((positive, body)), None);
    if positive {
        assert(bare.skip(1) =~= body);
    }
}

/// Each trace whose difference can be told has it told, with its own unit.
pub proof fn differences_are_told_by_field(
    snapshot: StoreSnapshot,
    traces: Seq<TraceRef>,
    deltas: Seq<TraceDelta>,
    n: nat,
    i: int,
)
    requires
        0 <= i < n <= traces.len(),
        traces.len() == deltas.len(),
        forall|a: int, b: int|
            0 <= a < b < traces.len() ==> (#[trigger] traces[a]).field != (
            #[trigger] traces[b]).field,
    ensures
        ({
            let texts = delta_texts(snapshot, traces, deltas, n);
            let field = traces[i].field;
            let unit = meta_of(snapshot, field).1;
            match deltas[i] {
                TraceDelta::Unreadable => !texts.contains_key(field.0),
                TraceDelta::Gap => texts.contains_key(field.0) && texts[field.0] == "n/a"@,
                TraceDelta::Value { positive, body } => texts.contains_key(field.0)
                    && texts[field.0] == difference(Some((positive, body@)), unit),
            }
        }),
    decreases n,
{
    if i < n - 1 {
        differences_are_told_by_field(snapshot, traces, deltas, (n - 1) as nat, i);
        assert(traces[i].field != traces[n - 1].field);
        assert(traces[i].field.0 != traces[n - 1].field.0);
    } else {
        lemma_not_told(snapshot, traces, deltas, (n - 1) as nat, i);
    }
}

proof fn lemma_not_told(
    snapshot: StoreSnapshot,
    traces: Seq<TraceRef>,
    deltas: Seq<TraceDelta>,
    n: nat,
    i: int,
)
    requires
        n <= i < traces.len(),
        traces.len() == deltas.len(),
        forall|a: int, b: int|
            0 <= a < b < traces.len() ==> (#[trigger] traces[a]).field != (
            #[trigger] traces[b]).field,
    ensures
        !delta_texts(snapshot, traces, deltas, n).contains_key(traces[i].field.0),
    decreases n,
{
    if n > 0 {
        lemma_not_told(snapshot, traces, deltas, (n - 1) as nat, i);
        assert(traces[n - 1].field != traces[i].field);
        assert(traces[n - 1].field.0 != traces[i].field.0);
    }
}

/// An edit in the legend changes the trace of its field and no other: what it
/// sets is set, a toggle shows what was hidden and hides what was shown.
pub proof fn legend_edits_change_their_trace(
    traces: Seq<TraceRef>,
    edits: Seq<LegendEdit>,
    n: nat,
    k: int,
)
    requires
        n < edits.len(),
        is_trace_of(traces_after(traces, edits, n), edits[n as int].field, k),
    ensures
        ({
            let before = traces_after(traces, edits, n);
            let now = traces_after(traces, edits, n + 1);
            let edit = edits[n as int];
            &&& now.len() == before.len()
            &&& forall|j: int| 0 <= j < now.len() && j != k ==> #[trigger] now[j] == before[j]
            &&& now[k].field == before[k].field
            &&& now[k].visible == if edit.toggled {
                !before[k].visible
            } else {
                before[k].visible
            }
            &&& edit.color matches Some(color) ==> now[k].color == color
            &&& edit.color is None ==> now[k].color == before[k].color
            &&& edit.width_px matches Some(width) ==> now[k].width_px == width
            &&& edit.width_px is None ==> now[k].width_px == before[k].width_px
            &&& edit.mode matches Some(mode) ==> now[k].mode == mode
            &&& edit.mode is None ==> now[k].mode == before[k].mode
        }),
{
    let before = traces_after(traces, edits, n);
    let field = edits[n as int].field;
    assert(has_trace(before, field));
    let j = choose|j: int| is_trace_of(before, field, j);
    if j < k {
        assert(before[j].field != field);
    } else if k < j {
        assert(before[k].field != field);
    }
}

/// A filter that is not blank is kept for its field, a blank one is dropped, and
/// the filters of other fields stay.
pub proof fn filters_are_kept_by_field(
    filters: Map<u32, String>,
    edits: Seq<(FieldId, String)>,
    n: nat,
    other: u32,
)
    requires
        n < edits.len(),
    ensures
        ({
            let before = filters_after(filters, edits, n);
            let now = filters_after(filters, edits, n + 1);
            let (field, filter) = edits[n as int];
            &&& trimmed(filter@).len() > 0 ==> now.contains_key(field.0) && now[field.0] == filter
            &&& trimmed(filter@).len() == 0 ==> !now.contains_key(field.0)
            &&& other != field.0 ==> now.contains_key(other) == before.contains_key(other)
            &&& other != field.0 && before.contains_key(other) ==> now[other] == before[other]
        }),
{
}

/// The trace that is removed is one whose row asked for it.
pub proof fn removed_traces_were_asked_for(
    traces: Seq<TraceRef>,
    edits: Seq<LegendEdit>,
    n: nat,
)
    requires
        n <= edits.len(),
    ensures
        match removed_field(traces, edits, n) {
            Some(field) => has_trace(traces, field) && exists|i: int|
                0 <= i < n && (#[trigger] edits[i]).removed && edits[i].field == field,
            None => forall|i: int|
                0 <= i < n && (#[trigger] edits[i]).removed ==> !has_trace(
                    traces,
                    edits[i].field,
                ),
        },
    decreases n,
{
    if n > 0 {
        removed_traces_were_asked_for(traces, edits, (n - 1) as nat);
    }
}

/// A filter is handed on for each edit that sets one for a plotted field.
pub proof fn filters_are_handed_on(
    traces: Seq<TraceRef>,
    edits: Seq<LegendEdit>,
    n: nat,
    field: FieldId,
    filter: String,
)
    requires
        n <= edits.len(),
    ensures
        filter_edits(traces, edits, n).contains((field, filter)) <==> has_trace(traces, field)
            && exists|i: int|
            0 <= i < n && (#[trigger] edits[i]).field == field && edits[i].filter == Some(filter),
    decreases n,
{
    if n > 0 {
        filters_are_handed_on(traces, edits, (n - 1) as nat, field, filter);
        let rest = filter_edits(traces, edits, (n - 1) as nat);
        let all = filter_edits(traces, edits, n);
        let wanted = (field, filter);
        if rest.contains(wanted) {
            assert(all[rest.index_of(wanted)] == wanted);
        }
        if all.len() > rest.len() {
            assert(all[all.len() - 1] == (edits[n - 1].field, edits[n - 1].filter.unwrap()));
        }
        if all.contains(wanted) && !rest.contains(wanted) {
            assert(edits[n - 1].field == field && edits[n - 1].filter == Some(filter));
        }
    }
}

/// A screenshot is cut out of exactly the pixels of the image that lie in the
/// rectangle.
pub proof fn screenshots_hold_the_rectangle(
    min: [usize; 2],
    max: [usize; 2],
    size: [usize; 2],
    x: int,
    y: int,
)
    ensures
        ({
            let wanted = min[0] <= x < max[0] && min[1] <= y < max[1] && 0 <= x < size[0] && 0 <= y
                < size[1];
            match clamped_rect(min, max, size) {
                Some(px) => wanted <==> px.x <= x < px.x + px.w && px.y <= y < px.y + px.h,
                None => !wanted,
            }
        }),
{
}

/// The channels of a pixel follow one another, and so do the pixels.
pub proof fn channels_follow_one_another(pixels: Seq<[u8; 4]>, i: int, c: int)
    requires
        0 <= i < pixels.len(),
        0 <= c < 4,
    ensures
        flat_channels(pixels).len() == 4 * pixels.len(),
        flat_channels(pixels)[4 * i + c] == pixels[i][c],
{
    assert((4 * i + c) / 4 == i && (4 * i + c) % 4 == c);
}

} // verus!
