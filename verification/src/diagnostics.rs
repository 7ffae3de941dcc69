//! The diagnostics dock: which records it lists and how.

use crate::fuzzy::{contains_text, lowercase, text_contains, to_lowercase};
use crate::snapshot::{source_index, SourceId, StoreSnapshot};
use crate::text::{
    decimal, decimal_int, decimal_text, same_text, signed_decimal_text, sort_texts, sorted_texts,
    trim, trimmed, views,
};
use vstd::prelude::*;

verus! {

/// How grave a diagnostic is.
#[derive(Debug, Clone, Copy, PartialEq, Eq, Structural)]
pub enum Severity {
    Info,
    Warning,
    Error,
}

/// Where a severity stands from slight to grave.
pub open spec fn severity_rank(severity: Severity) -> int {
    match severity {
        Severity::Info => 0,
        Severity::Warning => 1,
        Severity::Error => 2,
    }
}

fn rank_of(severity: Severity) -> (r: u8)
    ensures
        r == severity_rank(severity),
{
    match severity {
        Severity::Info => 0,
        Severity::Warning => 1,
        Severity::Error => 2,
    }
}

/// A diagnostic.
pub struct Diag {
    pub severity: Severity,
    pub code: String,
    pub message: String,
    pub source: Option<SourceId>,
    pub time_us: Option<i64>,
    pub byte_offset: Option<u64>,
}

/// A diagnostic that has come `count` times.
pub struct DiagRecord {
    pub seq: u64,
    pub diag: Diag,
    pub count: u64,
}

/// What the dock is set to.
pub struct DiagnosticsDock {
    pub open: bool,
    pub min_severity: Severity,
    pub origin: String,
    pub search: String,
}

impl Default for DiagnosticsDock {
    fn default() -> (r: DiagnosticsDock)
        ensures
            !r.open,
            r.min_severity == Severity::Info,
            r.origin@.len() == 0,
            r.search@.len() == 0,
    {
        DiagnosticsDock {
            open: false,
            min_severity: Severity::Info,
            origin: String::new(),
            search: String::new(),
        }
    }
}

/// What the user asks for in the dock.
#[derive(Debug, Clone, Copy, PartialEq, Eq, Structural)]
pub struct DiagnosticsAction {
    pub clear: bool,
    pub jump_to_time_us: Option<i64>,
}

/// A record that is listed, with its origin.
pub struct DisplayRecord<'a> {
    pub record: &'a DiagRecord,
    pub origin: String,
}

/// The label of a source, `-` for none.
pub open spec fn source_text(snapshot: StoreSnapshot, source: Option<SourceId>) -> Seq<char> {
    match source {
        Some(id) => match source_index(snapshot.sources@, id, 0) {
            Some(i) => snapshot.sources@[i].label@,
            None => "-"@,
        },
        None => "-"@,
    }
}

/// The label of a source, `-` for none.
pub fn source_label(snapshot: &StoreSnapshot, source: Option<SourceId>) -> (r: String)
    ensures
        r@ == source_text(*snapshot, source),
{
    match source {
        Some(id) => match snapshot.find_source(id) {
            Some(i) => snapshot.sources[i].label.clone(),
            None => "-".to_owned(),
        },
        None => "-".to_owned(),
    }
}

/// Where a diagnostic comes from: its source, else its code.
pub open spec fn origin_text(source: Seq<char>, code: Seq<char>) -> Seq<char> {
    if source == "-"@ {
        code
    } else {
        source
    }
}

/// Where a diagnostic comes from: its source, else its code.
pub fn origin_label(source: &str, code: &str) -> (r: String)
    ensures
        r@ == origin_text(source@, code@),
{
    if same_text(source, "-") {
        code.to_owned()
    } else {
        source.to_owned()
    }
}

/// The origin of a record.
pub open spec fn record_origin(snapshot: StoreSnapshot, record: DiagRecord) -> Seq<char> {
    origin_text(source_text(snapshot, record.diag.source), record.diag.code@)
}

/// Whether a lower-case search text stands in one of the texts of a record.
pub open spec fn search_hits(
    record: DiagRecord,
    source: Seq<char>,
    origin: Seq<char>,
    needle: Seq<char>,
) -> bool {
    ||| contains_text(lowercase(record.diag.message@), needle)
    ||| contains_text(lowercase(record.diag.code@), needle)
    ||| contains_text(lowercase(source), needle)
    ||| contains_text(lowercase(origin), needle)
    ||| record.diag.time_us is Some && contains_text(
        decimal_int(record.diag.time_us.unwrap() as int),
        needle,
    )
    ||| record.diag.byte_offset is Some && contains_text(
        decimal(record.diag.byte_offset.unwrap() as nat),
        needle,
    )
}

/// Whether a lower-case search text stands in one of the texts of a record.
pub fn matches_search(record: &DiagRecord, source: &str, origin: &str, needle: &str) -> (r: bool)
    ensures
        r == search_hits(*record, source@, origin@, needle@),
{
    let message = to_lowercase(record.diag.message.as_str());
    let code = to_lowercase(record.diag.code.as_str());
    let source = to_lowercase(source);
    let origin = to_lowercase(origin);
    let in_time = match record.diag.time_us {
        Some(time) => {
            let text = signed_decimal_text(time);
            text_contains(text.as_str(), needle)
        },
        None => false,
    };
    let in_byte = match record.diag.byte_offset {
        Some(byte) => {
            let text = decimal_text(byte);
            text_contains(text.as_str(), needle)
        },
        None => false,
    };
    text_contains(message.as_str(), needle) || text_contains(code.as_str(), needle)
        || text_contains(source.as_str(), needle) || text_contains(origin.as_str(), needle)
        || in_time || in_byte
}

/// Whether a record passes the filters. Filters without text let all pass.
pub open spec fn passes(
    snapshot: StoreSnapshot,
    record: DiagRecord,
    min_severity: Severity,
    origin_filter: Seq<char>,
    search: Seq<char>,
) -> bool {
    let needle = lowercase(trimmed(search));
    let source = source_text(snapshot, record.diag.source);
    let origin = record_origin(snapshot, record);
    &&& severity_rank(record.diag.severity) >= severity_rank(min_severity)
    &&& origin_filter.len() == 0 || origin == origin_filter
    &&& needle.len() == 0 || search_hits(record, source, origin, needle)
}

/// The indices of the first `n` records that pass the filters.
pub open spec fn passing(
    snapshot: StoreSnapshot,
    records: Seq<DiagRecord>,
    min_severity: Severity,
    origin_filter: Seq<char>,
    search: Seq<char>,
    n: nat,
) -> Seq<int>
    decreases n,
{
    if n == 0 {
        Seq::empty()
    } else {
        let rest = passing(
            snapshot,
            records,
            min_severity,
            origin_filter,
            search,
            (n - 1) as nat,
        );
        if passes(snapshot, records[n - 1], min_severity, origin_filter, search) {
            rest.push(n - 1)
        } else {
            rest
        }
    }
}

/// Whether the list shows the records of these indices with their origins.
pub open spec fn shows(
    listed: Seq<DisplayRecord>,
    snapshot: StoreSnapshot,
    records: Seq<DiagRecord>,
    indices: Seq<int>,
) -> bool {
    &&& listed.len() == indices.len()
    &&& forall|i: int|
        0 <= i < listed.len() ==> *(#[trigger] listed[i]).record == records[indices[i]]
            && listed[i].origin@ == record_origin(snapshot, records[indices[i]])
}

/// The records that pass the filters, in order, with their origins.
pub fn filtered_records<'a>(
    records: &'a Vec<DiagRecord>,
    snapshot: &StoreSnapshot,
    min_severity: Severity,
    origin_filter: &str,
    search: &str,
) -> (r: Vec<DisplayRecord<'a>>)
    ensures
        shows(
            r@,
            *snapshot,
            records@,
            passing(
                *snapshot,
                records@,
                min_severity,
                origin_filter@,
                search@,
                records@.len(),
            ),
        ),
{
    let word = trim(search);
    let needle = to_lowercase(word.as_str());
    let mut out: Vec<DisplayRecord<'a>> = Vec::new();
    let mut i: usize = 0;
    while i < records.len()
        invariant
            i <= records@.len(),
            needle@ == lowercase(trimmed(search@)),
            shows(
                out@,
                *snapshot,
                records@,
                passing(
                    *snapshot,
                    records@,
                    min_severity,
                    origin_filter@,
                    search@,
                    i as nat,
                ),
            ),
        decreases records@.len() - i,
    {
        let record = &records[i];
        let source = source_label(snapshot, record.diag.source);
        let origin = origin_label(source.as_str(), record.diag.code.as_str());
        let keep = rank_of(record.diag.severity) >= rank_of(min_severity) && (
        origin_filter.is_empty() || same_text(origin.as_str(), origin_filter)) && (
        needle.as_str().is_empty() || matches_search(
            record,
            source.as_str(),
            origin.as_str(),
            needle.as_str(),
        ));
        if keep {
            out.push(DisplayRecord { record, origin });
        }
        i = i + 1;
    }
    out
}

/// A list without repetitions of neighbours.
pub open spec fn deduplicated(texts: Seq<Seq<char>>) -> Seq<Seq<char>>
    decreases texts.len(),
{
    if texts.len() == 0 {
        Seq::empty()
    } else {
        let rest = deduplicated(texts.drop_last());
        if rest.len() > 0 && rest.last() == texts.last() {
            rest
        } else {
            rest.push(texts.last())
        }
    }
}

pub open spec fn record_origins(snapshot: StoreSnapshot, records: Seq<DiagRecord>) -> Seq<
    Seq<char>,
> {
    Seq::new(records.len(), |i: int| record_origin(snapshot, records[i]))
}

/// The origins of all records in ascending order, each once.
pub fn origins(records: &Vec<DiagRecord>, snapshot: &StoreSnapshot) -> (r: Vec<String>)
    ensures
        views(r@) == deduplicated(sorted_texts(record_origins(*snapshot, records@))),
{
    let ghost all = record_origins(*snapshot, records@);
    let mut names: Vec<String> = Vec::new();
    let mut i: usize = 0;
    while i < records.len()
        invariant
            i <= records@.len(),
            all == record_origins(*snapshot, records@),
            views(names@) == all.take(i as int),
        decreases records@.len() - i,
    {
        let source = source_label(snapshot, records[i].diag.source);
        let origin = origin_label(source.as_str(), records[i].diag.code.as_str());
        let ghost before = names@;
        names.push(origin);
        proof {
            assert(views(names@) =~= views(before).push(origin@));
            assert(all.take(i + 1) =~= all.take(i as int).push(all[i as int]));
        }
        i = i + 1;
    }
    proof {
        assert(all.take(i as int) =~= all);
    }
    let sorted = sort_texts(&names);
    let ghost sorted_all = sorted_texts(all);
    let mut out: Vec<String> = Vec::new();
    let mut j: usize = 0;
    proof {
        assert(sorted_all.take(0) =~= Seq::<Seq<char>>::empty());
        assert(views(out@) =~= Seq::<Seq<char>>::empty());
        assert(views(sorted@).len() == sorted@.len());
    }
    while j < sorted.len()
        invariant
            j <= sorted@.len(),
            sorted_all == views(sorted@),
            views(out@) == deduplicated(sorted_all.take(j as int)),
        decreases sorted@.len() - j,
    {
        proof {
            assert(sorted_all.take(j + 1).drop_last() =~= sorted_all.take(j as int));
            assert(sorted_all.take(j + 1).last() == sorted@[j as int]@);
            assert(views(out@).len() == out@.len());
        }
        let n = out.len();
        let repeated = n > 0 && same_text(out[n - 1].as_str(), sorted[j].as_str());
        if !repeated {
            let ghost before = out@;
            out.push(sorted[j].clone());
            proof {
                assert(views(out@) =~= views(before).push(sorted@[j as int]@));
            }
        }
        j = j + 1;
    }
    proof {
        assert(sorted_all.take(j as int) =~= sorted_all);
    }
    out
}

/// The name of a severity.
pub fn severity_label(severity: Severity) -> (r: &'static str)
    ensures
        r@ == match severity {
            Severity::Info => "Info"@,
            Severity::Warning => "Warning"@,
            Severity::Error => "Error"@,
        },
{
    match severity {
        Severity::Info => "Info",
        Severity::Warning => "Warning",
        Severity::Error => "Error",
    }
}

/// The name of the filter that lets a severity and graver ones pass.
pub fn severity_filter_label(severity: Severity) -> (r: &'static str)
    ensures
        r@ == match severity {
            Severity::Info => "Info+"@,
            Severity::Warning => "Warnings+"@,
            Severity::Error => "Errors"@,
        },
{
    match severity {
        Severity::Info => "Info+",
        Severity::Warning => "Warnings+",
        Severity::Error => "Errors",
    }
}

/// The colour of a severity, `None` for that of ordinary text.
pub fn severity_color(severity: Severity) -> (r: Option<[u8; 3]>)
    ensures
        severity == Severity::Info ==> r is None,
        severity == Severity::Warning ==> r == Some([245u8, 194u8, 97u8]),
        severity == Severity::Error ==> r == Some([243u8, 139u8, 168u8]),
{
    match severity {
        Severity::Info => None,
        Severity::Warning => Some([245, 194, 97]),
        Severity::Error => Some([243, 139, 168]),
    }
}

/// The byte at which a diagnostic was found, `-` for none.
pub fn byte_text(byte_offset: Option<u64>) -> (r: String)
    ensures
        r@ == match byte_offset {
            Some(byte) => decimal(byte as nat),
            None => "-"@,
        },
{
    match byte_offset {
        Some(byte) => decimal_text(byte),
        None => "-".to_owned(),
    }
}

impl DiagnosticsDock {
    /// The head line: how many records there are, and the last of them.
    pub fn summary(&self, records: &Vec<DiagRecord>) -> (r: (String, Option<String>))
        ensures
            r.0@ == decimal(records@.len()) + " retained"@,
            r.1 is Some == (records@.len() > 0),
            r.1 matches Some(last) ==> last@ == "["@ + records@.last().diag.code@ + "] "@
                + records@.last().diag.message@,
    {
        let mut retained = decimal_text(records.len() as u64);
        retained.append(" retained");
        if records.len() == 0 {
            return (retained, None);
        }
        let diag = &records[records.len() - 1].diag;
        let mut last = String::new();
        last.append("[");
        last.append(diag.code.as_str());
        last.append("] ");
        last.append(diag.message.as_str());
        proof {
            assert(last@ =~= "["@ + diag.code@ + "] "@ + diag.message@);
        }
        (retained, Some(last))
    }

    /// The text of the origin box.
    pub fn origin_choice(&self) -> (r: String)
        ensures
            r@ == if self.origin@.len() == 0 {
                "All origins"@
            } else {
                self.origin@
            },
    {
        if self.origin.as_str().is_empty() {
            "All origins".to_owned()
        } else {
            self.origin.clone()
        }
    }

    /// The records that the dock lists under its filters.
    pub fn listed<'a>(&self, records: &'a Vec<DiagRecord>, snapshot: &StoreSnapshot) -> (r: Vec<
        DisplayRecord<'a>,
    >)
        ensures
            shows(
                r@,
                *snapshot,
                records@,
                passing(
                    *snapshot,
                    records@,
                    self.min_severity,
                    self.origin@,
                    self.search@,
                    records@.len(),
                ),
            ),
    {
        filtered_records(
            records,
            snapshot,
            self.min_severity,
            self.origin.as_str(),
            self.search.as_str(),
        )
    }

    /// What the clicks of a frame ask for: the buttons, and the time of the last
    /// row whose time was clicked.
    pub fn frame_action(&mut self, close: bool, clear: bool, clicked_time: Option<i64>) -> (r:
        DiagnosticsAction)
        ensures
            r.clear == clear,
            r.jump_to_time_us == clicked_time,
            final(self).open == (old(self).open && !close),
            final(self).min_severity == old(self).min_severity,
            final(self).origin == old(self).origin,
            final(self).search == old(self).search,
    {
        if close {
            self.open = false;
        }
        DiagnosticsAction { clear, jump_to_time_us: clicked_time }
    }
}

} // verus!
