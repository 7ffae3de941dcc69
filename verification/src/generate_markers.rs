//! The dialog that makes markers of the changes of a field: one row for each
//! value of the field, with the times at which it is taken.

use crate::snapshot::FieldId;
use crate::text::{decimal, push_decimal};
use vstd::prelude::*;
use vstd::string::StringSliceAdditionalSpecFns;

verus! {

/// Above this number of values a field is taken to be continuous, and refused.
pub const MAX_DISTINCT: usize = 64;

/// A value of a field and the times at which it is taken.
pub struct ValueGroup {
    pub value_label: String,
    pub transitions: Vec<i64>,
}

/// Why the changes of a field cannot be told.
#[derive(Clone, Copy, Debug, PartialEq, Eq, Structural)]
pub enum TransitionsError {
    TooManyValues(usize),
    FieldView,
}

/// A row of the dialog. The color is four bit patterns.
pub struct ValueRow {
    pub label: String,
    pub transitions: Vec<i64>,
    pub include_row: bool,
    pub name: String,
    pub color: [u32; 4],
}

/// Time, name and color of a marker.
pub type MarkerSpec = (i64, String, [u32; 4]);

pub struct GenerateMarkersDialog {
    pub field: FieldId,
    pub title: String,
    pub rows: Vec<ValueRow>,
    pub error: Option<String>,
}

/// One step of the hash.
pub open spec fn hash_step(h: u64, b: u8) -> u64 {
    (((h ^ (b as u64)) * 0x0000_0100_0000_01b3) % 0x1_0000_0000_0000_0000) as u64
}

/// The hash of the first `n` bytes.
pub open spec fn hash_of(bytes: Seq<u8>, n: nat) -> u64
    decreases n,
{
    if n == 0 {
        0xcbf2_9ce4_8422_2325
    } else {
        hash_step(hash_of(bytes, (n - 1) as nat), bytes[n - 1])
    }
}

/// A hash of a label, by which its color is chosen from the palette: a value
/// keeps its color whenever and wherever it occurs.
pub fn value_hash(label: &str) -> (r: u64)
    ensures
        r == hash_of(label.spec_bytes(), label.spec_bytes().len()),
{
    let bytes = label.as_bytes();
    let mut h: u64 = 0xcbf2_9ce4_8422_2325;
    let mut i: usize = 0;
    while i < bytes.len()
        invariant
            i <= bytes@.len(),
            h == hash_of(bytes@, i as nat),
        decreases bytes@.len() - i,
    {
        h = (h ^ (bytes[i] as u64)).wrapping_mul(0x0000_0100_0000_01b3);
        i = i + 1;
    }
    h
}

/// A row as values.
#[verifier::ext_equal]
pub ghost struct RowView {
    pub label: Seq<char>,
    pub transitions: Seq<i64>,
    pub include_row: bool,
    pub name: Seq<char>,
    pub color: [u32; 4],
}

impl View for ValueRow {
    type V = RowView;

    open spec fn view(&self) -> RowView {
        RowView {
            label: self.label@,
            transitions: self.transitions@,
            include_row: self.include_row,
            name: self.name@,
            color: self.color,
        }
    }
}

pub open spec fn row_views(rows: Seq<ValueRow>) -> Seq<RowView> {
    Seq::new(rows.len(), |i: int| rows[i]@)
}

/// The rows of some values; every one makes markers at first.
pub open spec fn rows_of(groups: Seq<ValueGroup>, colors: Seq<[u32; 4]>) -> Seq<RowView> {
    Seq::new(
        groups.len(),
        |i: int|
            RowView {
                label: groups[i].value_label@,
                transitions: groups[i].transitions@,
                include_row: true,
                name: "Value "@ + groups[i].value_label@,
                color: colors[i],
            },
    )
}

/// What the dialog says where the changes of a field cannot be told.
pub open spec fn error_text(error: TransitionsError) -> Seq<char> {
    match error {
        TransitionsError::TooManyValues(n) => decimal(n as nat)
            + "+ distinct values - too many to generate markers (limit "@ + decimal(
            MAX_DISTINCT as nat,
        ) + ")."@,
        TransitionsError::FieldView => "Could not read this field."@,
    }
}

fn describe_error(error: TransitionsError) -> (r: String)
    ensures
        r@ == error_text(error),
{
    match error {
        TransitionsError::TooManyValues(n) => {
            let mut text = String::new();
            push_decimal(&mut text, n as u64);
            text.append("+ distinct values - too many to generate markers (limit ");
            push_decimal(&mut text, MAX_DISTINCT as u64);
            text.append(").");
            proof {
                assert(text@ =~= error_text(error));
            }
            text
        },
        TransitionsError::FieldView => "Could not read this field.".to_owned(),
    }
}

/// The number of markers of the first `n` rows.
pub open spec fn marker_count(rows: Seq<RowView>, n: nat) -> nat
    decreases n,
{
    if n == 0 {
        0
    } else {
        marker_count(rows, (n - 1) as nat) + if rows[n - 1].include_row {
            rows[n - 1].transitions.len()
        } else {
            0
        }
    }
}

/// The markers of a row.
pub open spec fn row_markers(row: RowView) -> Seq<(i64, Seq<char>, [u32; 4])> {
    Seq::new(row.transitions.len(), |i: int| (row.transitions[i], row.name, row.color))
}

/// The markers of the first `n` rows.
pub open spec fn markers_of(rows: Seq<RowView>, n: nat) -> Seq<(i64, Seq<char>, [u32; 4])>
    decreases n,
{
    if n == 0 {
        Seq::empty()
    } else {
        let rest = markers_of(rows, (n - 1) as nat);
        if rows[n - 1].include_row {
            rest + row_markers(rows[n - 1])
        } else {
            rest
        }
    }
}

pub open spec fn spec_views(specs: Seq<MarkerSpec>) -> Seq<(i64, Seq<char>, [u32; 4])> {
    Seq::new(specs.len(), |i: int| (specs[i].0, specs[i].1@, specs[i].2))
}

/// As many markers are made as are announced.
pub proof fn announced_markers_are_made(rows: Seq<RowView>, n: nat)
    requires
        n <= rows.len(),
    ensures
        markers_of(rows, n).len() == marker_count(rows, n),
    decreases n,
{
    if n > 0 {
        announced_markers_are_made(rows, (n - 1) as nat);
    }
}

proof fn lemma_count_grows(rows: Seq<RowView>, n: nat, m: nat)
    requires
        n <= m <= rows.len(),
    ensures
        marker_count(rows, n) <= marker_count(rows, m),
    decreases m - n,
{
    if n < m {
        lemma_count_grows(rows, n, (m - 1) as nat);
    }
}

impl GenerateMarkersDialog {
    /// Opens the dialog on the values of a field, each with its color.
    pub fn open(
        groups: Result<Vec<ValueGroup>, TransitionsError>,
        colors: &Vec<[u32; 4]>,
        field: FieldId,
        title: String,
    ) -> (r: GenerateMarkersDialog)
        requires
            groups matches Ok(groups) ==> colors@.len() == groups@.len(),
        ensures
            r.field == field,
            r.title == title,
            match groups {
                Ok(groups) => row_views(r.rows@) == rows_of(groups@, colors@) && r.error is None,
                Err(error) => r.rows@.len() == 0 && (r.error matches Some(text) && text@
                    == error_text(error)),
            },
    {
        let mut groups = match groups {
            Ok(groups) => groups,
            Err(error) => {
                return GenerateMarkersDialog {
                    field,
                    title,
                    rows: Vec::new(),
                    error: Some(describe_error(error)),
                };
            },
        };
        let ghost all = groups@;
        let ghost wanted = rows_of(all, colors@);
        let mut rows: Vec<ValueRow> = Vec::new();
        let count: usize = groups.len();
        let mut i: usize = 0;
        while i < count
            invariant
                i <= count == all.len() == colors@.len(),
                groups@ == all,
                wanted == rows_of(all, colors@),
                row_views(rows@) =~= wanted.take(i as int),
            decreases count - i,
        {
            let group = &groups[i];
            let mut name = "Value ".to_owned();
            name.append(group.value_label.as_str());
            let row = ValueRow {
                label: group.value_label.clone(),
                transitions: group.transitions.clone(),
                include_row: true,
                name,
                color: colors[i],
            };
            let ghost before = rows@;
            rows.push(row);
            proof {
                assert(row.transitions@ =~= group.transitions@);
                assert(row_views(rows@) =~= row_views(before).push(row@));
                assert(row@ == wanted[i as int]);
                assert(wanted.take(i + 1) =~= wanted.take(i as int).push(wanted[i as int]));
            }
            i = i + 1;
        }
        proof {
            assert(wanted.take(i as int) =~= wanted);
        }
        GenerateMarkersDialog { field, title, rows, error: None }
    }

    /// The number of markers that would be made.
    pub fn total(&self) -> (r: usize)
        requires
            marker_count(row_views(self.rows@), self.rows@.len()) <= usize::MAX,
        ensures
            r == marker_count(row_views(self.rows@), self.rows@.len()),
    {
        let ghost all = row_views(self.rows@);
        let mut total: usize = 0;
        let mut i: usize = 0;
        while i < self.rows.len()
            invariant
                i <= self.rows@.len(),
                all == row_views(self.rows@),
                marker_count(all, self.rows@.len()) <= usize::MAX,
                total == marker_count(all, i as nat),
            decreases self.rows@.len() - i,
        {
            proof {
                assert(all[i as int] == self.rows@[i as int]@);
                lemma_count_grows(all, (i + 1) as nat, self.rows@.len());
            }
            if self.rows[i].include_row {
                total = total + self.rows[i].transitions.len();
            }
            i = i + 1;
        }
        total
    }

    /// The markers: of every row that is ticked, one for each time.
    pub fn generate(&self) -> (r: Vec<MarkerSpec>)
        ensures
            spec_views(r@) == markers_of(row_views(self.rows@), self.rows@.len()),
    {
        let ghost all = row_views(self.rows@);
        let mut specs: Vec<MarkerSpec> = Vec::new();
        let mut i: usize = 0;
        proof {
            assert(spec_views(specs@) =~= Seq::empty());
        }
        while i < self.rows.len()
            invariant
                i <= self.rows@.len(),
                all == row_views(self.rows@),
                spec_views(specs@) == markers_of(all, i as nat),
            decreases self.rows@.len() - i,
        {
            let row = &self.rows[i];
            let ghost done = spec_views(specs@);
            let ghost own = row_markers(row@);
            proof {
                assert(all[i as int] == row@);
            }
            if row.include_row {
                let mut j: usize = 0;
                proof {
                    assert(done + own.take(0) =~= done);
                }
                while j < row.transitions.len()
                    invariant
                        j <= row.transitions@.len(),
                        own == row_markers(row@),
                        spec_views(specs@) == done + own.take(j as int),
                    decreases row.transitions@.len() - j,
                {
                    let ghost before = specs@;
                    specs.push((row.transitions[j], row.name.clone(), row.color));
                    proof {
                        assert(spec_views(specs@) =~= spec_views(before).push(own[j as int]));
                        assert(own.take(j + 1) =~= own.take(j as int).push(own[j as int]));
                        assert(spec_views(specs@) =~= done + own.take(j + 1));
                    }
                    j = j + 1;
                }
                proof {
                    assert(own.take(j as int) =~= own);
                }
            }
            i = i + 1;
        }
        specs
    }

    /// What the button says that makes the markers.
    pub fn button_text(total: usize) -> (r: String)
        ensures
            r@ == "Generate "@ + decimal(total as nat) + " markers"@,
    {
        let mut text = "Generate ".to_owned();
        push_decimal(&mut text, total as u64);
        text.append(" markers");
        text
    }
}

/// Takes over what was done in the window of a dialog: it stays `open` or was
/// closed, and its button was `clicked` or not. The dialog goes when it is
/// closed or has made its markers.
pub fn generate_markers_window(
    dialog: &mut Option<GenerateMarkersDialog>,
    open: bool,
    clicked: bool,
) -> (r: Vec<MarkerSpec>)
    ensures
        spec_views(r@) == match *old(dialog) {
            Some(d) => if clicked {
                markers_of(row_views(d.rows@), d.rows@.len())
            } else {
                Seq::empty()
            },
            None => Seq::empty(),
        },
        *final(dialog) == if clicked || !open {
            None
        } else {
            *old(dialog)
        },
{
    let specs = match dialog.as_ref() {
        Some(d) if clicked => d.generate(),
        _ => {
            let none: Vec<MarkerSpec> = Vec::new();
            proof {
                assert(spec_views(none@) =~= Seq::empty());
            }
            none
        },
    };
    if clicked || !open {
        *dialog = None;
    }
    specs
}

} // verus!
