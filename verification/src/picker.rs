//! Choosing a data field: what can be chosen, and the search among all fields.

use crate::fuzzy::{fuzzy_match_score, fuzzy_score};
use crate::graph::{copy_optional, optional_text, FieldSelector, SelectorView};
use crate::order::{as_ints, order_of, ranks_of, sorted_by, stable_order, Ranked, SortKey};
use crate::snapshot::{
    as_index, column_index, find_column, topic_index, Column, FieldInfo, SourceInfo, StoreSnapshot,
    TopicId, TopicInfo,
};
use crate::text::{
    decimal, has_text, push_decimal, push_unique, same_text, sort_texts, sorted_texts, text_at_most,
    text_le, text_le_total, text_le_transitive, trim, trimmed, unique, views,
};
use vstd::prelude::*;

verus! {

/// A field that the search has found.
#[derive(Clone, Debug)]
pub struct DataHit {
    pub selector: FieldSelector,
    pub label: String,
    pub unit: Option<String>,
    pub rows: u64,
    pub score: u32,
}

#[verifier::ext_equal]
pub ghost struct HitView {
    pub selector: SelectorView,
    pub label: Seq<char>,
    pub unit: Option<Seq<char>>,
    pub rows: u64,
    pub score: u32,
}

impl View for DataHit {
    type V = HitView;

    open spec fn view(&self) -> HitView {
        HitView {
            selector: self.selector@,
            label: self.label@,
            unit: optional_text(self.unit),
            rows: self.rows,
            score: self.score,
        }
    }
}

impl DataHit {
    pub fn duplicate(&self) -> (r: DataHit)
        ensures
            r == *self,
    {
        DataHit {
            selector: self.selector.duplicate(),
            label: self.label.clone(),
            unit: copy_optional(&self.unit),
            rows: self.rows,
            score: self.score,
        }
    }
}

pub open spec fn hit_views(hits: Seq<DataHit>) -> Seq<HitView> {
    Seq::new(hits.len(), |i: int| hits[i]@)
}

/// The place of a hit: by score, then by label.
pub ghost struct HitRank {
    pub score: u32,
    pub label: Seq<char>,
}

impl Ranked for HitRank {
    open spec fn le(self, other: Self) -> bool {
        self.score < other.score || self.score == other.score && text_le(self.label, other.label)
    }

    proof fn le_total(a: Self, b: Self) {
        text_le_total(a.label, b.label);
    }

    proof fn le_transitive(a: Self, b: Self, c: Self) {
        if a.score == b.score && b.score == c.score {
            text_le_transitive(a.label, b.label, c.label);
        }
    }
}

impl SortKey for DataHit {
    type Rank = HitRank;

    open spec fn rank(&self) -> HitRank {
        HitRank { score: self.score, label: self.label@ }
    }

    fn is_le(&self, other: &Self) -> (r: bool) {
        self.score < other.score || self.score == other.score && text_at_most(
            self.label.as_str(),
            other.label.as_str(),
        )
    }
}

/// What the three boxes of a field choice offer.
pub struct FieldOptions {
    pub sources: Vec<String>,
    pub topics: Vec<String>,
    pub fields: Vec<String>,
}

/// The name of a topic with its instance.
pub open spec fn topic_name(base: Seq<char>, instance: Option<u32>) -> Seq<char> {
    match instance {
        Some(n) => base + "["@ + decimal(n as nat) + "]"@,
        None => base,
    }
}

/// The name of the topic that is chosen.
pub fn topic_display(selector: &FieldSelector) -> (r: String)
    ensures
        r@ == topic_name(selector@.topic, selector@.instance),
{
    let mut out = selector.topic.clone();
    if let Some(instance) = selector.instance {
        out.append("[");
        push_decimal(&mut out, instance as u64);
        out.append("]");
        proof {
            assert(out@ =~= topic_name(selector@.topic, selector@.instance));
        }
    }
    out
}

/// The numeric column of that name.
pub open spec fn numeric_column(columns: Seq<Column>, name: Seq<char>) -> Option<int> {
    match column_index(columns, name, 0) {
        Some(i) => if columns[i].numeric {
            Some(i)
        } else {
            None
        },
        None => None,
    }
}

/// The indices of the numeric fields of a topic among the first `n` fields.
pub open spec fn numeric_fields(
    fields: Seq<FieldInfo>,
    topic: TopicId,
    columns: Seq<Column>,
    n: nat,
) -> Seq<int>
    decreases n,
{
    if n == 0 {
        Seq::empty()
    } else {
        let rest = numeric_fields(fields, topic, columns, (n - 1) as nat);
        let f = fields[n - 1];
        if !f.removed && f.topic == topic && numeric_column(columns, f.name@) is Some {
            rest.push(n - 1)
        } else {
            rest
        }
    }
}

/// A topic that exists, has not been removed and holds data.
pub open spec fn open_topic(snapshot: StoreSnapshot, id: TopicId) -> Option<int> {
    match topic_index(snapshot.topics@, id, 0) {
        Some(i) => if !snapshot.topics@[i].removed && snapshot.topics@[i].data is Some {
            Some(i)
        } else {
            None
        },
        None => None,
    }
}

/// The numeric fields of the topic at index `t`.
pub open spec fn topic_fields(snapshot: StoreSnapshot, t: int) -> Seq<int> {
    let topic = snapshot.topics@[t];
    numeric_fields(
        snapshot.fields@,
        topic.id,
        topic.data.unwrap().columns@,
        snapshot.fields@.len(),
    )
}

/// The names of fields given by index.
pub open spec fn field_names(fields: Seq<FieldInfo>, list: Seq<int>) -> Seq<Seq<char>> {
    Seq::new(list.len(), |i: int| fields[list[i]].name@)
}

/// The topics of the first `n` ids that hold numeric fields, as indices.
pub open spec fn numeric_topics(snapshot: StoreSnapshot, ids: Seq<TopicId>, n: nat) -> Seq<int>
    decreases n,
{
    if n == 0 {
        Seq::empty()
    } else {
        let rest = numeric_topics(snapshot, ids, (n - 1) as nat);
        match open_topic(snapshot, ids[n - 1]) {
            Some(t) => if topic_fields(snapshot, t).len() > 0 {
                rest.push(t)
            } else {
                rest
            },
            None => rest,
        }
    }
}

pub open spec fn topic_names(snapshot: StoreSnapshot, list: Seq<int>) -> Seq<Seq<char>> {
    Seq::new(list.len(), |i: int| snapshot.topics@[list[i]].name@)
}

/// The names of the numeric fields of the topics of that name.
pub open spec fn fields_under(
    snapshot: StoreSnapshot,
    list: Seq<int>,
    name: Seq<char>,
) -> Seq<Seq<char>>
    decreases list.len(),
{
    if list.len() == 0 {
        Seq::empty()
    } else {
        let rest = fields_under(snapshot, list.drop_last(), name);
        if snapshot.topics@[list.last()].name@ == name {
            rest + field_names(snapshot.fields@, topic_fields(snapshot, list.last()))
        } else {
            rest
        }
    }
}

/// Whether the choice admits a source.
pub open spec fn admits_source(selector: SelectorView, label: Seq<char>) -> bool {
    match selector.source {
        Some(chosen) => chosen == label,
        None => true,
    }
}

/// The numeric topics of a source.
pub open spec fn source_topics(snapshot: StoreSnapshot, source: SourceInfo) -> Seq<int> {
    numeric_topics(snapshot, source.topics@, source.topics@.len())
}

/// The labels of the first `n` sources that hold numeric fields.
pub open spec fn offered_sources(snapshot: StoreSnapshot, n: nat) -> Seq<Seq<char>>
    decreases n,
{
    if n == 0 {
        Seq::empty()
    } else {
        let rest = offered_sources(snapshot, (n - 1) as nat);
        let s = snapshot.sources@[n - 1];
        if !s.removed && source_topics(snapshot, s).len() > 0 {
            rest.push(s.label@)
        } else {
            rest
        }
    }
}

/// The topics that the first `n` sources offer under the choice of a source.
pub open spec fn offered_topics(snapshot: StoreSnapshot, selector: SelectorView, n: nat) -> Seq<
    Seq<char>,
>
    decreases n,
{
    if n == 0 {
        Seq::empty()
    } else {
        let rest = offered_topics(snapshot, selector, (n - 1) as nat);
        let s = snapshot.sources@[n - 1];
        if !s.removed && admits_source(selector, s.label@) {
            rest + topic_names(snapshot, source_topics(snapshot, s))
        } else {
            rest
        }
    }
}

/// The fields that the first `n` sources offer under the choice of a topic.
pub open spec fn offered_fields(snapshot: StoreSnapshot, selector: SelectorView, n: nat) -> Seq<
    Seq<char>,
>
    decreases n,
{
    if n == 0 {
        Seq::empty()
    } else {
        let rest = offered_fields(snapshot, selector, (n - 1) as nat);
        let s = snapshot.sources@[n - 1];
        if !s.removed && admits_source(selector, s.label@) {
            rest + fields_under(
                snapshot,
                source_topics(snapshot, s),
                topic_name(selector.topic, selector.instance),
            )
        } else {
            rest
        }
    }
}

/// The fields that a choice offers, each once, in ascending order.
pub open spec fn field_choices(snapshot: StoreSnapshot, selector: SelectorView) -> Seq<Seq<char>> {
    sorted_texts(unique(offered_fields(snapshot, selector, snapshot.sources@.len())))
}

fn list_numeric_fields(
    snapshot: &StoreSnapshot,
    topic: TopicId,
    columns: &Vec<Column>,
) -> (r: Vec<usize>)
    ensures
        as_ints(r@) == numeric_fields(
            snapshot.fields@,
            topic,
            columns@,
            snapshot.fields@.len(),
        ),
        forall|i: int| 0 <= i < r@.len() ==> (#[trigger] r@[i]) < snapshot.fields@.len(),
        forall|i: int|
            0 <= i < r@.len() ==> numeric_column(
                columns@,
                snapshot.fields@[#[trigger] r@[i] as int].name@,
            ) is Some,
{
    let mut out: Vec<usize> = Vec::new();
    let mut i: usize = 0;
    proof {
        assert(as_ints(out@) =~= Seq::<int>::empty());
    }
    while i < snapshot.fields.len()
        invariant
            i <= snapshot.fields@.len(),
            as_ints(out@) == numeric_fields(snapshot.fields@, topic, columns@, i as nat),
            forall|k: int| 0 <= k < out@.len() ==> (#[trigger] out@[k]) < snapshot.fields@.len(),
            forall|k: int|
                0 <= k < out@.len() ==> numeric_column(
                    columns@,
                    snapshot.fields@[#[trigger] out@[k] as int].name@,
                ) is Some,
        decreases snapshot.fields@.len() - i,
    {
        let f = &snapshot.fields[i];
        if !f.removed && f.topic == topic {
            if let Some(c) = find_column(columns, f.name.as_str()) {
                if columns[c].numeric {
                    let ghost before = out@;
                    out.push(i);
                    proof {
                        assert(as_ints(out@) =~= as_ints(before).push(i as int));
                    }
                }
            }
        }
        i = i + 1;
    }
    out
}

fn find_open_topic(snapshot: &StoreSnapshot, id: TopicId) -> (r: Option<usize>)
    ensures
        as_index(r) == open_topic(*snapshot, id),
        r matches Some(t) ==> t < snapshot.topics@.len() && snapshot.topics@[t as int].data is Some
            && snapshot.topics@[t as int].id == id,
{
    match snapshot.find_topic(id) {
        Some(t) => {
            if !snapshot.topics[t].removed && snapshot.topics[t].data.is_some() {
                Some(t)
            } else {
                None
            }
        },
        None => None,
    }
}

fn list_topic_fields(snapshot: &StoreSnapshot, t: usize) -> (r: Vec<usize>)
    requires
        t < snapshot.topics@.len(),
        snapshot.topics@[t as int].data is Some,
    ensures
        as_ints(r@) == topic_fields(*snapshot, t as int),
        forall|i: int| 0 <= i < r@.len() ==> (#[trigger] r@[i]) < snapshot.fields@.len(),
        forall|i: int|
            0 <= i < r@.len() ==> numeric_column(
                snapshot.topics@[t as int].data.unwrap().columns@,
                snapshot.fields@[#[trigger] r@[i] as int].name@,
            ) is Some,
{
    match &snapshot.topics[t].data {
        Some(data) => list_numeric_fields(snapshot, snapshot.topics[t].id, &data.columns),
        None => Vec::new(),
    }
}

fn list_numeric_topics(snapshot: &StoreSnapshot, ids: &Vec<TopicId>) -> (r: Vec<usize>)
    ensures
        as_ints(r@) == numeric_topics(*snapshot, ids@, ids@.len()),
        forall|i: int|
            0 <= i < r@.len() ==> (#[trigger] r@[i]) < snapshot.topics@.len()
                && snapshot.topics@[r@[i] as int].data is Some,
{
    let mut out: Vec<usize> = Vec::new();
    let mut i: usize = 0;
    proof {
        assert(as_ints(out@) =~= Seq::<int>::empty());
    }
    while i < ids.len()
        invariant
            i <= ids@.len(),
            as_ints(out@) == numeric_topics(*snapshot, ids@, i as nat),
            forall|k: int|
                0 <= k < out@.len() ==> (#[trigger] out@[k]) < snapshot.topics@.len()
                    && snapshot.topics@[out@[k] as int].data is Some,
        decreases ids@.len() - i,
    {
        if let Some(t) = find_open_topic(snapshot, ids[i]) {
            let list = list_topic_fields(snapshot, t);
            proof {
                assert(as_ints(list@).len() == list@.len());
            }
            if list.len() > 0 {
                let ghost before = out@;
                out.push(t);
                proof {
                    assert(as_ints(out@) =~= as_ints(before).push(t as int));
                }
            }
        }
        i = i + 1;
    }
    out
}

proof fn lemma_unique_push(s: Seq<Seq<char>>, x: Seq<char>)
    ensures
        unique(s.push(x)) == if unique(s).contains(x) {
            unique(s)
        } else {
            unique(s).push(x)
        },
{
    assert(s.push(x).drop_last() =~= s);
}

fn offer_topics(snapshot: &StoreSnapshot, list: &Vec<usize>, out: &mut Vec<String>, listed: Ghost<
    Seq<Seq<char>>,
>)
    requires
        forall|i: int| 0 <= i < list@.len() ==> (#[trigger] list@[i]) < snapshot.topics@.len(),
        views(old(out)@) == unique(listed@),
    ensures
        views(final(out)@) == unique(listed@ + topic_names(*snapshot, as_ints(list@))),
{
    let ghost names = topic_names(*snapshot, as_ints(list@));
    let mut i: usize = 0;
    proof {
        assert(listed@ + names.take(0) =~= listed@);
    }
    while i < list.len()
        invariant
            i <= list@.len(),
            names == topic_names(*snapshot, as_ints(list@)),
            forall|k: int| 0 <= k < list@.len() ==> (#[trigger] list@[k]) < snapshot.topics@.len(),
            views(out@) == unique(listed@ + names.take(i as int)),
        decreases list@.len() - i,
    {
        push_unique(out, snapshot.topics[list[i]].name.as_str());
        proof {
            assert(as_ints(list@)[i as int] == list@[i as int]);
            lemma_unique_push(listed@ + names.take(i as int), names[i as int]);
            assert(listed@ + names.take(i + 1) =~= (listed@ + names.take(i as int)).push(
                names[i as int],
            ));
        }
        i = i + 1;
    }
    proof {
        assert(names.take(i as int) =~= names);
    }
}

fn offer_topic_fields(
    snapshot: &StoreSnapshot,
    list: &Vec<usize>,
    out: &mut Vec<String>,
    listed: Ghost<Seq<Seq<char>>>,
)
    requires
        forall|i: int| 0 <= i < list@.len() ==> (#[trigger] list@[i]) < snapshot.fields@.len(),
        views(old(out)@) == unique(listed@),
    ensures
        views(final(out)@) == unique(listed@ + field_names(snapshot.fields@, as_ints(list@))),
{
    let ghost names = field_names(snapshot.fields@, as_ints(list@));
    let mut i: usize = 0;
    proof {
        assert(listed@ + names.take(0) =~= listed@);
    }
    while i < list.len()
        invariant
            i <= list@.len(),
            names == field_names(snapshot.fields@, as_ints(list@)),
            forall|k: int| 0 <= k < list@.len() ==> (#[trigger] list@[k]) < snapshot.fields@.len(),
            views(out@) == unique(listed@ + names.take(i as int)),
        decreases list@.len() - i,
    {
        push_unique(out, snapshot.fields[list[i]].name.as_str());
        proof {
            assert(as_ints(list@)[i as int] == list@[i as int]);
            lemma_unique_push(listed@ + names.take(i as int), names[i as int]);
            assert(listed@ + names.take(i + 1) =~= (listed@ + names.take(i as int)).push(
                names[i as int],
            ));
        }
        i = i + 1;
    }
    proof {
        assert(names.take(i as int) =~= names);
    }
}

fn offer_fields(
    snapshot: &StoreSnapshot,
    list: &Vec<usize>,
    name: &str,
    out: &mut Vec<String>,
    listed: Ghost<Seq<Seq<char>>>,
)
    requires
        forall|i: int|
            0 <= i < list@.len() ==> (#[trigger] list@[i]) < snapshot.topics@.len()
                && snapshot.topics@[list@[i] as int].data is Some,
        views(old(out)@) == unique(listed@),
    ensures
        views(final(out)@) == unique(listed@ + fields_under(*snapshot, as_ints(list@), name@)),
{
    let ghost all = as_ints(list@);
    let mut i: usize = 0;
    proof {
        assert(all.take(0) =~= Seq::<int>::empty());
        assert(listed@ + Seq::<Seq<char>>::empty() =~= listed@);
    }
    while i < list.len()
        invariant
            i <= list@.len(),
            all == as_ints(list@),
            forall|k: int|
                0 <= k < list@.len() ==> (#[trigger] list@[k]) < snapshot.topics@.len()
                    && snapshot.topics@[list@[k] as int].data is Some,
            views(out@) == unique(
                listed@ + fields_under(*snapshot, all.take(i as int), name@),
            ),
        decreases list@.len() - i,
    {
        let ghost done = listed@ + fields_under(*snapshot, all.take(i as int), name@);
        proof {
            assert(all.take(i + 1).drop_last() =~= all.take(i as int));
            assert(all.take(i + 1).last() == list@[i as int]);
        }
        let t = list[i];
        if same_text(snapshot.topics[t].name.as_str(), name) {
            let own = list_topic_fields(snapshot, t);
            offer_topic_fields(snapshot, &own, out, Ghost(done));
            proof {
                assert(done + field_names(snapshot.fields@, topic_fields(*snapshot, t as int))
                    =~= listed@ + fields_under(*snapshot, all.take(i + 1), name@));
            }
        }
        i = i + 1;
    }
    proof {
        assert(all.take(i as int) =~= all);
    }
}

/// What can be chosen next to the present choice: every source with numeric
/// fields, the topics of the chosen source, and the numeric fields of the
/// chosen topic, each once.
pub fn field_options(snapshot: &StoreSnapshot, selector: &FieldSelector) -> (r: FieldOptions)
    ensures
        views(r.sources@) == unique(offered_sources(*snapshot, snapshot.sources@.len())),
        views(r.topics@) == sorted_texts(
            unique(offered_topics(*snapshot, selector@, snapshot.sources@.len())),
        ),
        views(r.fields@) == field_choices(*snapshot, selector@),
{
    let selected_topic = topic_display(selector);
    let mut sources: Vec<String> = Vec::new();
    let mut topics: Vec<String> = Vec::new();
    let mut fields: Vec<String> = Vec::new();
    let mut i: usize = 0;
    proof {
        assert(views(sources@) =~= Seq::<Seq<char>>::empty());
        assert(views(topics@) =~= Seq::<Seq<char>>::empty());
        assert(views(fields@) =~= Seq::<Seq<char>>::empty());
    }
    while i < snapshot.sources.len()
        invariant
            i <= snapshot.sources@.len(),
            selected_topic@ == topic_name(selector@.topic, selector@.instance),
            views(sources@) == unique(offered_sources(*snapshot, i as nat)),
            views(topics@) == unique(offered_topics(*snapshot, selector@, i as nat)),
            views(fields@) == unique(offered_fields(*snapshot, selector@, i as nat)),
        decreases snapshot.sources@.len() - i,
    {
        let source = &snapshot.sources[i];
        if !source.removed {
            let list = list_numeric_topics(snapshot, &source.topics);
            proof {
                assert(as_ints(list@).len() == list@.len());
            }
            let admitted = match &selector.source {
                Some(chosen) => same_text(chosen.as_str(), source.label.as_str()),
                None => true,
            };
            if admitted {
                offer_topics(
                    snapshot,
                    &list,
                    &mut topics,
                    Ghost(offered_topics(*snapshot, selector@, i as nat)),
                );
                offer_fields(
                    snapshot,
                    &list,
                    selected_topic.as_str(),
                    &mut fields,
                    Ghost(offered_fields(*snapshot, selector@, i as nat)),
                );
            }
            if list.len() > 0 {
                push_unique(&mut sources, source.label.as_str());
                proof {
                    lemma_unique_push(offered_sources(*snapshot, i as nat), source.label@);
                }
            }
        }
        i = i + 1;
    }
    FieldOptions { sources, topics: sort_texts(&topics), fields: sort_texts(&fields) }
}

/// The choice after another topic has been taken: its field stays where the
/// topic has it, else the first field of the topic is taken.
pub open spec fn retargeted(
    snapshot: StoreSnapshot,
    selector: SelectorView,
    base: Seq<char>,
    instance: Option<u32>,
) -> SelectorView {
    let moved = SelectorView { topic: base, instance, ..selector };
    let choices = field_choices(snapshot, moved);
    SelectorView {
        field: if !choices.contains(selector.field) && choices.len() > 0 {
            choices[0]
        } else {
            selector.field
        },
        ..moved
    }
}

/// Takes another topic, given by its base name and instance.
pub fn retarget_topic(
    snapshot: &StoreSnapshot,
    selector: &mut FieldSelector,
    base: &str,
    instance: Option<u32>,
)
    ensures
        final(selector)@ == retargeted(*snapshot, old(selector)@, base@, instance),
{
    selector.topic = base.to_owned();
    selector.instance = instance;
    let moved = field_options(snapshot, selector);
    proof {
        assert(selector@ == SelectorView { topic: base@, instance, ..old(selector)@ });
        assert(views(moved.fields@).len() == moved.fields@.len());
    }
    if !has_text(&moved.fields, selector.field.as_str()) && moved.fields.len() > 0 {
        selector.field = moved.fields[0].clone();
        proof {
            assert(views(moved.fields@)[0] == moved.fields@[0]@);
        }
    }
}

/// The text against which a field is matched.
pub open spec fn candidate_text(
    source: SourceInfo,
    topic: TopicInfo,
    field: FieldInfo,
    column: Column,
) -> Seq<char> {
    source.label@ + "/"@ + topic.name@ + "."@ + field.name@ + " "@ + match column.unit {
        Some(unit) => unit@,
        None => Seq::empty(),
    }
}

/// The label under which a field is listed.
pub open spec fn hit_label(source: SourceInfo, topic: TopicInfo, field: FieldInfo) -> Seq<char> {
    source.label@ + " \u{203a} "@ + topic.name@ + " \u{203a} "@ + field.name@
}

/// The hit for one field, where the search text fits it. A search text without
/// words fits every field.
pub open spec fn field_hit(
    query: Seq<char>,
    source: SourceInfo,
    topic: TopicInfo,
    field: FieldInfo,
) -> Option<HitView> {
    let data = topic.data.unwrap();
    let column = data.columns@[numeric_column(data.columns@, field.name@).unwrap()];
    let score = if trimmed(query).len() == 0 {
        Some(0nat)
    } else {
        fuzzy_score(query, candidate_text(source, topic, field, column))
    };
    match score {
        Some(score) => Some(
            HitView {
                selector: SelectorView {
                    source: Some(source.label@),
                    topic: topic.base@,
                    instance: topic.instance,
                    field: field.name@,
                },
                label: hit_label(source, topic, field),
                unit: optional_text(column.unit),
                rows: data.rows,
                score: score as u32,
            },
        ),
        None => None,
    }
}

/// The hits among the fields of one topic, given by index.
pub open spec fn topic_hits(
    snapshot: StoreSnapshot,
    query: Seq<char>,
    s: int,
    t: int,
    list: Seq<int>,
) -> Seq<HitView>
    decreases list.len(),
{
    if list.len() == 0 {
        Seq::empty()
    } else {
        let rest = topic_hits(snapshot, query, s, t, list.drop_last());
        match field_hit(
            query,
            snapshot.sources@[s],
            snapshot.topics@[t],
            snapshot.fields@[list.last()],
        ) {
            Some(hit) => rest.push(hit),
            None => rest,
        }
    }
}

/// The hits among the first `n` topics of a source.
pub open spec fn source_hits(snapshot: StoreSnapshot, query: Seq<char>, s: int, n: nat) -> Seq<
    HitView,
>
    decreases n,
{
    if n == 0 {
        Seq::empty()
    } else {
        let rest = source_hits(snapshot, query, s, (n - 1) as nat);
        match open_topic(snapshot, snapshot.sources@[s].topics@[n - 1]) {
            Some(t) => rest + topic_hits(snapshot, query, s, t, topic_fields(snapshot, t)),
            None => rest,
        }
    }
}

/// The hits among the first `n` sources.
pub open spec fn all_hits(snapshot: StoreSnapshot, query: Seq<char>, n: nat) -> Seq<HitView>
    decreases n,
{
    if n == 0 {
        Seq::empty()
    } else {
        let rest = all_hits(snapshot, query, (n - 1) as nat);
        let s = snapshot.sources@[n - 1];
        if s.removed {
            rest
        } else {
            rest + source_hits(snapshot, query, n - 1, s.topics@.len())
        }
    }
}

pub open spec fn hit_ranks(hits: Seq<HitView>) -> Seq<HitRank> {
    Seq::new(hits.len(), |i: int| HitRank { score: hits[i].score, label: hits[i].label })
}

/// What a search yields: at most `limit` hits, best first, of equal ones by
/// label; in the order of the store for a search text without words.
pub open spec fn found_fields(snapshot: StoreSnapshot, query: Seq<char>, limit: nat) -> Seq<
    HitView,
> {
    let hits = all_hits(snapshot, query, snapshot.sources@.len());
    let ordered = if trimmed(query).len() == 0 {
        hits
    } else {
        sorted_by(hits, hit_ranks(hits))
    };
    if ordered.len() <= limit {
        ordered
    } else {
        ordered.take(limit as int)
    }
}

fn make_hit(
    snapshot: &StoreSnapshot,
    query: &str,
    empty_query: bool,
    s: usize,
    t: usize,
    f: usize,
) -> (r: Option<DataHit>)
    requires
        s < snapshot.sources@.len(),
        t < snapshot.topics@.len(),
        f < snapshot.fields@.len(),
        snapshot.topics@[t as int].data is Some,
        numeric_column(
            snapshot.topics@[t as int].data.unwrap().columns@,
            snapshot.fields@[f as int].name@,
        ) is Some,
        empty_query == (trimmed(query@).len() == 0),
    ensures
        field_hit(
            query@,
            snapshot.sources@[s as int],
            snapshot.topics@[t as int],
            snapshot.fields@[f as int],
        ) == match r {
            Some(hit) => Some(hit@),
            None => None,
        },
{
    let source = &snapshot.sources[s];
    let topic = &snapshot.topics[t];
    let field = &snapshot.fields[f];
    let data = match &topic.data {
        Some(data) => data,
        None => {
            return None;
        },
    };
    let column = match find_column(&data.columns, field.name.as_str()) {
        Some(c) => &data.columns[c],
        None => {
            return None;
        },
    };
    let score: u32 = if empty_query {
        0
    } else {
        let mut candidate = source.label.clone();
        candidate.append("/");
        candidate.append(topic.name.as_str());
        candidate.append(".");
        candidate.append(field.name.as_str());
        candidate.append(" ");
        if let Some(unit) = &column.unit {
            candidate.append(unit.as_str());
        }
        proof {
            assert(candidate@ =~= candidate_text(*source, *topic, *field, *column));
        }
        match fuzzy_match_score(query, candidate.as_str()) {
            Some(score) => score,
            None => {
                return None;
            },
        }
    };
    let mut label = source.label.clone();
    label.append(" \u{203a} ");
    label.append(topic.name.as_str());
    label.append(" \u{203a} ");
    label.append(field.name.as_str());
    proof {
        assert(label@ =~= hit_label(*source, *topic, *field));
    }
    Some(
        DataHit {
            selector: FieldSelector {
                source: Some(source.label.clone()),
                topic: topic.base.clone(),
                instance: topic.instance,
                field: field.name.clone(),
            },
            label,
            unit: copy_optional(&column.unit),
            rows: data.rows,
            score,
        },
    )
}

fn push_topic_hits(
    snapshot: &StoreSnapshot,
    query: &str,
    empty_query: bool,
    s: usize,
    t: usize,
    out: &mut Vec<DataHit>,
)
    requires
        s < snapshot.sources@.len(),
        t < snapshot.topics@.len(),
        snapshot.topics@[t as int].data is Some,
        empty_query == (trimmed(query@).len() == 0),
    ensures
        hit_views(final(out)@) == hit_views(old(out)@) + topic_hits(
            *snapshot,
            query@,
            s as int,
            t as int,
            topic_fields(*snapshot, t as int),
        ),
{
    let list = list_topic_fields(snapshot, t);
    let ghost all = as_ints(list@);
    let mut i: usize = 0;
    proof {
        assert(all.take(0) =~= Seq::<int>::empty());
        assert(hit_views(out@) + Seq::<HitView>::empty() =~= hit_views(out@));
    }
    while i < list.len()
        invariant
            i <= list@.len(),
            all == as_ints(list@),
            s < snapshot.sources@.len(),
            t < snapshot.topics@.len(),
            snapshot.topics@[t as int].data is Some,
            empty_query == (trimmed(query@).len() == 0),
            forall|k: int| 0 <= k < list@.len() ==> (#[trigger] list@[k]) < snapshot.fields@.len(),
            forall|k: int|
                0 <= k < list@.len() ==> numeric_column(
                    snapshot.topics@[t as int].data.unwrap().columns@,
                    snapshot.fields@[#[trigger] list@[k] as int].name@,
                ) is Some,
            hit_views(out@) == hit_views(old(out)@) + topic_hits(
                *snapshot,
                query@,
                s as int,
                t as int,
                all.take(i as int),
            ),
        decreases list@.len() - i,
    {
        proof {
            assert(all.take(i + 1).drop_last() =~= all.take(i as int));
            assert(all.take(i + 1).last() == list@[i as int]);
        }
        let ghost before = hit_views(out@);
        if let Some(hit) = make_hit(snapshot, query, empty_query, s, t, list[i]) {
            out.push(hit);
            proof {
                assert(hit_views(out@) =~= before.push(hit@));
                assert(hit_views(out@) =~= hit_views(old(out)@) + topic_hits(
                    *snapshot,
                    query@,
                    s as int,
                    t as int,
                    all.take(i + 1),
                ));
            }
        }
        i = i + 1;
    }
    proof {
        assert(all.take(i as int) =~= all);
    }
}

fn push_source_hits(
    snapshot: &StoreSnapshot,
    query: &str,
    empty_query: bool,
    s: usize,
    out: &mut Vec<DataHit>,
)
    requires
        s < snapshot.sources@.len(),
        empty_query == (trimmed(query@).len() == 0),
    ensures
        hit_views(final(out)@) == hit_views(old(out)@) + source_hits(
            *snapshot,
            query@,
            s as int,
            snapshot.sources@[s as int].topics@.len(),
        ),
{
    let ids = &snapshot.sources[s].topics;
    let mut i: usize = 0;
    proof {
        assert(hit_views(out@) + Seq::<HitView>::empty() =~= hit_views(out@));
    }
    while i < ids.len()
        invariant
            i <= ids@.len(),
            s < snapshot.sources@.len(),
            ids@ == snapshot.sources@[s as int].topics@,
            empty_query == (trimmed(query@).len() == 0),
            hit_views(out@) == hit_views(old(out)@) + source_hits(
                *snapshot,
                query@,
                s as int,
                i as nat,
            ),
        decreases ids@.len() - i,
    {
        let ghost before = hit_views(out@);
        if let Some(t) = find_open_topic(snapshot, ids[i]) {
            push_topic_hits(snapshot, query, empty_query, s, t, out);
            proof {
                assert(hit_views(out@) =~= hit_views(old(out)@) + source_hits(
                    *snapshot,
                    query@,
                    s as int,
                    (i + 1) as nat,
                ));
            }
        }
        i = i + 1;
    }
}

/// The numeric fields that a search text fits, best first, at most `limit`.
pub fn search_fields(snapshot: &StoreSnapshot, query: &str, limit: usize) -> (r: Vec<DataHit>)
    ensures
        hit_views(r@) == found_fields(*snapshot, query@, limit as nat),
{
    let word = trim(query);
    let empty_query = word.as_str().is_empty();
    let mut hits: Vec<DataHit> = Vec::new();
    let mut i: usize = 0;
    proof {
        assert(hit_views(hits@) =~= Seq::<HitView>::empty());
    }
    while i < snapshot.sources.len()
        invariant
            i <= snapshot.sources@.len(),
            empty_query == (trimmed(query@).len() == 0),
            hit_views(hits@) == all_hits(*snapshot, query@, i as nat),
        decreases snapshot.sources@.len() - i,
    {
        if !snapshot.sources[i].removed {
            push_source_hits(snapshot, query, empty_query, i, &mut hits);
        }
        i = i + 1;
    }
    let ghost all = hit_views(hits@);
    if empty_query {
        if hits.len() > limit {
            hits.truncate(limit);
            proof {
                assert(hit_views(hits@) =~= all.take(limit as int));
            }
        }
        return hits;
    }
    let order = stable_order(&hits);
    proof {
        assert(ranks_of(hits@) =~= hit_ranks(all));
        assert(as_ints(order@).len() == order@.len());
    }
    let ghost sorted = sorted_by(all, hit_ranks(all));
    let n: usize = if order.len() <= limit {
        order.len()
    } else {
        limit
    };
    let mut out: Vec<DataHit> = Vec::new();
    let mut j: usize = 0;
    proof {
        assert(hit_views(out@) =~= sorted.take(0));
    }
    while j < n
        invariant
            j <= n <= order@.len(),
            order@.len() == hits@.len(),
            all == hit_views(hits@),
            sorted == sorted_by(all, hit_ranks(all)),
            as_ints(order@) == order_of(hit_ranks(all)),
            forall|k: int| 0 <= k < order@.len() ==> (#[trigger] order@[k]) < hits@.len(),
            hit_views(out@) == sorted.take(j as int),
        decreases n - j,
    {
        let ghost before = out@;
        out.push(hits[order[j]].duplicate());
        proof {
            assert(as_ints(order@)[j as int] == order@[j as int]);
            assert(hit_views(out@) =~= hit_views(before).push(hits@[order@[j as int] as int]@));
            assert(sorted.take(j + 1) =~= sorted.take(j as int).push(
                all[order@[j as int] as int],
            ));
        }
        j = j + 1;
    }
    proof {
        if order@.len() <= limit {
            assert(sorted.take(j as int) =~= sorted);
        }
    }
    out
}

} // verus!
