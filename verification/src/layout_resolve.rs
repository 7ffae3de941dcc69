//! Finding the fields that a layout names in what is loaded.

use crate::layout_doc::{FieldRef, RefView};
use crate::snapshot::{
    as_index, source_index, topic_index, FieldId, FieldInfo, SourceId, SourceInfo, StoreSnapshot,
    TopicId,
};
use crate::text::{same_text, text_at_most, text_le, views};
use vstd::prelude::*;

verus! {

/// The first field of a topic with that name that has not been removed, from
/// `i` on.
pub open spec fn named_field(
    fields: Seq<FieldInfo>,
    topic: TopicId,
    name: Seq<char>,
    i: int,
) -> Option<int>
    decreases fields.len() - i,
{
    if i < 0 || i >= fields.len() {
        None
    } else if fields[i].topic == topic && !fields[i].removed && fields[i].name@ == name {
        Some(i)
    } else {
        named_field(fields, topic, name, i + 1)
    }
}

/// The field in the topics of a source, from the topic at `i` on: the first
/// topic of that name that has not been removed decides. A topic that does not
/// exist ends the search.
pub open spec fn field_in_topics(
    snapshot: StoreSnapshot,
    topics: Seq<TopicId>,
    key: RefView,
    i: int,
) -> Option<FieldId>
    decreases topics.len() - i,
{
    if i < 0 || i >= topics.len() {
        None
    } else {
        match topic_index(snapshot.topics@, topics[i], 0) {
            None => None,
            Some(t) => {
                let topic = snapshot.topics@[t];
                if topic.removed || topic.name@ != key.topic {
                    field_in_topics(snapshot, topics, key, i + 1)
                } else {
                    match named_field(snapshot.fields@, topics[i], key.field, 0) {
                        Some(f) => Some(snapshot.fields@[f].id),
                        None => None,
                    }
                }
            },
        }
    }
}

/// The field in a source.
pub open spec fn field_in_source(
    snapshot: StoreSnapshot,
    source: SourceId,
    key: RefView,
) -> Option<FieldId> {
    match source_index(snapshot.sources@, source, 0) {
        Some(s) => field_in_topics(snapshot, snapshot.sources@[s].topics@, key, 0),
        None => None,
    }
}

/// The sources among the first `n` that have not been removed, as indices.
pub open spec fn live_sources(sources: Seq<SourceInfo>, n: nat) -> Seq<int>
    decreases n,
{
    if n == 0 {
        Seq::empty()
    } else {
        let rest = live_sources(sources, (n - 1) as nat);
        if sources[n - 1].removed {
            rest
        } else {
            rest.push(n - 1)
        }
    }
}

/// The sources of a list in which the field is found, with the field.
pub open spec fn found_in(snapshot: StoreSnapshot, list: Seq<int>, key: RefView) -> Seq<
    (int, FieldId),
>
    decreases list.len(),
{
    if list.len() == 0 {
        Seq::empty()
    } else {
        let rest = found_in(snapshot, list.drop_last(), key);
        match field_in_source(snapshot, snapshot.sources@[list.last()].id, key) {
            Some(field) => rest.push((list.last(), field)),
            None => rest,
        }
    }
}

/// The source that was chosen for a field; of several choices the last counts.
pub open spec fn chosen_source(choices: Seq<(FieldRef, SourceId)>, key: RefView) -> Option<SourceId>
    decreases choices.len(),
{
    if choices.len() == 0 {
        None
    } else if choices.last().0@ == key {
        Some(choices.last().1)
    } else {
        chosen_source(choices.drop_last(), key)
    }
}

/// What becomes of a field reference.
#[verifier::ext_equal]
pub ghost enum Resolution {
    /// The field.
    Found(FieldId),
    /// It is nowhere; the text says where it was looked for.
    Missing(Seq<char>),
    /// Several sources have it.
    Ambiguous(Seq<(int, FieldId)>),
}

/// The text of a warning about a field.
pub open spec fn warning_text(key: RefView, rest: Seq<char>) -> Seq<char> {
    key.topic + "."@ + key.field + rest
}

/// What becomes of a field reference: a choice counts first, then the only
/// source, then all sources together.
pub open spec fn resolution(
    snapshot: StoreSnapshot,
    choices: Seq<(FieldRef, SourceId)>,
    key: RefView,
) -> Resolution {
    let live = live_sources(snapshot.sources@, snapshot.sources@.len());
    match chosen_source(choices, key) {
        Some(source) => match field_in_source(snapshot, source, key) {
            Some(field) => Resolution::Found(field),
            None => Resolution::Missing(
                warning_text(key, " no longer exists in selected source"@),
            ),
        },
        None => if live.len() == 1 {
            match field_in_source(snapshot, snapshot.sources@[live[0]].id, key) {
                Some(field) => Resolution::Found(field),
                None => Resolution::Missing(warning_text(key, " not found in loaded source"@)),
            }
        } else {
            let found = found_in(snapshot, live, key);
            if found.len() == 1 {
                Resolution::Found(found[0].1)
            } else if found.len() == 0 {
                Resolution::Missing(warning_text(key, " not found in loaded sources"@))
            } else {
                Resolution::Ambiguous(found)
            }
        },
    }
}

/// A source that can be chosen for a field.
#[derive(Clone, Debug)]
pub struct SourceChoice {
    pub source: SourceId,
    pub label: String,
}

/// A field that several sources have, and the choice between them.
pub struct AmbiguousField {
    pub field: FieldRef,
    pub candidates: Vec<SourceChoice>,
    pub selected: usize,
}

#[verifier::ext_equal]
pub ghost struct AmbiguityView {
    pub field: RefView,
    pub candidates: Seq<SourceChoice>,
    pub selected: usize,
}

impl View for AmbiguousField {
    type V = AmbiguityView;

    open spec fn view(&self) -> AmbiguityView {
        AmbiguityView {
            field: self.field@,
            candidates: self.candidates@,
            selected: self.selected,
        }
    }
}

pub open spec fn ambiguity_views(v: Seq<AmbiguousField>) -> Seq<AmbiguityView> {
    Seq::new(v.len(), |i: int| v[i]@)
}

/// Whether a reference stands before another: by topic, then by field.
pub open spec fn ref_before(a: RefView, b: RefView) -> bool {
    a != b && (if a.topic == b.topic {
        text_le(a.field, b.field)
    } else {
        text_le(a.topic, b.topic)
    })
}

/// Where a reference stands or belongs in an ascending list, from `i` on.
pub open spec fn ambiguity_slot(list: Seq<AmbiguityView>, key: RefView, i: int) -> int
    decreases list.len() - i,
{
    if i < 0 || i >= list.len() {
        list.len() as int
    } else if ref_before(list[i].field, key) {
        ambiguity_slot(list, key, i + 1)
    } else {
        i
    }
}

/// The choices that a found list offers.
pub open spec fn offered_choices(snapshot: StoreSnapshot, found: Seq<(int, FieldId)>) -> Seq<
    SourceChoice,
> {
    Seq::new(
        found.len(),
        |i: int|
            SourceChoice {
                source: snapshot.sources@[found[i].0].id,
                label: snapshot.sources@[found[i].0].label,
            },
    )
}

/// The list with an ambiguity in its place; one that is there already stays.
pub open spec fn with_ambiguity(
    snapshot: StoreSnapshot,
    list: Seq<AmbiguityView>,
    key: RefView,
    found: Seq<(int, FieldId)>,
) -> Seq<AmbiguityView> {
    let at = ambiguity_slot(list, key, 0);
    if at < list.len() && list[at].field == key {
        list
    } else {
        list.insert(
            at,
            AmbiguityView {
                field: key,
                candidates: offered_choices(snapshot, found),
                selected: 0,
            },
        )
    }
}

/// What resolving has brought to light so far.
#[verifier::ext_equal]
pub ghost struct ResolverView {
    pub warnings: Seq<Seq<char>>,
    pub ambiguities: Seq<AmbiguityView>,
}

/// What holds for all references: what is loaded, what was chosen, and whether
/// ambiguities are collected.
pub ghost struct Setting {
    pub snapshot: StoreSnapshot,
    pub choices: Seq<(FieldRef, SourceId)>,
    pub collect: bool,
}

/// The field of a reference, if it is decided.
pub open spec fn resolved(setting: Setting, key: RefView) -> Option<FieldId> {
    match resolution(setting.snapshot, setting.choices, key) {
        Resolution::Found(field) => Some(field),
        _ => None,
    }
}

/// The state after a reference has been resolved: a missing field is warned
/// of, an ambiguous one is collected where that is asked for.
pub open spec fn after(state: ResolverView, setting: Setting, key: RefView) -> ResolverView {
    match resolution(setting.snapshot, setting.choices, key) {
        Resolution::Found(_) => state,
        Resolution::Missing(text) => ResolverView {
            warnings: state.warnings.push(text),
            ..state
        },
        Resolution::Ambiguous(found) => if setting.collect {
            ResolverView {
                ambiguities: with_ambiguity(
                    setting.snapshot,
                    state.ambiguities,
                    key,
                    found,
                ),
                ..state
            }
        } else {
            state
        },
    }
}

/// Finds the fields that a layout names.
pub struct Resolver<'a> {
    pub snapshot: &'a StoreSnapshot,
    pub choices: &'a Vec<(FieldRef, SourceId)>,
    pub warnings: Vec<String>,
    pub ambiguities: Vec<AmbiguousField>,
    pub collect: bool,
}

impl<'a> View for Resolver<'a> {
    type V = ResolverView;

    open spec fn view(&self) -> ResolverView {
        ResolverView {
            warnings: views(self.warnings@),
            ambiguities: ambiguity_views(self.ambiguities@),
        }
    }
}

impl<'a> Resolver<'a> {
    pub open spec fn setting(&self) -> Setting {
        Setting {
            snapshot: *self.snapshot,
            choices: self.choices@,
            collect: self.collect,
        }
    }

    pub fn new(
        snapshot: &'a StoreSnapshot,
        choices: &'a Vec<(FieldRef, SourceId)>,
        collect: bool,
    ) -> (r: Resolver<'a>)
        ensures
            r.setting() == (Setting { snapshot: *snapshot, choices: choices@, collect }),
            r@ == (ResolverView { warnings: Seq::empty(), ambiguities: Seq::empty() }),
    {
        let r = Resolver {
            snapshot,
            choices,
            warnings: Vec::new(),
            ambiguities: Vec::new(),
            collect,
        };
        proof {
            assert(views(r.warnings@) =~= Seq::<Seq<char>>::empty());
            assert(ambiguity_views(r.ambiguities@) =~= Seq::<AmbiguityView>::empty());
        }
        r
    }

    fn chosen(&self, key: &FieldRef) -> (r: Option<SourceId>)
        ensures
            r == chosen_source(self.choices@, key@),
    {
        let mut n: usize = self.choices.len();
        proof {
            assert(self.choices@.take(n as int) =~= self.choices@);
        }
        while n > 0
            invariant
                n <= self.choices@.len(),
                chosen_source(self.choices@, key@) == chosen_source(
                    self.choices@.take(n as int),
                    key@,
                ),
            decreases n,
        {
            proof {
                assert(self.choices@.take(n as int).drop_last() =~= self.choices@.take(n - 1));
                assert(self.choices@.take(n as int).last() == self.choices@[n - 1]);
            }
            if same_ref(&self.choices[n - 1].0, key) {
                return Some(self.choices[n - 1].1);
            }
            n = n - 1;
        }
        None
    }

    fn warn(&mut self, key: &FieldRef, rest: &str)
        ensures
            final(self).setting() == old(self).setting(),
            final(self)@ == (ResolverView {
                warnings: old(self)@.warnings.push(warning_text(key@, rest@)),
                ..old(self)@
            }),
    {
        let mut text = key.topic.clone();
        text.append(".");
        text.append(key.field.as_str());
        text.append(rest);
        proof {
            assert(text@ =~= warning_text(key@, rest@));
        }
        self.warnings.push(text);
        proof {
            assert(views(self.warnings@) =~= views(old(self).warnings@).push(text@));
        }
    }

    fn collect_ambiguity(&mut self, key: &FieldRef, found: &Vec<(usize, FieldId)>)
        requires
            forall|i: int|
                0 <= i < found@.len() ==> (#[trigger] found@[i]).0
                    < old(self).snapshot.sources@.len(),
        ensures
            final(self).setting() == old(self).setting(),
            final(self)@ == (ResolverView {
                ambiguities: with_ambiguity(
                    *old(self).snapshot,
                    old(self)@.ambiguities,
                    key@,
                    found_ints(found@),
                ),
                ..old(self)@
            }),
    {
        let ghost list = ambiguity_views(self.ambiguities@);
        let mut at: usize = 0;
        while at < self.ambiguities.len() && ref_precedes(&self.ambiguities[at].field, key)
            invariant
                at <= self.ambiguities@.len(),
                list == ambiguity_views(self.ambiguities@),
                ambiguity_slot(list, key@, 0) == ambiguity_slot(list, key@, at as int),
                *self == *old(self),
            ensures
                at <= self.ambiguities@.len(),
                at == ambiguity_slot(list, key@, 0),
                *self == *old(self),
            decreases self.ambiguities@.len() - at,
        {
            assert(list[at as int] == self.ambiguities@[at as int]@);
            at = at + 1;
        }
        if at < self.ambiguities.len() && same_ref(&self.ambiguities[at].field, key) {
            assert(list[at as int] == self.ambiguities@[at as int]@);
            return;
        }
        proof {
            if at < self.ambiguities@.len() {
                assert(list[at as int] == self.ambiguities@[at as int]@);
            }
        }
        let ghost all = offered_choices(*self.snapshot, found_ints(found@));
        let mut candidates: Vec<SourceChoice> = Vec::new();
        let mut i: usize = 0;
        while i < found.len()
            invariant
                i <= found@.len(),
                *self == *old(self),
                forall|k: int|
                    0 <= k < found@.len() ==> (#[trigger] found@[k]).0
                        < self.snapshot.sources@.len(),
                all == offered_choices(*self.snapshot, found_ints(found@)),
                candidates@ == all.take(i as int),
            decreases found@.len() - i,
        {
            assert(found@[i as int].0 < self.snapshot.sources@.len());
            let source = &self.snapshot.sources[found[i].0];
            candidates.push(SourceChoice { source: source.id, label: source.label.clone() });
            proof {
                assert(all.take(i + 1) =~= all.take(i as int).push(all[i as int]));
            }
            i = i + 1;
        }
        proof {
            assert(all.take(i as int) =~= all);
        }
        let entry = AmbiguousField { field: key.duplicate(), candidates, selected: 0 };
        self.ambiguities.insert(at, entry);
        proof {
            assert(ambiguity_views(self.ambiguities@) =~= list.insert(at as int, entry@));
        }
    }

    /// The field of a reference, if it is decided. A missing field is warned
    /// of; an ambiguous one is collected where that is asked for.
    pub fn resolve(&mut self, key: &FieldRef) -> (r: Option<FieldId>)
        ensures
            final(self).setting() == old(self).setting(),
            final(self)@ == after(old(self)@, old(self).setting(), key@),
            r == resolved(old(self).setting(), key@),
    {
        if let Some(source) = self.chosen(key) {
            let got = resolve_in_source(self.snapshot, source, key);
            if got.is_none() {
                self.warn(key, " no longer exists in selected source");
            }
            return got;
        }
        let live = list_live(&self.snapshot.sources);
        proof {
            assert(crate::order::as_ints(live@).len() == live@.len());
        }
        if live.len() == 1 {
            proof {
                assert(crate::order::as_ints(live@)[0] == live@[0]);
            }
            let source = self.snapshot.sources[live[0]].id;
            let got = resolve_in_source(self.snapshot, source, key);
            if got.is_none() {
                self.warn(key, " not found in loaded source");
            }
            return got;
        }
        let found = find_in_sources(self.snapshot, &live, key);
        proof {
            assert(found_ints(found@).len() == found@.len());
        }
        if found.len() == 1 {
            proof {
                assert(found_ints(found@)[0].1 == found@[0].1);
            }
            return Some(found[0].1);
        }
        if found.len() == 0 {
            self.warn(key, " not found in loaded sources");
        } else if self.collect {
            self.collect_ambiguity(key, &found);
        }
        None
    }
}

/// Whether two references are equal.
pub fn same_ref(a: &FieldRef, b: &FieldRef) -> (r: bool)
    ensures
        r == (a@ == b@),
{
    same_text(a.topic.as_str(), b.topic.as_str()) && same_text(
        a.field.as_str(),
        b.field.as_str(),
    )
}

fn ref_precedes(a: &FieldRef, b: &FieldRef) -> (r: bool)
    ensures
        r == ref_before(a@, b@),
{
    if same_ref(a, b) {
        return false;
    }
    if same_text(a.topic.as_str(), b.topic.as_str()) {
        text_at_most(a.field.as_str(), b.field.as_str())
    } else {
        text_at_most(a.topic.as_str(), b.topic.as_str())
    }
}

fn list_live(sources: &Vec<SourceInfo>) -> (r: Vec<usize>)
    ensures
        crate::order::as_ints(r@) == live_sources(sources@, sources@.len()),
        forall|i: int| 0 <= i < r@.len() ==> (#[trigger] r@[i]) < sources@.len(),
{
    let mut out: Vec<usize> = Vec::new();
    let mut i: usize = 0;
    proof {
        assert(crate::order::as_ints(out@) =~= Seq::<int>::empty());
    }
    while i < sources.len()
        invariant
            i <= sources@.len(),
            crate::order::as_ints(out@) == live_sources(sources@, i as nat),
            forall|k: int| 0 <= k < out@.len() ==> (#[trigger] out@[k]) < sources@.len(),
        decreases sources@.len() - i,
    {
        if !sources[i].removed {
            let ghost before = out@;
            out.push(i);
            proof {
                assert(crate::order::as_ints(out@) =~= crate::order::as_ints(before).push(
                    i as int,
                ));
            }
        }
        i = i + 1;
    }
    out
}

pub open spec fn found_ints(found: Seq<(usize, FieldId)>) -> Seq<(int, FieldId)> {
    Seq::new(found.len(), |i: int| (found[i].0 as int, found[i].1))
}

fn find_in_sources(snapshot: &StoreSnapshot, list: &Vec<usize>, key: &FieldRef) -> (r: Vec<
    (usize, FieldId),
>)
    requires
        forall|i: int| 0 <= i < list@.len() ==> (#[trigger] list@[i]) < snapshot.sources@.len(),
    ensures
        found_ints(r@) == found_in(*snapshot, crate::order::as_ints(list@), key@),
        forall|i: int|
            0 <= i < r@.len() ==> (#[trigger] r@[i]).0 < snapshot.sources@.len(),
{
    let ghost all = crate::order::as_ints(list@);
    let mut out: Vec<(usize, FieldId)> = Vec::new();
    let mut i: usize = 0;
    proof {
        assert(all.take(0) =~= Seq::<int>::empty());
        assert(found_ints(out@) =~= Seq::<(int, FieldId)>::empty());
    }
    while i < list.len()
        invariant
            i <= list@.len(),
            all == crate::order::as_ints(list@),
            forall|k: int|
                0 <= k < list@.len() ==> (#[trigger] list@[k]) < snapshot.sources@.len(),
            forall|k: int|
                0 <= k < out@.len() ==> (#[trigger] out@[k]).0 < snapshot.sources@.len(),
            found_ints(out@) == found_in(*snapshot, all.take(i as int), key@),
        decreases list@.len() - i,
    {
        proof {
            assert(all.take(i + 1).drop_last() =~= all.take(i as int));
            assert(all.take(i + 1).last() == list@[i as int]);
        }
        let at = list[i];
        if let Some(field) = resolve_in_source(snapshot, snapshot.sources[at].id, key) {
            let ghost before = out@;
            out.push((at, field));
            proof {
                assert(found_ints(out@) =~= found_ints(before).push((at as int, field)));
            }
        }
        i = i + 1;
    }
    proof {
        assert(all.take(i as int) =~= all);
    }
    out
}

fn find_named(snapshot: &StoreSnapshot, topic: TopicId, name: &str) -> (r: Option<usize>)
    ensures
        as_index(r) == named_field(snapshot.fields@, topic, name@, 0),
        r matches Some(i) ==> i < snapshot.fields@.len(),
{
    let mut i: usize = 0;
    while i < snapshot.fields.len()
        invariant
            i <= snapshot.fields@.len(),
            named_field(snapshot.fields@, topic, name@, 0) == named_field(
                snapshot.fields@,
                topic,
                name@,
                i as int,
            ),
        decreases snapshot.fields@.len() - i,
    {
        let f = &snapshot.fields[i];
        if f.topic == topic && !f.removed && same_text(f.name.as_str(), name) {
            return Some(i);
        }
        i = i + 1;
    }
    None
}

/// The field of a reference in one source.
pub fn resolve_in_source(snapshot: &StoreSnapshot, source: SourceId, key: &FieldRef) -> (r: Option<
    FieldId,
>)
    ensures
        r == field_in_source(*snapshot, source, key@),
{
    let s = match snapshot.find_source(source) {
        Some(s) => s,
        None => {
            return None;
        },
    };
    let topics = &snapshot.sources[s].topics;
    let mut i: usize = 0;
    while i < topics.len()
        invariant
            i <= topics@.len(),
            field_in_topics(*snapshot, topics@, key@, 0) == field_in_topics(
                *snapshot,
                topics@,
                key@,
                i as int,
            ),
            topics@ == snapshot.sources@[s as int].topics@,
            source_index(snapshot.sources@, source, 0) == Some(s as int),
        decreases topics@.len() - i,
    {
        match snapshot.find_topic(topics[i]) {
            Some(t) => {
                let topic = &snapshot.topics[t];
                if !topic.removed && same_text(topic.name.as_str(), key.topic.as_str()) {
                    return match find_named(snapshot, topics[i], key.field.as_str()) {
                        Some(f) => Some(snapshot.fields[f].id),
                        None => None,
                    };
                }
            },
            None => {
                return None;
            },
        }
        i = i + 1;
    }
    None
}

} // verus!
