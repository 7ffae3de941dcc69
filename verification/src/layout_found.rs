//! Which of the loaded fields a layout's references lead to.

use crate::layout_doc::{FieldRef, RefView};
use crate::layout_resolve::{
    after, ambiguity_slot, chosen_source, field_in_source, field_in_topics, found_in, live_sources,
    named_field, offered_choices, ref_before, resolution, resolved, Resolution, ResolverView,
    Setting,
};
use crate::snapshot::{source_index, topic_index, FieldId, SourceId, StoreSnapshot, TopicId};
use vstd::prelude::*;

verus! {

/// Whether the source at `s` has the field `f` under these names: one of its
/// topics that has not been removed has the name of the topic, and the field,
/// which has not been removed either, belongs to it.
pub open spec fn holds(snapshot: StoreSnapshot, s: int, key: RefView, f: FieldId) -> bool {
    exists|t: int, n: int| #[trigger] holds_at(snapshot, s, key, f, t, n)
}

/// Whether the topic at `t` and the field at `n` are those.
pub open spec fn holds_at(
    snapshot: StoreSnapshot,
    s: int,
    key: RefView,
    f: FieldId,
    t: int,
    n: int,
) -> bool {
    &&& 0 <= s < snapshot.sources@.len()
    &&& 0 <= t < snapshot.topics@.len()
    &&& 0 <= n < snapshot.fields@.len()
    &&& snapshot.sources@[s].topics@.contains(snapshot.topics@[t].id)
    &&& !snapshot.topics@[t].removed
    &&& snapshot.topics@[t].name@ == key.topic
    &&& snapshot.fields@[n].topic == snapshot.topics@[t].id
    &&& !snapshot.fields@[n].removed
    &&& snapshot.fields@[n].name@ == key.field
    &&& snapshot.fields@[n].id == f
}

/// Whether the source at `s` is loaded.
pub open spec fn is_loaded(snapshot: StoreSnapshot, s: int) -> bool {
    0 <= s < snapshot.sources@.len() && !snapshot.sources@[s].removed
}

/// Whether names and numbers tell the contents of a snapshot apart: no two
/// sources or topics have the same number, no two topics of a source or fields
/// of a topic that are there have the same name, and every topic of a source
/// exists.
pub open spec fn is_orderly(snapshot: StoreSnapshot) -> bool {
    &&& forall|a: int, b: int|
        0 <= a < snapshot.sources@.len() && 0 <= b < snapshot.sources@.len() && a != b
            ==> (#[trigger] snapshot.sources@[a]).id != (#[trigger] snapshot.sources@[b]).id
    &&& forall|a: int, b: int|
        0 <= a < snapshot.topics@.len() && 0 <= b < snapshot.topics@.len() && a != b
            ==> (#[trigger] snapshot.topics@[a]).id != (#[trigger] snapshot.topics@[b]).id
    &&& forall|s: int, i: int|
        0 <= s < snapshot.sources@.len() && 0 <= i < snapshot.sources@[s].topics@.len()
            ==> exists|t: int|
            0 <= t < snapshot.topics@.len() && (#[trigger] snapshot.topics@[t]).id
                == #[trigger] snapshot.sources@[s].topics@[i]
    &&& forall|s: int, a: int, b: int|
        0 <= s < snapshot.sources@.len() && 0 <= a < snapshot.topics@.len() && 0 <= b
            < snapshot.topics@.len() && a != b && snapshot.sources@[s].topics@.contains(
            (#[trigger] snapshot.topics@[a]).id,
        ) && #[trigger] snapshot.sources@[s].topics@.contains((#[trigger] snapshot.topics@[b]).id)
            && !snapshot.topics@[a].removed && !snapshot.topics@[b].removed
            ==> snapshot.topics@[a].name@ != snapshot.topics@[b].name@
    &&& forall|a: int, b: int|
        0 <= a < snapshot.fields@.len() && 0 <= b < snapshot.fields@.len() && a != b
            && !snapshot.fields@[a].removed && !snapshot.fields@[b].removed
            && snapshot.fields@[a].topic == snapshot.fields@[b].topic
            ==> (#[trigger] snapshot.fields@[a]).name@ != (#[trigger] snapshot.fields@[b]).name@
}

proof fn lemma_topic_index(snapshot: StoreSnapshot, id: TopicId, i: int)
    requires
        0 <= i <= snapshot.topics@.len(),
    ensures
        match topic_index(snapshot.topics@, id, i) {
            Some(t) => i <= t < snapshot.topics@.len() && snapshot.topics@[t].id == id,
            None => forall|t: int|
                i <= t < snapshot.topics@.len() ==> (#[trigger] snapshot.topics@[t]).id != id,
        },
    decreases snapshot.topics@.len() - i,
{
    if i < snapshot.topics@.len() && snapshot.topics@[i].id != id {
        lemma_topic_index(snapshot, id, i + 1);
    }
}

proof fn lemma_source_index(snapshot: StoreSnapshot, id: SourceId, i: int)
    requires
        0 <= i <= snapshot.sources@.len(),
    ensures
        match source_index(snapshot.sources@, id, i) {
            Some(s) => i <= s < snapshot.sources@.len() && snapshot.sources@[s].id == id,
            None => forall|s: int|
                i <= s < snapshot.sources@.len() ==> (#[trigger] snapshot.sources@[s]).id != id,
        },
    decreases snapshot.sources@.len() - i,
{
    if i < snapshot.sources@.len() && snapshot.sources@[i].id != id {
        lemma_source_index(snapshot, id, i + 1);
    }
}

proof fn lemma_named_field(snapshot: StoreSnapshot, topic: TopicId, name: Seq<char>, i: int)
    requires
        0 <= i <= snapshot.fields@.len(),
    ensures
        match named_field(snapshot.fields@, topic, name, i) {
            Some(n) => i <= n < snapshot.fields@.len() && snapshot.fields@[n].topic == topic
                && !snapshot.fields@[n].removed && snapshot.fields@[n].name@ == name,
            None => forall|n: int|
                i <= n < snapshot.fields@.len() ==> !((#[trigger] snapshot.fields@[n]).topic
                    == topic && !snapshot.fields@[n].removed && snapshot.fields@[n].name@ == name),
        },
    decreases snapshot.fields@.len() - i,
{
    if i < snapshot.fields@.len() {
        lemma_named_field(snapshot, topic, name, i + 1);
    }
}

proof fn lemma_field_in_topics(snapshot: StoreSnapshot, s: int, key: RefView, i: int)
    requires
        is_orderly(snapshot),
        0 <= s < snapshot.sources@.len(),
        0 <= i <= snapshot.sources@[s].topics@.len(),
    ensures
        match field_in_topics(snapshot, snapshot.sources@[s].topics@, key, i) {
            Some(f) => holds(snapshot, s, key, f),
            None => forall|f: FieldId, t: int, n: int| #[trigger]
                holds_at(snapshot, s, key, f, t, n) ==> forall|k: int|
                    i <= k < snapshot.sources@[s].topics@.len()
                        ==> #[trigger] snapshot.sources@[s].topics@[k] != snapshot.topics@[t].id,
        },
    decreases snapshot.sources@[s].topics@.len() - i,
{
    let topics = snapshot.sources@[s].topics@;
    if i < topics.len() {
        lemma_topic_index(snapshot, topics[i], 0);
        let there = choose|t: int|
            0 <= t < snapshot.topics@.len() && (#[trigger] snapshot.topics@[t]).id == topics[i];
        let t = topic_index(snapshot.topics@, topics[i], 0).unwrap();
        assert(topics.contains(snapshot.topics@[t].id));
        if snapshot.topics@[t].removed || snapshot.topics@[t].name@ != key.topic {
            lemma_field_in_topics(snapshot, s, key, i + 1);
            if field_in_topics(snapshot, topics, key, i) is None {
                assert forall|f: FieldId, u: int, n: int| #[trigger]
                    holds_at(snapshot, s, key, f, u, n) implies forall|k: int|
                    i <= k < topics.len() ==> #[trigger] topics[k] != snapshot.topics@[u].id by {
                    assert(u != t);
                    assert(snapshot.topics@[u].id != snapshot.topics@[t].id);
                }
            }
        } else {
            lemma_named_field(snapshot, topics[i], key.field, 0);
            match named_field(snapshot.fields@, topics[i], key.field, 0) {
                Some(n) => {
                    assert(holds_at(snapshot, s, key, snapshot.fields@[n].id, t, n));
                },
                None => {
                    assert forall|f: FieldId, u: int, n: int|
                        !#[trigger] holds_at(snapshot, s, key, f, u, n) by {
                        if holds_at(snapshot, s, key, f, u, n) {
                            if u != t {
                                assert(topics.contains(snapshot.topics@[u].id));
                                assert(snapshot.topics@[u].name@ != snapshot.topics@[t].name@);
                            }
                            assert(snapshot.fields@[n].topic == topics[i]);
                        }
                    }
                },
            }
        }
    }
}

/// A source finds the field that it has under the names, and none where it has
/// none.
pub proof fn fields_are_found_by_their_names(
    snapshot: StoreSnapshot,
    s: int,
    key: RefView,
    f: FieldId,
)
    requires
        is_orderly(snapshot),
        0 <= s < snapshot.sources@.len(),
    ensures
        field_in_source(snapshot, snapshot.sources@[s].id, key) == Some(f) <==> holds(
            snapshot,
            s,
            key,
            f,
        ),
{
    let topics = snapshot.sources@[s].topics@;
    lemma_source_index(snapshot, snapshot.sources@[s].id, 0);
    let found = source_index(snapshot.sources@, snapshot.sources@[s].id, 0).unwrap();
    if found != s {
        assert(snapshot.sources@[found].id != snapshot.sources@[s].id);
    }
    lemma_field_in_topics(snapshot, s, key, 0);
    if holds(snapshot, s, key, f) {
        let (t, n) = choose|t: int, n: int| #[trigger] holds_at(snapshot, s, key, f, t, n);
        let k = topics.index_of(snapshot.topics@[t].id);
        assert(topics[k] == snapshot.topics@[t].id);
        match field_in_topics(snapshot, topics, key, 0) {
            Some(g) => {
                let (u, m) = choose|u: int, m: int| #[trigger]
                    holds_at(snapshot, s, key, g, u, m);
                if u != t {
                    assert(topics.contains(snapshot.topics@[u].id));
                    assert(snapshot.topics@[u].name@ != snapshot.topics@[t].name@);
                }
                if m != n {
                    assert(snapshot.fields@[m].name@ != snapshot.fields@[n].name@);
                }
            },
            None => {},
        }
    }
}

proof fn lemma_live_sources(snapshot: StoreSnapshot, n: nat)
    requires
        n <= snapshot.sources@.len(),
    ensures
        ({
            let live = live_sources(snapshot.sources@, n);
            &&& live.len() <= n
            &&& forall|i: int|
                0 <= i < live.len() ==> 0 <= #[trigger] live[i] < n
                    && !snapshot.sources@[live[i]].removed
            &&& forall|i: int, j: int| 0 <= i < j < live.len() ==> live[i] < live[j]
            &&& forall|s: int|
                0 <= s < n && !(#[trigger] snapshot.sources@[s]).removed ==> live.contains(s)
        }),
    decreases n,
{
    if n > 0 {
        lemma_live_sources(snapshot, (n - 1) as nat);
        let rest = live_sources(snapshot.sources@, (n - 1) as nat);
        let live = live_sources(snapshot.sources@, n);
        assert forall|s: int|
            0 <= s < n && !(#[trigger] snapshot.sources@[s]).removed implies live.contains(s) by {
            if s < n - 1 {
                assert(rest.contains(s));
                let i = rest.index_of(s);
                assert(live[i] == s);
            } else {
                assert(live[live.len() - 1] == s);
            }
        }
    }
}

proof fn lemma_found_in(snapshot: StoreSnapshot, list: Seq<int>, key: RefView)
    requires
        is_orderly(snapshot),
        forall|i: int| 0 <= i < list.len() ==> 0 <= #[trigger] list[i] < snapshot.sources@.len(),
        forall|i: int, j: int| 0 <= i < j < list.len() ==> list[i] < list[j],
    ensures
        ({
            let found = found_in(snapshot, list, key);
            &&& forall|i: int|
                0 <= i < found.len() ==> list.contains((#[trigger] found[i]).0) && holds(
                    snapshot,
                    found[i].0,
                    key,
                    found[i].1,
                )
            &&& forall|i: int, j: int| 0 <= i < j < found.len() ==> found[i].0 < found[j].0
            &&& forall|s: int, f: FieldId| #[trigger]
                holds(snapshot, s, key, f) && list.contains(s) ==> found.contains((s, f))
        }),
    decreases list.len(),
{
    if list.len() > 0 {
        let short = list.drop_last();
        let last = list.last();
        let rest = found_in(snapshot, short, key);
        let found = found_in(snapshot, list, key);
        lemma_found_in(snapshot, short, key);
        assert(list[list.len() - 1] == last);
        assert forall|x: int| short.contains(x) implies #[trigger] list.contains(x) && x < last by {
            let i = short.index_of(x);
            assert(list[i] == x);
        }
        assert(list.contains(last));
        let here = field_in_source(snapshot, snapshot.sources@[last].id, key);
        if here is Some {
            fields_are_found_by_their_names(snapshot, last, key, here.unwrap());
            assert(found[found.len() - 1] == (last, here.unwrap()));
        }
        assert forall|i: int| 0 <= i < found.len() implies list.contains((#[trigger] found[i]).0)
            && holds(snapshot, found[i].0, key, found[i].1) by {
            if i < rest.len() {
                assert(found[i] == rest[i]);
                assert(short.contains(rest[i].0));
            }
        }
        assert forall|i: int, j: int| 0 <= i < j < found.len() implies found[i].0 < found[j].0 by {
            assert(found[i] == rest[i]);
            assert(short.contains(rest[i].0));
            if j < rest.len() {
                assert(found[j] == rest[j]);
            }
        }
        assert forall|s: int, f: FieldId| #[trigger]
            holds(snapshot, s, key, f) && list.contains(s) implies found.contains((s, f)) by {
            let i = list.index_of(s);
            if i < short.len() {
                assert(short[i] == s);
                assert(rest.contains((s, f)));
                let k = rest.index_of((s, f));
                assert(found[k] == (s, f));
            } else {
                fields_are_found_by_their_names(snapshot, s, key, f);
            }
        }
    }
}

proof fn lemma_no_choice(choices: Seq<(FieldRef, SourceId)>, key: RefView)
    requires
        forall|i: int| 0 <= i < choices.len() ==> (#[trigger] choices[i]).0@ != key,
    ensures
        chosen_source(choices, key) is None,
    decreases choices.len(),
{
    if choices.len() > 0 {
        let short = choices.drop_last();
        assert forall|i: int| 0 <= i < short.len() implies (#[trigger] short[i]).0@ != key by {
            assert(choices[i] == short[i]);
        }
        lemma_no_choice(short, key);
        assert(choices[choices.len() - 1].0@ != key);
    }
}

proof fn lemma_chosen(choices: Seq<(FieldRef, SourceId)>, key: RefView, at: int)
    requires
        0 <= at < choices.len(),
        choices[at].0@ == key,
        forall|i: int| at < i < choices.len() ==> (#[trigger] choices[i]).0@ != key,
    ensures
        chosen_source(choices, key) == Some(choices[at].1),
    decreases choices.len(),
{
    if at < choices.len() - 1 {
        let short = choices.drop_last();
        assert(choices[choices.len() - 1].0@ != key);
        assert forall|i: int| at < i < short.len() implies (#[trigger] short[i]).0@ != key by {
            assert(choices[i] == short[i]);
        }
        lemma_chosen(short, key, at);
    }
}

proof fn lemma_everywhere(snapshot: StoreSnapshot, key: RefView)
    requires
        is_orderly(snapshot),
    ensures
        ({
            let live = live_sources(snapshot.sources@, snapshot.sources@.len());
            let found = found_in(snapshot, live, key);
            &&& forall|i: int|
                0 <= i < found.len() ==> is_loaded(snapshot, (#[trigger] found[i]).0) && holds(
                    snapshot,
                    found[i].0,
                    key,
                    found[i].1,
                )
            &&& forall|i: int, j: int| 0 <= i < j < found.len() ==> found[i].0 < found[j].0
            &&& forall|s: int, f: FieldId| #[trigger]
                holds(snapshot, s, key, f) && is_loaded(snapshot, s) ==> found.contains((s, f))
            &&& live.len() == 1 ==> is_loaded(snapshot, live[0]) && forall|s: int|
                is_loaded(snapshot, s) ==> s == live[0]
        }),
{
    let live = live_sources(snapshot.sources@, snapshot.sources@.len());
    lemma_live_sources(snapshot, snapshot.sources@.len());
    lemma_found_in(snapshot, live, key);
    let found = found_in(snapshot, live, key);
    assert forall|i: int| 0 <= i < found.len() implies is_loaded(
        snapshot,
        (#[trigger] found[i]).0,
    ) by {
        let k = live.index_of(found[i].0);
        assert(live[k] == found[i].0);
    }
    assert forall|s: int| is_loaded(snapshot, s) implies live.contains(s) by {
        assert(!snapshot.sources@[s].removed);
    }
    assert forall|s: int, f: FieldId| #[trigger]
        holds(snapshot, s, key, f) && is_loaded(snapshot, s) implies found.contains((s, f)) by {
        assert(live.contains(s));
    }
    if live.len() == 1 {
        assert(!snapshot.sources@[live[0]].removed);
        assert forall|s: int| is_loaded(snapshot, s) implies s == live[0] by {
            assert(live.contains(s));
        }
    }
}

/// Where no source was chosen for a reference and one loaded source alone has the
/// field, however many are loaded, the reference leads to that field, with
/// nothing to warn of and nothing to choose.
pub proof fn the_only_field_of_that_name_is_found(
    setting: Setting,
    state: ResolverView,
    key: RefView,
    s: int,
    f: FieldId,
)
    requires
        is_orderly(setting.snapshot),
        forall|i: int|
            0 <= i < setting.choices.len() ==> (#[trigger] setting.choices[i]).0@ != key,
        is_loaded(setting.snapshot, s),
        holds(setting.snapshot, s, key, f),
        forall|other: int, g: FieldId|
            is_loaded(setting.snapshot, other) && #[trigger] holds(
                setting.snapshot,
                other,
                key,
                g,
            ) ==> other == s,
    ensures
        resolved(setting, key) == Some(f),
        after(state, setting, key) == state,
{
    let snapshot = setting.snapshot;
    let live = live_sources(snapshot.sources@, snapshot.sources@.len());
    let found = found_in(snapshot, live, key);
    lemma_no_choice(setting.choices, key);
    lemma_everywhere(snapshot, key);
    fields_are_found_by_their_names(snapshot, s, key, f);
    assert(found.contains((s, f)));
    let at = found.index_of((s, f));
    assert(found[at] == (s, f));
    if found.len() > 1 {
        assert(holds(snapshot, found[0].0, key, found[0].1));
        assert(holds(snapshot, found[1].0, key, found[1].1));
        assert(found[0].0 < found[1].0);
    }
    assert(found.len() == 1);
}

/// Where no source was chosen and no loaded source has the field, the reference
/// leads nowhere, and one warning that begins with its names tells so.
pub proof fn missing_fields_are_warned_of(setting: Setting, state: ResolverView, key: RefView)
    requires
        is_orderly(setting.snapshot),
        forall|i: int|
            0 <= i < setting.choices.len() ==> (#[trigger] setting.choices[i]).0@ != key,
        forall|s: int, f: FieldId|
            is_loaded(setting.snapshot, s) ==> !#[trigger] holds(setting.snapshot, s, key, f),
    ensures
        resolved(setting, key) is None,
        after(state, setting, key).ambiguities == state.ambiguities,
        after(state, setting, key).warnings.len() == state.warnings.len() + 1,
        after(state, setting, key).warnings.drop_last() == state.warnings,
        (key.topic + "."@ + key.field).is_prefix_of(after(state, setting, key).warnings.last()),
{
    let snapshot = setting.snapshot;
    let live = live_sources(snapshot.sources@, snapshot.sources@.len());
    let found = found_in(snapshot, live, key);
    lemma_no_choice(setting.choices, key);
    lemma_everywhere(snapshot, key);
    if found.len() > 0 {
        assert(holds(snapshot, found[0].0, key, found[0].1));
    }
    if live.len() == 1 {
        let here = field_in_source(snapshot, snapshot.sources@[live[0]].id, key);
        if here is Some {
            fields_are_found_by_their_names(snapshot, live[0], key, here.unwrap());
        }
    }
    let next = after(state, setting, key);
    assert(next.warnings.drop_last() =~= state.warnings);
    assert(resolution(snapshot, setting.choices, key) is Missing);
}

/// A choice decides: the reference leads to the field of the source that was
/// chosen last for it, whatever the others have.
pub proof fn chosen_sources_decide(
    setting: Setting,
    state: ResolverView,
    key: RefView,
    at: int,
    s: int,
    f: FieldId,
)
    requires
        is_orderly(setting.snapshot),
        0 <= at < setting.choices.len(),
        setting.choices[at].0@ == key,
        forall|i: int|
            at < i < setting.choices.len() ==> (#[trigger] setting.choices[i]).0@ != key,
        0 <= s < setting.snapshot.sources@.len(),
        setting.snapshot.sources@[s].id == setting.choices[at].1,
        holds(setting.snapshot, s, key, f),
    ensures
        resolved(setting, key) == Some(f),
        after(state, setting, key) == state,
{
    lemma_chosen(setting.choices, key, at);
    fields_are_found_by_their_names(setting.snapshot, s, key, f);
}

/// Whether the choice at `n` has been added to the list, and offers exactly the
/// loaded sources that have the field.
pub open spec fn is_listed(
    snapshot: StoreSnapshot,
    before: ResolverView,
    after: ResolverView,
    key: RefView,
    n: int,
) -> bool {
    let list = after.ambiguities;
    &&& 0 <= n < list.len()
    &&& list[n].field == key
    &&& list.remove(n) == before.ambiguities
    &&& list[n].selected == 0
    &&& forall|s: int| #[trigger]
        is_loaded(snapshot, s) && (exists|h: FieldId| #[trigger] holds(snapshot, s, key, h))
            <==> exists|c: int|
            0 <= c < list[n].candidates.len() && #[trigger] offers(
                snapshot,
                list[n].candidates[c],
                s,
            )
}

/// Where no source was chosen and several loaded sources have the field, the
/// reference leads nowhere, without a warning. Where choices are collected, it is
/// then listed with exactly those sources to choose from, in their order and
/// under their labels.
pub proof fn ambiguous_fields_are_left_to_choose(
    setting: Setting,
    state: ResolverView,
    key: RefView,
    a: int,
    b: int,
    f: FieldId,
    g: FieldId,
)
    requires
        is_orderly(setting.snapshot),
        forall|i: int|
            0 <= i < setting.choices.len() ==> (#[trigger] setting.choices[i]).0@ != key,
        is_loaded(setting.snapshot, a),
        is_loaded(setting.snapshot, b),
        a != b,
        holds(setting.snapshot, a, key, f),
        holds(setting.snapshot, b, key, g),
        forall|i: int|
            0 <= i < state.ambiguities.len() ==> (#[trigger] state.ambiguities[i]).field != key,
    ensures
        resolved(setting, key) is None,
        after(state, setting, key).warnings == state.warnings,
        !setting.collect ==> after(state, setting, key) == state,
        setting.collect ==> exists|n: int| #[trigger]
            is_listed(setting.snapshot, state, after(state, setting, key), key, n),
{
    let snapshot = setting.snapshot;
    let live = live_sources(snapshot.sources@, snapshot.sources@.len());
    let found = found_in(snapshot, live, key);
    lemma_no_choice(setting.choices, key);
    lemma_everywhere(snapshot, key);
    assert(found.contains((a, f)) && found.contains((b, g)));
    let i = found.index_of((a, f));
    let j = found.index_of((b, g));
    assert(found[i] != found[j]);
    assert(found.len() >= 2);
    assert(resolution(snapshot, setting.choices, key) == Resolution::Ambiguous(found));
    if setting.collect {
        let list = after(state, setting, key).ambiguities;
        let n = ambiguity_slot(state.ambiguities, key, 0);
        lemma_slot_in_range(state.ambiguities, key, 0);
        if n < state.ambiguities.len() {
            assert(state.ambiguities[n].field != key);
        }
        assert(list[n].field == key);
        assert(list.remove(n) =~= state.ambiguities);
        let offered = list[n].candidates;
        assert(offered == offered_choices(snapshot, found));
        assert forall|s: int| #[trigger] is_loaded(snapshot, s) && (exists|h: FieldId| #[trigger]
            holds(snapshot, s, key, h)) <==> exists|c: int|
            0 <= c < offered.len() && #[trigger] offers(snapshot, offered[c], s) by {
            if is_loaded(snapshot, s) && exists|h: FieldId| #[trigger] holds(snapshot, s, key, h) {
                let h = choose|h: FieldId| #[trigger] holds(snapshot, s, key, h);
                assert(found.contains((s, h)));
                let c = found.index_of((s, h));
                assert(offers(snapshot, offered[c], s));
            }
            if exists|c: int| 0 <= c < offered.len() && #[trigger] offers(snapshot, offered[c], s) {
                let c = choose|c: int|
                    0 <= c < offered.len() && #[trigger] offers(snapshot, offered[c], s);
                assert(is_loaded(snapshot, found[c].0));
                if found[c].0 != s {
                    assert(snapshot.sources@[found[c].0].id != snapshot.sources@[s].id);
                }
                assert(holds(snapshot, s, key, found[c].1));
            }
        }
        assert(is_listed(snapshot, state, after(state, setting, key), key, n));
    }
}

/// Whether a choice stands for the source at `s`.
pub open spec fn offers(
    snapshot: StoreSnapshot,
    choice: crate::layout_resolve::SourceChoice,
    s: int,
) -> bool {
    &&& 0 <= s < snapshot.sources@.len()
    &&& choice.source == snapshot.sources@[s].id
    &&& choice.label@ == snapshot.sources@[s].label@
}

proof fn lemma_slot_in_range(
    list: Seq<crate::layout_resolve::AmbiguityView>,
    key: RefView,
    i: int,
)
    requires
        0 <= i <= list.len(),
    ensures
        i <= ambiguity_slot(list, key, i) <= list.len(),
    decreases list.len() - i,
{
    if i < list.len() && ref_before(list[i].field, key) {
        lemma_slot_in_range(list, key, i + 1);
    }
}

} // verus!
