//! What a search finds, and in which order.

use crate::fuzzy::{
    byte_len, char_width, first_occurrence, fuzzy_score, next_index, spread_end, stands_at,
    token_score,
};
use crate::graph::{optional_text, SelectorView};
use crate::order::{order_of, sorted_by, sorting_keeps_every_item, stable_order_is_sorted, Ranked};
use crate::picker::{
    admits_source, all_hits, candidate_text, field_choices, field_hit, field_names, fields_under,
    found_fields, hit_ranks, numeric_column, numeric_fields, numeric_topics, offered_fields,
    offered_sources, offered_topics, open_topic, retargeted, source_hits, source_topics,
    topic_fields, topic_hits, topic_name, topic_names, HitView,
};
use crate::registry::{
    alias_score, all_templates, best_score, entry_ranks, fitting_entries, found_templates,
    same_ignoring_case, template_score, TemplateView,
};
use crate::snapshot::{
    column_index, topic_index, Column, FieldInfo, SourceInfo, StoreSnapshot, TopicId, TopicInfo,
};
use crate::text::{is_space, sorted_texts, text_le, trimmed, unique};
use vstd::prelude::*;

verus! {

/// Whether the characters of a token come in a text one behind the other, at the
/// places `at`.
pub open spec fn comes_at(hay: Seq<char>, token: Seq<char>, at: Seq<int>) -> bool {
    &&& at.len() == token.len()
    &&& forall|i: int| 0 <= i < at.len() ==> 0 <= #[trigger] at[i] < hay.len() && hay[at[i]]
        == token[i]
    &&& forall|i: int, j: int| 0 <= i < j < at.len() ==> #[trigger] at[i] < #[trigger] at[j]
}

proof fn lemma_next(hay: Seq<char>, c: char, i: int)
    requires
        0 <= i,
    ensures
        match next_index(hay, c, i) {
            Some(at) => i <= at < hay.len() && hay[at] == c && forall|k: int|
                i <= k < at ==> #[trigger] hay[k] != c,
            None => forall|k: int| i <= k < hay.len() ==> #[trigger] hay[k] != c,
        },
    decreases hay.len() - i,
{
    if i < hay.len() && hay[i] != c {
        lemma_next(hay, c, i + 1);
    }
}

proof fn lemma_spread_is_earliest(hay: Seq<char>, token: Seq<char>, at: Seq<int>)
    requires
        token.len() > 0,
        comes_at(hay, token, at),
    ensures
        spread_end(hay, token) matches Some(end) && end <= at.last(),
    decreases token.len(),
{
    let last = token.len() - 1;
    assert(hay[at[last]] == token[last]);
    if token.len() == 1 {
        lemma_next(hay, token[0], 0);
    } else {
        let short = token.drop_last();
        let before = at.drop_last();
        assert(comes_at(hay, short, before)) by {
            assert forall|i: int| 0 <= i < before.len() implies 0 <= #[trigger] before[i]
                < hay.len() && hay[before[i]] == short[i] by {
                assert(before[i] == at[i]);
            }
            assert forall|i: int, j: int| 0 <= i < j < before.len() implies #[trigger] before[i]
                < #[trigger] before[j] by {
                assert(at[i] < at[j]);
            }
        }
        lemma_spread_is_earliest(hay, short, before);
        let end = spread_end(hay, short).unwrap();
        assert(at[last - 1] < at[last]);
        lemma_spread_in_range(hay, short);
        lemma_next(hay, token.last(), end + 1);
    }
}

proof fn lemma_spread_in_range(hay: Seq<char>, token: Seq<char>)
    ensures
        spread_end(hay, token) matches Some(end) ==> 0 <= end < hay.len(),
    decreases token.len(),
{
    if token.len() == 1 {
        lemma_next(hay, token[0], 0);
    } else if token.len() > 1 {
        lemma_spread_in_range(hay, token.drop_last());
        if let Some(end) = spread_end(hay, token.drop_last()) {
            lemma_next(hay, token.last(), end + 1);
        }
    }
}

proof fn lemma_spread_comes(hay: Seq<char>, token: Seq<char>) -> (at: Seq<int>)
    requires
        spread_end(hay, token) is Some,
    ensures
        comes_at(hay, token, at),
        at.len() > 0,
        at.last() == spread_end(hay, token).unwrap(),
    decreases token.len(),
{
    if token.len() == 1 {
        lemma_next(hay, token[0], 0);
        seq![next_index(hay, token[0], 0).unwrap()]
    } else {
        let short = token.drop_last();
        let before = lemma_spread_comes(hay, short);
        let end = spread_end(hay, short).unwrap();
        lemma_next(hay, token.last(), end + 1);
        let at = before.push(spread_end(hay, token).unwrap());
        assert forall|i: int| 0 <= i < at.len() implies 0 <= #[trigger] at[i] < hay.len()
            && hay[at[i]] == token[i] by {
            if i < before.len() {
                assert(at[i] == before[i]);
                assert(short[i] == token[i]);
            }
        }
        assert forall|i: int, j: int| 0 <= i < j < at.len() implies #[trigger] at[i]
            < #[trigger] at[j] by {
            assert(at[i] == before[i]);
            if j < before.len() {
                assert(at[j] == before[j]);
            } else if i < before.len() - 1 {
                assert(before[i] < before[before.len() - 1]);
            }
        }
        at
    }
}

proof fn lemma_occurrence(hay: Seq<char>, needle: Seq<char>, i: int)
    requires
        0 <= i,
    ensures
        match first_occurrence(hay, needle, i) {
            Some(at) => i <= at && stands_at(hay, needle, at) && forall|k: int|
                i <= k < at ==> !#[trigger] stands_at(hay, needle, k),
            None => forall|k: int| i <= k ==> !#[trigger] stands_at(hay, needle, k),
        },
    decreases hay.len() + 1 - i,
{
    if i <= hay.len() && !stands_at(hay, needle, i) {
        lemma_occurrence(hay, needle, i + 1);
    }
}

proof fn lemma_byte_len(text: Seq<char>)
    ensures
        text.len() <= byte_len(text) <= 4 * text.len(),
    decreases text.len(),
{
    if text.len() > 0 {
        lemma_byte_len(text.drop_last());
        assert(1 <= char_width(text.last()) <= 4);
    }
}

proof fn lemma_bytes_split(a: Seq<char>, b: Seq<char>)
    ensures
        byte_len(a + b) == byte_len(a) + byte_len(b),
    decreases b.len(),
{
    if b.len() == 0 {
        assert(a + b =~= a);
    } else {
        lemma_bytes_split(a, b.drop_last());
        assert((a + b).drop_last() =~= a + b.drop_last());
        assert((a + b).last() == b.last());
    }
}

/// A word of a search fits a text exactly where its characters come in the text
/// one behind the other.
pub proof fn words_fit_where_their_letters_come_in_order(token: Seq<char>, candidate: Seq<char>)
    requires
        token.len() > 0,
        candidate.len() <= 0x1000_0000,
    ensures
        token_score(token, candidate) is Some <==> exists|at: Seq<int>| #[trigger]
            comes_at(candidate, token, at),
{
    lemma_occurrence(candidate, token, 0);
    lemma_byte_len(candidate);
    match first_occurrence(candidate, token, 0) {
        Some(start) => {
            let at = Seq::new(token.len(), |i: int| start + i);
            assert forall|i: int| 0 <= i < at.len() implies 0 <= #[trigger] at[i]
                < candidate.len() && candidate[at[i]] == token[i] by {
                assert(candidate.subrange(start, start + token.len())[i] == token[i]);
            }
            assert(comes_at(candidate, token, at));
            lemma_byte_len(candidate.take(start));
            let before = candidate.take(start);
            let behind = candidate.skip(start + token.len());
            assert(candidate =~= before + token + behind);
            lemma_bytes_split(before + token, behind);
            lemma_bytes_split(before, token);
        },
        None => {
            if exists|at: Seq<int>| #[trigger] comes_at(candidate, token, at) {
                let at = choose|at: Seq<int>| #[trigger] comes_at(candidate, token, at);
                lemma_spread_is_earliest(candidate, token, at);
            }
            if spread_end(candidate, token) is Some {
                let at = lemma_spread_comes(candidate, token);
                assert(hay_holds(candidate, at[0], token[0]));
                lemma_next(candidate, token[0], 0);
                assert(at[0] < candidate.len());
                lemma_steps(candidate, token, at, token.len() - 1);
            }
        },
    }
}

spec fn hay_holds(hay: Seq<char>, i: int, c: char) -> bool {
    0 <= i < hay.len() && hay[i] == c
}

/// A text that is the word itself fits best of all, and every other text that
/// holds it fits less well.
pub proof fn the_word_itself_fits_best(token: Seq<char>, candidate: Seq<char>)
    requires
        token.len() > 0,
        candidate.len() <= 0x1000_0000,
        token_score(token, candidate) is Some,
    ensures
        token_score(token, candidate) == Some(0nat) <==> candidate == token,
{
    lemma_occurrence(candidate, token, 0);
    lemma_byte_len(candidate);
    if candidate == token {
        assert(candidate.subrange(0, token.len() as int) =~= token);
        assert(stands_at(candidate, token, 0));
        assert(first_occurrence(candidate, token, 0) == Some(0int));
        assert(candidate.take(0) =~= Seq::<char>::empty());
    }
    match first_occurrence(candidate, token, 0) {
        Some(at) => {
            let before = candidate.take(at);
            let behind = candidate.skip(at + token.len());
            assert(candidate =~= before + token + behind);
            lemma_bytes_split(before + token, behind);
            lemma_bytes_split(before, token);
            lemma_byte_len(before);
            lemma_byte_len(behind);
            if before.len() == 0 && behind.len() == 0 {
                assert(candidate =~= token);
            }
        },
        None => {
            let at = lemma_spread_comes(candidate, token);
            lemma_next(candidate, token[0], 0);
            let start = next_index(candidate, token[0], 0).unwrap();
            assert(hay_holds(candidate, at[0], token[0]));
            assert(start <= at[0]);
            lemma_steps(candidate, token, at, token.len() - 1);
        },
    }
}

proof fn lemma_steps(hay: Seq<char>, token: Seq<char>, at: Seq<int>, i: int)
    requires
        comes_at(hay, token, at),
        0 <= i < at.len(),
    ensures
        at[i] >= at[0] + i,
    decreases i,
{
    if i > 0 {
        lemma_steps(hay, token, at, i - 1);
        assert(at[i - 1] < at[i]);
    }
}

/// Of two texts of the same size that hold the word, the one that holds it
/// earlier fits better.
pub proof fn earlier_words_fit_better(
    token: Seq<char>,
    a: Seq<char>,
    b: Seq<char>,
    i: int,
    j: int,
)
    requires
        token.len() > 0,
        a.len() <= 0x1000_0000,
        b.len() <= 0x1000_0000,
        byte_len(a) == byte_len(b),
        stands_at(a, token, i),
        stands_at(b, token, j),
        forall|k: int| 0 <= k < i ==> !#[trigger] stands_at(a, token, k),
        forall|k: int| 0 <= k < j ==> !#[trigger] stands_at(b, token, k),
        byte_len(a.take(i)) < byte_len(b.take(j)),
    ensures
        token_score(token, a).unwrap() < token_score(token, b).unwrap(),
{
    lemma_occurrence(a, token, 0);
    lemma_occurrence(b, token, 0);
    lemma_byte_len(a);
    lemma_byte_len(b);
    lemma_byte_len(a.take(i));
    lemma_byte_len(b.take(j));
    assert(first_occurrence(a, token, 0) == Some(i)) by {
        let f = first_occurrence(a, token, 0);
        assert(f is Some);
        assert(!(f.unwrap() < i) && !(i < f.unwrap()));
    }
    assert(first_occurrence(b, token, 0) == Some(j)) by {
        let f = first_occurrence(b, token, 0);
        assert(f is Some);
        assert(!(f.unwrap() < j) && !(j < f.unwrap()));
    }
    let before = a.take(i);
    assert(a =~= before + token + a.skip(i + token.len()));
    lemma_bytes_split(before + token, a.skip(i + token.len()));
    lemma_bytes_split(before, token);
    let ahead = b.take(j);
    assert(b =~= ahead + token + b.skip(j + token.len()));
    lemma_bytes_split(ahead + token, b.skip(j + token.len()));
    lemma_bytes_split(ahead, token);
}

/// A template fits as well as the best of its name and its aliases does.
pub proof fn templates_fit_by_name_or_alias(
    query: Seq<char>,
    name: Seq<char>,
    aliases: Seq<Seq<char>>,
    n: nat,
)
    requires
        n <= aliases.len(),
    ensures
        match best_score(query, name, aliases, n) {
            Some(best) => {
                &&& fuzzy_score(query, name) matches Some(score) ==> best <= score
                &&& forall|i: int|
                    0 <= i < n ==> (alias_score(query, #[trigger] aliases[i]) matches Some(score)
                        ==> best <= score)
                &&& fuzzy_score(query, name) == Some(best) || exists|i: int|
                    0 <= i < n && alias_score(query, #[trigger] aliases[i]) == Some(best)
            },
            None => fuzzy_score(query, name) is None && forall|i: int|
                0 <= i < n ==> alias_score(query, #[trigger] aliases[i]) is None,
        },
    decreases n,
{
    if n > 0 {
        templates_fit_by_name_or_alias(query, name, aliases, (n - 1) as nat);
        let rest = best_score(query, name, aliases, (n - 1) as nat);
        let best = best_score(query, name, aliases, n);
        if best is Some && alias_score(query, aliases[n - 1]) != best {
            assert(rest == best);
            if fuzzy_score(query, name) != best {
                let i = choose|i: int|
                    0 <= i < n - 1 && alias_score(query, #[trigger] aliases[i]) == rest;
                assert(alias_score(query, aliases[i]) == best);
            }
        }
    }
}

/// An alias that is written out, in whatever case and with whatever blanks
/// around it, fits best.
pub proof fn written_out_aliases_fit_best(query: Seq<char>, alias: Seq<char>)
    requires
        same_ignoring_case(trimmed(query), alias),
    ensures
        alias_score(query, alias) == Some(0nat),
{
}

proof fn lemma_fitting(query: Seq<char>, templates: Seq<TemplateView>, n: nat)
    requires
        n <= templates.len() <= usize::MAX,
    ensures
        ({
            let hits = fitting_entries(query, templates, n);
            &&& forall|k: int|
                0 <= k < hits.len() ==> (#[trigger] hits[k]).index < n && template_score(
                    query,
                    templates[hits[k].index as int],
                ) is Some && hits[k].score == template_score(
                    query,
                    templates[hits[k].index as int],
                ).unwrap() as u32
            &&& forall|i: int|
                0 <= i < n && template_score(query, #[trigger] templates[i]) is Some
                    ==> exists|k: int| 0 <= k < hits.len() && (#[trigger] hits[k]).index == i
        }),
    decreases n,
{
    if n > 0 {
        lemma_fitting(query, templates, (n - 1) as nat);
        let rest = fitting_entries(query, templates, (n - 1) as nat);
        let hits = fitting_entries(query, templates, n);
        assert forall|k: int| 0 <= k < hits.len() implies (#[trigger] hits[k]).index < n
            && template_score(query, templates[hits[k].index as int]) is Some && hits[k].score
            == template_score(query, templates[hits[k].index as int]).unwrap() as u32 by {
            if k < rest.len() {
                assert(hits[k] == rest[k]);
            }
        }
        assert forall|i: int|
            0 <= i < n && template_score(query, #[trigger] templates[i]) is Some implies exists|
            k: int,
        | 0 <= k < hits.len() && (#[trigger] hits[k]).index == i by {
            if i < n - 1 {
                let k = choose|k: int| 0 <= k < rest.len() && (#[trigger] rest[k]).index == i;
                assert(hits[k].index == i);
            } else {
                assert(hits[hits.len() - 1].index == i);
            }
        }
    }
}

/// A search lists exactly the templates that it fits, those that it fits better
/// before the others.
pub proof fn found_templates_are_those_that_fit(query: Seq<char>, i: int, j: int)
    requires
        trimmed(query).len() > 0,
        all_templates().len() <= usize::MAX,
    ensures
        ({
            let found = found_templates(query);
            &&& 0 <= i < all_templates().len() ==> (template_score(
                query,
                all_templates()[i],
            ) is Some <==> exists|k: int|
                0 <= k < found.len() && (#[trigger] found[k]).index == i)
            &&& 0 <= i < j < found.len() ==> found[i].score <= found[j].score && (found[i].score
                == found[j].score ==> found[i].index <= found[j].index)
        }),
{
    let all = all_templates();
    let hits = fitting_entries(query, all, all.len());
    let ranks = entry_ranks(hits);
    let found = found_templates(query);
    let order = order_of(ranks);
    lemma_fitting(query, all, all.len());
    stable_order_is_sorted(ranks);
    if 0 <= i < j < found.len() {
        assert(ranks[order[i]].le(ranks[order[j]]));
        assert(found[i] == hits[order[i]] && found[j] == hits[order[j]]);
    }
    if 0 <= i < all.len() {
        if template_score(query, all[i]) is Some {
            let k = choose|k: int| 0 <= k < hits.len() && (#[trigger] hits[k]).index == i;
            lemma_kept(hits, ranks, k);
            let p = choose|p: int| 0 <= p < found.len() && #[trigger] found[p] == hits[k];
            assert(found[p].index == i);
        }
        if exists|k: int| 0 <= k < found.len() && (#[trigger] found[k]).index == i {
            let k = choose|k: int| 0 <= k < found.len() && (#[trigger] found[k]).index == i;
            assert(found[k] == hits[order[k]]);
        }
    }
}

proof fn lemma_kept<T, K: Ranked>(items: Seq<T>, keys: Seq<K>, k: int)
    requires
        items.len() == keys.len(),
        0 <= k < items.len(),
    ensures
        exists|p: int|
            0 <= p < sorted_by(items, keys).len() && #[trigger] sorted_by(items, keys)[p]
                == items[k],
{
    let sorted = sorted_by(items, keys);
    sorting_keeps_every_item(items, keys);
    vstd::seq_lib::to_multiset_contains(items, items[k]);
    vstd::seq_lib::to_multiset_contains(sorted, items[k]);
    assert(items.contains(items[k]));
    assert(sorted.contains(items[k]));
    let p = sorted.index_of(items[k]);
    assert(sorted[p] == items[k]);
}

/// Without a search text every template is listed, in the order of the menu.
pub proof fn all_templates_are_listed_without_a_search(query: Seq<char>, i: int)
    requires
        trimmed(query).len() == 0,
        0 <= i < all_templates().len() <= usize::MAX,
    ensures
        found_templates(query).len() == all_templates().len(),
        found_templates(query)[i].index == i,
{
}

/// A text is trimmed of the blanks around it and of nothing else.
pub proof fn texts_are_trimmed_of_blanks(before: Seq<char>, text: Seq<char>, behind: Seq<char>)
    requires
        text.len() > 0,
        !is_space(text.first()),
        !is_space(text.last()),
        forall|i: int| 0 <= i < before.len() ==> is_space(#[trigger] before[i]),
        forall|i: int| 0 <= i < behind.len() ==> is_space(#[trigger] behind[i]),
    ensures
        trimmed(before + text + behind) == text,
    decreases before.len() + behind.len(),
{
    let all = before + text + behind;
    if before.len() > 0 {
        let rest = before.drop_first();
        assert forall|i: int| 0 <= i < rest.len() implies is_space(#[trigger] rest[i]) by {
            assert(rest[i] == before[i + 1]);
        }
        texts_are_trimmed_of_blanks(rest, text, behind);
        assert(all.first() == before[0]);
        assert(all.drop_first() =~= rest + text + behind);
    } else if behind.len() > 0 {
        let rest = behind.drop_last();
        assert forall|i: int| 0 <= i < rest.len() implies is_space(#[trigger] rest[i]) by {
            assert(rest[i] == behind[i]);
        }
        texts_are_trimmed_of_blanks(before, text, rest);
        assert(all.first() == text.first());
        assert(all.last() == behind[behind.len() - 1]);
        assert(all.drop_last() =~= before + text + rest);
    } else {
        assert(all =~= text);
    }
}

/// A text of blanks alone is trimmed to nothing.
pub proof fn blank_texts_are_trimmed_to_nothing(blanks: Seq<char>)
    requires
        forall|i: int| 0 <= i < blanks.len() ==> is_space(#[trigger] blanks[i]),
    ensures
        trimmed(blanks).len() == 0,
    decreases blanks.len(),
{
    if blanks.len() > 0 {
        let rest = blanks.drop_first();
        assert forall|i: int| 0 <= i < rest.len() implies is_space(#[trigger] rest[i]) by {
            assert(rest[i] == blanks[i + 1]);
        }
        blank_texts_are_trimmed_to_nothing(rest);
        assert(blanks[0] == blanks.first());
    }
}

/// A list without repetitions holds what the list holds, each text once.
pub proof fn repetitions_are_left_out(texts: Seq<Seq<char>>, text: Seq<char>)
    ensures
        unique(texts).contains(text) <==> texts.contains(text),
        unique(texts).no_duplicates(),
    decreases texts.len(),
{
    if texts.len() > 0 {
        let short = texts.drop_last();
        let rest = unique(short);
        let all = unique(texts);
        repetitions_are_left_out(short, text);
        repetitions_are_left_out(short, texts.last());
        assert(texts[texts.len() - 1] == texts.last());
        if short.contains(text) {
            assert(texts[short.index_of(text)] == text);
        }
        if texts.contains(text) && !short.contains(text) {
            let i = texts.index_of(text);
            if i < short.len() {
                assert(short[i] == text);
            }
        }
        if all.len() > rest.len() {
            assert(all[all.len() - 1] == texts.last());
            if rest.contains(text) {
                assert(all[rest.index_of(text)] == text);
            }
        }
    }
}

/// Sorted texts ascend, and are the texts that were there.
pub proof fn sorted_texts_ascend(texts: Seq<Seq<char>>, text: Seq<char>, i: int, j: int)
    ensures
        sorted_texts(texts).contains(text) <==> texts.contains(text),
        sorted_texts(texts).len() == texts.len(),
        0 <= i < j < texts.len() ==> text_le(sorted_texts(texts)[i], sorted_texts(texts)[j]),
{
    let sorted = sorted_texts(texts);
    stable_order_is_sorted(texts);
    sorting_keeps_every_item(texts, texts);
    vstd::seq_lib::to_multiset_contains(texts, text);
    vstd::seq_lib::to_multiset_contains(sorted, text);
    if 0 <= i < j < texts.len() {
        let order = order_of(texts);
        assert(texts[order[i]].le(texts[order[j]]));
        assert(sorted[i] == texts[order[i]] && sorted[j] == texts[order[j]]);
    }
}

/// The numeric column of a name is the column of that name, where it is numeric.
pub proof fn numeric_columns_are_numeric(columns: Seq<Column>, c: int)
    requires
        0 <= c < columns.len(),
        forall|k: int| 0 <= k < c ==> (#[trigger] columns[k]).name@ != columns[c].name@,
    ensures
        numeric_column(columns, columns[c].name@) == if columns[c].numeric {
            Some(c)
        } else {
            None
        },
{
    lemma_column(columns, c, 0);
}

proof fn lemma_column(columns: Seq<Column>, c: int, from: int)
    requires
        0 <= from <= c < columns.len(),
        forall|k: int| from <= k < c ==> (#[trigger] columns[k]).name@ != columns[c].name@,
    ensures
        column_index(columns, columns[c].name@, from) == Some(c),
    decreases c - from,
{
    if from < c {
        lemma_column(columns, c, from + 1);
    }
}

/// A topic is open where it is there, has not been removed and holds data.
pub proof fn open_topics_hold_data(snapshot: StoreSnapshot, t: int)
    requires
        0 <= t < snapshot.topics@.len(),
        forall|k: int|
            0 <= k < t ==> (#[trigger] snapshot.topics@[k]).id != snapshot.topics@[t].id,
    ensures
        open_topic(snapshot, snapshot.topics@[t].id) == if !snapshot.topics@[t].removed
            && snapshot.topics@[t].data is Some {
            Some(t)
        } else {
            None
        },
{
    lemma_topic(snapshot.topics@, t, 0);
}

proof fn lemma_topic(topics: Seq<TopicInfo>, t: int, from: int)
    requires
        0 <= from <= t < topics.len(),
        forall|k: int| from <= k < t ==> (#[trigger] topics[k]).id != topics[t].id,
    ensures
        topic_index(topics, topics[t].id, from) == Some(t),
    decreases t - from,
{
    if from < t {
        lemma_topic(topics, t, from + 1);
    }
}

proof fn lemma_topic_found(topics: Seq<TopicInfo>, id: TopicId, from: int)
    requires
        0 <= from,
    ensures
        topic_index(topics, id, from) matches Some(t) ==> from <= t < topics.len() && topics[t].id
            == id,
    decreases topics.len() - from,
{
    if from < topics.len() && topics[from].id != id {
        lemma_topic_found(topics, id, from + 1);
    }
}

/// Whether the field at `f` is a numeric field of the topic at `t`.
pub open spec fn is_numeric_field(snapshot: StoreSnapshot, t: int, f: int) -> bool {
    &&& 0 <= t < snapshot.topics@.len()
    &&& 0 <= f < snapshot.fields@.len()
    &&& !snapshot.fields@[f].removed
    &&& snapshot.fields@[f].topic == snapshot.topics@[t].id
    &&& numeric_column(
        snapshot.topics@[t].data.unwrap().columns@,
        snapshot.fields@[f].name@,
    ) is Some
}

proof fn lemma_numeric_fields(snapshot: StoreSnapshot, t: int, n: nat, f: int)
    requires
        0 <= t < snapshot.topics@.len(),
        n <= snapshot.fields@.len(),
    ensures
        numeric_fields(
            snapshot.fields@,
            snapshot.topics@[t].id,
            snapshot.topics@[t].data.unwrap().columns@,
            n,
        ).contains(f) <==> f < n && is_numeric_field(snapshot, t, f),
    decreases n,
{
    let id = snapshot.topics@[t].id;
    let columns = snapshot.topics@[t].data.unwrap().columns@;
    if n > 0 {
        lemma_numeric_fields(snapshot, t, (n - 1) as nat, f);
        let rest = numeric_fields(snapshot.fields@, id, columns, (n - 1) as nat);
        let all = numeric_fields(snapshot.fields@, id, columns, n);
        if rest.contains(f) {
            assert(all[rest.index_of(f)] == f);
        }
        if all.len() > rest.len() {
            assert(all[all.len() - 1] == n - 1);
        }
    }
}

/// The numeric fields of a topic are listed, and no others.
pub proof fn numeric_fields_are_listed(snapshot: StoreSnapshot, t: int, f: int)
    requires
        0 <= t < snapshot.topics@.len(),
    ensures
        topic_fields(snapshot, t).contains(f) <==> is_numeric_field(snapshot, t, f),
{
    lemma_numeric_fields(snapshot, t, snapshot.fields@.len(), f);
}

/// Whether the source at `s` has the topic at `t` open.
pub open spec fn has_open(snapshot: StoreSnapshot, s: int, t: int) -> bool {
    exists|k: int|
        0 <= k < snapshot.sources@[s].topics@.len() && open_topic(
            snapshot,
            #[trigger] snapshot.sources@[s].topics@[k],
        ) == Some(t)
}

proof fn lemma_numeric_topics(snapshot: StoreSnapshot, ids: Seq<TopicId>, n: nat, t: int)
    requires
        n <= ids.len(),
    ensures
        numeric_topics(snapshot, ids, n).contains(t) <==> topic_fields(snapshot, t).len() > 0
            && exists|k: int| 0 <= k < n && open_topic(snapshot, #[trigger] ids[k]) == Some(t),
    decreases n,
{
    if n > 0 {
        lemma_numeric_topics(snapshot, ids, (n - 1) as nat, t);
        let rest = numeric_topics(snapshot, ids, (n - 1) as nat);
        let all = numeric_topics(snapshot, ids, n);
        if rest.contains(t) {
            assert(all[rest.index_of(t)] == t);
        }
        if all.len() > rest.len() {
            assert(all[all.len() - 1] == open_topic(snapshot, ids[n - 1]).unwrap());
        }
        if all.contains(t) && !rest.contains(t) {
            assert(open_topic(snapshot, ids[n - 1]) == Some(t));
        }
        if exists|k: int| 0 <= k < n && open_topic(snapshot, #[trigger] ids[k]) == Some(t) {
            let k = choose|k: int| 0 <= k < n && open_topic(snapshot, #[trigger] ids[k]) == Some(t);
        }
    }
}

proof fn lemma_concat<T>(a: Seq<T>, b: Seq<T>, x: T)
    ensures
        (a + b).contains(x) <==> a.contains(x) || b.contains(x),
{
    if a.contains(x) {
        assert((a + b)[a.index_of(x)] == x);
    }
    if b.contains(x) {
        assert((a + b)[a.len() + b.index_of(x)] == x);
    }
    if (a + b).contains(x) {
        let i = (a + b).index_of(x);
        if i < a.len() {
            assert(a[i] == x);
        } else {
            assert(b[i - a.len()] == x);
        }
    }
}

proof fn lemma_fields_under(
    snapshot: StoreSnapshot,
    list: Seq<int>,
    topic: Seq<char>,
    name: Seq<char>,
)
    requires
        forall|k: int| 0 <= k < list.len() ==> 0 <= #[trigger] list[k] < snapshot.topics@.len(),
    ensures
        fields_under(snapshot, list, topic).contains(name) <==> exists|t: int, f: int|
            list.contains(t) && snapshot.topics@[t].name@ == topic && #[trigger] is_numeric_field(
                snapshot,
                t,
                f,
            ) && snapshot.fields@[f].name@ == name,
    decreases list.len(),
{
    if list.len() > 0 {
        let short = list.drop_last();
        let last = list.last();
        assert(list[list.len() - 1] == last);
        assert forall|k: int| 0 <= k < short.len() implies 0 <= #[trigger] short[k]
            < snapshot.topics@.len() by {
            assert(short[k] == list[k]);
        }
        lemma_fields_under(snapshot, short, topic, name);
        let here = topic_fields(snapshot, last);
        let names = field_names(snapshot.fields@, here);
        lemma_concat(fields_under(snapshot, short, topic), names, name);
        if names.contains(name) {
            let i = names.index_of(name);
            numeric_fields_are_listed(snapshot, last, here[i]);
            assert(here.contains(here[i]));
            assert(is_numeric_field(snapshot, last, here[i]));
        }
        assert forall|x: int| short.contains(x) implies #[trigger] list.contains(x) by {
            assert(list[short.index_of(x)] == x);
        }
        if fields_under(snapshot, short, topic).contains(name) {
            let (t, f) = choose|t: int, f: int|
                short.contains(t) && snapshot.topics@[t].name@ == topic
                    && #[trigger] is_numeric_field(snapshot, t, f) && snapshot.fields@[f].name@
                    == name;
            assert(list.contains(t));
        }
        if exists|t: int, f: int|
            list.contains(t) && snapshot.topics@[t].name@ == topic && #[trigger] is_numeric_field(
                snapshot,
                t,
                f,
            ) && snapshot.fields@[f].name@ == name {
            let (t, f) = choose|t: int, f: int|
                list.contains(t) && snapshot.topics@[t].name@ == topic
                    && #[trigger] is_numeric_field(snapshot, t, f) && snapshot.fields@[f].name@
                    == name;
            if t == last {
                numeric_fields_are_listed(snapshot, t, f);
                let i = here.index_of(f);
                assert(names[i] == name);
            } else {
                let i = list.index_of(t);
                assert(short[i] == t);
            }
        }
    }
}

/// Whether a source offers a field under a topic: it is loaded and admitted, has
/// a topic of that name open, and the topic a numeric field of that name.
pub open spec fn offers_field(
    snapshot: StoreSnapshot,
    selector: SelectorView,
    name: Seq<char>,
    s: int,
    t: int,
    f: int,
) -> bool {
    &&& 0 <= s < snapshot.sources@.len()
    &&& !snapshot.sources@[s].removed
    &&& selector.source matches Some(chosen) ==> chosen == snapshot.sources@[s].label@
    &&& has_open(snapshot, s, t)
    &&& snapshot.topics@[t].name@ == topic_name(selector.topic, selector.instance)
    &&& is_numeric_field(snapshot, t, f)
    &&& snapshot.fields@[f].name@ == name
}

proof fn lemma_source_topics(snapshot: StoreSnapshot, s: int, t: int)
    requires
        0 <= s < snapshot.sources@.len(),
    ensures
        source_topics(snapshot, snapshot.sources@[s]).contains(t) <==> has_open(snapshot, s, t)
            && topic_fields(snapshot, t).len() > 0,
        has_open(snapshot, s, t) ==> 0 <= t < snapshot.topics@.len()
            && !snapshot.topics@[t].removed && snapshot.topics@[t].data is Some,
{
    let ids = snapshot.sources@[s].topics@;
    lemma_numeric_topics(snapshot, ids, ids.len(), t);
    if has_open(snapshot, s, t) {
        let k = choose|k: int|
            0 <= k < ids.len() && open_topic(snapshot, #[trigger] ids[k]) == Some(t);
        lemma_topic_found(snapshot.topics@, ids[k], 0);
    }
}

proof fn lemma_offered_fields(
    snapshot: StoreSnapshot,
    selector: SelectorView,
    n: nat,
    name: Seq<char>,
)
    requires
        n <= snapshot.sources@.len(),
    ensures
        offered_fields(snapshot, selector, n).contains(name) <==> exists|s: int, t: int, f: int|
            s < n && #[trigger] offers_field(snapshot, selector, name, s, t, f),
    decreases n,
{
    if n > 0 {
        lemma_offered_fields(snapshot, selector, (n - 1) as nat, name);
        let source = snapshot.sources@[n - 1];
        let list = source_topics(snapshot, source);
        let topic = topic_name(selector.topic, selector.instance);
        let rest = offered_fields(snapshot, selector, (n - 1) as nat);
        assert forall|k: int| 0 <= k < list.len() implies 0 <= #[trigger] list[k]
            < snapshot.topics@.len() by {
            assert(list.contains(list[k]));
            lemma_source_topics(snapshot, n - 1, list[k]);
        }
        lemma_fields_under(snapshot, list, topic, name);
        lemma_concat(rest, fields_under(snapshot, list, topic), name);
        if fields_under(snapshot, list, topic).contains(name) && !source.removed && admits_source(
            selector,
            source.label@,
        ) {
            let (t, f) = choose|t: int, f: int|
                list.contains(t) && snapshot.topics@[t].name@ == topic
                    && #[trigger] is_numeric_field(snapshot, t, f) && snapshot.fields@[f].name@
                    == name;
            lemma_source_topics(snapshot, n - 1, t);
            assert(offers_field(snapshot, selector, name, n - 1, t, f));
        }
        if exists|s: int, t: int, f: int|
            s < n && #[trigger] offers_field(snapshot, selector, name, s, t, f) {
            let (s, t, f) = choose|s: int, t: int, f: int|
                s < n && #[trigger] offers_field(snapshot, selector, name, s, t, f);
            if s == n - 1 {
                lemma_source_topics(snapshot, s, t);
                numeric_fields_are_listed(snapshot, t, f);
                assert(topic_fields(snapshot, t).len() > 0);
                assert(is_numeric_field(snapshot, t, f));
            } else {
                assert(offers_field(snapshot, selector, name, s, t, f));
            }
        }
    }
}

/// The box of fields offers exactly the numeric fields of the chosen topic in the
/// chosen source, or in all of them where none is chosen: each once, ascending.
pub proof fn field_boxes_offer_the_fields_of_the_topic(
    snapshot: StoreSnapshot,
    selector: SelectorView,
    name: Seq<char>,
    i: int,
    j: int,
)
    ensures
        field_choices(snapshot, selector).contains(name) <==> exists|s: int, t: int, f: int|
            #[trigger]
            offers_field(snapshot, selector, name, s, t, f),
        0 <= i < j < field_choices(snapshot, selector).len() ==> text_le(
            field_choices(snapshot, selector)[i],
            field_choices(snapshot, selector)[j],
        ),
{
    let n = snapshot.sources@.len();
    let offered = offered_fields(snapshot, selector, n);
    lemma_offered_fields(snapshot, selector, n, name);
    repetitions_are_left_out(offered, name);
    sorted_texts_ascend(unique(offered), name, i, j);
    if exists|s: int, t: int, f: int| #[trigger]
        offers_field(snapshot, selector, name, s, t, f) {
        let (s, t, f) = choose|s: int, t: int, f: int| #[trigger]
            offers_field(snapshot, selector, name, s, t, f);
        assert(s < n && offers_field(snapshot, selector, name, s, t, f));
    }
}

/// With another topic the field stays where the topic has it; else the first
/// field of the topic takes its place, and nothing else changes.
pub proof fn other_topics_keep_the_field(
    snapshot: StoreSnapshot,
    selector: SelectorView,
    base: Seq<char>,
    instance: Option<u32>,
)
    ensures
        ({
            let now = retargeted(snapshot, selector, base, instance);
            let choices = field_choices(
                snapshot,
                SelectorView { topic: base, instance, ..selector },
            );
            &&& now.source == selector.source
            &&& now.topic == base
            &&& now.instance == instance
            &&& choices.contains(selector.field) || choices.len() == 0 ==> now.field
                == selector.field
            &&& choices.len() > 0 ==> choices.contains(now.field)
            &&& choices.len() > 0 && !choices.contains(selector.field) ==> now.field == choices[0]
        }),
{
}

/// Whether a hit stands for the field at `f` of the topic at `t` of the source at
/// `s`: it is loaded, and choosing the hit leads to that field.
pub open spec fn is_hit_of(
    snapshot: StoreSnapshot,
    query: Seq<char>,
    hit: HitView,
    s: int,
    t: int,
    f: int,
) -> bool {
    let source = snapshot.sources@[s];
    let topic = snapshot.topics@[t];
    let field = snapshot.fields@[f];
    &&& 0 <= s < snapshot.sources@.len()
    &&& !source.removed
    &&& has_open(snapshot, s, t)
    &&& is_numeric_field(snapshot, t, f)
    &&& hit.selector.source == Some(source.label@)
    &&& hit.selector.topic == topic.base@
    &&& hit.selector.instance == topic.instance
    &&& hit.selector.field == field.name@
    &&& hit.rows == topic.data.unwrap().rows
    &&& field_hit(query, source, topic, field) == Some(hit)
}

proof fn lemma_topic_hits(
    snapshot: StoreSnapshot,
    query: Seq<char>,
    s: int,
    t: int,
    list: Seq<int>,
    hit: HitView,
)
    ensures
        topic_hits(snapshot, query, s, t, list).contains(hit) <==> exists|f: int|
            list.contains(f) && #[trigger] field_hit(
                query,
                snapshot.sources@[s],
                snapshot.topics@[t],
                snapshot.fields@[f],
            ) == Some(hit),
    decreases list.len(),
{
    if list.len() > 0 {
        let short = list.drop_last();
        let last = list.last();
        lemma_topic_hits(snapshot, query, s, t, short, hit);
        let rest = topic_hits(snapshot, query, s, t, short);
        let all = topic_hits(snapshot, query, s, t, list);
        assert(list[list.len() - 1] == last);
        if rest.contains(hit) {
            assert(all[rest.index_of(hit)] == hit);
            let f = choose|f: int|
                short.contains(f) && #[trigger] field_hit(
                    query,
                    snapshot.sources@[s],
                    snapshot.topics@[t],
                    snapshot.fields@[f],
                ) == Some(hit);
            assert(list[short.index_of(f)] == f);
        }
        if all.len() > rest.len() {
            assert(Some(all[all.len() - 1]) == field_hit(
                query,
                snapshot.sources@[s],
                snapshot.topics@[t],
                snapshot.fields@[last],
            ));
        }
        if exists|f: int|
            list.contains(f) && #[trigger] field_hit(
                query,
                snapshot.sources@[s],
                snapshot.topics@[t],
                snapshot.fields@[f],
            ) == Some(hit) {
            let f = choose|f: int|
                list.contains(f) && #[trigger] field_hit(
                    query,
                    snapshot.sources@[s],
                    snapshot.topics@[t],
                    snapshot.fields@[f],
                ) == Some(hit);
            if f != last {
                assert(short[list.index_of(f)] == f);
            }
        }
    }
}

proof fn lemma_source_hits(
    snapshot: StoreSnapshot,
    query: Seq<char>,
    s: int,
    n: nat,
    hit: HitView,
)
    requires
        0 <= s < snapshot.sources@.len(),
        !snapshot.sources@[s].removed,
        n <= snapshot.sources@[s].topics@.len(),
    ensures
        source_hits(snapshot, query, s, n).contains(hit) <==> exists|k: int, t: int, f: int|
            0 <= k < n && open_topic(snapshot, #[trigger] snapshot.sources@[s].topics@[k])
                == Some(t) && #[trigger] is_hit_of(snapshot, query, hit, s, t, f),
    decreases n,
{
    if n > 0 {
        let ids = snapshot.sources@[s].topics@;
        lemma_source_hits(snapshot, query, s, (n - 1) as nat, hit);
        let rest = source_hits(snapshot, query, s, (n - 1) as nat);
        if let Some(t) = open_topic(snapshot, ids[n - 1]) {
            let list = topic_fields(snapshot, t);
            let here = topic_hits(snapshot, query, s, t, list);
            lemma_topic_found(snapshot.topics@, ids[n - 1], 0);
            lemma_topic_hits(snapshot, query, s, t, list, hit);
            lemma_concat(rest, here, hit);
            if here.contains(hit) {
                let f = choose|f: int|
                    list.contains(f) && #[trigger] field_hit(
                        query,
                        snapshot.sources@[s],
                        snapshot.topics@[t],
                        snapshot.fields@[f],
                    ) == Some(hit);
                numeric_fields_are_listed(snapshot, t, f);
                assert(open_topic(snapshot, snapshot.sources@[s].topics@[n - 1]) == Some(t));
                assert(is_hit_of(snapshot, query, hit, s, t, f));
            }
            if exists|f: int| #[trigger] is_hit_of(snapshot, query, hit, s, t, f) {
                let f = choose|f: int| #[trigger] is_hit_of(snapshot, query, hit, s, t, f);
                numeric_fields_are_listed(snapshot, t, f);
                assert(here.contains(hit));
            }
        }
    }
}

proof fn lemma_all_hits(snapshot: StoreSnapshot, query: Seq<char>, n: nat, hit: HitView)
    requires
        n <= snapshot.sources@.len(),
    ensures
        all_hits(snapshot, query, n).contains(hit) <==> exists|s: int, t: int, f: int|
            s < n && #[trigger] is_hit_of(snapshot, query, hit, s, t, f),
    decreases n,
{
    if n > 0 {
        lemma_all_hits(snapshot, query, (n - 1) as nat, hit);
        let source = snapshot.sources@[n - 1];
        let rest = all_hits(snapshot, query, (n - 1) as nat);
        if !source.removed {
            let count = source.topics@.len();
            let here = source_hits(snapshot, query, n - 1, count);
            lemma_source_hits(snapshot, query, n - 1, count, hit);
            lemma_concat(rest, here, hit);
            if here.contains(hit) {
                let (k, t, f) = choose|k: int, t: int, f: int|
                    0 <= k < count && open_topic(
                        snapshot,
                        #[trigger] snapshot.sources@[n - 1].topics@[k],
                    ) == Some(t) && #[trigger] is_hit_of(snapshot, query, hit, n - 1, t, f);
                assert(is_hit_of(snapshot, query, hit, n - 1, t, f));
            }
            if exists|t: int, f: int| #[trigger] is_hit_of(snapshot, query, hit, n - 1, t, f) {
                let (t, f) = choose|t: int, f: int| #[trigger]
                    is_hit_of(snapshot, query, hit, n - 1, t, f);
                let k = choose|k: int|
                    0 <= k < snapshot.sources@[n - 1].topics@.len() && open_topic(
                        snapshot,
                        #[trigger] snapshot.sources@[n - 1].topics@[k],
                    ) == Some(t);
                assert(open_topic(snapshot, snapshot.sources@[n - 1].topics@[k]) == Some(t));
            }
        }
    }
}

/// A search finds numeric fields of loaded sources only; all that fit, while
/// there is room; and those that fit better before the others.
pub proof fn found_fields_are_those_that_fit(
    snapshot: StoreSnapshot,
    query: Seq<char>,
    limit: nat,
    hit: HitView,
    i: int,
    j: int,
)
    ensures
        ({
            let found = found_fields(snapshot, query, limit);
            &&& found.len() <= limit
            &&& found.contains(hit) ==> exists|s: int, t: int, f: int| #[trigger]
                is_hit_of(snapshot, query, hit, s, t, f)
            &&& found.len() < limit && (exists|s: int, t: int, f: int| #[trigger]
                is_hit_of(snapshot, query, hit, s, t, f)) ==> found.contains(hit)
            &&& trimmed(query).len() > 0 && 0 <= i < j < found.len() ==> found[i].score
                <= found[j].score && (found[i].score == found[j].score ==> text_le(
                found[i].label,
                found[j].label,
            ))
        }),
{
    let n = snapshot.sources@.len();
    let hits = all_hits(snapshot, query, n);
    let ranks = hit_ranks(hits);
    let ordered = if trimmed(query).len() == 0 {
        hits
    } else {
        sorted_by(hits, ranks)
    };
    let found = found_fields(snapshot, query, limit);
    lemma_all_hits(snapshot, query, n, hit);
    stable_order_is_sorted(ranks);
    sorting_keeps_every_item(hits, ranks);
    let sorted = sorted_by(hits, ranks);
    vstd::seq_lib::to_multiset_contains(hits, hit);
    vstd::seq_lib::to_multiset_contains(sorted, hit);
    assert(ordered.contains(hit) <==> hits.contains(hit));
    if found.contains(hit) {
        let k = found.index_of(hit);
        assert(ordered[k] == hit);
        assert(ordered.contains(hit));
    }
    if exists|s: int, t: int, f: int| #[trigger] is_hit_of(snapshot, query, hit, s, t, f) {
        let (s, t, f) = choose|s: int, t: int, f: int| #[trigger]
            is_hit_of(snapshot, query, hit, s, t, f);
        assert(s < n && is_hit_of(snapshot, query, hit, s, t, f));
    }
    if trimmed(query).len() > 0 && 0 <= i < j < found.len() {
        let order = order_of(ranks);
        assert(ranks[order[i]].le(ranks[order[j]]));
        assert(found[i] == hits[order[i]] && found[j] == hits[order[j]]);
    }
}

/// A field is matched by the text of its source, topic, name and unit; without a
/// search text it is always listed.
pub proof fn fields_are_matched_by_their_names(
    query: Seq<char>,
    source: SourceInfo,
    topic: TopicInfo,
    field: FieldInfo,
    c: int,
)
    requires
        topic.data is Some,
        numeric_column(topic.data.unwrap().columns@, field.name@) == Some(c),
    ensures
        ({
            let column = topic.data.unwrap().columns@[c];
            let hit = field_hit(query, source, topic, field);
            &&& trimmed(query).len() == 0 ==> hit is Some
            &&& trimmed(query).len() > 0 ==> (hit is Some <==> fuzzy_score(
                query,
                candidate_text(source, topic, field, column),
            ) is Some)
            &&& hit matches Some(found) ==> found.unit == optional_text(column.unit)
        }),
{
}

/// The box of sources offers the loaded sources that have something numeric, and
/// no others.
pub proof fn source_boxes_offer_what_is_loaded(
    snapshot: StoreSnapshot,
    n: nat,
    label: Seq<char>,
)
    requires
        n <= snapshot.sources@.len(),
    ensures
        offered_sources(snapshot, n).contains(label) <==> exists|s: int|
            0 <= s < n && (#[trigger] snapshot.sources@[s]).label@ == label
                && !snapshot.sources@[s].removed && source_topics(
                snapshot,
                snapshot.sources@[s],
            ).len() > 0,
    decreases n,
{
    if n > 0 {
        source_boxes_offer_what_is_loaded(snapshot, (n - 1) as nat, label);
        let rest = offered_sources(snapshot, (n - 1) as nat);
        let all = offered_sources(snapshot, n);
        if rest.contains(label) {
            assert(all[rest.index_of(label)] == label);
        }
        if all.len() > rest.len() {
            assert(all[all.len() - 1] == snapshot.sources@[n - 1].label@);
        }
        if all.contains(label) && !rest.contains(label) {
            assert(snapshot.sources@[n - 1].label@ == label);
        }
    }
}

/// Whether a source offers a topic: it is loaded and admitted, and has a topic of
/// that name open that holds something numeric.
pub open spec fn offers_topic(
    snapshot: StoreSnapshot,
    selector: SelectorView,
    name: Seq<char>,
    s: int,
    t: int,
) -> bool {
    &&& 0 <= s < snapshot.sources@.len()
    &&& !snapshot.sources@[s].removed
    &&& selector.source matches Some(chosen) ==> chosen == snapshot.sources@[s].label@
    &&& has_open(snapshot, s, t)
    &&& topic_fields(snapshot, t).len() > 0
    &&& snapshot.topics@[t].name@ == name
}

/// The box of topics offers the topics of the chosen source, or of all where none
/// is chosen, and no others.
pub proof fn topic_boxes_offer_the_topics_of_the_source(
    snapshot: StoreSnapshot,
    selector: SelectorView,
    n: nat,
    name: Seq<char>,
)
    requires
        n <= snapshot.sources@.len(),
    ensures
        offered_topics(snapshot, selector, n).contains(name) <==> exists|s: int, t: int|
            s < n && #[trigger] offers_topic(snapshot, selector, name, s, t),
    decreases n,
{
    if n > 0 {
        topic_boxes_offer_the_topics_of_the_source(snapshot, selector, (n - 1) as nat, name);
        let source = snapshot.sources@[n - 1];
        let list = source_topics(snapshot, source);
        let names = topic_names(snapshot, list);
        let rest = offered_topics(snapshot, selector, (n - 1) as nat);
        lemma_concat(rest, names, name);
        if names.contains(name) {
            let k = names.index_of(name);
            assert(list.contains(list[k]));
            lemma_source_topics(snapshot, n - 1, list[k]);
            if !source.removed && admits_source(selector, source.label@) {
                assert(offers_topic(snapshot, selector, name, n - 1, list[k]));
            }
        }
        if exists|s: int, t: int|
            s < n && #[trigger] offers_topic(snapshot, selector, name, s, t) {
            let (s, t) = choose|s: int, t: int|
                s < n && #[trigger] offers_topic(snapshot, selector, name, s, t);
            if s == n - 1 {
                lemma_source_topics(snapshot, s, t);
                let k = list.index_of(t);
                assert(names[k] == name);
            } else {
                assert(offers_topic(snapshot, selector, name, s, t));
            }
        }
    }
}

} // verus!
