//! Which map tiles get a slot when there are not enough of them.

use crate::map_laws::{distinct_keys, lemma_incomplete_group, lemma_index_is_listed};
use crate::map_tiles::{
    admit_all, admit_one, all_ready, coarsest, coverage_order, current_ranks, first_touching,
    group_rank, group_ranks, groups_of, ids_of, least_priority, lemma_groups_nonempty, lookup,
    overlaps, ranked_ids, ready_keys, replace_group, replace_groups, tiles_overlap,
    with_missing_keys, without, GroupView, Replacement, TileId,
};
use crate::order::{order_of, sorted_by, stable_order_is_sorted, Ranked};
use vstd::prelude::*;

verus! {

/// Each tile is ready once, and no two under the same key.
pub open spec fn ready_once(ready: Seq<(TileId, u64)>) -> bool {
    forall|i: int, j: int|
        0 <= i < ready.len() && 0 <= j < ready.len() && i != j ==> (#[trigger] ready[i]).0
            != (#[trigger] ready[j]).0 && ready[i].1 != ready[j].1
}

/// Each tile is wanted once.
pub open spec fn wanted_once(current: Seq<(TileId, i32)>) -> bool {
    forall|i: int, j: int|
        0 <= i < current.len() && 0 <= j < current.len() && i != j ==> (#[trigger] current[i]).0
            != (#[trigger] current[j]).0
}

/// A tile is found under a key where it is ready under that key.
pub proof fn lookups_find_what_is_ready(ready: Seq<(TileId, u64)>, id: TileId, key: u64)
    requires
        ready_once(ready),
    ensures
        lookup(ready, id) == Some(key) <==> ready.contains((id, key)),
    decreases ready.len(),
{
    if ready.len() > 0 {
        let short = ready.drop_last();
        assert forall|i: int, j: int|
            0 <= i < short.len() && 0 <= j < short.len() && i != j implies (#[trigger] short[i]).0
            != (#[trigger] short[j]).0 && short[i].1 != short[j].1 by {
            assert(ready[i].0 != ready[j].0 && ready[i].1 != ready[j].1);
        }
        lookups_find_what_is_ready(short, id, key);
        let last = ready.len() - 1;
        if ready.contains((id, key)) {
            let i = choose|i: int| 0 <= i < ready.len() && ready[i] == (id, key);
            if i < last {
                assert(short[i] == (id, key));
                assert(ready[i].0 != ready[last].0);
            }
        }
        if short.contains((id, key)) {
            let i = choose|i: int| 0 <= i < short.len() && short[i] == (id, key);
            assert(ready[i] == (id, key));
        }
        if lookup(ready, id) == Some(key) && ready.last().0 == id {
            assert(ready[last] == (id, key));
        }
        if ready.last().0 == id && short.contains((id, key)) {
            let i = choose|i: int| 0 <= i < short.len() && short[i] == (id, key);
            assert(ready[i].0 != ready[last].0);
        }
    }
}

proof fn lemma_distinct(ready: Seq<(TileId, u64)>)
    requires
        ready_once(ready),
    ensures
        distinct_keys(ready),
{
    assert forall|a: TileId, b: TileId|
        (#[trigger] lookup(ready, a)) is Some && lookup(ready, a) == (#[trigger] lookup(
            ready,
            b,
        )) implies a == b by {
        let key = lookup(ready, a).unwrap();
        lookups_find_what_is_ready(ready, a, key);
        lookups_find_what_is_ready(ready, b, key);
        let i = choose|i: int| 0 <= i < ready.len() && ready[i] == (a, key);
        let j = choose|j: int| 0 <= j < ready.len() && ready[j] == (b, key);
        if i != j {
            assert(ready[i].1 != ready[j].1);
        }
    }
}

proof fn lemma_single_groups(current: Seq<(TileId, i32)>)
    ensures
        groups_of(current, Seq::empty()).len() == current.len(),
        forall|i: int|
            0 <= i < current.len() ==> #[trigger] groups_of(current, Seq::empty())[i] == (
            GroupView { current: seq![current[i]], previous: Seq::empty() }),
    decreases current.len(),
{
    if current.len() > 0 {
        let none = Seq::<TileId>::empty();
        let short = current.drop_last();
        lemma_single_groups(short);
        let groups = groups_of(short, none);
        let found = overlaps(current.last().0, none);
        assert(found =~= none);
        lemma_touches_nothing(groups, found, 0);
        assert(groups_of(current, none) == groups.push(
            GroupView { current: seq![current.last()], previous: none },
        ));
    }
}

proof fn lemma_touches_nothing(groups: Seq<GroupView>, found: Seq<TileId>, i: int)
    requires
        found.len() == 0,
        0 <= i <= groups.len(),
    ensures
        first_touching(groups, found, i) is None,
    decreases groups.len() - i,
{
    if i < groups.len() {
        lemma_touches_nothing(groups, found, i + 1);
    }
}

proof fn lemma_without_nothing(keys: Seq<u64>)
    ensures
        without(keys, Seq::empty()) == keys,
    decreases keys.len(),
{
    if keys.len() > 0 {
        lemma_without_nothing(keys.drop_last());
        assert(keys.drop_last().push(keys.last()) =~= keys);
    } else {
        assert(keys =~= Seq::empty());
    }
}

/// A group of one tile over no fallback is replaced as the tile is admitted.
proof fn lemma_replace_single(
    state: Replacement,
    tile: (TileId, i32),
    ready: Seq<(TileId, u64)>,
    quota: nat,
)
    ensures
        ({
            let group = GroupView { current: seq![tile], previous: Seq::empty() };
            let next = replace_group(state, group, ready, quota);
            &&& next.order == admit_one(state.order, tile.0, ready, Seq::empty(), quota)
            &&& next.replaced == state.replaced
        }),
{
    let one = seq![tile];
    let none = Seq::<TileId>::empty();
    let ranks = current_ranks(one);
    stable_order_is_sorted(ranks);
    let ids = ranked_ids(one);
    assert(order_of(ranks)[0] == 0);
    assert(ids =~= seq![tile.0]);
    assert(ids.drop_last() =~= none);
    assert(ready_keys(none, ready) =~= Seq::<u64>::empty());
    lemma_without_nothing(state.order);
    assert(state.replaced + Seq::<u64>::empty() =~= state.replaced);
    let keys = ready_keys(ids, ready);
    assert(all_ready(ids, ready) == (lookup(ready, ids[0]) is Some));
    if lookup(ready, tile.0) is Some {
        let key = lookup(ready, tile.0).unwrap();
        assert(ready_keys(ids.drop_last(), ready) =~= Seq::<u64>::empty());
        assert(keys =~= seq![key]);
        assert(keys.drop_last() =~= Seq::<u64>::empty());
        assert(with_missing_keys(state.order, keys.drop_last()) == state.order);
    }
}

proof fn lemma_replace_singles(
    groups: Seq<GroupView>,
    tiles: Seq<(TileId, i32)>,
    ready: Seq<(TileId, u64)>,
    quota: nat,
)
    requires
        groups.len() == tiles.len(),
        forall|i: int|
            0 <= i < tiles.len() ==> #[trigger] groups[i] == (GroupView {
                current: seq![tiles[i]],
                previous: Seq::empty(),
            }),
    ensures
        ({
            let start = Replacement { order: Seq::empty(), replaced: Seq::empty() };
            let state = replace_groups(start, groups, ready, quota);
            &&& state.order == admit_all(
                Seq::empty(),
                ids_of(tiles),
                ready,
                Seq::empty(),
                quota,
            )
            &&& state.replaced == Seq::<u64>::empty()
        }),
    decreases groups.len(),
{
    let start = Replacement { order: Seq::empty(), replaced: Seq::empty() };
    if groups.len() > 0 {
        let short = groups.drop_last();
        assert forall|i: int| 0 <= i < short.len() implies #[trigger] short[i] == (GroupView {
            current: seq![tiles.drop_last()[i]],
            previous: Seq::empty(),
        }) by {
            assert(groups[i] == short[i]);
        }
        lemma_replace_singles(short, tiles.drop_last(), ready, quota);
        assert(groups[groups.len() - 1] == groups.last());
        lemma_replace_single(
            replace_groups(start, short, ready, quota),
            tiles.last(),
            ready,
            quota,
        );
        assert(ids_of(tiles).drop_last() =~= ids_of(tiles.drop_last()));
        assert(ids_of(tiles).last() == tiles.last().0);
    } else {
        assert(ids_of(tiles) =~= Seq::empty());
    }
}

/// Admitting tiles one after the other: a ready one that gets no slot finds all
/// taken, and those that got one were before it or had one already.
proof fn lemma_admitted_in_turn(
    start: Seq<u64>,
    ids: Seq<TileId>,
    ready: Seq<(TileId, u64)>,
    quota: nat,
)
    requires
        ids.no_duplicates(),
        distinct_keys(ready),
        start.len() <= quota,
    ensures
        ({
            let out = admit_all(start, ids, ready, Seq::empty(), quota);
            &&& out.len() <= quota
            &&& forall|k: u64| #[trigger]
                out.contains(k) ==> start.contains(k) || exists|j: int|
                    0 <= j < ids.len() && lookup(ready, #[trigger] ids[j]) == Some(k)
            &&& forall|m: int|
                0 <= m < ids.len() ==> (lookup(ready, #[trigger] ids[m]) matches Some(k) ==> (
                !out.contains(k) ==> out.len() == quota && forall|j: int|
                    0 <= j < ids.len() ==> (lookup(ready, #[trigger] ids[j]) matches Some(kj) ==> (
                    out.contains(kj) && !start.contains(kj) ==> j < m))))
        }),
    decreases ids.len(),
{
    let none = Seq::<u64>::empty();
    let out = admit_all(start, ids, ready, none, quota);
    if ids.len() > 0 {
        let short = ids.drop_last();
        let n = ids.len() - 1;
        let before = admit_all(start, short, ready, none, quota);
        lemma_admitted_in_turn(start, short, ready, quota);
        assert forall|k: u64| #[trigger] out.contains(k) implies start.contains(k) || exists|
            j: int,
        | 0 <= j < ids.len() && lookup(ready, #[trigger] ids[j]) == Some(k) by {
            if before.contains(k) {
                if !start.contains(k) {
                    let j = choose|j: int|
                        0 <= j < short.len() && lookup(ready, #[trigger] short[j]) == Some(k);
                    assert(lookup(ready, ids[j]) == Some(k));
                }
            } else {
                assert(lookup(ready, ids[n]) == Some(k));
            }
        }
        assert forall|k: u64| before.contains(k) implies #[trigger] out.contains(k) by {
            let i = choose|i: int| 0 <= i < before.len() && before[i] == k;
            assert(out[i] == k);
        }
        if lookup(ready, ids[n]) is Some && before.len() < quota {
            let kn = lookup(ready, ids[n]).unwrap();
            if !before.contains(kn) {
                assert(out[before.len() as int] == kn);
            }
            assert(out.contains(kn));
        }
        assert forall|m: int| 0 <= m < ids.len() implies (lookup(
            ready,
            #[trigger] ids[m],
        ) matches Some(k) ==> (!out.contains(k) ==> out.len() == quota && forall|j: int|
            0 <= j < ids.len() ==> (lookup(ready, #[trigger] ids[j]) matches Some(kj) ==> (
            out.contains(kj) && !start.contains(kj) ==> j < m)))) by {
            if let Some(k) = lookup(ready, ids[m]) {
                if !out.contains(k) {
                    if m < n {
                        assert(short[m] == ids[m]);
                        assert(before.len() == quota);
                        assert(out == before);
                    }
                    assert forall|j: int| 0 <= j < ids.len() implies (lookup(
                        ready,
                        #[trigger] ids[j],
                    ) matches Some(kj) ==> (out.contains(kj) && !start.contains(kj) ==> j
                        < m)) by {
                        if let Some(kj) = lookup(ready, ids[j]) {
                            if out.contains(kj) && !start.contains(kj) {
                                if j < n {
                                    assert(short[j] == ids[j]);
                                } else if m < n {
                                    let p = choose|p: int|
                                        0 <= p < short.len() && lookup(ready, #[trigger] short[p])
                                            == Some(kj);
                                    assert(ids[p] == ids[n]);
                                }
                            }
                        }
                    }
                }
            }
        }
    }
}

proof fn lemma_nothing_to_admit(
    order: Seq<u64>,
    ids: Seq<TileId>,
    ready: Seq<(TileId, u64)>,
    blocked: Seq<u64>,
    quota: nat,
)
    requires
        forall|i: int|
            0 <= i < ids.len() ==> (lookup(ready, #[trigger] ids[i]) matches Some(k)
                ==> order.contains(k) || order.len() >= quota),
    ensures
        admit_all(order, ids, ready, blocked, quota) == order,
    decreases ids.len(),
{
    if ids.len() > 0 {
        let short = ids.drop_last();
        assert forall|i: int| 0 <= i < short.len() implies (lookup(
            ready,
            #[trigger] short[i],
        ) matches Some(k) ==> order.contains(k) || order.len() >= quota) by {
            assert(short[i] == ids[i]);
        }
        lemma_nothing_to_admit(order, short, ready, blocked, quota);
        assert(ids[ids.len() - 1] == ids.last());
    }
}

/// Without fallback tiles the most urgent tiles get the slots: where a ready tile
/// gets none, all slots of the quota are taken, and no tile that has one has a
/// greater priority number. Of equally urgent tiles the coarser come first, then
/// those of an upper row, then those further left.
pub proof fn urgent_tiles_come_first(
    current: Seq<(TileId, i32)>,
    ready: Seq<(TileId, u64)>,
    quota: nat,
    left_out: int,
    key: u64,
)
    requires
        wanted_once(current),
        ready_once(ready),
        0 <= left_out < current.len(),
        ready.contains((current[left_out].0, key)),
        !coverage_order(current, Seq::empty(), ready, quota).contains(key),
    ensures
        coverage_order(current, Seq::empty(), ready, quota).len() == quota,
        forall|i: int, k: u64|
            0 <= i < current.len() && #[trigger] ready.contains((current[i].0, k))
                && coverage_order(current, Seq::empty(), ready, quota).contains(k)
                ==> current[i].1 < current[left_out].1 || current[i].1 == current[left_out].1 && (
            current[i].0.zoom < current[left_out].0.zoom || current[i].0.zoom
                == current[left_out].0.zoom && (current[i].0.y < current[left_out].0.y
                || current[i].0.y == current[left_out].0.y && current[i].0.x
                <= current[left_out].0.x)),
{
    let none = Seq::<TileId>::empty();
    let groups = groups_of(current, none);
    let ranks = group_ranks(groups);
    let order = order_of(ranks);
    let tiles = sorted_by(current, ranks);
    let sorted = sorted_by(groups, ranks);
    lemma_distinct(ready);
    lemma_single_groups(current);
    stable_order_is_sorted(ranks);
    assert forall|i: int| 0 <= i < tiles.len() implies #[trigger] sorted[i] == (GroupView {
        current: seq![tiles[i]],
        previous: none,
    }) by {
        assert(sorted[i] == groups[order[i]]);
    }
    lemma_replace_singles(sorted, tiles, ready, quota);
    let ids = ids_of(tiles);
    assert forall|i: int, j: int| 0 <= i < ids.len() && 0 <= j < ids.len() && i != j implies ids[i]
        != ids[j] by {
        assert(order[i] != order[j]);
        assert(current[order[i]].0 != current[order[j]].0);
    }
    lemma_admitted_in_turn(Seq::empty(), ids, ready, quota);
    let taken = admit_all(Seq::empty(), ids, ready, Seq::empty(), quota);
    let again = ranked_ids(current);
    let order2 = order_of(current_ranks(current));
    stable_order_is_sorted(current_ranks(current));
    assert forall|i: int| 0 <= i < again.len() implies (lookup(
        ready,
        #[trigger] again[i],
    ) matches Some(k) ==> taken.contains(k) || taken.len() >= quota) by {
        assert(again[i] == current[order2[i]].0);
        lemma_index_is_listed(order, order2[i]);
        let p = choose|p: int| 0 <= p < order.len() && #[trigger] order[p] == order2[i];
        assert(ids[p] == again[i]);
    }
    lemma_nothing_to_admit(taken, again, ready, Seq::empty(), quota);
    let end = coverage_order(current, none, ready, quota);
    assert(end == taken);
    lookups_find_what_is_ready(ready, current[left_out].0, key);
    lemma_index_is_listed(order, left_out);
    let m = choose|m: int| 0 <= m < order.len() && #[trigger] order[m] == left_out;
    assert(ids[m] == current[left_out].0);
    assert forall|i: int, k: u64|
        0 <= i < current.len() && #[trigger] ready.contains((current[i].0, k)) && end.contains(
            k,
        ) implies current[i].1 < current[left_out].1 || current[i].1 == current[left_out].1 && (
    current[i].0.zoom < current[left_out].0.zoom || current[i].0.zoom == current[left_out].0.zoom
        && (current[i].0.y < current[left_out].0.y || current[i].0.y == current[left_out].0.y
        && current[i].0.x <= current[left_out].0.x)) by {
        lookups_find_what_is_ready(ready, current[i].0, k);
        lemma_index_is_listed(order, i);
        let j = choose|j: int| 0 <= j < order.len() && #[trigger] order[j] == i;
        assert(ids[j] == current[i].0);
        assert(lookup(ready, ids[j]) == Some(k));
        assert(j < m);
        assert(ranks[order[j]].le(ranks[order[m]]));
        lemma_single_rank(groups[i], current[i]);
        lemma_single_rank(groups[left_out], current[left_out]);
    }
}

proof fn lemma_single_rank(group: GroupView, tile: (TileId, i32))
    requires
        group.current == seq![tile],
        group.previous.len() == 0,
    ensures
        group_rank(group).a == tile.1,
        group_rank(group).b == tile.0.zoom,
        group_rank(group).c == tile.0.y,
        group_rank(group).d == tile.0.x,
{
    assert(least_priority(group.current.drop_last()) == i32::MAX);
    let ids = ids_of(group.current);
    assert(ids =~= seq![tile.0]);
    assert(ids.drop_last() =~= Seq::<TileId>::empty());
    assert(coarsest(tile.0, ids.drop_last()) == tile.0);
}

/// While a fallback tile below all current ones waits for one of them, what room
/// is left goes to the most urgent: where a ready tile gets no slot, all are
/// taken, and no current tile that has got one, other than a fallback tile, has
/// a greater priority number. Of equally urgent tiles the coarser come first,
/// then those of an upper row, then those further left.
pub proof fn urgent_tiles_come_first_over_fallback(
    current: Seq<(TileId, i32)>,
    previous: Seq<TileId>,
    ready: Seq<(TileId, u64)>,
    quota: nat,
    p: TileId,
    missing: int,
    left_out: int,
    key: u64,
)
    requires
        wanted_once(current),
        ready_once(ready),
        previous.contains(p),
        forall|i: int| 0 <= i < current.len() ==> tiles_overlap((#[trigger] current[i]).0, p),
        0 <= missing < current.len(),
        forall|k: u64| !ready.contains((current[missing].0, k)),
        0 <= left_out < current.len(),
        ready.contains((current[left_out].0, key)),
        !coverage_order(current, previous, ready, quota).contains(key),
    ensures
        coverage_order(current, previous, ready, quota).len() == quota,
        forall|i: int, k: u64|
            0 <= i < current.len() && #[trigger] ready.contains((current[i].0, k))
                && coverage_order(current, previous, ready, quota).contains(k)
                && !previous.contains(current[i].0) ==> current[i].1 < current[left_out].1
                || current[i].1 == current[left_out].1 && (current[i].0.zoom
                < current[left_out].0.zoom || current[i].0.zoom == current[left_out].0.zoom && (
            current[i].0.y < current[left_out].0.y || current[i].0.y == current[left_out].0.y
                && current[i].0.x <= current[left_out].0.x)),
{
    let none = Seq::<u64>::empty();
    let fallback = admit_all(none, previous, ready, none, quota);
    let start = Replacement { order: fallback, replaced: none };
    lemma_distinct(ready);
    if let Some(k) = lookup(ready, current[missing].0) {
        lookups_find_what_is_ready(ready, current[missing].0, k);
    }
    lemma_incomplete_group(current, previous, ready, quota, start, p, missing);
    let ranks = current_ranks(current);
    let order = order_of(ranks);
    stable_order_is_sorted(ranks);
    let ids = ranked_ids(current);
    assert forall|i: int, j: int| 0 <= i < ids.len() && 0 <= j < ids.len() && i != j implies ids[i]
        != ids[j] by {
        assert(order[i] != order[j]);
        assert(current[order[i]].0 != current[order[j]].0);
    }
    lemma_at_most(none, previous, ready, none, quota);
    lemma_admitted_in_turn(fallback, ids, ready, quota);
    let middle = admit_all(fallback, ids, ready, none, quota);
    let end = coverage_order(current, previous, ready, quota);
    assert(end == admit_all(middle, previous, ready, none, quota));
    lookups_find_what_is_ready(ready, current[left_out].0, key);
    lemma_index_is_listed(order, left_out);
    let m = choose|m: int| 0 <= m < order.len() && #[trigger] order[m] == left_out;
    assert(ids[m] == current[left_out].0);
    if middle.contains(key) {
        lemma_stay_admitted(middle, previous, ready, none, quota, key);
    }
    assert(middle.len() == quota);
    lemma_full_stays(middle, previous, ready, none, quota);
    assert forall|i: int, k: u64|
        0 <= i < current.len() && #[trigger] ready.contains((current[i].0, k)) && end.contains(k)
            && !previous.contains(current[i].0) implies current[i].1 < current[left_out].1
        || current[i].1 == current[left_out].1 && (current[i].0.zoom < current[left_out].0.zoom
        || current[i].0.zoom == current[left_out].0.zoom && (current[i].0.y
        < current[left_out].0.y || current[i].0.y == current[left_out].0.y && current[i].0.x
        <= current[left_out].0.x)) by {
        lookups_find_what_is_ready(ready, current[i].0, k);
        lemma_index_is_listed(order, i);
        let j = choose|j: int| 0 <= j < order.len() && #[trigger] order[j] == i;
        assert(ids[j] == current[i].0);
        if fallback.contains(k) {
            lemma_admitted_are_listed(none, previous, ready, none, quota, k);
            let q = choose|q: int|
                0 <= q < previous.len() && lookup(ready, #[trigger] previous[q]) == Some(k);
            assert(lookup(ready, previous[q]) == lookup(ready, current[i].0));
        }
        assert(lookup(ready, ids[j]) == Some(k));
        assert(j < m);
        assert(ranks[order[j]].le(ranks[order[m]]));
    }
}

proof fn lemma_at_most(
    order: Seq<u64>,
    ids: Seq<TileId>,
    ready: Seq<(TileId, u64)>,
    blocked: Seq<u64>,
    quota: nat,
)
    requires
        order.len() <= quota,
    ensures
        admit_all(order, ids, ready, blocked, quota).len() <= quota,
    decreases ids.len(),
{
    if ids.len() > 0 {
        lemma_at_most(order, ids.drop_last(), ready, blocked, quota);
    }
}

proof fn lemma_full_stays(
    order: Seq<u64>,
    ids: Seq<TileId>,
    ready: Seq<(TileId, u64)>,
    blocked: Seq<u64>,
    quota: nat,
)
    requires
        order.len() == quota,
    ensures
        admit_all(order, ids, ready, blocked, quota) == order,
    decreases ids.len(),
{
    if ids.len() > 0 {
        lemma_full_stays(order, ids.drop_last(), ready, blocked, quota);
    }
}

proof fn lemma_stay_admitted(
    order: Seq<u64>,
    ids: Seq<TileId>,
    ready: Seq<(TileId, u64)>,
    blocked: Seq<u64>,
    quota: nat,
    key: u64,
)
    requires
        order.contains(key),
    ensures
        admit_all(order, ids, ready, blocked, quota).contains(key),
    decreases ids.len(),
{
    if ids.len() > 0 {
        let before = admit_all(order, ids.drop_last(), ready, blocked, quota);
        lemma_stay_admitted(order, ids.drop_last(), ready, blocked, quota, key);
        let after = admit_all(order, ids, ready, blocked, quota);
        assert(after[before.index_of(key)] == key);
    }
}

proof fn lemma_admitted_are_listed(
    order: Seq<u64>,
    ids: Seq<TileId>,
    ready: Seq<(TileId, u64)>,
    blocked: Seq<u64>,
    quota: nat,
    key: u64,
)
    requires
        !order.contains(key),
        admit_all(order, ids, ready, blocked, quota).contains(key),
    ensures
        exists|i: int| 0 <= i < ids.len() && lookup(ready, #[trigger] ids[i]) == Some(key),
    decreases ids.len(),
{
    if ids.len() > 0 {
        let short = ids.drop_last();
        let before = admit_all(order, short, ready, blocked, quota);
        if before.contains(key) {
            lemma_admitted_are_listed(order, short, ready, blocked, quota, key);
            let i = choose|i: int|
                0 <= i < short.len() && lookup(ready, #[trigger] short[i]) == Some(key);
            assert(lookup(ready, ids[i]) == Some(key));
        } else {
            assert(lookup(ready, ids[ids.len() - 1]) == Some(key));
        }
    }
}

proof fn lemma_least(tiles: Seq<(TileId, i32)>)
    ensures
        forall|i: int| 0 <= i < tiles.len() ==> least_priority(tiles) <= (#[trigger] tiles[i]).1,
        tiles.len() > 0 ==> exists|i: int|
            0 <= i < tiles.len() && (#[trigger] tiles[i]).1 == least_priority(tiles),
    decreases tiles.len(),
{
    if tiles.len() > 0 {
        let short = tiles.drop_last();
        lemma_least(short);
        assert(tiles[tiles.len() - 1] == tiles.last());
        assert forall|i: int| 0 <= i < tiles.len() implies least_priority(tiles) <= (
        #[trigger] tiles[i]).1 by {
            if i < short.len() {
                assert(short[i] == tiles[i]);
            }
        }
        if tiles.last().1 >= least_priority(short) && short.len() > 0 {
            let i = choose|i: int|
                0 <= i < short.len() && (#[trigger] short[i]).1 == least_priority(short);
            assert(tiles[i].1 == least_priority(tiles));
        }
    }
}

/// Groups take the place of their fallback in the order of their most urgent
/// tiles: to every tile of a later group an earlier one has a tile that is at
/// least as urgent.
pub proof fn urgent_groups_come_first(
    current: Seq<(TileId, i32)>,
    previous: Seq<TileId>,
    i: int,
    j: int,
    d: int,
)
    requires
        ({
            let groups = groups_of(current, previous);
            let sorted = sorted_by(groups, group_ranks(groups));
            0 <= i < j < sorted.len() && 0 <= d < sorted[j].current.len()
        }),
    ensures
        ({
            let groups = groups_of(current, previous);
            let sorted = sorted_by(groups, group_ranks(groups));
            exists|c: int|
                0 <= c < sorted[i].current.len() && (#[trigger] sorted[i].current[c]).1
                    <= sorted[j].current[d].1
        }),
{
    let groups = groups_of(current, previous);
    let ranks = group_ranks(groups);
    let order = order_of(ranks);
    let sorted = sorted_by(groups, ranks);
    stable_order_is_sorted(ranks);
    lemma_groups_nonempty(current, previous);
    assert(sorted[i] == groups[order[i]] && sorted[j] == groups[order[j]]);
    assert(ranks[order[i]].le(ranks[order[j]]));
    lemma_least(sorted[i].current);
    lemma_least(sorted[j].current);
    let c = choose|c: int|
        0 <= c < sorted[i].current.len() && (#[trigger] sorted[i].current[c]).1 == least_priority(
            sorted[i].current,
        );
    assert(sorted[i].current[c].1 <= sorted[j].current[d].1);
}

} // verus!
