//! What holds of every allocation of map tile slots.

use crate::map_residency::{
    admitted, admitted_prefix, only, prepared, prepared_uploads, prioritized, quota_of, scope_ids,
    scope_index, uploaded, uploads, ReadyTileView, ResidencyView, ScopeView, selected,
};
use crate::map_tiles::{
    a_tile_overlaps_itself, absorb, admit_all, admit_one, all_ready, coverage_order,
    first_touching, group_ranks, group_with, groups_of, lookup, overlaps, ranked_ids, ready_keys,
    replace_group, replace_groups, shares_tile, tiles_overlap, with_missing, with_missing_keys,
    without, current_ranks, GroupView, MapScopeId, Replacement, Selection, TileId,
    MAP_TILE_CAPACITY,
};
use crate::order::{order_of, sorted_by, stable_order_is_sorted};
use vstd::prelude::*;

verus! {

/// Whether `key` is the key of a ready tile.
pub open spec fn is_ready_key(ready: Seq<(TileId, u64)>, key: u64) -> bool {
    exists|i: int| 0 <= i < ready.len() && (#[trigger] ready[i]).1 == key
}

/// Distinct keys of ready tiles, at most `quota`.
pub open spec fn sound_order(order: Seq<u64>, ready: Seq<(TileId, u64)>, quota: nat) -> bool {
    &&& order.no_duplicates()
    &&& order.len() <= quota
    &&& forall|i: int| 0 <= i < order.len() ==> is_ready_key(ready, #[trigger] order[i])
}

proof fn lemma_lookup(ready: Seq<(TileId, u64)>, id: TileId)
    ensures
        lookup(ready, id) matches Some(key) ==> is_ready_key(ready, key),
    decreases ready.len(),
{
    if ready.len() > 0 {
        if ready.last().0 == id {
            assert(ready[ready.len() - 1].1 == ready.last().1);
        } else {
            lemma_lookup(ready.drop_last(), id);
            if let Some(key) = lookup(ready.drop_last(), id) {
                let i = choose|i: int|
                    0 <= i < ready.drop_last().len() && (#[trigger] ready.drop_last()[i]).1 == key;
                assert(ready[i].1 == key);
            }
        }
    }
}

proof fn lemma_admit_all_sound(
    order: Seq<u64>,
    ids: Seq<TileId>,
    ready: Seq<(TileId, u64)>,
    blocked: Seq<u64>,
    quota: nat,
)
    requires
        sound_order(order, ready, quota),
    ensures
        sound_order(admit_all(order, ids, ready, blocked, quota), ready, quota),
        forall|k: u64|
            order.contains(k) ==> #[trigger] admit_all(order, ids, ready, blocked, quota).contains(
                k,
            ),
    decreases ids.len(),
{
    if ids.len() > 0 {
        let before = admit_all(order, ids.drop_last(), ready, blocked, quota);
        lemma_admit_all_sound(order, ids.drop_last(), ready, blocked, quota);
        lemma_lookup(ready, ids.last());
        let after = admit_one(before, ids.last(), ready, blocked, quota);
        assert forall|k: u64| order.contains(k) implies #[trigger] after.contains(k) by {
            assert(before.contains(k));
            let i = choose|i: int| 0 <= i < before.len() && before[i] == k;
            assert(after[i] == k);
        }
    }
}

proof fn lemma_without(keys: Seq<u64>, out: Seq<u64>)
    ensures
        without(keys, out).len() <= keys.len(),
        keys.no_duplicates() ==> without(keys, out).no_duplicates(),
        forall|k: u64| #[trigger]
            without(keys, out).contains(k) <==> keys.contains(k) && !out.contains(k),
    decreases keys.len(),
{
    if keys.len() > 0 {
        let short = keys.drop_last();
        lemma_without(short, out);
        let rest = without(short, out);
        let result = without(keys, out);
        assert forall|k: u64| #[trigger] result.contains(k) <==> keys.contains(k) && !out.contains(
            k,
        ) by {
            assert(rest.contains(k) <==> short.contains(k) && !out.contains(k));
            if keys.contains(k) {
                let i = choose|i: int| 0 <= i < keys.len() && keys[i] == k;
                if i < short.len() {
                    assert(short[i] == k);
                }
            }
            if short.contains(k) {
                let i = choose|i: int| 0 <= i < short.len() && short[i] == k;
                assert(keys[i] == k);
            }
            if rest.contains(k) {
                let i = choose|i: int| 0 <= i < rest.len() && rest[i] == k;
                assert(result[i] == k);
            }
            if !out.contains(keys.last()) {
                assert(result[result.len() - 1] == keys.last());
                assert(keys[keys.len() - 1] == keys.last());
            }
            if result.contains(k) {
                let i = choose|i: int| 0 <= i < result.len() && result[i] == k;
                if i < rest.len() {
                    assert(rest[i] == k);
                } else {
                    assert(keys[keys.len() - 1] == k);
                }
            }
        }
        if keys.no_duplicates() {
            assert forall|i: int, j: int|
                0 <= i < short.len() && 0 <= j < short.len() && i != j implies short[i]
                != short[j] by {
                assert(keys[i] != keys[j]);
            }
            if !out.contains(keys.last()) {
                assert(!rest.contains(keys.last())) by {
                    if short.contains(keys.last()) {
                        let i = choose|i: int| 0 <= i < short.len() && short[i] == keys.last();
                        assert(keys[i] == keys[keys.len() - 1]);
                    }
                }
                assert forall|i: int, j: int|
                    0 <= i < result.len() && 0 <= j < result.len() && i != j implies result[i]
                    != result[j] by {
                    if i < rest.len() && j < rest.len() {
                        assert(rest[i] != rest[j]);
                    } else if i < rest.len() {
                        assert(rest.contains(rest[i]));
                    } else if j < rest.len() {
                        assert(rest.contains(rest[j]));
                    }
                }
            }
        }
    }
}

proof fn lemma_with_missing_keys(keys: Seq<u64>, more: Seq<u64>)
    ensures
        with_missing_keys(keys, more).len() <= keys.len() + more.len(),
        keys.no_duplicates() ==> with_missing_keys(keys, more).no_duplicates(),
        forall|k: u64| #[trigger]
            with_missing_keys(keys, more).contains(k) <==> keys.contains(k) || more.contains(k),
    decreases more.len(),
{
    if more.len() > 0 {
        let short = more.drop_last();
        lemma_with_missing_keys(keys, short);
        let rest = with_missing_keys(keys, short);
        let result = with_missing_keys(keys, more);
        assert forall|k: u64| #[trigger] result.contains(k) <==> keys.contains(k) || more.contains(
            k,
        ) by {
            assert(rest.contains(k) <==> keys.contains(k) || short.contains(k));
            assert(more.contains(k) <==> short.contains(k) || k == more.last()) by {
                if more.contains(k) {
                    let i = choose|i: int| 0 <= i < more.len() && more[i] == k;
                    if i < short.len() {
                        assert(short[i] == k);
                    }
                }
                if short.contains(k) {
                    let i = choose|i: int| 0 <= i < short.len() && short[i] == k;
                    assert(more[i] == k);
                }
                assert(more[more.len() - 1] == more.last());
            }
            assert(result.contains(k) <==> rest.contains(k) || k == more.last()) by {
                if rest.contains(k) {
                    let i = choose|i: int| 0 <= i < rest.len() && rest[i] == k;
                    assert(result[i] == k);
                }
                if !rest.contains(more.last()) {
                    assert(result[result.len() - 1] == more.last());
                }
            }
        }
    }
}

proof fn lemma_ready_keys(ids: Seq<TileId>, ready: Seq<(TileId, u64)>)
    ensures
        ready_keys(ids, ready).len() <= ids.len(),
        forall|k: u64| #[trigger]
            ready_keys(ids, ready).contains(k) <==> exists|i: int|
                0 <= i < ids.len() && lookup(ready, #[trigger] ids[i]) == Some(k),
    decreases ids.len(),
{
    if ids.len() > 0 {
        let short = ids.drop_last();
        lemma_ready_keys(short, ready);
        let rest = ready_keys(short, ready);
        let result = ready_keys(ids, ready);
        assert forall|k: u64| #[trigger] result.contains(k) <==> exists|i: int|
            0 <= i < ids.len() && lookup(ready, #[trigger] ids[i]) == Some(k) by {
            if result.contains(k) {
                let i = choose|i: int| 0 <= i < result.len() && result[i] == k;
                if i < rest.len() {
                    assert(rest[i] == k);
                    assert(rest.contains(k));
                    let j = choose|j: int|
                        0 <= j < short.len() && lookup(ready, #[trigger] short[j]) == Some(k);
                    assert(lookup(ready, ids[j]) == Some(k));
                } else {
                    assert(lookup(ready, ids[ids.len() - 1]) == Some(k));
                }
            }
            if exists|i: int| 0 <= i < ids.len() && lookup(ready, #[trigger] ids[i]) == Some(k) {
                let i = choose|i: int|
                    0 <= i < ids.len() && lookup(ready, #[trigger] ids[i]) == Some(k);
                if i < short.len() {
                    assert(lookup(ready, short[i]) == Some(k));
                    assert(rest.contains(k));
                    let j = choose|j: int| 0 <= j < rest.len() && rest[j] == k;
                    assert(result[j] == k);
                } else {
                    assert(result[result.len() - 1] == k);
                }
            }
        }
    }
}

proof fn lemma_replace_group_sound(
    state: Replacement,
    group: GroupView,
    ready: Seq<(TileId, u64)>,
    quota: nat,
)
    requires
        sound_order(state.order, ready, quota),
    ensures
        sound_order(replace_group(state, group, ready, quota).order, ready, quota),
{
    let ids = ranked_ids(group.current);
    let fallback = ready_keys(group.previous, ready);
    let kept = without(state.order, fallback);
    let keys = ready_keys(ids, ready);
    lemma_without(state.order, fallback);
    lemma_with_missing_keys(kept, keys);
    lemma_ready_keys(ids, ready);
    let out = with_missing_keys(kept, keys);
    assert forall|i: int| 0 <= i < out.len() implies is_ready_key(ready, #[trigger] out[i]) by {
        let k = out[i];
        assert(out.contains(k));
        if kept.contains(k) {
            assert(state.order.contains(k));
            let j = choose|j: int| 0 <= j < state.order.len() && state.order[j] == k;
            assert(is_ready_key(ready, state.order[j]));
        } else {
            assert(keys.contains(k));
            let j = choose|j: int| 0 <= j < ids.len() && lookup(ready, #[trigger] ids[j]) == Some(k);
            lemma_lookup(ready, ids[j]);
        }
    }
}

proof fn lemma_replace_groups_sound(
    state: Replacement,
    groups: Seq<GroupView>,
    ready: Seq<(TileId, u64)>,
    quota: nat,
)
    requires
        sound_order(state.order, ready, quota),
    ensures
        sound_order(replace_groups(state, groups, ready, quota).order, ready, quota),
    decreases groups.len(),
{
    if groups.len() > 0 {
        lemma_replace_groups_sound(state, groups.drop_last(), ready, quota);
        lemma_replace_group_sound(
            replace_groups(state, groups.drop_last(), ready, quota),
            groups.last(),
            ready,
            quota,
        );
    }
}

/// A pane never gets more slots than its quota, no slot twice, and only slots
/// for tiles that are ready.
pub proof fn coverage_respects_quota(
    current: Seq<(TileId, i32)>,
    previous: Seq<TileId>,
    ready: Seq<(TileId, u64)>,
    quota: nat,
)
    ensures
        sound_order(coverage_order(current, previous, ready, quota), ready, quota),
{
    let none = Seq::<u64>::empty();
    lemma_admit_all_sound(none, previous, ready, none, quota);
    let fallback = admit_all(none, previous, ready, none, quota);
    let groups = groups_of(current, previous);
    let sorted = sorted_by(groups, group_ranks(groups));
    let start = Replacement { order: fallback, replaced: none };
    lemma_replace_groups_sound(start, sorted, ready, quota);
    let state = replace_groups(start, sorted, ready, quota);
    lemma_admit_all_sound(state.order, ranked_ids(current), ready, none, quota);
    let middle = admit_all(state.order, ranked_ids(current), ready, none, quota);
    lemma_admit_all_sound(middle, previous, ready, state.replaced, quota);
}

/// `quota_sum(n, count)` slots go to the first `n` of `count` panes.
pub open spec fn quota_sum(n: nat, count: nat) -> nat
    decreases n,
{
    if n == 0 {
        0
    } else {
        quota_sum((n - 1) as nat, count) + quota_of(n - 1, count)
    }
}

proof fn lemma_quota_sum(n: nat, count: nat)
    requires
        n <= count,
        count > 0,
    ensures
        quota_sum(n, count) == n * (MAP_TILE_CAPACITY as nat / count) + if n < MAP_TILE_CAPACITY as nat
            % count {
            n
        } else {
            MAP_TILE_CAPACITY as nat % count
        },
    decreases n,
{
    if n > 0 {
        lemma_quota_sum((n - 1) as nat, count);
        let base = MAP_TILE_CAPACITY as nat / count;
        assert((n - 1) * base + base == n * base) by (nonlinear_arith);
    } else {
        assert(0 * (MAP_TILE_CAPACITY as nat / count) == 0);
    }
}

/// The quotas of all panes together are exactly the capacity.
pub proof fn quotas_fill_capacity(count: nat)
    requires
        count > 0,
    ensures
        quota_sum(count, count) == MAP_TILE_CAPACITY,
{
    lemma_quota_sum(count, count);
    vstd::arithmetic::div_mod::lemma_fundamental_div_mod(MAP_TILE_CAPACITY as int, count as int);
    vstd::arithmetic::div_mod::lemma_mod_bound(MAP_TILE_CAPACITY as int, count as int);
}

proof fn lemma_admitted_prefix_bounded(scopes: Seq<ScopeView>, sequence: Seq<MapScopeId>, n: nat)
    requires
        n <= sequence.len(),
    ensures
        admitted_prefix(scopes, sequence, n).len() <= quota_sum(n, sequence.len()),
    decreases n,
{
    if n > 0 {
        lemma_admitted_prefix_bounded(scopes, sequence, (n - 1) as nat);
        if let Some(at) = scope_index(scopes, sequence[n - 1], 0) {
            let s = scopes[at];
            coverage_respects_quota(
                s.selection.current,
                s.selection.previous,
                crate::map_residency::ready_list(s.selection, s.cache),
                quota_of(n - 1, sequence.len()),
            );
        }
    }
}

/// All panes together never get more slots than there are.
pub proof fn admission_respects_capacity(scopes: Seq<ScopeView>, active: Option<MapScopeId>)
    ensures
        admitted(scopes, active).len() <= MAP_TILE_CAPACITY,
{
    let sequence = prioritized(scope_ids(scopes), active);
    lemma_admitted_prefix_bounded(scopes, sequence, sequence.len());
    if sequence.len() > 0 {
        quotas_fill_capacity(sequence.len());
    }
}

/// Whether `group` lists every fallback tile that one of its current tiles overlaps.
spec fn covers(group: GroupView, previous: Seq<TileId>) -> bool {
    forall|c: (TileId, i32), p: TileId|
        group.current.contains(c) && previous.contains(p) && #[trigger] tiles_overlap(c.0, p)
            ==> group.previous.contains(p)
}

spec fn apart(a: Seq<TileId>, b: Seq<TileId>) -> bool {
    forall|p: TileId| !(#[trigger] a.contains(p) && b.contains(p))
}

/// Every tile of `current` stands in a group, every group lists exactly the
/// fallback tiles of its current tiles, and no two groups share one.
spec fn well_grouped(
    groups: Seq<GroupView>,
    current: Seq<(TileId, i32)>,
    previous: Seq<TileId>,
) -> bool {
    &&& forall|k: int| 0 <= k < groups.len() ==> covers(#[trigger] groups[k], previous)
    &&& forall|j: int, k: int|
        0 <= j < groups.len() && 0 <= k < groups.len() && j != k ==> apart(
            (#[trigger] groups[j]).previous,
            (#[trigger] groups[k]).previous,
        )
    &&& forall|c: (TileId, i32)| #[trigger]
        current.contains(c) ==> exists|k: int|
            0 <= k < groups.len() && (#[trigger] groups[k]).current.contains(c)
    &&& forall|k: int, c: (TileId, i32)|
        0 <= k < groups.len() && #[trigger] groups[k].current.contains(c) ==> current.contains(c)
    &&& forall|k: int, p: TileId|
        0 <= k < groups.len() && #[trigger] groups[k].previous.contains(p) ==> previous.contains(p)
}

proof fn lemma_overlaps(id: TileId, previous: Seq<TileId>)
    ensures
        forall|p: TileId| #[trigger]
            overlaps(id, previous).contains(p) <==> previous.contains(p) && tiles_overlap(id, p),
    decreases previous.len(),
{
    if previous.len() > 0 {
        let short = previous.drop_last();
        lemma_overlaps(id, short);
        let rest = overlaps(id, short);
        let out = overlaps(id, previous);
        assert forall|p: TileId| #[trigger] out.contains(p) <==> previous.contains(p)
            && tiles_overlap(id, p) by {
            assert(rest.contains(p) <==> short.contains(p) && tiles_overlap(id, p));
            assert(previous =~= short.push(previous.last()));
            assert(previous.contains(p) <==> short.contains(p) || p == previous.last()) by {
                lemma_push_contains(short, previous.last(), p);
            }
            lemma_push_contains(rest, previous.last(), p);
        }
    }
}

proof fn lemma_push_contains<T>(s: Seq<T>, x: T, y: T)
    ensures
        s.push(x).contains(y) <==> s.contains(y) || x == y,
{
    let t = s.push(x);
    if s.contains(y) {
        let i = choose|i: int| 0 <= i < s.len() && s[i] == y;
        assert(t[i] == y);
    }
    assert(t[s.len() as int] == x);
    if t.contains(y) {
        let i = choose|i: int| 0 <= i < t.len() && t[i] == y;
        if i < s.len() {
            assert(s[i] == y);
        }
    }
}

proof fn lemma_concat_contains<T>(a: Seq<T>, b: Seq<T>, y: T)
    ensures
        (a + b).contains(y) <==> a.contains(y) || b.contains(y),
{
    let t = a + b;
    if a.contains(y) {
        let i = choose|i: int| 0 <= i < a.len() && a[i] == y;
        assert(t[i] == y);
    }
    if b.contains(y) {
        let i = choose|i: int| 0 <= i < b.len() && b[i] == y;
        assert(t[a.len() + i] == y);
    }
    if t.contains(y) {
        let i = choose|i: int| 0 <= i < t.len() && t[i] == y;
        if i < a.len() {
            assert(a[i] == y);
        } else {
            assert(b[i - a.len()] == y);
        }
    }
}

proof fn lemma_with_missing(tiles: Seq<TileId>, more: Seq<TileId>)
    ensures
        forall|p: TileId| #[trigger]
            with_missing(tiles, more).contains(p) <==> tiles.contains(p) || more.contains(p),
    decreases more.len(),
{
    if more.len() > 0 {
        let short = more.drop_last();
        lemma_with_missing(tiles, short);
        let rest = with_missing(tiles, short);
        assert(more =~= short.push(more.last()));
        assert forall|p: TileId| #[trigger] with_missing(tiles, more).contains(p)
            <==> tiles.contains(p) || more.contains(p) by {
            assert(rest.contains(p) <==> tiles.contains(p) || short.contains(p));
            lemma_push_contains(short, more.last(), p);
            lemma_push_contains(rest, more.last(), p);
        }
    }
}

proof fn lemma_shares(a: Seq<TileId>, b: Seq<TileId>)
    ensures
        shares_tile(a, b) <==> !apart(a, b),
{
    if shares_tile(a, b) {
        let i = choose|i: int| 0 <= i < a.len() && b.contains(#[trigger] a[i]);
        assert(a.contains(a[i]));
    }
    if !apart(a, b) {
        let p = choose|p: TileId| #[trigger] a.contains(p) && b.contains(p);
        let i = choose|i: int| 0 <= i < a.len() && a[i] == p;
        assert(b.contains(a[i]));
    }
}

/// What holds while groups are being absorbed into the group at `first`, whose
/// place `target` will take.
spec fn absorbing(
    groups: Seq<GroupView>,
    target: GroupView,
    found: Seq<TileId>,
    first: int,
    i: int,
    current: Seq<(TileId, i32)>,
    previous: Seq<TileId>,
) -> bool {
    &&& 0 <= first <= i < groups.len()
    &&& covers(target, previous)
    &&& forall|k: int|
        0 <= k < groups.len() && k != first ==> covers(#[trigger] groups[k], previous)
    &&& forall|j: int, k: int|
        0 <= j < groups.len() && 0 <= k < groups.len() && j != k && j != first && k != first
            ==> apart((#[trigger] groups[j]).previous, (#[trigger] groups[k]).previous)
    &&& forall|k: int, p: TileId|
        0 <= k < groups.len() && k != first && #[trigger] groups[k].previous.contains(p)
            && target.previous.contains(p) ==> found.contains(p)
    &&& forall|k: int|
        0 <= k < groups.len() && k != first && (k < first || k > i) ==> apart(
            (#[trigger] groups[k]).previous,
            found,
        )
    &&& forall|c: (TileId, i32)| #[trigger]
        current.contains(c) ==> target.current.contains(c) || exists|k: int|
            0 <= k < groups.len() && k != first && (#[trigger] groups[k]).current.contains(c)
    &&& forall|c: (TileId, i32)| #[trigger]
        target.current.contains(c) ==> current.contains(c)
    &&& forall|k: int, c: (TileId, i32)|
        0 <= k < groups.len() && k != first && #[trigger] groups[k].current.contains(c)
            ==> current.contains(c)
    &&& forall|p: TileId| #[trigger] target.previous.contains(p) ==> previous.contains(p)
    &&& forall|k: int, p: TileId|
        0 <= k < groups.len() && k != first && #[trigger] groups[k].previous.contains(p)
            ==> previous.contains(p)
}

#[verifier::rlimit(60)]
proof fn lemma_absorb_step(
    groups: Seq<GroupView>,
    target: GroupView,
    found: Seq<TileId>,
    first: int,
    i: int,
    current: Seq<(TileId, i32)>,
    previous: Seq<TileId>,
)
    requires
        absorbing(groups, target, found, first, i, current, previous),
        first < i,
    ensures
        shares_tile(groups[i].previous, found) ==> absorbing(
            groups.remove(i),
            GroupView {
                current: target.current + groups[i].current,
                previous: with_missing(target.previous, groups[i].previous),
            },
            found,
            first,
            i - 1,
            current,
            previous,
        ),
        !shares_tile(groups[i].previous, found) ==> absorbing(
            groups,
            target,
            found,
            first,
            i - 1,
            current,
            previous,
        ),
{
    lemma_shares(groups[i].previous, found);
    if shares_tile(groups[i].previous, found) {
        let next = groups.remove(i);
        let merged = GroupView {
            current: target.current + groups[i].current,
            previous: with_missing(target.previous, groups[i].previous),
        };
        lemma_with_missing(target.previous, groups[i].previous);
        assert forall|k: int| 0 <= k < next.len() implies #[trigger] next[k] == groups[if k < i {
            k
        } else {
            k + 1
        }] by {}
        assert forall|c: (TileId, i32)| #[trigger] merged.current.contains(c)
            <==> target.current.contains(c) || groups[i].current.contains(c) by {
            lemma_concat_contains(target.current, groups[i].current, c);
        }
        assert(covers(merged, previous)) by {
            assert(covers(groups[i], previous));
        }
        assert forall|c: (TileId, i32)| #[trigger] current.contains(c) implies merged.current.contains(
            c,
        ) || exists|k: int|
            0 <= k < next.len() && k != first && (#[trigger] next[k]).current.contains(c) by {
            if !target.current.contains(c) {
                let k = choose|k: int|
                    0 <= k < groups.len() && k != first && (#[trigger] groups[k]).current.contains(c);
                if k < i {
                    assert(next[k] == groups[k]);
                } else if k > i {
                    assert(next[k - 1] == groups[k]);
                }
            }
        }
        assert forall|k: int, p: TileId|
            0 <= k < next.len() && k != first && #[trigger] next[k].previous.contains(p)
                && merged.previous.contains(p) implies found.contains(p) by {
            let g = if k < i { k } else { k + 1 };
            assert(next[k] == groups[g]);
            assert(groups[g].previous.contains(p));
            if groups[i].previous.contains(p) {
                assert(apart(groups[g].previous, groups[i].previous));
            }
        }
    }
}

proof fn lemma_absorb(
    groups: Seq<GroupView>,
    target: GroupView,
    found: Seq<TileId>,
    first: int,
    i: int,
    current: Seq<(TileId, i32)>,
    previous: Seq<TileId>,
)
    requires
        absorbing(groups, target, found, first, i, current, previous),
    ensures
        ({
            let (rest, merged) = absorb(groups, target, found, first, i);
            absorbing(rest, merged, found, first, first, current, previous)
        }),
    decreases i,
{
    if i > first {
        lemma_absorb_step(groups, target, found, first, i, current, previous);
        if shares_tile(groups[i].previous, found) {
            lemma_absorb(
                groups.remove(i),
                GroupView {
                    current: target.current + groups[i].current,
                    previous: with_missing(target.previous, groups[i].previous),
                },
                found,
                first,
                i - 1,
                current,
                previous,
            );
        } else {
            lemma_absorb(groups, target, found, first, i - 1, current, previous);
        }
    }
}

proof fn lemma_finish_absorbing(
    rest: Seq<GroupView>,
    merged: GroupView,
    found: Seq<TileId>,
    first: int,
    current: Seq<(TileId, i32)>,
    previous: Seq<TileId>,
)
    requires
        absorbing(rest, merged, found, first, first, current, previous),
    ensures
        well_grouped(rest.update(first, merged), current, previous),
{
    let out = rest.update(first, merged);
    assert forall|k: int| 0 <= k < out.len() implies #[trigger] out[k] == if k == first {
        merged
    } else {
        rest[k]
    } by {}
    assert forall|k: int| 0 <= k < rest.len() && k != first implies apart(
        (#[trigger] rest[k]).previous,
        merged.previous,
    ) by {
        assert forall|p: TileId| !(#[trigger] rest[k].previous.contains(p)
            && merged.previous.contains(p)) by {
            if rest[k].previous.contains(p) && merged.previous.contains(p) {
                assert(found.contains(p));
                assert(apart(rest[k].previous, found));
            }
        }
    }
    assert forall|j: int, k: int|
        0 <= j < out.len() && 0 <= k < out.len() && j != k implies apart(
        (#[trigger] out[j]).previous,
        (#[trigger] out[k]).previous,
    ) by {
        if j == first {
            assert(apart(rest[k].previous, merged.previous));
        } else if k == first {
            assert(apart(rest[j].previous, merged.previous));
        }
    }
    assert forall|c: (TileId, i32)| #[trigger] current.contains(c) implies exists|k: int|
        0 <= k < out.len() && (#[trigger] out[k]).current.contains(c) by {
        if merged.current.contains(c) {
            assert(out[first].current.contains(c));
        } else {
            let k = choose|k: int|
                0 <= k < rest.len() && k != first && (#[trigger] rest[k]).current.contains(c);
            assert(out[k].current.contains(c));
        }
    }
}

proof fn lemma_group_with(
    groups: Seq<GroupView>,
    tile: (TileId, i32),
    current: Seq<(TileId, i32)>,
    previous: Seq<TileId>,
)
    requires
        well_grouped(groups, current, previous),
    ensures
        well_grouped(group_with(groups, tile, previous), current.push(tile), previous),
{
    let found = overlaps(tile.0, previous);
    let more = current.push(tile);
    lemma_overlaps(tile.0, previous);
    lemma_touching(groups, found, 0);
    assert forall|c: (TileId, i32)| #[trigger] more.contains(c) <==> current.contains(c) || c
        == tile by {
        lemma_push_contains(current, tile, c);
    }
    match first_touching(groups, found, 0) {
        None => {
            let fresh = GroupView { current: seq![tile], previous: found };
            let out = groups.push(fresh);
            assert forall|c: (TileId, i32)| #[trigger] fresh.current.contains(c) <==> c == tile by {
                lemma_push_contains(Seq::<(TileId, i32)>::empty(), tile, c);
                assert(fresh.current =~= Seq::<(TileId, i32)>::empty().push(tile));
            }
            assert(covers(fresh, previous));
            assert forall|k: int| 0 <= k < groups.len() implies apart(
                (#[trigger] groups[k]).previous,
                found,
            ) by {
                lemma_shares(groups[k].previous, found);
            }
            assert forall|c: (TileId, i32)| #[trigger] more.contains(c) implies exists|k: int|
                0 <= k < out.len() && (#[trigger] out[k]).current.contains(c) by {
                if c == tile {
                    assert(out[groups.len() as int].current.contains(c));
                } else {
                    let k = choose|k: int|
                        0 <= k < groups.len() && (#[trigger] groups[k]).current.contains(c);
                    assert(out[k].current.contains(c));
                }
            }
            assert forall|k: int| 0 <= k < out.len() implies #[trigger] out[k] == if k
                < groups.len() {
                groups[k]
            } else {
                fresh
            } by {}
        },
        Some(first) => {
            let target = GroupView {
                current: groups[first].current.push(tile),
                previous: with_missing(groups[first].previous, found),
            };
            lemma_with_missing(groups[first].previous, found);
            assert forall|c: (TileId, i32)| #[trigger] target.current.contains(c)
                <==> groups[first].current.contains(c) || c == tile by {
                lemma_push_contains(groups[first].current, tile, c);
            }
            let last = groups.len() - 1;
            assert(covers(target, previous)) by {
                assert(covers(groups[first], previous));
            }
            assert forall|k: int| 0 <= k < first implies apart(
                (#[trigger] groups[k]).previous,
                found,
            ) by {
                lemma_shares(groups[k].previous, found);
            }
            assert forall|k: int, p: TileId|
                0 <= k < groups.len() && k != first && #[trigger] groups[k].previous.contains(p)
                    && target.previous.contains(p) implies found.contains(p) by {
                assert(apart(groups[k].previous, groups[first].previous));
            }
            assert forall|c: (TileId, i32)| #[trigger] more.contains(c) implies target.current.contains(
                c,
            ) || exists|k: int|
                0 <= k < groups.len() && k != first && (#[trigger] groups[k]).current.contains(
                    c,
                ) by {
                if c != tile {
                    let k = choose|k: int|
                        0 <= k < groups.len() && (#[trigger] groups[k]).current.contains(c);
                    if k != first {
                        assert(groups[k].current.contains(c));
                    }
                }
            }
            assert(absorbing(groups, target, found, first, last, more, previous));
            lemma_absorb(groups, target, found, first, last, more, previous);
            let (rest, merged) = absorb(groups, target, found, first, last);
            lemma_finish_absorbing(rest, merged, found, first, more, previous);
        },
    }
}

proof fn lemma_touching(groups: Seq<GroupView>, found: Seq<TileId>, i: int)
    requires
        0 <= i,
    ensures
        first_touching(groups, found, i) matches Some(f) ==> i <= f < groups.len() && forall|k: int|
            i <= k < f ==> !shares_tile((#[trigger] groups[k]).previous, found),
        first_touching(groups, found, i) is None ==> forall|k: int|
            i <= k < groups.len() ==> !shares_tile((#[trigger] groups[k]).previous, found),
    decreases groups.len() - i,
{
    if i < groups.len() && !shares_tile(groups[i].previous, found) {
        lemma_touching(groups, found, i + 1);
    }
}

proof fn lemma_groups_of(current: Seq<(TileId, i32)>, previous: Seq<TileId>)
    ensures
        well_grouped(groups_of(current, previous), current, previous),
    decreases current.len(),
{
    if current.len() > 0 {
        lemma_groups_of(current.drop_last(), previous);
        lemma_group_with(
            groups_of(current.drop_last(), previous),
            current.last(),
            current.drop_last(),
            previous,
        );
        assert(current =~= current.drop_last().push(current.last()));
    }
}

/// Whether a current tile overlaps a tile.
pub open spec fn overlapped(current: Seq<(TileId, i32)>, id: TileId) -> bool {
    exists|i: int| 0 <= i < current.len() && tiles_overlap((#[trigger] current[i]).0, id)
}

/// Every fallback tile of every group is one that a current tile overlaps.
spec fn grounded(groups: Seq<GroupView>, current: Seq<(TileId, i32)>) -> bool {
    forall|k: int, q: TileId|
        0 <= k < groups.len() && #[trigger] groups[k].previous.contains(q) ==> overlapped(
            current,
            q,
        )
}

proof fn lemma_absorb_grounded(
    groups: Seq<GroupView>,
    target: GroupView,
    found: Seq<TileId>,
    first: int,
    i: int,
    current: Seq<(TileId, i32)>,
)
    requires
        0 <= first < groups.len(),
        grounded(groups, current),
        forall|q: TileId| #[trigger] target.previous.contains(q) ==> overlapped(current, q),
    ensures
        ({
            let (rest, merged) = absorb(groups, target, found, first, i);
            &&& first < rest.len()
            &&& grounded(rest, current)
            &&& forall|q: TileId| #[trigger]
                merged.previous.contains(q) ==> overlapped(current, q)
        }),
    decreases i,
{
    if !(i <= first || i <= 0) {
        if i < groups.len() && shares_tile(groups[i].previous, found) {
            let next = groups.remove(i);
            assert forall|k: int, q: TileId|
                0 <= k < next.len() && #[trigger] next[k].previous.contains(q) implies overlapped(
                current,
                q,
            ) by {
                let g = if k < i { k } else { k + 1 };
                assert(next[k] == groups[g]);
                assert(groups[g].previous.contains(q));
            }
            lemma_with_missing(target.previous, groups[i].previous);
            lemma_absorb_grounded(
                next,
                GroupView {
                    current: target.current + groups[i].current,
                    previous: with_missing(target.previous, groups[i].previous),
                },
                found,
                first,
                i - 1,
                current,
            );
        } else {
            lemma_absorb_grounded(groups, target, found, first, i - 1, current);
        }
    }
}

proof fn lemma_groups_are_grounded(current: Seq<(TileId, i32)>, previous: Seq<TileId>)
    ensures
        grounded(groups_of(current, previous), current),
    decreases current.len(),
{
    if current.len() > 0 {
        let short = current.drop_last();
        let tile = current.last();
        let groups = groups_of(short, previous);
        let found = overlaps(tile.0, previous);
        lemma_groups_are_grounded(short, previous);
        lemma_overlaps(tile.0, previous);
        assert(grounded(groups, current)) by {
            assert forall|k: int, q: TileId|
                0 <= k < groups.len() && #[trigger] groups[k].previous.contains(q) implies overlapped(
                current,
                q,
            ) by {
                assert(overlapped(short, q));
                let i = choose|i: int|
                    0 <= i < short.len() && tiles_overlap((#[trigger] short[i]).0, q);
                assert(current[i] == short[i]);
            }
        }
        assert forall|q: TileId| #[trigger] found.contains(q) implies overlapped(current, q) by {
            assert(tiles_overlap(current[current.len() - 1].0, q));
        }
        lemma_touching(groups, found, 0);
        match first_touching(groups, found, 0) {
            None => {
                let out = groups.push(GroupView { current: seq![tile], previous: found });
                assert forall|k: int, q: TileId|
                    0 <= k < out.len() && #[trigger] out[k].previous.contains(q) implies overlapped(
                    current,
                    q,
                ) by {
                    if k < groups.len() {
                        assert(groups[k].previous.contains(q));
                    }
                }
            },
            Some(first) => {
                let target = GroupView {
                    current: groups[first].current.push(tile),
                    previous: with_missing(groups[first].previous, found),
                };
                lemma_with_missing(groups[first].previous, found);
                lemma_absorb_grounded(groups, target, found, first, groups.len() - 1, current);
                let (rest, merged) = absorb(groups, target, found, first, groups.len() - 1);
                let out = rest.update(first, merged);
                assert forall|k: int, q: TileId|
                    0 <= k < out.len() && #[trigger] out[k].previous.contains(q) implies overlapped(
                    current,
                    q,
                ) by {
                    if k != first {
                        assert(rest[k].previous.contains(q));
                    }
                }
            },
        }
    }
}

/// No two tiles are ready under the same key.
pub open spec fn distinct_keys(ready: Seq<(TileId, u64)>) -> bool {
    forall|a: TileId, b: TileId|
        (#[trigger] lookup(ready, a)) is Some && lookup(ready, a) == (#[trigger] lookup(ready, b))
            ==> a == b
}

/// Current tiles overlap `p`, and every one that does is ready and has a slot.
pub open spec fn fully_covered(
    p: TileId,
    current: Seq<(TileId, i32)>,
    ready: Seq<(TileId, u64)>,
    order: Seq<u64>,
) -> bool {
    &&& overlapped(current, p)
    &&& forall|i: int|
        0 <= i < current.len() && tiles_overlap((#[trigger] current[i]).0, p) ==> (lookup(
            ready,
            current[i].0,
        ) matches Some(key) && order.contains(key))
}

proof fn lemma_ranked_ids(tiles: Seq<(TileId, i32)>, c: (TileId, i32))
    requires
        tiles.contains(c),
    ensures
        ranked_ids(tiles).contains(c.0),
{
    let ranks = current_ranks(tiles);
    let sorted = sorted_by(tiles, ranks);
    crate::order::sorting_keeps_every_item(tiles, ranks);
    vstd::seq_lib::to_multiset_contains(tiles, c);
    vstd::seq_lib::to_multiset_contains(sorted, c);
    assert(tiles.to_multiset().count(c) > 0);
    assert(sorted.contains(c));
    let i = choose|i: int| 0 <= i < sorted.len() && sorted[i] == c;
    assert(ranked_ids(tiles)[i] == c.0);
}

proof fn lemma_replace_keeps_coverage(
    state: Replacement,
    groups: Seq<GroupView>,
    m: int,
    current: Seq<(TileId, i32)>,
    previous: Seq<TileId>,
    ready: Seq<(TileId, u64)>,
    quota: nat,
    p: TileId,
    key: u64,
)
    requires
        well_grouped(groups, current, previous),
        0 <= m < groups.len(),
        distinct_keys(ready),
        grounded(groups, current),
        previous.contains(p),
        lookup(ready, p) == Some(key),
        state.order.contains(key) || fully_covered(p, current, ready, state.order),
    ensures
        ({
            let next = replace_group(state, groups[m], ready, quota);
            next.order.contains(key) || fully_covered(p, current, ready, next.order)
        }),
{
    let group = groups[m];
    let ids = ranked_ids(group.current);
    let fallback = ready_keys(group.previous, ready);
    let kept = without(state.order, fallback);
    let keys = ready_keys(ids, ready);
    let next = replace_group(state, group, ready, quota);
    if all_ready(ids, ready) && kept.len() + keys.len() <= quota {
        lemma_without(state.order, fallback);
        lemma_with_missing_keys(kept, keys);
        lemma_ready_keys(ids, ready);
        lemma_ready_keys(group.previous, ready);
        if fallback.contains(key) && state.order.contains(key) {
            let q = choose|q: int|
                0 <= q < group.previous.len() && lookup(ready, #[trigger] group.previous[q])
                    == Some(key);
            assert(group.previous[q] == p);
            assert(group.previous.contains(p));
            assert forall|i: int|
                0 <= i < current.len() && tiles_overlap((#[trigger] current[i]).0, p) implies (
            lookup(ready, current[i].0) matches Some(kc) && next.order.contains(kc)) by {
                let c = current[i];
                assert(current.contains(c));
                let j = choose|j: int|
                    0 <= j < groups.len() && (#[trigger] groups[j]).current.contains(c);
                assert(covers(groups[j], previous));
                assert(groups[j].previous.contains(p));
                if j != m {
                    assert(apart(groups[j].previous, groups[m].previous));
                }
                lemma_ranked_ids(group.current, c);
                let n = choose|n: int| 0 <= n < ids.len() && ids[n] == c.0;
                assert(lookup(ready, ids[n]) is Some);
                let kc = lookup(ready, ids[n]).unwrap();
                assert(keys.contains(kc));
            }
        } else if !state.order.contains(key) {
            assert forall|i: int|
                0 <= i < current.len() && tiles_overlap((#[trigger] current[i]).0, p) implies (
            lookup(ready, current[i].0) matches Some(kc) && next.order.contains(kc)) by {
                let kc = lookup(ready, current[i].0).unwrap();
                if fallback.contains(kc) {
                    let q = choose|q: int|
                        0 <= q < group.previous.len() && lookup(ready, #[trigger] group.previous[q])
                            == Some(kc);
                    let c = current[i];
                    assert(group.previous[q] == c.0);
                    assert(groups[m].previous.contains(c.0));
                    assert(current.contains(c));
                    let j = choose|j: int|
                        0 <= j < groups.len() && (#[trigger] groups[j]).current.contains(c);
                    assert(covers(groups[j], previous));
                    a_tile_overlaps_itself(c.0);
                    assert(groups[j].previous.contains(c.0));
                    if j != m {
                        assert(apart(groups[j].previous, groups[m].previous));
                    }
                    lemma_ranked_ids(group.current, c);
                    let n = choose|n: int| 0 <= n < ids.len() && ids[n] == c.0;
                    assert(lookup(ready, ids[n]) == Some(kc));
                    assert(keys.contains(kc));
                } else {
                    assert(kept.contains(kc));
                }
            }
        } else {
            assert(kept.contains(key));
        }
    }
}

proof fn lemma_replacements_keep_coverage(
    start: Replacement,
    sorted: Seq<GroupView>,
    groups: Seq<GroupView>,
    current: Seq<(TileId, i32)>,
    previous: Seq<TileId>,
    ready: Seq<(TileId, u64)>,
    quota: nat,
    p: TileId,
    key: u64,
)
    requires
        well_grouped(groups, current, previous),
        forall|k: int| 0 <= k < sorted.len() ==> groups.contains(#[trigger] sorted[k]),
        distinct_keys(ready),
        grounded(groups, current),
        previous.contains(p),
        lookup(ready, p) == Some(key),
        start.order.contains(key),
    ensures
        ({
            let state = replace_groups(start, sorted, ready, quota);
            state.order.contains(key) || fully_covered(p, current, ready, state.order)
        }),
    decreases sorted.len(),
{
    if sorted.len() > 0 {
        let short = sorted.drop_last();
        assert forall|k: int| 0 <= k < short.len() implies groups.contains(#[trigger] short[k]) by {
            assert(sorted[k] == short[k]);
        }
        lemma_replacements_keep_coverage(
            start,
            short,
            groups,
            current,
            previous,
            ready,
            quota,
            p,
            key,
        );
        assert(groups.contains(sorted[sorted.len() - 1]));
        let m = choose|m: int| 0 <= m < groups.len() && groups[m] == sorted.last();
        lemma_replace_keeps_coverage(
            replace_groups(start, short, ready, quota),
            groups,
            m,
            current,
            previous,
            ready,
            quota,
            p,
            key,
        );
    }
}

/// A fallback tile that has a slot loses it only when current tiles overlap it
/// and every one that does is ready and has a slot: coverage never shrinks.
pub proof fn fallback_is_replaced_atomically(
    current: Seq<(TileId, i32)>,
    previous: Seq<TileId>,
    ready: Seq<(TileId, u64)>,
    quota: nat,
    p: TileId,
    key: u64,
)
    requires
        distinct_keys(ready),
        previous.contains(p),
        lookup(ready, p) == Some(key),
        admit_all(Seq::empty(), previous, ready, Seq::empty(), quota).contains(key),
    ensures
        coverage_order(current, previous, ready, quota).contains(key) || fully_covered(
            p,
            current,
            ready,
            coverage_order(current, previous, ready, quota),
        ),
{
    let none = Seq::<u64>::empty();
    let fallback = admit_all(none, previous, ready, none, quota);
    let groups = groups_of(current, previous);
    let ranks = group_ranks(groups);
    let sorted = sorted_by(groups, ranks);
    let start = Replacement { order: fallback, replaced: none };
    lemma_groups_of(current, previous);
    lemma_groups_are_grounded(current, previous);
    stable_order_is_sorted(ranks);
    assert forall|k: int| 0 <= k < sorted.len() implies groups.contains(#[trigger] sorted[k]) by {
        assert(sorted[k] == groups[order_of(ranks)[k]]);
    }
    lemma_replacements_keep_coverage(
        start,
        sorted,
        groups,
        current,
        previous,
        ready,
        quota,
        p,
        key,
    );
    lemma_admit_all_sound(none, previous, ready, none, quota);
    lemma_replace_groups_sound(start, sorted, ready, quota);
    let state = replace_groups(start, sorted, ready, quota);
    lemma_admit_all_sound(state.order, ranked_ids(current), ready, none, quota);
    let middle = admit_all(state.order, ranked_ids(current), ready, none, quota);
    lemma_admit_all_sound(middle, previous, ready, state.replaced, quota);
    let end = coverage_order(current, previous, ready, quota);
    if state.order.contains(key) {
        assert(middle.contains(key));
        assert(end.contains(key));
    } else {
        assert forall|i: int|
            0 <= i < current.len() && tiles_overlap((#[trigger] current[i]).0, p) implies (lookup(
            ready,
            current[i].0,
        ) matches Some(kc) && end.contains(kc)) by {
            let kc = lookup(ready, current[i].0).unwrap();
            assert(state.order.contains(kc));
            assert(middle.contains(kc));
            assert(end.contains(kc));
        }
    }
}

/// Two ready lists under which every tile is found alike.
pub open spec fn same_lookup(a: Seq<(TileId, u64)>, b: Seq<(TileId, u64)>) -> bool {
    forall|id: TileId| #[trigger] lookup(a, id) == lookup(b, id)
}

proof fn lemma_admit_all_same(
    order: Seq<u64>,
    ids: Seq<TileId>,
    a: Seq<(TileId, u64)>,
    b: Seq<(TileId, u64)>,
    blocked: Seq<u64>,
    quota: nat,
)
    requires
        same_lookup(a, b),
    ensures
        admit_all(order, ids, a, blocked, quota) == admit_all(order, ids, b, blocked, quota),
    decreases ids.len(),
{
    if ids.len() > 0 {
        lemma_admit_all_same(order, ids.drop_last(), a, b, blocked, quota);
    }
}

proof fn lemma_ready_keys_same(
    ids: Seq<TileId>,
    a: Seq<(TileId, u64)>,
    b: Seq<(TileId, u64)>,
)
    requires
        same_lookup(a, b),
    ensures
        ready_keys(ids, a) == ready_keys(ids, b),
        all_ready(ids, a) == all_ready(ids, b),
    decreases ids.len(),
{
    if ids.len() > 0 {
        lemma_ready_keys_same(ids.drop_last(), a, b);
    }
    if all_ready(ids, a) {
        assert forall|i: int| 0 <= i < ids.len() implies lookup(b, #[trigger] ids[i]) is Some by {
            assert(lookup(a, ids[i]) == lookup(b, ids[i]));
        }
    }
    if all_ready(ids, b) {
        assert forall|i: int| 0 <= i < ids.len() implies lookup(a, #[trigger] ids[i]) is Some by {
            assert(lookup(a, ids[i]) == lookup(b, ids[i]));
        }
    }
}

proof fn lemma_replace_groups_same(
    state: Replacement,
    groups: Seq<GroupView>,
    a: Seq<(TileId, u64)>,
    b: Seq<(TileId, u64)>,
    quota: nat,
)
    requires
        same_lookup(a, b),
    ensures
        replace_groups(state, groups, a, quota) == replace_groups(state, groups, b, quota),
    decreases groups.len(),
{
    if groups.len() > 0 {
        lemma_replace_groups_same(state, groups.drop_last(), a, b, quota);
        lemma_ready_keys_same(ranked_ids(groups.last().current), a, b);
        lemma_ready_keys_same(groups.last().previous, a, b);
    }
}

/// The order in which ready tiles arrived has no influence on who gets a slot.
pub proof fn arrival_order_is_irrelevant(
    current: Seq<(TileId, i32)>,
    previous: Seq<TileId>,
    a: Seq<(TileId, u64)>,
    b: Seq<(TileId, u64)>,
    quota: nat,
)
    requires
        same_lookup(a, b),
    ensures
        coverage_order(current, previous, a, quota) == coverage_order(
            current,
            previous,
            b,
            quota,
        ),
{
    let none = Seq::<u64>::empty();
    lemma_admit_all_same(none, previous, a, b, none, quota);
    let fallback = admit_all(none, previous, a, none, quota);
    let groups = groups_of(current, previous);
    let sorted = sorted_by(groups, group_ranks(groups));
    let start = Replacement { order: fallback, replaced: none };
    lemma_replace_groups_same(start, sorted, a, b, quota);
    let state = replace_groups(start, sorted, a, quota);
    lemma_admit_all_same(state.order, ranked_ids(current), a, b, none, quota);
    let middle = admit_all(state.order, ranked_ids(current), a, none, quota);
    lemma_admit_all_same(middle, previous, a, b, state.replaced, quota);
}

/// Every resident key is admitted, once.
pub open spec fn resident_within(state: ResidencyView, order: Seq<u64>) -> bool {
    &&& state.resident.no_duplicates()
    &&& forall|i: int| 0 <= i < state.resident.len() ==> order.contains(#[trigger] state.resident[i])
}

proof fn lemma_only(keys: Seq<u64>, allowed: Seq<u64>)
    ensures
        keys.no_duplicates() ==> only(keys, allowed).no_duplicates(),
        forall|k: u64| #[trigger]
            only(keys, allowed).contains(k) <==> keys.contains(k) && allowed.contains(k),
    decreases keys.len(),
{
    if keys.len() > 0 {
        let short = keys.drop_last();
        lemma_only(short, allowed);
        let rest = only(short, allowed);
        assert(keys =~= short.push(keys.last()));
        assert forall|k: u64| #[trigger] only(keys, allowed).contains(k) <==> keys.contains(k)
            && allowed.contains(k) by {
            assert(rest.contains(k) <==> short.contains(k) && allowed.contains(k));
            lemma_push_contains(short, keys.last(), k);
            lemma_push_contains(rest, keys.last(), k);
        }
        if keys.no_duplicates() {
            assert forall|i: int, j: int|
                0 <= i < short.len() && 0 <= j < short.len() && i != j implies short[i]
                != short[j] by {
                assert(keys[i] != keys[j]);
            }
            assert(!rest.contains(keys.last())) by {
                if short.contains(keys.last()) {
                    let i = choose|i: int| 0 <= i < short.len() && short[i] == keys.last();
                    assert(keys[i] == keys[keys.len() - 1]);
                }
            }
            let out = only(keys, allowed);
            assert forall|i: int, j: int|
                0 <= i < out.len() && 0 <= j < out.len() && i != j implies out[i] != out[j] by {
                if i < rest.len() && j < rest.len() {
                    assert(rest[i] != rest[j]);
                } else if i < rest.len() {
                    assert(rest.contains(rest[i]));
                } else if j < rest.len() {
                    assert(rest.contains(rest[j]));
                }
            }
        }
    }
}

proof fn lemma_uploads_admitted(order: Seq<u64>, resident: Seq<u64>, changed: Seq<u64>)
    ensures
        forall|k: u64| #[trigger]
            uploads(order, resident, changed).contains(k) ==> order.contains(k),
    decreases order.len(),
{
    if order.len() > 0 {
        let short = order.drop_last();
        lemma_uploads_admitted(short, resident, changed);
        assert(order =~= short.push(order.last()));
        assert forall|k: u64| #[trigger] uploads(order, resident, changed).contains(k) implies order.contains(
            k,
        ) by {
            lemma_push_contains(short, order.last(), k);
            lemma_push_contains(uploads(short, resident, changed), order.last(), k);
        }
    }
}

/// Preparing a pane leaves only admitted tiles resident.
pub proof fn preparation_keeps_only_admitted(
    state: ResidencyView,
    selection: Selection,
    ready: Seq<ReadyTileView>,
)
    requires
        state.resident.no_duplicates(),
    ensures
        resident_within(
            prepared(state, selection, ready),
            admitted(prepared(state, selection, ready).scopes, Some(selection.scope)),
        ),
        forall|k: u64| #[trigger]
            prepared_uploads(state, selection, ready).contains(k) ==> admitted(
                prepared(state, selection, ready).scopes,
                Some(selection.scope),
            ).contains(k),
{
    let next = selected(state, selection, ready);
    let order = admitted(next.scopes, Some(selection.scope));
    lemma_only(next.resident, order);
    let out = prepared(state, selection, ready);
    assert forall|i: int| 0 <= i < out.resident.len() implies order.contains(
        #[trigger] out.resident[i],
    ) by {
        assert(out.resident.contains(out.resident[i]));
    }
    let changed = if selection.enabled {
        crate::map_residency::changed_keys(selection, ready, next.signatures)
    } else {
        Seq::empty()
    };
    lemma_uploads_admitted(order, out.resident, changed);
}

/// Uploading an admitted tile keeps the slots within the admitted tiles, and so
/// within the capacity.
pub proof fn uploads_stay_within_capacity(
    state: ResidencyView,
    active: Option<MapScopeId>,
    key: u64,
)
    requires
        resident_within(state, admitted(state.scopes, active)),
        admitted(state.scopes, active).contains(key),
    ensures
        resident_within(uploaded(state, key), admitted(uploaded(state, key).scopes, active)),
        uploaded(state, key).resident.len() <= MAP_TILE_CAPACITY,
{
    let order = admitted(state.scopes, active);
    let next = uploaded(state, key);
    assert(resident_within(next, order));
    admission_respects_capacity(state.scopes, active);
    let a = next.resident.to_set();
    let b = order.to_set();
    assert(a.subset_of(b)) by {
        assert forall|k: u64| a.contains(k) implies b.contains(k) by {
            let i = choose|i: int| 0 <= i < next.resident.len() && next.resident[i] == k;
            assert(order.contains(next.resident[i]));
        }
    }
    next.resident.unique_seq_to_set();
    order.lemma_cardinality_of_set();
    vstd::seq_lib::seq_to_set_is_finite(order);
    vstd::set_lib::lemma_len_subset(a, b);
}

/// The number of tiles in some groups.
spec fn total(groups: Seq<GroupView>) -> nat
    decreases groups.len(),
{
    if groups.len() == 0 {
        0
    } else {
        total(groups.drop_last()) + groups.last().current.len()
    }
}

proof fn lemma_total_update(groups: Seq<GroupView>, i: int, group: GroupView)
    requires
        0 <= i < groups.len(),
    ensures
        total(groups.update(i, group)) + groups[i].current.len() == total(groups)
            + group.current.len(),
        groups[i].current.len() <= total(groups),
    decreases groups.len(),
{
    let short = groups.drop_last();
    if i < groups.len() - 1 {
        lemma_total_update(short, i, group);
        assert(groups.update(i, group).drop_last() =~= short.update(i, group));
    } else {
        assert(groups.update(i, group).drop_last() =~= short);
    }
}

proof fn lemma_total_remove(groups: Seq<GroupView>, i: int)
    requires
        0 <= i < groups.len(),
    ensures
        total(groups.remove(i)) + groups[i].current.len() == total(groups),
    decreases groups.len(),
{
    let short = groups.drop_last();
    if i < groups.len() - 1 {
        lemma_total_remove(short, i);
        assert(groups.remove(i).drop_last() =~= short.remove(i));
    } else {
        assert(groups.remove(i) =~= short);
    }
}

proof fn lemma_total_absorb(
    groups: Seq<GroupView>,
    target: GroupView,
    found: Seq<TileId>,
    first: int,
    i: int,
)
    requires
        0 <= first < groups.len(),
        i < groups.len(),
    ensures
        ({
            let (rest, merged) = absorb(groups, target, found, first, i);
            &&& first < rest.len()
            &&& rest[first] == groups[first]
            &&& total(rest) + merged.current.len() == total(groups) + target.current.len()
        }),
    decreases i,
{
    if i > first && i > 0 {
        if shares_tile(groups[i].previous, found) {
            lemma_total_remove(groups, i);
            lemma_total_absorb(
                groups.remove(i),
                GroupView {
                    current: target.current + groups[i].current,
                    previous: with_missing(target.previous, groups[i].previous),
                },
                found,
                first,
                i - 1,
            );
        } else {
            lemma_total_absorb(groups, target, found, first, i - 1);
        }
    }
}

proof fn lemma_total_groups(current: Seq<(TileId, i32)>, previous: Seq<TileId>)
    ensures
        total(groups_of(current, previous)) == current.len(),
    decreases current.len(),
{
    if current.len() > 0 {
        let short = current.drop_last();
        let tile = current.last();
        let groups = groups_of(short, previous);
        let found = overlaps(tile.0, previous);
        lemma_total_groups(short, previous);
        lemma_touching(groups, found, 0);
        match first_touching(groups, found, 0) {
            None => {
                let one = GroupView { current: seq![tile], previous: found };
                assert(groups.push(one).drop_last() =~= groups);
            },
            Some(first) => {
                let target = GroupView {
                    current: groups[first].current.push(tile),
                    previous: with_missing(groups[first].previous, found),
                };
                lemma_total_absorb(groups, target, found, first, groups.len() - 1);
                let (rest, merged) = absorb(groups, target, found, first, groups.len() - 1);
                lemma_total_update(rest, first, merged);
            },
        }
    }
}

proof fn lemma_fewer(few: Seq<u64>, many: Seq<u64>)
    requires
        few.no_duplicates(),
        forall|i: int| 0 <= i < few.len() ==> many.contains(#[trigger] few[i]),
    ensures
        few.len() <= many.len(),
{
    few.unique_seq_to_set();
    many.lemma_cardinality_of_set();
    assert(few.to_set().subset_of(many.to_set()));
    vstd::set_lib::lemma_len_subset(few.to_set(), many.to_set());
}

proof fn lemma_few_ready(order: Seq<u64>, ready: Seq<(TileId, u64)>, quota: nat)
    requires
        sound_order(order, ready, quota),
    ensures
        order.len() <= ready.len(),
{
    let keys = ready.map_values(|r: (TileId, u64)| r.1);
    assert forall|i: int| 0 <= i < order.len() implies keys.contains(#[trigger] order[i]) by {
        assert(is_ready_key(ready, order[i]));
        let k = choose|k: int| 0 <= k < ready.len() && (#[trigger] ready[k]).1 == order[i];
        assert(keys[k] == order[i]);
    }
    lemma_fewer(order, keys);
}

proof fn lemma_admitted_only(
    order: Seq<u64>,
    ids: Seq<TileId>,
    ready: Seq<(TileId, u64)>,
    blocked: Seq<u64>,
    quota: nat,
    key: u64,
)
    requires
        admit_all(order, ids, ready, blocked, quota).contains(key),
    ensures
        order.contains(key) || !blocked.contains(key) && exists|i: int|
            0 <= i < ids.len() && lookup(ready, #[trigger] ids[i]) == Some(key),
    decreases ids.len(),
{
    if ids.len() > 0 {
        let short = ids.drop_last();
        let before = admit_all(order, short, ready, blocked, quota);
        let after = admit_all(order, ids, ready, blocked, quota);
        if before.contains(key) {
            lemma_admitted_only(order, short, ready, blocked, quota, key);
            if !order.contains(key) {
                let i = choose|i: int|
                    0 <= i < short.len() && lookup(ready, #[trigger] short[i]) == Some(key);
                assert(lookup(ready, ids[i]) == Some(key));
            }
        } else {
            assert(lookup(ready, ids[ids.len() - 1]) == Some(key));
        }
    }
}

/// Whether a tile is among the current ones.
pub open spec fn is_wanted(current: Seq<(TileId, i32)>, id: TileId) -> bool {
    exists|i: int| 0 <= i < current.len() && (#[trigger] current[i]).0 == id
}

/// What holds once the first `m` groups have been replaced.
spec fn moved_on(
    state: Replacement,
    sorted: Seq<GroupView>,
    current: Seq<(TileId, i32)>,
    ready: Seq<(TileId, u64)>,
    m: int,
) -> bool {
    &&& forall|j: int, c: (TileId, i32)|
        0 <= j < m && #[trigger] sorted[j].current.contains(c) ==> (lookup(
            ready,
            c.0,
        ) matches Some(key) ==> state.order.contains(key))
    &&& forall|j: int, p: TileId|
        0 <= j < m && #[trigger] sorted[j].previous.contains(p) && !is_wanted(current, p) ==> (
        lookup(ready, p) matches Some(key) ==> !state.order.contains(key)
            && state.replaced.contains(key))
}

proof fn lemma_ranked_are_listed(tiles: Seq<(TileId, i32)>, n: int)
    requires
        0 <= n < ranked_ids(tiles).len(),
    ensures
        exists|c: (TileId, i32)| #[trigger] tiles.contains(c) && c.0 == ranked_ids(tiles)[n],
        ranked_ids(tiles).len() == tiles.len(),
{
    let ranks = current_ranks(tiles);
    stable_order_is_sorted(ranks);
    let c = tiles[order_of(ranks)[n]];
    assert(tiles.contains(c));
    assert(ranked_ids(tiles)[n] == c.0);
}

proof fn lemma_moves_on(
    start: Replacement,
    sorted: Seq<GroupView>,
    m: nat,
    current: Seq<(TileId, i32)>,
    previous: Seq<TileId>,
    ready: Seq<(TileId, u64)>,
    quota: nat,
)
    requires
        m <= sorted.len(),
        well_grouped(sorted, current, previous),
        forall|j: int|
            0 <= j < sorted.len() ==> (#[trigger] sorted[j]).current.len() <= current.len(),
        distinct_keys(ready),
        forall|i: int|
            0 <= i < current.len() ==> lookup(ready, (#[trigger] current[i]).0) is Some,
        ready.len() + current.len() <= quota,
        sound_order(start.order, ready, quota),
    ensures
        moved_on(
            replace_groups(start, sorted.take(m as int), ready, quota),
            sorted,
            current,
            ready,
            m as int,
        ),
    decreases m,
{
    if m > 0 {
        let before = replace_groups(start, sorted.take(m - 1), ready, quota);
        let next = replace_groups(start, sorted.take(m as int), ready, quota);
        let group = sorted[m - 1];
        lemma_moves_on(start, sorted, (m - 1) as nat, current, previous, ready, quota);
        assert(sorted.take(m as int).drop_last() =~= sorted.take(m - 1));
        assert(sorted.take(m as int).last() == group);
        lemma_replace_groups_sound(start, sorted.take(m - 1), ready, quota);
        lemma_few_ready(before.order, ready, quota);
        let ids = ranked_ids(group.current);
        let fallback = ready_keys(group.previous, ready);
        let kept = without(before.order, fallback);
        let keys = ready_keys(ids, ready);
        lemma_without(before.order, fallback);
        lemma_with_missing_keys(kept, keys);
        lemma_ready_keys(ids, ready);
        lemma_ready_keys(group.previous, ready);
        assert(all_ready(ids, ready)) by {
            assert forall|n: int| 0 <= n < ids.len() implies lookup(
                ready,
                #[trigger] ids[n],
            ) is Some by {
                lemma_ranked_are_listed(group.current, n);
                let c = choose|c: (TileId, i32)| #[trigger]
                    group.current.contains(c) && c.0 == ids[n];
                assert(sorted[m - 1].current.contains(c));
                assert(current.contains(c));
                let i = current.index_of(c);
                assert(current[i].0 == ids[n]);
            }
        }
        if ids.len() > 0 {
            lemma_ranked_are_listed(group.current, 0);
        }
        assert(ids.len() <= current.len());
        assert(kept.len() + keys.len() <= quota);
        assert(next == replace_group(before, group, ready, quota));
        assert(next.order == with_missing_keys(kept, keys));
        assert(next.replaced == before.replaced + fallback);
        assert forall|j: int, c: (TileId, i32)|
            0 <= j < m && #[trigger] sorted[j].current.contains(c) implies (lookup(
            ready,
            c.0,
        ) matches Some(key) ==> next.order.contains(key)) by {
            if let Some(key) = lookup(ready, c.0) {
                if j == m - 1 {
                    lemma_ranked_ids(group.current, c);
                    let n = choose|n: int| 0 <= n < ids.len() && ids[n] == c.0;
                    assert(lookup(ready, ids[n]) == Some(key));
                    assert(keys.contains(key));
                } else {
                    assert(before.order.contains(key));
                    if fallback.contains(key) {
                        let q = choose|q: int|
                            0 <= q < group.previous.len() && lookup(
                                ready,
                                #[trigger] group.previous[q],
                            ) == Some(key);
                        assert(group.previous[q] == c.0);
                        assert(sorted[m - 1].previous.contains(c.0));
                        a_tile_overlaps_itself(c.0);
                        assert(covers(sorted[j], previous));
                        assert(sorted[j].previous.contains(c.0));
                        assert(apart(sorted[j].previous, sorted[m - 1].previous));
                    }
                    assert(kept.contains(key));
                }
            }
        }
        assert forall|j: int, p: TileId|
            0 <= j < m && #[trigger] sorted[j].previous.contains(p) && !is_wanted(
                current,
                p,
            ) implies (lookup(ready, p) matches Some(key) ==> !next.order.contains(key)
            && next.replaced.contains(key)) by {
            if let Some(key) = lookup(ready, p) {
                if keys.contains(key) {
                    let n = choose|n: int|
                        0 <= n < ids.len() && lookup(ready, #[trigger] ids[n]) == Some(key);
                    assert(ids[n] == p);
                    lemma_ranked_are_listed(group.current, n);
                    let c = choose|c: (TileId, i32)| #[trigger]
                        group.current.contains(c) && c.0 == ids[n];
                    assert(sorted[m - 1].current.contains(c));
                    assert(current.contains(c));
                    assert(current[current.index_of(c)].0 == p);
                }
                lemma_concat_contains(before.replaced, fallback, key);
                if j == m - 1 {
                    let q = group.previous.index_of(p);
                    assert(lookup(ready, group.previous[q]) == Some(key));
                    assert(fallback.contains(key));
                }
            }
        }
    } else {
        assert(sorted.take(0) =~= Seq::<GroupView>::empty());
    }
}

/// Once all current tiles are ready and there is room for everything, every one
/// of them has a slot, and no fallback tile under them has one any more.
pub proof fn complete_tiles_take_the_place_of_fallback(
    current: Seq<(TileId, i32)>,
    previous: Seq<TileId>,
    ready: Seq<(TileId, u64)>,
    quota: nat,
    i: int,
    p: TileId,
)
    requires
        distinct_keys(ready),
        forall|k: int|
            0 <= k < current.len() ==> lookup(ready, (#[trigger] current[k]).0) is Some,
        ready.len() + current.len() <= quota,
        0 <= i < current.len(),
    ensures
        coverage_order(current, previous, ready, quota).contains(
            lookup(ready, current[i].0).unwrap(),
        ),
        previous.contains(p) && tiles_overlap(current[i].0, p) && !is_wanted(current, p) ==> (
        lookup(ready, p) matches Some(key) ==> !coverage_order(
            current,
            previous,
            ready,
            quota,
        ).contains(key)),
{
    let none = Seq::<u64>::empty();
    let fallback = admit_all(none, previous, ready, none, quota);
    let groups = groups_of(current, previous);
    let ranks = group_ranks(groups);
    let order = order_of(ranks);
    let sorted = sorted_by(groups, ranks);
    let start = Replacement { order: fallback, replaced: none };
    lemma_groups_of(current, previous);
    lemma_total_groups(current, previous);
    stable_order_is_sorted(ranks);
    assert forall|j: int| 0 <= j < sorted.len() implies (#[trigger] sorted[j]).current.len()
        <= current.len() by {
        assert(sorted[j] == groups[order[j]]);
        lemma_total_update(groups, order[j], groups[order[j]]);
    }
    assert(well_grouped(sorted, current, previous)) by {
        assert forall|k: int| 0 <= k < sorted.len() implies covers(
            #[trigger] sorted[k],
            previous,
        ) by {
            assert(sorted[k] == groups[order[k]]);
        }
        assert forall|j: int, k: int|
            0 <= j < sorted.len() && 0 <= k < sorted.len() && j != k implies apart(
            (#[trigger] sorted[j]).previous,
            (#[trigger] sorted[k]).previous,
        ) by {
            assert(order[j] != order[k]);
            assert(apart(groups[order[j]].previous, groups[order[k]].previous));
        }
        assert forall|c: (TileId, i32)| #[trigger] current.contains(c) implies exists|k: int|
            0 <= k < sorted.len() && (#[trigger] sorted[k]).current.contains(c) by {
            let g = choose|g: int|
                0 <= g < groups.len() && (#[trigger] groups[g]).current.contains(c);
            lemma_index_is_listed(order, g);
            let k = choose|k: int| 0 <= k < order.len() && #[trigger] order[k] == g;
            assert(sorted[k].current.contains(c));
        }
        assert forall|k: int, c: (TileId, i32)|
            0 <= k < sorted.len() && #[trigger] sorted[k].current.contains(
                c,
            ) implies current.contains(c) by {
            assert(groups[order[k]].current.contains(c));
        }
        assert forall|k: int, q: TileId|
            0 <= k < sorted.len() && #[trigger] sorted[k].previous.contains(
                q,
            ) implies previous.contains(q) by {
            assert(groups[order[k]].previous.contains(q));
        }
    }
    lemma_admit_all_sound(none, previous, ready, none, quota);
    lemma_moves_on(start, sorted, sorted.len(), current, previous, ready, quota);
    assert(sorted.take(sorted.len() as int) =~= sorted);
    lemma_replace_groups_sound(start, sorted, ready, quota);
    let state = replace_groups(start, sorted, ready, quota);
    let ids = ranked_ids(current);
    lemma_admit_all_sound(state.order, ids, ready, none, quota);
    let middle = admit_all(state.order, ids, ready, none, quota);
    lemma_admit_all_sound(middle, previous, ready, state.replaced, quota);
    let end = coverage_order(current, previous, ready, quota);
    assert(current.contains(current[i]));
    let k = choose|k: int|
        0 <= k < sorted.len() && (#[trigger] sorted[k]).current.contains(current[i]);
    let own = lookup(ready, current[i].0).unwrap();
    assert(state.order.contains(own));
    assert(middle.contains(own));
    if previous.contains(p) && tiles_overlap(current[i].0, p) && !is_wanted(current, p) && lookup(
        ready,
        p,
    ) is Some {
        let key = lookup(ready, p).unwrap();
        assert(covers(sorted[k], previous));
        assert(sorted[k].previous.contains(p));
        assert(!state.order.contains(key) && state.replaced.contains(key));
        if end.contains(key) {
            lemma_admitted_only(middle, previous, ready, state.replaced, quota, key);
            lemma_admitted_only(state.order, ids, ready, none, quota, key);
            let n = choose|n: int|
                0 <= n < ids.len() && lookup(ready, #[trigger] ids[n]) == Some(key);
            assert(ids[n] == p);
            lemma_ranked_are_listed(current, n);
            let c = choose|c: (TileId, i32)| #[trigger] current.contains(c) && c.0 == ids[n];
            assert(current[current.index_of(c)].0 == p);
        }
    }
}

/// A list of as many different indices as there are lists each of them.
pub(crate) proof fn lemma_index_is_listed(order: Seq<int>, i: int)
    requires
        order.no_duplicates(),
        forall|k: int| 0 <= k < order.len() ==> 0 <= #[trigger] order[k] < order.len(),
        0 <= i < order.len(),
    ensures
        exists|p: int| 0 <= p < order.len() && #[trigger] order[p] == i,
{
    let all = Set::new(|k: int| 0 <= k < order.len());
    vstd::set_lib::lemma_int_range(0, order.len() as int);
    assert(all =~= vstd::set_lib::set_int_range(0, order.len() as int));
    order.unique_seq_to_set();
    assert(order.to_set().subset_of(all));
    vstd::set_lib::lemma_subset_equality(order.to_set(), all);
    assert(order.to_set().contains(i));
}

/// No slot stays empty while a current tile waits: where one that is ready has
/// none, all slots of the quota are taken.
pub proof fn no_slot_stays_empty(
    current: Seq<(TileId, i32)>,
    previous: Seq<TileId>,
    ready: Seq<(TileId, u64)>,
    quota: nat,
    i: int,
    key: u64,
)
    requires
        0 <= i < current.len(),
        lookup(ready, current[i].0) == Some(key),
    ensures
        coverage_order(current, previous, ready, quota).contains(key) || coverage_order(
            current,
            previous,
            ready,
            quota,
        ).len() == quota,
{
    let none = Seq::<u64>::empty();
    let groups = groups_of(current, previous);
    let start = Replacement {
        order: admit_all(none, previous, ready, none, quota),
        replaced: none,
    };
    let sorted = sorted_by(groups, group_ranks(groups));
    lemma_admit_all_sound(none, previous, ready, none, quota);
    lemma_replace_groups_sound(start, sorted, ready, quota);
    let state = replace_groups(start, sorted, ready, quota);
    let ids = ranked_ids(current);
    lemma_admit_all_sound(state.order, ids, ready, none, quota);
    let middle = admit_all(state.order, ids, ready, none, quota);
    lemma_admit_all_sound(middle, previous, ready, state.replaced, quota);
    let end = coverage_order(current, previous, ready, quota);
    assert(current.contains(current[i]));
    lemma_ranked_ids(current, current[i]);
    let n = choose|n: int| 0 <= n < ids.len() && ids[n] == current[i].0;
    lemma_admitted_or_full(state.order, ids, ready, quota, n, key);
    if !middle.contains(key) {
        lemma_full_stays(middle, previous, ready, state.replaced, quota);
    }
}

proof fn lemma_admitted_or_full(
    order: Seq<u64>,
    ids: Seq<TileId>,
    ready: Seq<(TileId, u64)>,
    quota: nat,
    n: int,
    key: u64,
)
    requires
        0 <= n < ids.len(),
        lookup(ready, ids[n]) == Some(key),
        order.len() <= quota,
    ensures
        ({
            let after = admit_all(order, ids, ready, Seq::empty(), quota);
            after.contains(key) || after.len() == quota
        }),
    decreases ids.len(),
{
    let none = Seq::<u64>::empty();
    let short = ids.drop_last();
    let before = admit_all(order, short, ready, none, quota);
    let after = admit_all(order, ids, ready, none, quota);
    lemma_at_most(order, short, ready, none, quota);
    if n < short.len() {
        assert(short[n] == ids[n]);
        lemma_admitted_or_full(order, short, ready, quota, n, key);
        if before.contains(key) {
            assert(after[before.index_of(key)] == key);
        }
    } else if before.len() < quota && !before.contains(key) {
        assert(after[after.len() - 1] == key);
    }
}

proof fn lemma_at_most(
    order: Seq<u64>,
    ids: Seq<TileId>,
    ready: Seq<(TileId, u64)>,
    blocked: Seq<u64>,
    quota: nat,
)
    requires
        order.len() <= quota,
    ensures
        order.len() <= admit_all(order, ids, ready, blocked, quota).len() <= quota,
    decreases ids.len(),
{
    if ids.len() > 0 {
        lemma_at_most(order, ids.drop_last(), ready, blocked, quota);
    }
}

proof fn lemma_full_stays(
    order: Seq<u64>,
    ids: Seq<TileId>,
    ready: Seq<(TileId, u64)>,
    blocked: Seq<u64>,
    quota: nat,
)
    requires
        order.len() == quota,
    ensures
        admit_all(order, ids, ready, blocked, quota) == order,
    decreases ids.len(),
{
    if ids.len() > 0 {
        lemma_full_stays(order, ids.drop_last(), ready, blocked, quota);
    }
}

/// While one of the current tiles over a fallback tile is missing, nothing takes
/// the place of the fallback.
pub(crate) proof fn lemma_incomplete_group(
    current: Seq<(TileId, i32)>,
    previous: Seq<TileId>,
    ready: Seq<(TileId, u64)>,
    quota: nat,
    start: Replacement,
    p: TileId,
    missing: int,
)
    requires
        previous.contains(p),
        forall|i: int| 0 <= i < current.len() ==> tiles_overlap((#[trigger] current[i]).0, p),
        0 <= missing < current.len(),
        lookup(ready, current[missing].0) is None,
    ensures
        ({
            let groups = groups_of(current, previous);
            replace_groups(start, sorted_by(groups, group_ranks(groups)), ready, quota) == start
        }),
{
    let groups = groups_of(current, previous);
    let ranks = group_ranks(groups);
    let sorted = sorted_by(groups, ranks);
    lemma_groups_of(current, previous);
    crate::map_tiles::lemma_groups_nonempty(current, previous);
    stable_order_is_sorted(ranks);
    assert(current.contains(current[missing]));
    let g = choose|g: int|
        0 <= g < groups.len() && (#[trigger] groups[g]).current.contains(current[missing]);
    assert forall|k: int| 0 <= k < groups.len() implies k == g && #[trigger] groups[k]
        == groups[g] by {
        let c = groups[k].current[0];
        assert(groups[k].current.contains(c));
        assert(current.contains(c));
        assert(tiles_overlap(current[current.index_of(c)].0, p));
        assert(covers(groups[k], previous));
        assert(groups[k].previous.contains(p));
        assert(covers(groups[g], previous));
        assert(tiles_overlap(current[missing].0, p));
        assert(groups[g].previous.contains(p));
        if k != g {
            assert(apart(groups[k].previous, groups[g].previous));
        }
    }
    if groups.len() > 1 {
        assert(groups[0] == groups[g] && groups[1] == groups[g]);
    }
    assert(sorted.len() == 1);
    assert(sorted[0] == groups[order_of(ranks)[0]]);
    let ids = ranked_ids(groups[g].current);
    lemma_ranked_ids(groups[g].current, current[missing]);
    let n = choose|n: int| 0 <= n < ids.len() && ids[n] == current[missing].0;
    assert(!all_ready(ids, ready)) by {
        assert(lookup(ready, ids[n]) is None);
    }
    assert(sorted.drop_last() =~= Seq::<GroupView>::empty());
    assert(replace_groups(start, sorted.drop_last(), ready, quota) == start);
}

} // verus!
