//! What a pane draws of its map tiles, and that the order in which they arrive
//! has no part in it.

use crate::map_laws::{arrival_order_is_irrelevant, same_lookup};
use crate::map_residency::{
    admitted, admitted_prefix, at_epoch, cache_index, cache_of, cached_tile, changed_keys,
    is_current, is_outdated, is_previous, keyed, lemma_cache_index, lemma_cache_of_keyed,
    lemma_only_matching, lemma_refreshed_keyed, lemma_selected_is_well_formed,
    lemma_with_ready_keyed, lemma_with_tile_keyed, only_matching, prepared,
    prepared_uploads, prioritized, quota_of, ready_list, readmitted, refreshed_cache, scope_ids,
    scope_index, scope_slot, selected, tile_key, uploaded, uploads, visible_keys,
    with_ready, with_scope, with_tile, CachedTileView, ReadyTileView, ResidencyView, ScopeView,
};
use crate::map_tiles::{lookup, MapScopeId, Selection, TileId};
use crate::order::{ascending, order_of, sorting_keeps_every_item, stable_order_is_sorted};
use vstd::prelude::*;

verus! {

/// The state after the tiles under some keys have been uploaded.
pub open spec fn all_uploaded(state: ResidencyView, keys: Seq<u64>) -> ResidencyView
    decreases keys.len(),
{
    if keys.len() == 0 {
        state
    } else {
        uploaded(all_uploaded(state, keys.drop_last()), keys.last())
    }
}

/// The state in which a pane is drawn: prepared, and uploaded what is to be.
pub open spec fn drawn_state(
    state: ResidencyView,
    selection: Selection,
    ready: Seq<ReadyTileView>,
) -> ResidencyView {
    all_uploaded(
        prepared(state, selection, ready),
        prepared_uploads(state, selection, ready),
    )
}

/// The keys that a pane draws: of its current tiles where `current` holds, else
/// of the fallback tiles below them.
pub open spec fn drawn_keys(state: ResidencyView, selection: Selection, current: bool) -> Seq<u64> {
    ascending(
        visible_keys(
            cache_of(state.scopes, selection.scope),
            selection,
            state.resident,
            current,
        ),
    )
}

/// Whether a tile belongs to what the selection wants to draw.
pub open spec fn belongs(selection: Selection, tile: ReadyTileView) -> bool {
    crate::map_residency::matches(selection, tile)
}

/// No two tiles have the same key.
pub open spec fn tiles_differ(ready: Seq<ReadyTileView>) -> bool {
    forall|i: int, j: int|
        0 <= i < j < ready.len() ==> tile_key(#[trigger] ready[i]) != tile_key(#[trigger] ready[j])
}

/// The same tiles, in whatever order.
pub open spec fn same_arrivals(a: Seq<ReadyTileView>, b: Seq<ReadyTileView>) -> bool {
    &&& tiles_differ(a)
    &&& tiles_differ(b)
    &&& forall|tile: ReadyTileView| #[trigger] a.contains(tile) <==> b.contains(tile)
}

/// The tile that a cache holds under a key.
spec fn held(cache: Seq<CachedTileView>, key: u64) -> Option<ReadyTileView> {
    match cache_index(cache, key, 0) {
        Some(at) => Some(cache[at].tile),
        None => None,
    }
}

/// Two caches that hold the same tiles.
spec fn same_held(a: Seq<CachedTileView>, b: Seq<CachedTileView>) -> bool {
    forall|key: u64| #[trigger] held(a, key) == held(b, key)
}

proof fn lemma_held(cache: Seq<CachedTileView>, i: int)
    requires
        keyed(cache),
        0 <= i < cache.len(),
    ensures
        held(cache, cache[i].key) == Some(cache[i].tile),
{
    lemma_cache_index(cache, cache[i].key, 0);
    match cache_index(cache, cache[i].key, 0) {
        Some(at) => {
            if at < i {
                assert(cache[at].key != cache[i].key);
            } else if i < at {
                assert(cache[i].key != cache[at].key);
            }
        },
        None => {
            assert(cache[i].key != cache[i].key);
        },
    }
}

proof fn lemma_found(cache: Seq<CachedTileView>, key: u64) -> (at: int)
    requires
        held(cache, key) is Some,
    ensures
        0 <= at < cache.len(),
        cache[at].key == key,
        cache[at].tile == held(cache, key).unwrap(),
{
    lemma_cache_index(cache, key, 0);
    cache_index(cache, key, 0).unwrap()
}

proof fn lemma_with_tile(cache: Seq<CachedTileView>, tile: ReadyTileView, key: u64)
    requires
        keyed(cache),
    ensures
        held(with_tile(cache, tile), key) == if key == tile_key(tile) {
            Some(tile)
        } else {
            held(cache, key)
        },
{
    let entry = CachedTileView { key: tile_key(tile), tile };
    let out = with_tile(cache, tile);
    lemma_with_tile_keyed(cache, tile);
    lemma_cache_index(cache, entry.key, 0);
    let at = match cache_index(cache, entry.key, 0) {
        Some(at) => at,
        None => cache.len() as int,
    };
    assert(out[at] == entry);
    lemma_held(out, at);
    if key != entry.key {
        if held(cache, key) is Some {
            let k = lemma_found(cache, key);
            assert(out[k] == cache[k]);
            lemma_held(out, k);
        } else if held(out, key) is Some {
            let k = lemma_found(out, key);
            assert(k != at);
            assert(out[k] == cache[k]);
            lemma_held(cache, k);
        }
    }
}

/// Whether a list holds a tile of the selection under a key.
spec fn arrives(selection: Selection, ready: Seq<ReadyTileView>, key: u64) -> bool {
    exists|i: int|
        0 <= i < ready.len() && belongs(selection, #[trigger] ready[i]) && tile_key(ready[i]) == key
}

proof fn lemma_with_ready(
    cache: Seq<CachedTileView>,
    selection: Selection,
    ready: Seq<ReadyTileView>,
    key: u64,
)
    requires
        keyed(cache),
        tiles_differ(ready),
    ensures
        forall|i: int|
            0 <= i < ready.len() && belongs(selection, #[trigger] ready[i]) && tile_key(ready[i])
                == key ==> held(with_ready(cache, selection, ready), key) == Some(ready[i]),
        !arrives(selection, ready, key) ==> held(with_ready(cache, selection, ready), key) == held(
            cache,
            key,
        ),
    decreases ready.len(),
{
    if ready.len() > 0 {
        let short = ready.drop_last();
        let tile = ready.last();
        let rest = with_ready(cache, selection, short);
        assert(tiles_differ(short)) by {
            assert forall|i: int, j: int| 0 <= i < j < short.len() implies tile_key(
                #[trigger] short[i],
            ) != tile_key(#[trigger] short[j]) by {
                assert(tile_key(ready[i]) != tile_key(ready[j]));
            }
        }
        lemma_with_ready(cache, selection, short, key);
        lemma_with_ready_keyed(cache, selection, short);
        lemma_with_tile(rest, tile, key);
        if !arrives(selection, ready, key) {
            assert(!arrives(selection, short, key)) by {
                if arrives(selection, short, key) {
                    let i = choose|i: int|
                        0 <= i < short.len() && belongs(selection, #[trigger] short[i]) && tile_key(
                            short[i],
                        ) == key;
                    assert(ready[i] == short[i]);
                }
            }
            if belongs(selection, tile) {
                assert(tile_key(ready[ready.len() - 1]) != key);
            }
        }
        assert forall|i: int|
            0 <= i < ready.len() && belongs(selection, #[trigger] ready[i]) && tile_key(ready[i])
                == key implies held(with_ready(cache, selection, ready), key) == Some(ready[i]) by {
            if i < short.len() {
                assert(short[i] == ready[i]);
                assert(tile_key(ready[i]) != tile_key(ready[ready.len() - 1]));
            }
        }
    }
}

proof fn lemma_matching_held(cache: Seq<CachedTileView>, selection: Selection, key: u64)
    requires
        keyed(cache),
    ensures
        held(only_matching(cache, selection), key) == match held(cache, key) {
            Some(tile) => if belongs(selection, tile) {
                Some(tile)
            } else {
                None
            },
            None => None,
        },
{
    let out = only_matching(cache, selection);
    lemma_only_matching(cache, selection);
    if held(out, key) is Some {
        let k = lemma_found(out, key);
        assert(cache.contains(out[k]));
        let j = choose|j: int| 0 <= j < cache.len() && cache[j] == out[k];
        lemma_held(cache, j);
    }
    if held(cache, key) is Some {
        let j = lemma_found(cache, key);
        if belongs(selection, cache[j].tile) {
            assert(out.contains(cache[j]));
            let k = choose|k: int| 0 <= k < out.len() && out[k] == cache[j];
            lemma_held(out, k);
        }
    }
}

proof fn lemma_refreshed_alike(
    cache: Seq<CachedTileView>,
    selection: Selection,
    a: Seq<ReadyTileView>,
    b: Seq<ReadyTileView>,
)
    requires
        keyed(cache),
        same_arrivals(a, b),
    ensures
        same_held(refreshed_cache(cache, selection, a), refreshed_cache(cache, selection, b)),
{
    let kept = if is_outdated(selection, cache) {
        Seq::empty()
    } else {
        cache
    };
    lemma_with_ready_keyed(kept, selection, a);
    lemma_with_ready_keyed(kept, selection, b);
    assert forall|key: u64| #[trigger]
        held(refreshed_cache(cache, selection, a), key) == held(
            refreshed_cache(cache, selection, b),
            key,
        ) by {
        lemma_matching_held(with_ready(kept, selection, a), selection, key);
        lemma_matching_held(with_ready(kept, selection, b), selection, key);
        lemma_with_ready(kept, selection, a, key);
        lemma_with_ready(kept, selection, b, key);
        lemma_arrives_alike(selection, a, b, key);
        lemma_arrives_alike(selection, b, a, key);
        if arrives(selection, a, key) {
            let i = choose|i: int|
                0 <= i < a.len() && belongs(selection, #[trigger] a[i]) && tile_key(a[i]) == key;
            assert(a.contains(a[i]));
            let j = choose|j: int| 0 <= j < b.len() && b[j] == a[i];
            assert(belongs(selection, b[j]));
        }
    }
}

proof fn lemma_arrives_alike(
    selection: Selection,
    a: Seq<ReadyTileView>,
    b: Seq<ReadyTileView>,
    key: u64,
)
    requires
        forall|tile: ReadyTileView| #[trigger] a.contains(tile) <==> b.contains(tile),
    ensures
        arrives(selection, a, key) ==> arrives(selection, b, key),
{
    if arrives(selection, a, key) {
        let i = choose|i: int|
            0 <= i < a.len() && belongs(selection, #[trigger] a[i]) && tile_key(a[i]) == key;
        assert(a.contains(a[i]));
        let j = choose|j: int| 0 <= j < b.len() && b[j] == a[i];
        assert(belongs(selection, b[j]));
    }
}

/// Every tile of a cache is one that the selection draws.
spec fn all_match(selection: Selection, cache: Seq<CachedTileView>) -> bool {
    forall|i: int| 0 <= i < cache.len() ==> belongs(selection, (#[trigger] cache[i]).tile)
}

proof fn lemma_listed(selection: Selection, cache: Seq<CachedTileView>, id: TileId)
    requires
        all_match(selection, cache),
    ensures
        match lookup(ready_list(selection, cache), id) {
            Some(key) => exists|i: int|
                0 <= i < cache.len() && (#[trigger] cache[i]).tile.id == id && cache[i].key == key,
            None => forall|i: int| 0 <= i < cache.len() ==> (#[trigger] cache[i]).tile.id != id,
        },
    decreases cache.len(),
{
    if cache.len() > 0 {
        let short = cache.drop_last();
        let list = ready_list(selection, cache);
        assert(all_match(selection, short)) by {
            assert forall|i: int| 0 <= i < short.len() implies belongs(
                selection,
                (#[trigger] short[i]).tile,
            ) by {
                assert(belongs(selection, cache[i].tile));
            }
        }
        lemma_listed(selection, short, id);
        assert(belongs(selection, cache[cache.len() - 1].tile));
        assert(list.drop_last() =~= ready_list(selection, short));
        if cache.last().tile.id == id {
            assert(cache[cache.len() - 1].tile.id == id);
        } else {
            match lookup(list, id) {
                Some(key) => {
                    let i = choose|i: int|
                        0 <= i < short.len() && (#[trigger] short[i]).tile.id == id && short[i].key
                            == key;
                    assert(cache[i] == short[i]);
                },
                None => {
                    assert forall|i: int| 0 <= i < cache.len() implies (
                    #[trigger] cache[i]).tile.id != id by {
                        if i < short.len() {
                            assert(short[i].tile.id != id);
                        }
                    }
                },
            }
        }
    }
}

/// Tiles of one selection with the same id have the same key.
proof fn lemma_id_is_key(selection: Selection, a: ReadyTileView, b: ReadyTileView)
    requires
        belongs(selection, a),
        belongs(selection, b),
        a.id == b.id,
    ensures
        tile_key(a) == tile_key(b),
{
}

proof fn lemma_lookup_one_way(
    selection: Selection,
    a: Seq<CachedTileView>,
    b: Seq<CachedTileView>,
    id: TileId,
)
    requires
        keyed(a),
        keyed(b),
        all_match(selection, a),
        all_match(selection, b),
        same_held(a, b),
    ensures
        lookup(ready_list(selection, a), id) is Some ==> lookup(ready_list(selection, b), id)
            == lookup(ready_list(selection, a), id),
{
    lemma_listed(selection, a, id);
    lemma_listed(selection, b, id);
    if let Some(key) = lookup(ready_list(selection, a), id) {
        let i = choose|i: int|
            0 <= i < a.len() && (#[trigger] a[i]).tile.id == id && a[i].key == key;
        lemma_held(a, i);
        assert(held(a, key) == held(b, key));
        let j = lemma_found(b, key);
        assert(b[j].tile.id == id);
        let found = lookup(ready_list(selection, b), id).unwrap();
        let m = choose|m: int|
            0 <= m < b.len() && (#[trigger] b[m]).tile.id == id && b[m].key == found;
        assert(belongs(selection, b[m].tile) && belongs(selection, b[j].tile));
        lemma_id_is_key(selection, b[m].tile, b[j].tile);
    }
}

proof fn lemma_lookup_alike(
    selection: Selection,
    a: Seq<CachedTileView>,
    b: Seq<CachedTileView>,
)
    requires
        keyed(a),
        keyed(b),
        all_match(selection, a),
        all_match(selection, b),
        same_held(a, b),
    ensures
        same_lookup(ready_list(selection, a), ready_list(selection, b)),
{
    assert(same_held(b, a)) by {
        assert forall|key: u64| #[trigger] held(b, key) == held(a, key) by {
            assert(held(a, key) == held(b, key));
        }
    }
    assert forall|id: TileId| #[trigger]
        lookup(ready_list(selection, a), id) == lookup(ready_list(selection, b), id) by {
        lemma_lookup_one_way(selection, a, b, id);
        lemma_lookup_one_way(selection, b, a, id);
    }
}

/// Panes that want the same and hold the same tiles.
spec fn alike(a: Seq<ScopeView>, b: Seq<ScopeView>) -> bool {
    &&& a.len() == b.len()
    &&& forall|i: int|
        0 <= i < a.len() ==> {
            &&& (#[trigger] a[i]).selection == b[i].selection
            &&& same_held(a[i].cache, b[i].cache)
            &&& same_lookup(
                ready_list(a[i].selection, a[i].cache),
                ready_list(b[i].selection, b[i].cache),
            )
        }
}

proof fn lemma_index_alike(a: Seq<ScopeView>, b: Seq<ScopeView>, scope: MapScopeId, i: int)
    requires
        alike(a, b),
        0 <= i <= a.len(),
    ensures
        scope_index(a, scope, i) == scope_index(b, scope, i),
        scope_index(a, scope, i) matches Some(at) ==> 0 <= at < a.len(),
    decreases a.len() - i,
{
    if i < a.len() {
        assert(a[i].selection == b[i].selection);
        if a[i].selection.scope != scope {
            lemma_index_alike(a, b, scope, i + 1);
        }
    }
}

proof fn lemma_prefix_alike(
    a: Seq<ScopeView>,
    b: Seq<ScopeView>,
    sequence: Seq<MapScopeId>,
    n: nat,
)
    requires
        alike(a, b),
        n <= sequence.len(),
    ensures
        admitted_prefix(a, sequence, n) == admitted_prefix(b, sequence, n),
    decreases n,
{
    if n > 0 {
        lemma_prefix_alike(a, b, sequence, (n - 1) as nat);
        lemma_index_alike(a, b, sequence[n - 1], 0);
        if let Some(at) = scope_index(a, sequence[n - 1], 0) {
            assert(a[at].selection == b[at].selection);
            arrival_order_is_irrelevant(
                a[at].selection.current,
                a[at].selection.previous,
                ready_list(a[at].selection, a[at].cache),
                ready_list(b[at].selection, b[at].cache),
                quota_of(n - 1, sequence.len()),
            );
        }
    }
}

proof fn lemma_admitted_alike(a: Seq<ScopeView>, b: Seq<ScopeView>, active: Option<MapScopeId>)
    requires
        alike(a, b),
    ensures
        admitted(a, active) == admitted(b, active),
{
    assert(scope_ids(a) =~= scope_ids(b)) by {
        assert forall|i: int| 0 <= i < a.len() implies scope_ids(a)[i] == scope_ids(b)[i] by {
            assert(a[i].selection == b[i].selection);
        }
    }
    let sequence = prioritized(scope_ids(a), active);
    lemma_prefix_alike(a, b, sequence, sequence.len());
}

proof fn lemma_cached_alike(a: Seq<ScopeView>, b: Seq<ScopeView>, key: u64, i: int)
    requires
        alike(a, b),
        0 <= i <= a.len(),
    ensures
        cached_tile(a, key, i) == cached_tile(b, key, i),
    decreases a.len() - i,
{
    if i < a.len() {
        assert(a[i].selection == b[i].selection);
        assert(held(a[i].cache, key) == held(b[i].cache, key));
        lemma_cached_alike(a, b, key, i + 1);
    }
}

proof fn lemma_uploaded_alike(a: ResidencyView, b: ResidencyView, keys: Seq<u64>)
    requires
        alike(a.scopes, b.scopes),
        a.resident == b.resident,
        a.signatures == b.signatures,
    ensures
        all_uploaded(a, keys).scopes == a.scopes,
        all_uploaded(b, keys).scopes == b.scopes,
        all_uploaded(a, keys).resident == all_uploaded(b, keys).resident,
        all_uploaded(a, keys).signatures == all_uploaded(b, keys).signatures,
    decreases keys.len(),
{
    if keys.len() > 0 {
        lemma_uploaded_alike(a, b, keys.drop_last());
        lemma_cached_alike(a.scopes, b.scopes, keys.last(), 0);
    }
}

proof fn lemma_changed(
    selection: Selection,
    ready: Seq<ReadyTileView>,
    signatures: Seq<(u64, u64)>,
    key: u64,
)
    ensures
        changed_keys(selection, ready, signatures).contains(key) <==> exists|i: int|
            0 <= i < ready.len() && is_changed(selection, #[trigger] ready[i], signatures)
                && tile_key(ready[i]) == key,
    decreases ready.len(),
{
    let all = changed_keys(selection, ready, signatures);
    if ready.len() > 0 {
        let short = ready.drop_last();
        let rest = changed_keys(selection, short, signatures);
        lemma_changed(selection, short, signatures, key);
        if rest.contains(key) {
            let i = choose|i: int|
                0 <= i < short.len() && is_changed(selection, #[trigger] short[i], signatures)
                    && tile_key(short[i]) == key;
            assert(ready[i] == short[i]);
            let k = choose|k: int| 0 <= k < rest.len() && rest[k] == key;
            assert(all[k] == key);
        }
        if all.contains(key) && !rest.contains(key) {
            let k = choose|k: int| 0 <= k < all.len() && all[k] == key;
            if k < rest.len() {
                assert(rest[k] == key);
            }
            assert(is_changed(selection, ready[ready.len() - 1], signatures));
        }
        if exists|i: int|
            0 <= i < ready.len() && is_changed(selection, #[trigger] ready[i], signatures)
                && tile_key(ready[i]) == key {
            let i = choose|i: int|
                0 <= i < ready.len() && is_changed(selection, #[trigger] ready[i], signatures)
                    && tile_key(ready[i]) == key;
            if i < short.len() {
                assert(short[i] == ready[i]);
            } else {
                assert(all[rest.len() as int] == key);
            }
        }
    }
}

/// Whether a tile of the selection has another content than the one that was
/// last uploaded.
spec fn is_changed(
    selection: Selection,
    tile: ReadyTileView,
    signatures: Seq<(u64, u64)>,
) -> bool {
    belongs(selection, tile) && crate::map_residency::signature_of(signatures, tile_key(tile))
        != Some(crate::map_residency::tile_signature(tile))
}

proof fn lemma_changed_alike(
    selection: Selection,
    a: Seq<ReadyTileView>,
    b: Seq<ReadyTileView>,
    signatures: Seq<(u64, u64)>,
    key: u64,
)
    requires
        forall|tile: ReadyTileView| #[trigger] a.contains(tile) <==> b.contains(tile),
        changed_keys(selection, a, signatures).contains(key),
    ensures
        changed_keys(selection, b, signatures).contains(key),
{
    lemma_changed(selection, a, signatures, key);
    lemma_changed(selection, b, signatures, key);
    let i = choose|i: int|
        0 <= i < a.len() && is_changed(selection, #[trigger] a[i], signatures) && tile_key(a[i])
            == key;
    assert(a.contains(a[i]));
    let j = choose|j: int| 0 <= j < b.len() && b[j] == a[i];
    assert(is_changed(selection, b[j], signatures));
}

proof fn lemma_uploads_alike(order: Seq<u64>, resident: Seq<u64>, a: Seq<u64>, b: Seq<u64>)
    requires
        forall|key: u64| #[trigger] a.contains(key) <==> b.contains(key),
    ensures
        uploads(order, resident, a) == uploads(order, resident, b),
    decreases order.len(),
{
    if order.len() > 0 {
        lemma_uploads_alike(order.drop_last(), resident, a, b);
        assert(a.contains(order.last()) <==> b.contains(order.last()));
    }
}

/// Whether a pane draws a tile: as a current one where `current` holds, else as
/// a fallback tile.
pub open spec fn is_shown(selection: Selection, id: TileId, current: bool) -> bool {
    if current {
        is_current(selection, id)
    } else {
        !is_current(selection, id) && is_previous(selection, id)
    }
}

proof fn lemma_visible(
    cache: Seq<CachedTileView>,
    selection: Selection,
    resident: Seq<u64>,
    current: bool,
)
    ensures
        forall|k: int|
            0 <= k < visible_keys(cache, selection, resident, current).len() ==> exists|i: int|
                0 <= i < cache.len() && (#[trigger] cache[i]).key
                    == #[trigger] visible_keys(cache, selection, resident, current)[k]
                    && resident.contains(cache[i].key) && is_shown(
                    selection,
                    cache[i].tile.id,
                    current,
                ),
        forall|i: int|
            0 <= i < cache.len() && resident.contains((#[trigger] cache[i]).key) && is_shown(
                selection,
                cache[i].tile.id,
                current,
            ) ==> visible_keys(cache, selection, resident, current).contains(cache[i].key),
        keyed(cache) ==> visible_keys(cache, selection, resident, current).no_duplicates(),
    decreases cache.len(),
{
    let all = visible_keys(cache, selection, resident, current);
    if cache.len() > 0 {
        let short = cache.drop_last();
        let rest = visible_keys(short, selection, resident, current);
        lemma_visible(short, selection, resident, current);
        assert forall|k: int| 0 <= k < all.len() implies exists|i: int|
            0 <= i < cache.len() && (#[trigger] cache[i]).key == #[trigger] all[k]
                && resident.contains(cache[i].key) && is_shown(
                selection,
                cache[i].tile.id,
                current,
            ) by {
            if k < rest.len() {
                assert(rest[k] == all[k]);
                let i = choose|i: int|
                    0 <= i < short.len() && (#[trigger] short[i]).key == rest[k]
                        && resident.contains(short[i].key) && is_shown(
                        selection,
                        short[i].tile.id,
                        current,
                    );
                assert(cache[i] == short[i]);
            } else {
                assert(cache[cache.len() - 1].key == all[k]);
            }
        }
        assert forall|i: int|
            0 <= i < cache.len() && resident.contains((#[trigger] cache[i]).key) && is_shown(
                selection,
                cache[i].tile.id,
                current,
            ) implies all.contains(cache[i].key) by {
            if i < short.len() {
                assert(short[i] == cache[i]);
                assert(rest.contains(short[i].key));
                let k = choose|k: int| 0 <= k < rest.len() && rest[k] == short[i].key;
                assert(all[k] == cache[i].key);
            } else {
                assert(all[rest.len() as int] == cache[i].key);
            }
        }
        if keyed(cache) {
            assert(keyed(short)) by {
                assert forall|i: int, j: int| 0 <= i < j < short.len() implies (
                #[trigger] short[i]).key != (#[trigger] short[j]).key by {
                    assert(cache[i].key != cache[j].key);
                }
                assert forall|i: int| 0 <= i < short.len() implies (#[trigger] short[i]).key
                    == tile_key(short[i].tile) by {
                    assert(cache[i].key == tile_key(cache[i].tile));
                }
            }
            assert(!rest.contains(cache.last().key)) by {
                if rest.contains(cache.last().key) {
                    let k = choose|k: int| 0 <= k < rest.len() && rest[k] == cache.last().key;
                    let i = choose|i: int|
                        0 <= i < short.len() && (#[trigger] short[i]).key == rest[k]
                            && resident.contains(short[i].key) && is_shown(
                            selection,
                            short[i].tile.id,
                            current,
                        );
                    assert(cache[i].key != cache[cache.len() - 1].key);
                }
            }
            assert forall|i: int, j: int|
                0 <= i < all.len() && 0 <= j < all.len() && i != j implies all[i] != all[j] by {
                if i < rest.len() && j < rest.len() {
                    assert(rest[i] != rest[j]);
                } else if i < rest.len() {
                    assert(rest.contains(rest[i]));
                } else if j < rest.len() {
                    assert(rest.contains(rest[j]));
                }
            }
        }
    }
}

/// Whether a list of numbers is strictly ascending.
pub open spec fn strictly_ascending(v: Seq<u64>) -> bool {
    forall|i: int, j: int| 0 <= i < j < v.len() ==> v[i] < v[j]
}

proof fn lemma_ascending(v: Seq<u64>)
    requires
        v.no_duplicates(),
    ensures
        strictly_ascending(ascending(v)),
        forall|x: u64| #[trigger] ascending(v).contains(x) <==> v.contains(x),
{
    let order = order_of(v);
    let out = ascending(v);
    stable_order_is_sorted(v);
    sorting_keeps_every_item(v, v);
    assert forall|i: int, j: int| 0 <= i < j < out.len() implies out[i] < out[j] by {
        assert(crate::order::Ranked::le(v[order[i]], v[order[j]]));
        assert(order[i] != order[j]);
        assert(v[order[i]] != v[order[j]]);
    }
    assert forall|x: u64| #[trigger] out.contains(x) <==> v.contains(x) by {
        vstd::seq_lib::to_multiset_contains(out, x);
        vstd::seq_lib::to_multiset_contains(v, x);
    }
}

proof fn lemma_ascending_is_unique(a: Seq<u64>, b: Seq<u64>)
    requires
        strictly_ascending(a),
        strictly_ascending(b),
        forall|x: u64| #[trigger] a.contains(x) <==> b.contains(x),
    ensures
        a == b,
    decreases a.len(),
{
    if a.len() == 0 {
        if b.len() > 0 {
            assert(b.contains(b[0]) && a.contains(b[0]));
        }
        assert(a =~= b);
    } else {
        assert(a.contains(a[a.len() - 1]));
        assert(b.len() > 0);
        assert(b.contains(b[b.len() - 1]) && a.contains(b[b.len() - 1]));
        let i = choose|i: int| 0 <= i < b.len() && b[i] == a.last();
        let j = choose|j: int| 0 <= j < a.len() && a[j] == b.last();
        if i < b.len() - 1 {
            assert(b[i] < b[b.len() - 1]);
        }
        if j < a.len() - 1 {
            assert(a[j] < a[a.len() - 1]);
        }
        let s = a.drop_last();
        let t = b.drop_last();
        assert forall|x: u64| #[trigger] s.contains(x) <==> t.contains(x) by {
            if s.contains(x) {
                let k = choose|k: int| 0 <= k < s.len() && s[k] == x;
                assert(a[k] == x && a[k] < a[a.len() - 1]);
                assert(a.contains(x));
                let m = choose|m: int| 0 <= m < b.len() && b[m] == x;
                assert(t[m] == x);
            }
            if t.contains(x) {
                let k = choose|k: int| 0 <= k < t.len() && t[k] == x;
                assert(b[k] == x && b[k] < b[b.len() - 1]);
                assert(b.contains(x) && a.contains(x));
                let m = choose|m: int| 0 <= m < a.len() && a[m] == x;
                assert(s[m] == x);
            }
        }
        lemma_ascending_is_unique(s, t);
        assert(a =~= s.push(a.last()));
        assert(b =~= t.push(b.last()));
    }
}

proof fn lemma_visible_one_way(
    a: Seq<CachedTileView>,
    b: Seq<CachedTileView>,
    selection: Selection,
    resident: Seq<u64>,
    current: bool,
    key: u64,
)
    requires
        keyed(a),
        keyed(b),
        same_held(a, b),
        visible_keys(a, selection, resident, current).contains(key),
    ensures
        visible_keys(b, selection, resident, current).contains(key),
{
    lemma_visible(a, selection, resident, current);
    lemma_visible(b, selection, resident, current);
    let keys = visible_keys(a, selection, resident, current);
    let k = choose|k: int| 0 <= k < keys.len() && keys[k] == key;
    let i = choose|i: int|
        0 <= i < a.len() && (#[trigger] a[i]).key == keys[k] && resident.contains(a[i].key)
            && is_shown(selection, a[i].tile.id, current);
    lemma_held(a, i);
    assert(held(a, key) == held(b, key));
    let j = lemma_found(b, key);
    assert(b[j].tile == a[i].tile);
}

proof fn lemma_drawn_alike(
    a: Seq<CachedTileView>,
    b: Seq<CachedTileView>,
    selection: Selection,
    resident: Seq<u64>,
    current: bool,
)
    requires
        keyed(a),
        keyed(b),
        same_held(a, b),
    ensures
        ascending(visible_keys(a, selection, resident, current)) == ascending(
            visible_keys(b, selection, resident, current),
        ),
{
    let x = visible_keys(a, selection, resident, current);
    let y = visible_keys(b, selection, resident, current);
    lemma_visible(a, selection, resident, current);
    lemma_visible(b, selection, resident, current);
    lemma_ascending(x);
    lemma_ascending(y);
    assert(same_held(b, a)) by {
        assert forall|key: u64| #[trigger] held(b, key) == held(a, key) by {
            assert(held(a, key) == held(b, key));
        }
    }
    assert forall|key: u64| #[trigger] ascending(x).contains(key) <==> ascending(y).contains(
        key,
    ) by {
        if x.contains(key) {
            lemma_visible_one_way(a, b, selection, resident, current, key);
        }
        if y.contains(key) {
            lemma_visible_one_way(b, a, selection, resident, current, key);
        }
    }
    lemma_ascending_is_unique(ascending(x), ascending(y));
}

proof fn lemma_selected_alike(
    state: ResidencyView,
    selection: Selection,
    a: Seq<ReadyTileView>,
    b: Seq<ReadyTileView>,
)
    requires
        state.well_formed(),
        same_arrivals(a, b),
    ensures
        alike(selected(state, selection, a).scopes, selected(state, selection, b).scopes),
        same_held(
            cache_of(selected(state, selection, a).scopes, selection.scope),
            cache_of(selected(state, selection, b).scopes, selection.scope),
        ),
{
    let base = at_epoch(state, selection.epoch);
    let x = selected(state, selection, a).scopes;
    let y = selected(state, selection, b).scopes;
    lemma_selected_is_well_formed(state, selection, a);
    lemma_selected_is_well_formed(state, selection, b);
    if selection.enabled {
        let cache = cache_of(base.scopes, selection.scope);
        lemma_cache_of_keyed(base.scopes, selection.scope);
        lemma_refreshed_alike(cache, selection, a, b);
        let p = refreshed_cache(cache, selection, a);
        let q = refreshed_cache(cache, selection, b);
        lemma_refreshed_keyed(cache, selection, a);
        lemma_refreshed_keyed(cache, selection, b);
        let kept = if is_outdated(selection, cache) {
            Seq::empty()
        } else {
            cache
        };
        lemma_only_matching(with_ready(kept, selection, a), selection);
        lemma_only_matching(with_ready(kept, selection, b), selection);
        assert(all_match(selection, p));
        assert(all_match(selection, q));
        lemma_lookup_alike(selection, p, q);
        assert(x == with_scope(base.scopes, ScopeView { selection, cache: p }));
        assert(y == with_scope(base.scopes, ScopeView { selection, cache: q }));
        let at = scope_slot(base.scopes, selection.scope, 0);
        crate::map_residency::lemma_scope_slot(base.scopes, selection.scope, 0);
        assert forall|i: int| 0 <= i < x.len() implies {
            &&& (#[trigger] x[i]).selection == y[i].selection
            &&& same_held(x[i].cache, y[i].cache)
            &&& same_lookup(
                ready_list(x[i].selection, x[i].cache),
                ready_list(y[i].selection, y[i].cache),
            )
        } by {
            if i == at {
                assert(x[i] == ScopeView { selection, cache: p });
                assert(y[i] == ScopeView { selection, cache: q });
            } else {
                assert(x[i] == y[i]);
            }
        }
    }
}

/// The order in which tiles arrive for a pane changes neither what is uploaded
/// nor what owns a slot nor what the pane draws.
pub proof fn arrivals_in_any_order_draw_alike(
    state: ResidencyView,
    selection: Selection,
    a: Seq<ReadyTileView>,
    b: Seq<ReadyTileView>,
)
    requires
        state.well_formed(),
        same_arrivals(a, b),
    ensures
        prepared_uploads(state, selection, a) == prepared_uploads(state, selection, b),
        drawn_state(state, selection, a).resident == drawn_state(state, selection, b).resident,
        drawn_keys(drawn_state(state, selection, a), selection, true) == drawn_keys(
            drawn_state(state, selection, b),
            selection,
            true,
        ),
        drawn_keys(drawn_state(state, selection, a), selection, false) == drawn_keys(
            drawn_state(state, selection, b),
            selection,
            false,
        ),
{
    let x = selected(state, selection, a);
    let y = selected(state, selection, b);
    let active = Some(selection.scope);
    lemma_selected_alike(state, selection, a, b);
    lemma_selected_is_well_formed(state, selection, a);
    lemma_selected_is_well_formed(state, selection, b);
    lemma_admitted_alike(x.scopes, y.scopes, active);
    let p = prepared(state, selection, a);
    let q = prepared(state, selection, b);
    assert(p == readmitted(x, active) && q == readmitted(y, active));
    if selection.enabled {
        let c = changed_keys(selection, a, x.signatures);
        let d = changed_keys(selection, b, x.signatures);
        assert forall|key: u64| #[trigger] c.contains(key) <==> d.contains(key) by {
            if c.contains(key) {
                lemma_changed_alike(selection, a, b, x.signatures, key);
            }
            if d.contains(key) {
                lemma_changed_alike(selection, b, a, x.signatures, key);
            }
        }
        lemma_uploads_alike(admitted(x.scopes, active), p.resident, c, d);
    }
    let keys = prepared_uploads(state, selection, a);
    lemma_uploaded_alike(p, q, keys);
    let resident = drawn_state(state, selection, a).resident;
    lemma_cache_of_keyed(x.scopes, selection.scope);
    lemma_cache_of_keyed(y.scopes, selection.scope);
    let s = cache_of(x.scopes, selection.scope);
    let t = cache_of(y.scopes, selection.scope);
    lemma_drawn_alike(s, t, selection, resident, true);
    lemma_drawn_alike(s, t, selection, resident, false);
}

/// A pane draws its tiles in two groups, each by ascending key and without a key
/// in common. A key is drawn where it owns a slot and belongs to a tile held for
/// the pane, and in the group of current tiles if that tile is one.
pub proof fn draw_groups_are_told_apart(state: ResidencyView, selection: Selection, key: u64)
    requires
        state.well_formed(),
    ensures
        strictly_ascending(drawn_keys(state, selection, true)),
        strictly_ascending(drawn_keys(state, selection, false)),
        !(drawn_keys(state, selection, true).contains(key) && drawn_keys(
            state,
            selection,
            false,
        ).contains(key)),
        forall|current: bool| #[trigger]
            drawn_keys(state, selection, current).contains(key) <==> state.resident.contains(key)
                && exists|i: int|
                0 <= i < cache_of(state.scopes, selection.scope).len() && (#[trigger] cache_of(
                    state.scopes,
                    selection.scope,
                )[i]).key == key && is_shown(
                    selection,
                    cache_of(state.scopes, selection.scope)[i].tile.id,
                    current,
                ),
{
    let cache = cache_of(state.scopes, selection.scope);
    lemma_cache_of_keyed(state.scopes, selection.scope);
    assert forall|current: bool| #[trigger]
        drawn_keys(state, selection, current).contains(key) <==> state.resident.contains(key)
            && exists|i: int|
            0 <= i < cache.len() && (#[trigger] cache[i]).key == key && is_shown(
                selection,
                cache[i].tile.id,
                current,
            ) by {
        let keys = visible_keys(cache, selection, state.resident, current);
        lemma_visible(cache, selection, state.resident, current);
        lemma_ascending(keys);
        if keys.contains(key) {
            let k = choose|k: int| 0 <= k < keys.len() && keys[k] == key;
            assert(keys[k] == key);
        }
    }
    lemma_visible(cache, selection, state.resident, true);
    lemma_visible(cache, selection, state.resident, false);
    lemma_ascending(visible_keys(cache, selection, state.resident, true));
    lemma_ascending(visible_keys(cache, selection, state.resident, false));
    if drawn_keys(state, selection, true).contains(key) && drawn_keys(
        state,
        selection,
        false,
    ).contains(key) {
        let i = choose|i: int|
            0 <= i < cache.len() && (#[trigger] cache[i]).key == key && is_shown(
                selection,
                cache[i].tile.id,
                true,
            );
        let j = choose|j: int|
            0 <= j < cache.len() && (#[trigger] cache[j]).key == key && is_shown(
                selection,
                cache[j].tile.id,
                false,
            );
        if i < j {
            assert(cache[i].key != cache[j].key);
        } else if j < i {
            assert(cache[j].key != cache[i].key);
        }
    }
}

/// Every tile held for a pane that has been prepared is one that its selection
/// draws.
pub proof fn prepared_panes_hold_what_they_draw(
    state: ResidencyView,
    selection: Selection,
    ready: Seq<ReadyTileView>,
    i: int,
)
    requires
        state.well_formed(),
        selection.enabled,
        0 <= i < cache_of(prepared(state, selection, ready).scopes, selection.scope).len(),
    ensures
        belongs(
            selection,
            cache_of(prepared(state, selection, ready).scopes, selection.scope)[i].tile,
        ),
{
    lemma_selected_is_well_formed(state, selection, ready);
    let cache = cache_of(at_epoch(state, selection.epoch).scopes, selection.scope);
    let kept = if is_outdated(selection, cache) {
        Seq::empty()
    } else {
        cache
    };
    lemma_only_matching(with_ready(kept, selection, ready), selection);
    assert(refreshed_cache(cache, selection, ready)[i] == only_matching(
        with_ready(kept, selection, ready),
        selection,
    )[i]);
}

} // verus!
