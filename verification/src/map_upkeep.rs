//! What becomes of tiles that arrive, are kept and are uploaded.

use crate::bits::le_bytes;
use crate::form_laws::{lemma_le_bytes, lemma_le_bytes_len, pow256};
use crate::map_residency::{
    admitted_prefix, at_epoch, cache_index, cached_tile, changed_keys, first_index, key_bytes, only,
    only_matching, only_scopes, prioritized, provider_bytes, quota_of, ready_list, refreshed_cache,
    scope_index, scope_order, signature_of, tile_key, tile_signature, uploaded, uploads,
    visible_keys, with_ready, with_signature, with_tile, without_scope, CachedTileView,
    ReadyTileView, ResidencyView, ScopeView,
};
use crate::map_tiles::{MapProviderId, MapScopeId, Selection, TileId, MAP_TILE_CAPACITY};
use vstd::prelude::*;

verus! {

/// The slots are shared evenly: no pane has more than one slot more than another,
/// and an earlier pane never has fewer.
pub proof fn slots_are_shared_evenly(i: int, j: int, count: nat)
    requires
        0 <= i < j < count,
    ensures
        quota_of(j, count) <= quota_of(i, count) <= quota_of(j, count) + 1,
        count <= MAP_TILE_CAPACITY ==> quota_of(j, count) > 0,
{
    if count <= MAP_TILE_CAPACITY {
        assert(MAP_TILE_CAPACITY as nat / count >= 1) by (nonlinear_arith)
            requires
                0 < count <= MAP_TILE_CAPACITY,
        ;
    }
}

proof fn lemma_first_index(scopes: Seq<MapScopeId>, scope: MapScopeId, i: int)
    requires
        0 <= i <= scopes.len(),
        exists|k: int| i <= k < scopes.len() && #[trigger] scopes[k] == scope,
    ensures
        i <= first_index(scopes, scope, i) < scopes.len(),
        scopes[first_index(scopes, scope, i)] == scope,
    decreases scopes.len() - i,
{
    if scopes[i] != scope {
        let k = choose|k: int| i <= k < scopes.len() && #[trigger] scopes[k] == scope;
        assert(i + 1 <= k && scopes[k] == scope);
        lemma_first_index(scopes, scope, i + 1);
    }
}

/// Where there are more panes than slots the active one is served first, and all
/// panes stay in line.
pub proof fn the_active_pane_is_served_first(
    scopes: Seq<MapScopeId>,
    active: MapScopeId,
    other: MapScopeId,
)
    requires
        scopes.contains(active),
    ensures
        prioritized(scopes, Some(active)).len() == scopes.len(),
        scopes.len() > MAP_TILE_CAPACITY ==> prioritized(scopes, Some(active))[0] == active,
        scopes.len() <= MAP_TILE_CAPACITY ==> prioritized(scopes, Some(active)) == scopes,
        scopes.contains(other) ==> prioritized(scopes, Some(active)).contains(other),
        prioritized(scopes, None) == scopes,
{
    let at = scopes.index_of(active);
    assert(scopes[at] == active);
    lemma_first_index(scopes, active, 0);
    let index = first_index(scopes, active, 0);
    let line = prioritized(scopes, Some(active));
    if scopes.len() > MAP_TILE_CAPACITY && scopes.contains(other) {
        let k = scopes.index_of(other);
        if k == 0 {
            assert(line[index] == scopes[0]);
        } else if k == index {
            assert(line[0] == active || index == 0);
        } else {
            assert(line[k] == scopes[k]);
        }
    }
}

proof fn lemma_only_holds(keys: Seq<u64>, allowed: Seq<u64>, key: u64)
    ensures
        only(keys, allowed).contains(key) <==> keys.contains(key) && allowed.contains(key),
    decreases keys.len(),
{
    if keys.len() > 0 {
        let short = keys.drop_last();
        let rest = only(short, allowed);
        let all = only(keys, allowed);
        lemma_only_holds(short, allowed, key);
        assert(keys[keys.len() - 1] == keys.last());
        if short.contains(key) {
            assert(keys[short.index_of(key)] == key);
        }
        if keys.contains(key) && key != keys.last() {
            assert(short[keys.index_of(key)] == key);
        }
        if rest.contains(key) {
            assert(all[rest.index_of(key)] == key);
        }
        if all.len() > rest.len() {
            assert(all[all.len() - 1] == keys.last());
        }
    }
}

/// A tile keeps its slot where it was resident and is admitted, and only there.
pub proof fn admitted_tiles_keep_their_slot(keys: Seq<u64>, allowed: Seq<u64>, key: u64)
    ensures
        only(keys, allowed).contains(key) <==> keys.contains(key) && allowed.contains(key),
{
    lemma_only_holds(keys, allowed, key);
}

/// Of the admitted tiles exactly those are uploaded that are not resident or have
/// changed.
pub proof fn new_and_changed_tiles_are_uploaded(
    order: Seq<u64>,
    resident: Seq<u64>,
    changed: Seq<u64>,
    key: u64,
)
    ensures
        uploads(order, resident, changed).contains(key) <==> order.contains(key) && (
        !resident.contains(key) || changed.contains(key)),
    decreases order.len(),
{
    if order.len() > 0 {
        let short = order.drop_last();
        let rest = uploads(short, resident, changed);
        let all = uploads(order, resident, changed);
        new_and_changed_tiles_are_uploaded(short, resident, changed, key);
        assert(order[order.len() - 1] == order.last());
        if short.contains(key) {
            assert(order[short.index_of(key)] == key);
        }
        if order.contains(key) && key != order.last() {
            assert(short[order.index_of(key)] == key);
        }
        if rest.contains(key) {
            assert(all[rest.index_of(key)] == key);
        }
        if all.len() > rest.len() {
            assert(all[all.len() - 1] == order.last());
        }
    }
}

/// Whether a tile is of the pane, the epoch, the provider and the generation that
/// are shown, and one that is wanted there.
pub open spec fn is_wanted_by(selection: Selection, tile: ReadyTileView) -> bool {
    &&& selection.enabled
    &&& tile.scope == selection.scope
    &&& tile.epoch == selection.epoch
    &&& tile.provider == selection.provider
    &&& tile.generation == selection.generation
    &&& (exists|i: int|
        0 <= i < selection.current.len() && (#[trigger] selection.current[i]).0 == tile.id)
        || selection.previous.contains(tile.id)
}

proof fn lemma_wanted(selection: Selection, tile: ReadyTileView)
    ensures
        crate::map_residency::matches(selection, tile) == is_wanted_by(selection, tile),
{
}

/// A tile has changed where a wanted one arrives with another content than was
/// uploaded last under its key.
pub proof fn changed_tiles_are_noticed(
    selection: Selection,
    ready: Seq<ReadyTileView>,
    signatures: Seq<(u64, u64)>,
    key: u64,
)
    ensures
        changed_keys(selection, ready, signatures).contains(key) <==> exists|i: int|
            0 <= i < ready.len() && is_wanted_by(selection, #[trigger] ready[i]) && tile_key(
                ready[i],
            ) == key && signature_of(signatures, key) != Some(tile_signature(ready[i])),
    decreases ready.len(),
{
    if ready.len() > 0 {
        let short = ready.drop_last();
        let tile = ready.last();
        let rest = changed_keys(selection, short, signatures);
        let all = changed_keys(selection, ready, signatures);
        changed_tiles_are_noticed(selection, short, signatures, key);
        lemma_wanted(selection, tile);
        assert(ready[ready.len() - 1] == tile);
        if rest.contains(key) {
            assert(all[rest.index_of(key)] == key);
            let i = choose|i: int|
                0 <= i < short.len() && is_wanted_by(selection, #[trigger] short[i]) && tile_key(
                    short[i],
                ) == key && signature_of(signatures, key) != Some(tile_signature(short[i]));
            assert(is_wanted_by(selection, ready[i]));
        }
        if all.len() > rest.len() {
            assert(all[all.len() - 1] == tile_key(tile));
        }
        if exists|i: int|
            0 <= i < ready.len() && is_wanted_by(selection, #[trigger] ready[i]) && tile_key(
                ready[i],
            ) == key && signature_of(signatures, key) != Some(tile_signature(ready[i])) {
            let i = choose|i: int|
                0 <= i < ready.len() && is_wanted_by(selection, #[trigger] ready[i]) && tile_key(
                    ready[i],
                ) == key && signature_of(signatures, key) != Some(tile_signature(ready[i]));
            if i < short.len() {
                assert(is_wanted_by(selection, short[i]));
            }
        }
    }
}

proof fn lemma_only_matching(
    cache: Seq<CachedTileView>,
    selection: Selection,
    entry: CachedTileView,
)
    ensures
        only_matching(cache, selection).contains(entry) <==> cache.contains(entry) && is_wanted_by(
            selection,
            entry.tile,
        ),
    decreases cache.len(),
{
    if cache.len() > 0 {
        let short = cache.drop_last();
        let rest = only_matching(short, selection);
        let all = only_matching(cache, selection);
        lemma_only_matching(short, selection, entry);
        lemma_wanted(selection, cache.last().tile);
        assert(cache[cache.len() - 1] == cache.last());
        if short.contains(entry) {
            assert(cache[short.index_of(entry)] == entry);
        }
        if cache.contains(entry) && entry != cache.last() {
            assert(short[cache.index_of(entry)] == entry);
        }
        if rest.contains(entry) {
            assert(all[rest.index_of(entry)] == entry);
        }
        if all.len() > rest.len() {
            assert(all[all.len() - 1] == cache.last());
        }
    }
}

proof fn lemma_cache_index(cache: Seq<CachedTileView>, key: u64, i: int)
    requires
        0 <= i,
    ensures
        match cache_index(cache, key, i) {
            Some(at) => i <= at < cache.len() && cache[at].key == key,
            None => forall|k: int| i <= k < cache.len() ==> (#[trigger] cache[k]).key != key,
        },
    decreases cache.len() - i,
{
    if i < cache.len() && cache[i].key != key {
        lemma_cache_index(cache, key, i + 1);
    }
}

proof fn lemma_with_tile(cache: Seq<CachedTileView>, tile: ReadyTileView, entry: CachedTileView)
    ensures
        with_tile(cache, tile).contains(CachedTileView { key: tile_key(tile), tile }),
        entry.key != tile_key(tile) ==> (with_tile(cache, tile).contains(entry)
            <==> cache.contains(entry)),
{
    let new = CachedTileView { key: tile_key(tile), tile };
    let now = with_tile(cache, tile);
    lemma_cache_index(cache, new.key, 0);
    match cache_index(cache, new.key, 0) {
        Some(at) => {
            assert(now[at] == new);
            if entry.key != new.key {
                if cache.contains(entry) {
                    assert(now[cache.index_of(entry)] == entry);
                }
                if now.contains(entry) {
                    assert(cache[now.index_of(entry)] == entry);
                }
            }
        },
        None => {
            assert(now[now.len() - 1] == new);
            if cache.contains(entry) {
                assert(now[cache.index_of(entry)] == entry);
            }
            if entry.key != new.key && now.contains(entry) {
                assert(cache[now.index_of(entry)] == entry);
            }
        },
    }
}

proof fn lemma_with_ready(
    cache: Seq<CachedTileView>,
    selection: Selection,
    ready: Seq<ReadyTileView>,
    i: int,
)
    requires
        0 <= i < ready.len(),
        is_wanted_by(selection, ready[i]),
        forall|k: int|
            i < k < ready.len() && is_wanted_by(selection, #[trigger] ready[k]) ==> tile_key(
                ready[k],
            ) != tile_key(ready[i]),
    ensures
        with_ready(cache, selection, ready).contains(
            CachedTileView { key: tile_key(ready[i]), tile: ready[i] },
        ),
    decreases ready.len(),
{
    let entry = CachedTileView { key: tile_key(ready[i]), tile: ready[i] };
    let short = ready.drop_last();
    let last = ready.last();
    let rest = with_ready(cache, selection, short);
    lemma_wanted(selection, last);
    assert(ready[ready.len() - 1] == last);
    lemma_with_tile(rest, last, entry);
    if i < short.len() {
        assert(short[i] == ready[i]);
        assert forall|k: int|
            i < k < short.len() && is_wanted_by(selection, #[trigger] short[k]) implies tile_key(
            short[k],
        ) != tile_key(short[i]) by {
            assert(short[k] == ready[k]);
        }
        lemma_with_ready(cache, selection, short, i);
    }
}

/// A wanted tile that arrives is kept under its key, as it arrived last.
pub proof fn arriving_tiles_are_kept(
    cache: Seq<CachedTileView>,
    selection: Selection,
    ready: Seq<ReadyTileView>,
    i: int,
)
    requires
        0 <= i < ready.len(),
        is_wanted_by(selection, ready[i]),
        forall|k: int|
            i < k < ready.len() && is_wanted_by(selection, #[trigger] ready[k]) ==> tile_key(
                ready[k],
            ) != tile_key(ready[i]),
    ensures
        refreshed_cache(cache, selection, ready).contains(
            CachedTileView { key: tile_key(ready[i]), tile: ready[i] },
        ),
{
    let entry = CachedTileView { key: tile_key(ready[i]), tile: ready[i] };
    let kept = if crate::map_residency::is_outdated(selection, cache) {
        Seq::empty()
    } else {
        cache
    };
    lemma_with_ready(kept, selection, ready, i);
    lemma_only_matching(with_ready(kept, selection, ready), selection, entry);
}

/// Nothing is kept for a pane that is not wanted there: no tile of another pane,
/// epoch, provider or generation, and none out of sight.
pub proof fn only_wanted_tiles_are_kept(
    cache: Seq<CachedTileView>,
    selection: Selection,
    ready: Seq<ReadyTileView>,
    i: int,
)
    requires
        0 <= i < refreshed_cache(cache, selection, ready).len(),
    ensures
        is_wanted_by(selection, refreshed_cache(cache, selection, ready)[i].tile),
{
    let kept = if crate::map_residency::is_outdated(selection, cache) {
        Seq::empty()
    } else {
        cache
    };
    let entry = refreshed_cache(cache, selection, ready)[i];
    assert(refreshed_cache(cache, selection, ready).contains(entry));
    lemma_only_matching(with_ready(kept, selection, ready), selection, entry);
}

/// A tile that was kept stays while it is wanted and nothing else arrives under
/// its key, unless the provider or the generation has changed.
pub proof fn wanted_tiles_stay(
    cache: Seq<CachedTileView>,
    selection: Selection,
    ready: Seq<ReadyTileView>,
    entry: CachedTileView,
)
    requires
        cache.contains(entry),
        is_wanted_by(selection, entry.tile),
        forall|k: int|
            0 <= k < cache.len() ==> (#[trigger] cache[k]).tile.provider == selection.provider
                && cache[k].tile.generation == selection.generation,
        forall|k: int|
            0 <= k < ready.len() && is_wanted_by(selection, #[trigger] ready[k]) ==> tile_key(
                ready[k],
            ) != entry.key,
    ensures
        refreshed_cache(cache, selection, ready).contains(entry),
{
    lemma_stays(cache, selection, ready, entry);
    lemma_only_matching(with_ready(cache, selection, ready), selection, entry);
}

proof fn lemma_stays(
    cache: Seq<CachedTileView>,
    selection: Selection,
    ready: Seq<ReadyTileView>,
    entry: CachedTileView,
)
    requires
        cache.contains(entry),
        forall|k: int|
            0 <= k < ready.len() && is_wanted_by(selection, #[trigger] ready[k]) ==> tile_key(
                ready[k],
            ) != entry.key,
    ensures
        with_ready(cache, selection, ready).contains(entry),
    decreases ready.len(),
{
    if ready.len() > 0 {
        let short = ready.drop_last();
        assert forall|k: int|
            0 <= k < short.len() && is_wanted_by(selection, #[trigger] short[k]) implies tile_key(
            short[k],
        ) != entry.key by {
            assert(short[k] == ready[k]);
        }
        lemma_stays(cache, selection, short, entry);
        lemma_wanted(selection, ready.last());
        assert(ready[ready.len() - 1] == ready.last());
        lemma_with_tile(with_ready(cache, selection, short), ready.last(), entry);
    }
}

proof fn lemma_ready_list(
    selection: Selection,
    cache: Seq<CachedTileView>,
    id: TileId,
    key: u64,
)
    ensures
        ready_list(selection, cache).contains((id, key)) <==> exists|i: int|
            0 <= i < cache.len() && is_wanted_by(selection, (#[trigger] cache[i]).tile)
                && cache[i].tile.id == id && cache[i].key == key,
    decreases cache.len(),
{
    if cache.len() > 0 {
        let short = cache.drop_last();
        let rest = ready_list(selection, short);
        let all = ready_list(selection, cache);
        lemma_ready_list(selection, short, id, key);
        lemma_wanted(selection, cache.last().tile);
        assert(cache[cache.len() - 1] == cache.last());
        if rest.contains((id, key)) {
            assert(all[rest.index_of((id, key))] == (id, key));
            let i = choose|i: int|
                0 <= i < short.len() && is_wanted_by(selection, (#[trigger] short[i]).tile)
                    && short[i].tile.id == id && short[i].key == key;
            assert(cache[i] == short[i]);
        }
        if all.len() > rest.len() {
            assert(all[all.len() - 1] == (cache.last().tile.id, cache.last().key));
        }
        if exists|i: int|
            0 <= i < cache.len() && is_wanted_by(selection, (#[trigger] cache[i]).tile)
                && cache[i].tile.id == id && cache[i].key == key {
            let i = choose|i: int|
                0 <= i < cache.len() && is_wanted_by(selection, (#[trigger] cache[i]).tile)
                    && cache[i].tile.id == id && cache[i].key == key;
            if i < short.len() {
                assert(short[i] == cache[i]);
            }
        }
    }
}

/// A tile is ready where it is kept and wanted, under the key that it is kept
/// under.
pub proof fn kept_tiles_are_ready(
    selection: Selection,
    cache: Seq<CachedTileView>,
    id: TileId,
    key: u64,
)
    ensures
        ready_list(selection, cache).contains((id, key)) <==> exists|i: int|
            0 <= i < cache.len() && is_wanted_by(selection, (#[trigger] cache[i]).tile)
                && cache[i].tile.id == id && cache[i].key == key,
{
    lemma_ready_list(selection, cache, id, key);
}

/// Each pane in line gets the slots that its own tiles are given under its share.
pub proof fn every_pane_gets_its_share(
    scopes: Seq<ScopeView>,
    sequence: Seq<MapScopeId>,
    n: nat,
    i: int,
    at: int,
    key: u64,
)
    requires
        0 <= i < n <= sequence.len(),
        scope_index(scopes, sequence[i], 0) == Some(at),
        scope_order(
            scopes[at].selection,
            scopes[at].cache,
            quota_of(i, sequence.len()),
        ).contains(key),
    ensures
        admitted_prefix(scopes, sequence, n).contains(key),
    decreases n,
{
    let rest = admitted_prefix(scopes, sequence, (n - 1) as nat);
    let all = admitted_prefix(scopes, sequence, n);
    if i < n - 1 {
        every_pane_gets_its_share(scopes, sequence, (n - 1) as nat, i, at, key);
        assert(all[rest.index_of(key)] == key);
    } else {
        let own = scope_order(
            scopes[at].selection,
            scopes[at].cache,
            quota_of(i, sequence.len()),
        );
        assert(all[rest.len() + own.index_of(key)] == key);
    }
}

proof fn lemma_signature(signatures: Seq<(u64, u64)>, key: u64, signature: u64, other: u64)
    ensures
        signature_of(with_signature(signatures, key, signature), key) == Some(signature),
        other != key ==> signature_of(with_signature(signatures, key, signature), other)
            == signature_of(signatures, other),
    decreases signatures.len(),
{
    let now = with_signature(signatures, key, signature);
    if signatures.len() == 0 {
        assert(now.drop_last() =~= Seq::empty());
        assert(signature_of(now.drop_last(), other) is None);
    } else if signatures.last().0 == key {
        assert(now.drop_last() =~= signatures.drop_last());
    } else {
        lemma_signature(signatures.drop_last(), key, signature, other);
        assert(now.drop_last() =~= with_signature(signatures.drop_last(), key, signature));
    }
}

/// A tile that has been uploaded is resident with the content that is kept of it;
/// nothing changes for other tiles.
pub proof fn uploaded_tiles_are_resident(state: ResidencyView, key: u64, other: u64)
    requires
        cached_tile(state.scopes, key, 0) is Some,
        other != key,
    ensures
        uploaded(state, key).resident.contains(key),
        signature_of(uploaded(state, key).signatures, key) == Some(
            tile_signature(cached_tile(state.scopes, key, 0).unwrap()),
        ),
        uploaded(state, key).resident.contains(other) == state.resident.contains(other),
        signature_of(uploaded(state, key).signatures, other) == signature_of(
            state.signatures,
            other,
        ),
        uploaded(state, key).scopes == state.scopes,
{
    let tile = cached_tile(state.scopes, key, 0).unwrap();
    lemma_signature(state.signatures, key, tile_signature(tile), other);
    let now = uploaded(state, key).resident;
    if !state.resident.contains(key) {
        assert(now[now.len() - 1] == key);
        if state.resident.contains(other) {
            assert(now[state.resident.index_of(other)] == other);
        }
        if now.contains(other) {
            assert(state.resident[now.index_of(other)] == other);
        }
    }
}

/// Two tiles of different panes, epochs, generations or places are told apart.
pub proof fn tiles_are_told_apart(
    scope: MapScopeId,
    epoch: u64,
    provider: MapProviderId,
    generation: u64,
    id: TileId,
    other_scope: MapScopeId,
    other_epoch: u64,
    other_generation: u64,
    other: TileId,
)
    requires
        key_bytes(scope, epoch, provider, generation, id) == key_bytes(
            other_scope,
            other_epoch,
            provider,
            other_generation,
            other,
        ),
    ensures
        scope == other_scope,
        epoch == other_epoch,
        generation == other_generation,
        id == other,
{
    let a = key_bytes(scope, epoch, provider, generation, id);
    let b = key_bytes(other_scope, other_epoch, provider, other_generation, other);
    lemma_le_bytes_len(scope.0 as nat, 8);
    lemma_le_bytes_len(other_scope.0 as nat, 8);
    lemma_le_bytes_len(epoch as nat, 8);
    lemma_le_bytes_len(other_epoch as nat, 8);
    lemma_le_bytes_len(generation as nat, 8);
    lemma_le_bytes_len(other_generation as nat, 8);
    lemma_le_bytes_len(id.zoom as nat, 1);
    lemma_le_bytes_len(other.zoom as nat, 1);
    lemma_le_bytes_len(id.x as nat, 4);
    lemma_le_bytes_len(other.x as nat, 4);
    lemma_le_bytes_len(id.y as nat, 4);
    lemma_le_bytes_len(other.y as nat, 4);
    match provider {
        MapProviderId::BingSatellite => {
            lemma_le_bytes_len(0, 8);
        },
        MapProviderId::Custom(n) => {
            lemma_le_bytes_len((n + 1) as nat, 8);
        },
    }
    assert(provider_bytes(provider).len() == 8);
    assert(a.subrange(0, 8) =~= le_bytes(scope.0 as nat, 8));
    assert(b.subrange(0, 8) =~= le_bytes(other_scope.0 as nat, 8));
    assert(a.subrange(8, 16) =~= le_bytes(epoch as nat, 8));
    assert(b.subrange(8, 16) =~= le_bytes(other_epoch as nat, 8));
    assert(a.subrange(24, 32) =~= le_bytes(generation as nat, 8));
    assert(b.subrange(24, 32) =~= le_bytes(other_generation as nat, 8));
    assert(a.subrange(32, 33) =~= le_bytes(id.zoom as nat, 1));
    assert(b.subrange(32, 33) =~= le_bytes(other.zoom as nat, 1));
    assert(a.subrange(33, 37) =~= le_bytes(id.x as nat, 4));
    assert(b.subrange(33, 37) =~= le_bytes(other.x as nat, 4));
    assert(a.subrange(37, 41) =~= le_bytes(id.y as nat, 4));
    assert(b.subrange(37, 41) =~= le_bytes(other.y as nat, 4));
    reveal_with_fuel(pow256, 9);
    lemma_le_bytes(scope.0 as nat, other_scope.0 as nat, 8);
    lemma_le_bytes(epoch as nat, other_epoch as nat, 8);
    lemma_le_bytes(generation as nat, other_generation as nat, 8);
    lemma_le_bytes(id.zoom as nat, other.zoom as nat, 1);
    lemma_le_bytes(id.x as nat, other.x as nat, 4);
    lemma_le_bytes(id.y as nat, other.y as nat, 4);
}

/// The tiles of two providers are told apart.
pub proof fn providers_are_told_apart(a: MapProviderId, b: MapProviderId)
    requires
        a matches MapProviderId::Custom(n) ==> n < u64::MAX,
        b matches MapProviderId::Custom(n) ==> n < u64::MAX,
        provider_bytes(a) == provider_bytes(b),
    ensures
        a == b,
{
    reveal_with_fuel(pow256, 9);
    let x = match a {
        MapProviderId::BingSatellite => 0nat,
        MapProviderId::Custom(n) => (n + 1) as nat,
    };
    let y = match b {
        MapProviderId::BingSatellite => 0nat,
        MapProviderId::Custom(n) => (n + 1) as nat,
    };
    lemma_le_bytes(x, y, 8);
}

/// A closed pane is gone, and no other pane is touched.
pub proof fn closed_panes_are_gone(
    scopes: Seq<ScopeView>,
    scope: MapScopeId,
    pane: ScopeView,
)
    ensures
        without_scope(scopes, scope).contains(pane) <==> scopes.contains(pane)
            && pane.selection.scope != scope,
    decreases scopes.len(),
{
    if scopes.len() > 0 {
        let short = scopes.drop_last();
        let rest = without_scope(short, scope);
        let all = without_scope(scopes, scope);
        closed_panes_are_gone(short, scope, pane);
        assert(scopes[scopes.len() - 1] == scopes.last());
        if short.contains(pane) {
            assert(scopes[short.index_of(pane)] == pane);
        }
        if scopes.contains(pane) && pane != scopes.last() {
            assert(short[scopes.index_of(pane)] == pane);
        }
        if rest.contains(pane) {
            assert(all[rest.index_of(pane)] == pane);
        }
        if all.len() > rest.len() {
            assert(all[all.len() - 1] == scopes.last());
        }
    }
}

/// Of the panes exactly those stay that are still open.
pub proof fn open_panes_stay(scopes: Seq<ScopeView>, live: Seq<MapScopeId>, pane: ScopeView)
    ensures
        only_scopes(scopes, live).contains(pane) <==> scopes.contains(pane) && live.contains(
            pane.selection.scope,
        ),
    decreases scopes.len(),
{
    if scopes.len() > 0 {
        let short = scopes.drop_last();
        let rest = only_scopes(short, live);
        let all = only_scopes(scopes, live);
        open_panes_stay(short, live, pane);
        assert(scopes[scopes.len() - 1] == scopes.last());
        if short.contains(pane) {
            assert(scopes[short.index_of(pane)] == pane);
        }
        if scopes.contains(pane) && pane != scopes.last() {
            assert(short[scopes.index_of(pane)] == pane);
        }
        if rest.contains(pane) {
            assert(all[rest.index_of(pane)] == pane);
        }
        if all.len() > rest.len() {
            assert(all[all.len() - 1] == scopes.last());
        }
    }
}

/// With a new epoch the panes start afresh; within one nothing changes.
pub proof fn epochs_start_afresh(state: ResidencyView, epoch: u64)
    ensures
        at_epoch(state, epoch).epoch == epoch,
        state.epoch == epoch ==> at_epoch(state, epoch) == state,
        state.epoch != epoch ==> at_epoch(state, epoch).scopes.len() == 0 && at_epoch(
            state,
            epoch,
        ).signatures.len() == 0,
{
}

/// A pane draws the tiles that are kept, resident and asked for: those of its
/// zoom apart from the fallback tiles that are not among them.
pub proof fn resident_tiles_are_drawn(
    cache: Seq<CachedTileView>,
    selection: Selection,
    resident: Seq<u64>,
    current: bool,
    key: u64,
)
    ensures
        visible_keys(cache, selection, resident, current).contains(key) <==> resident.contains(key)
            && exists|i: int|
            0 <= i < cache.len() && (#[trigger] cache[i]).key == key && is_drawn(
                selection,
                cache[i].tile.id,
                current,
            ),
    decreases cache.len(),
{
    if cache.len() > 0 {
        let short = cache.drop_last();
        let rest = visible_keys(short, selection, resident, current);
        let all = visible_keys(cache, selection, resident, current);
        resident_tiles_are_drawn(short, selection, resident, current, key);
        let last = cache.last();
        assert(cache[cache.len() - 1] == last);
        if rest.contains(key) {
            assert(all[rest.index_of(key)] == key);
            let i = choose|i: int|
                0 <= i < short.len() && (#[trigger] short[i]).key == key && is_drawn(
                    selection,
                    short[i].tile.id,
                    current,
                );
            assert(cache[i] == short[i]);
        }
        if all.len() > rest.len() {
            assert(all[all.len() - 1] == last.key);
        }
        if exists|i: int|
            0 <= i < cache.len() && (#[trigger] cache[i]).key == key && is_drawn(
                selection,
                cache[i].tile.id,
                current,
            ) {
            let i = choose|i: int|
                0 <= i < cache.len() && (#[trigger] cache[i]).key == key && is_drawn(
                    selection,
                    cache[i].tile.id,
                    current,
                );
            if i < short.len() {
                assert(short[i] == cache[i]);
            }
        }
    }
}

/// Whether a tile is drawn among the current ones, or else below them.
pub open spec fn is_drawn(selection: Selection, id: TileId, current: bool) -> bool {
    let wanted = exists|k: int|
        0 <= k < selection.current.len() && (#[trigger] selection.current[k]).0 == id;
    if current {
        wanted
    } else {
        !wanted && selection.previous.contains(id)
    }
}

} // verus!
