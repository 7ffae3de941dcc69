//! The map tiles held for all panes: what is cached, what has a slot, and what
//! each pane draws.

use crate::map_tiles::{
    coverage_order, tile_order, MapProviderId, MapScopeId, MapTileSelection, Selection, TileId,
    MAP_TILE_CAPACITY,
};
use crate::bits::{le_bytes, push_bytes};
use crate::order::{ascending, sort_numbers};
use std::collections::hash_map::DefaultHasher;
use std::hash::Hasher;
use vstd::prelude::*;
use vstd::std_specs::hash::DefaultHasherAdditionalSpecFns;

verus! {

/// A decoded tile. The corners are the bit patterns of the three coordinates of
/// each corner.
#[derive(Clone, Debug)]
pub struct ReadyTile {
    pub scope: MapScopeId,
    pub epoch: u64,
    pub provider: MapProviderId,
    pub id: TileId,
    pub generation: u64,
    pub priority: i32,
    pub rgba: Vec<u8>,
    pub corners: [[u32; 3]; 4],
}

#[verifier::ext_equal]
pub ghost struct ReadyTileView {
    pub scope: MapScopeId,
    pub epoch: u64,
    pub provider: MapProviderId,
    pub id: TileId,
    pub generation: u64,
    pub priority: i32,
    pub rgba: Seq<u8>,
    pub corners: [[u32; 3]; 4],
}

impl View for ReadyTile {
    type V = ReadyTileView;

    open spec fn view(&self) -> ReadyTileView {
        ReadyTileView {
            scope: self.scope,
            epoch: self.epoch,
            provider: self.provider,
            id: self.id,
            generation: self.generation,
            priority: self.priority,
            rgba: self.rgba@,
            corners: self.corners,
        }
    }
}

impl ReadyTile {
    /// A copy of the tile.
    pub fn duplicate(&self) -> (r: ReadyTile)
        ensures
            r@ == self@,
    {
        let rgba = self.rgba.clone();
        proof {
            assert(rgba@ =~= self.rgba@);
        }
        ReadyTile {
            scope: self.scope,
            epoch: self.epoch,
            provider: self.provider,
            id: self.id,
            generation: self.generation,
            priority: self.priority,
            rgba,
            corners: self.corners,
        }
    }
}

impl MapTileSelection {
    /// A copy of the selection.
    pub fn duplicate(&self) -> (r: MapTileSelection)
        ensures
            r@ == self@,
    {
        let mut current_tiles: Vec<(TileId, i32)> = Vec::new();
        let mut i: usize = 0;
        while i < self.current_tiles.len()
            invariant
                i <= self.current_tiles@.len(),
                current_tiles@ == self.current_tiles@.take(i as int),
            decreases self.current_tiles@.len() - i,
        {
            current_tiles.push(self.current_tiles[i]);
            proof {
                assert(self.current_tiles@.take(i + 1) =~= self.current_tiles@.take(
                    i as int,
                ).push(self.current_tiles@[i as int]));
            }
            i = i + 1;
        }
        let mut previous_tiles: Vec<TileId> = Vec::new();
        let mut j: usize = 0;
        while j < self.previous_tiles.len()
            invariant
                j <= self.previous_tiles@.len(),
                previous_tiles@ == self.previous_tiles@.take(j as int),
            decreases self.previous_tiles@.len() - j,
        {
            previous_tiles.push(self.previous_tiles[j]);
            proof {
                assert(self.previous_tiles@.take(j + 1) =~= self.previous_tiles@.take(
                    j as int,
                ).push(self.previous_tiles@[j as int]));
            }
            j = j + 1;
        }
        proof {
            assert(self.current_tiles@.take(i as int) =~= self.current_tiles@);
            assert(self.previous_tiles@.take(j as int) =~= self.previous_tiles@);
        }
        MapTileSelection {
            scope: self.scope,
            epoch: self.epoch,
            provider: self.provider,
            generation: self.generation,
            current_tiles,
            previous_tiles,
            enabled: self.enabled,
        }
    }
}

/// The provider as bytes.
pub open spec fn provider_bytes(provider: MapProviderId) -> Seq<u8> {
    match provider {
        MapProviderId::BingSatellite => le_bytes(0, 8),
        MapProviderId::Custom(n) => le_bytes((n + 1) as nat, 8),
    }
}

/// What identifies a tile, as bytes.
pub open spec fn key_bytes(
    scope: MapScopeId,
    epoch: u64,
    provider: MapProviderId,
    generation: u64,
    id: TileId,
) -> Seq<u8> {
    le_bytes(scope.0 as nat, 8) + le_bytes(epoch as nat, 8) + provider_bytes(provider) + le_bytes(
        generation as nat,
        8,
    ) + le_bytes(id.zoom as nat, 1) + le_bytes(id.x as nat, 4) + le_bytes(id.y as nat, 4)
}

/// The first `n` of the twelve corner coordinates, as bytes.
pub open spec fn corner_bytes(corners: [[u32; 3]; 4], n: nat) -> Seq<u8>
    decreases n,
{
    if n == 0 {
        Seq::empty()
    } else {
        corner_bytes(corners, (n - 1) as nat) + le_bytes(
            corners[(n - 1) / 3][(n - 1) % 3] as nat,
            4,
        )
    }
}

/// The key of a tile: a hash of what identifies it.
pub open spec fn tile_key(tile: ReadyTileView) -> u64 {
    DefaultHasher::spec_finish(
        seq![key_bytes(tile.scope, tile.epoch, tile.provider, tile.generation, tile.id)],
    )
}

/// The signature of a tile: a hash of what identifies it and of what it shows.
pub open spec fn tile_signature(tile: ReadyTileView) -> u64 {
    DefaultHasher::spec_finish(
        seq![
            key_bytes(tile.scope, tile.epoch, tile.provider, tile.generation, tile.id) + le_bytes(
                tile.rgba.len(),
                8,
            ) + tile.rgba + corner_bytes(tile.corners, 12),
        ],
    )
}

fn identity_bytes(tile: &ReadyTile) -> (out: Vec<u8>)
    ensures
        out@ == key_bytes(tile.scope, tile.epoch, tile.provider, tile.generation, tile.id),
{
    let mut out: Vec<u8> = Vec::new();
    push_bytes(&mut out, tile.scope.0, 8);
    push_bytes(&mut out, tile.epoch, 8);
    let provider: u64 = match tile.provider {
        MapProviderId::BingSatellite => 0,
        MapProviderId::Custom(n) => n as u64 + 1,
    };
    push_bytes(&mut out, provider, 8);
    push_bytes(&mut out, tile.generation, 8);
    push_bytes(&mut out, tile.id.zoom as u64, 1);
    push_bytes(&mut out, tile.id.x as u64, 4);
    push_bytes(&mut out, tile.id.y as u64, 4);
    proof {
        assert(out@ =~= key_bytes(
            tile.scope,
            tile.epoch,
            tile.provider,
            tile.generation,
            tile.id,
        ));
    }
    out
}

/// The key of a tile.
pub fn map_tile_key(tile: &ReadyTile) -> (r: u64)
    ensures
        r == tile_key(tile@),
{
    let bytes = identity_bytes(tile);
    let mut hasher = DefaultHasher::new();
    hasher.write(bytes.as_slice());
    proof {
        assert(hasher@ =~= seq![bytes@]);
    }
    hasher.finish()
}

/// The signature of a tile.
pub fn map_tile_signature(tile: &ReadyTile) -> (r: u64)
    ensures
        r == tile_signature(tile@),
{
    let mut bytes = identity_bytes(tile);
    let ghost head = bytes@;
    push_bytes(&mut bytes, tile.rgba.len() as u64, 8);
    let mut i: usize = 0;
    let ghost mid = bytes@;
    while i < tile.rgba.len()
        invariant
            i <= tile.rgba@.len(),
            bytes@ == mid + tile.rgba@.take(i as int),
        decreases tile.rgba@.len() - i,
    {
        bytes.push(tile.rgba[i]);
        proof {
            assert(bytes@ =~= mid + tile.rgba@.take(i + 1));
        }
        i = i + 1;
    }
    let ghost full = bytes@;
    proof {
        assert(full =~= mid + tile.rgba@);
    }
    let mut n: usize = 0;
    while n < 12
        invariant
            n <= 12,
            bytes@ == full + corner_bytes(tile.corners, n as nat),
        decreases 12 - n,
    {
        let row = tile.corners[n / 3];
        push_bytes(&mut bytes, row[n % 3] as u64, 4);
        n = n + 1;
        proof {
            assert(bytes@ =~= full + corner_bytes(tile.corners, n as nat));
        }
    }
    let mut hasher = DefaultHasher::new();
    hasher.write(bytes.as_slice());
    proof {
        assert(bytes@ =~= head + le_bytes(tile.rgba@.len(), 8) + tile.rgba@ + corner_bytes(
            tile.corners,
            12,
        ));
        assert(hasher@ =~= seq![bytes@]);
    }
    hasher.finish()
}

/// Whether the selection shows the tile `id` at its current zoom.
pub open spec fn is_current(selection: Selection, id: TileId) -> bool {
    exists|i: int| 0 <= i < selection.current.len() && (#[trigger] selection.current[i]).0 == id
}

/// Whether the selection keeps the tile `id` as a fallback.
pub open spec fn is_previous(selection: Selection, id: TileId) -> bool {
    selection.previous.contains(id)
}

/// Whether a tile belongs to what the selection wants to draw.
pub open spec fn matches(selection: Selection, tile: ReadyTileView) -> bool {
    &&& selection.enabled
    &&& tile.scope == selection.scope
    &&& tile.epoch == selection.epoch
    &&& tile.provider == selection.provider
    &&& tile.generation == selection.generation
    &&& is_current(selection, tile.id) || is_previous(selection, tile.id)
}

/// Whether the selection shows the tile at its current zoom.
pub fn map_tile_is_current(selection: &MapTileSelection, tile: &ReadyTile) -> (r: bool)
    ensures
        r == is_current(selection@, tile@.id),
{
    let mut i: usize = 0;
    while i < selection.current_tiles.len()
        invariant
            i <= selection.current_tiles@.len(),
            forall|j: int|
                0 <= j < i ==> (#[trigger] selection@.current[j]).0 != tile@.id,
        decreases selection.current_tiles@.len() - i,
    {
        if selection.current_tiles[i].0 == tile.id {
            assert(selection@.current[i as int].0 == tile@.id);
            return true;
        }
        i = i + 1;
    }
    false
}

/// Whether the selection keeps the tile as a fallback.
pub fn map_tile_is_previous(selection: &MapTileSelection, tile: &ReadyTile) -> (r: bool)
    ensures
        r == is_previous(selection@, tile@.id),
{
    let mut i: usize = 0;
    while i < selection.previous_tiles.len()
        invariant
            i <= selection.previous_tiles@.len(),
            forall|j: int| 0 <= j < i ==> selection@.previous[j] != tile@.id,
        decreases selection.previous_tiles@.len() - i,
    {
        if selection.previous_tiles[i] == tile.id {
            assert(selection@.previous[i as int] == tile@.id);
            return true;
        }
        i = i + 1;
    }
    false
}

/// Whether a tile belongs to what the selection wants to draw.
pub fn map_tile_matches(selection: &MapTileSelection, tile: &ReadyTile) -> (r: bool)
    ensures
        r == matches(selection@, tile@),
{
    selection.enabled && tile.scope == selection.scope && tile.epoch == selection.epoch
        && tile.provider == selection.provider && tile.generation == selection.generation && (
    map_tile_is_current(selection, tile) || map_tile_is_previous(selection, tile))
}

/// A tile under its key.
pub struct CachedTile {
    pub key: u64,
    pub tile: ReadyTile,
}

#[verifier::ext_equal]
pub ghost struct CachedTileView {
    pub key: u64,
    pub tile: ReadyTileView,
}

impl View for CachedTile {
    type V = CachedTileView;

    open spec fn view(&self) -> CachedTileView {
        CachedTileView { key: self.key, tile: self.tile@ }
    }
}

pub open spec fn cache_view(cache: Seq<CachedTile>) -> Seq<CachedTileView> {
    Seq::new(cache.len(), |i: int| cache[i]@)
}

/// The tiles of a cache that match the selection, as ids with keys.
pub open spec fn ready_list(
    selection: Selection,
    cache: Seq<CachedTileView>,
) -> Seq<(TileId, u64)>
    decreases cache.len(),
{
    if cache.len() == 0 {
        Seq::empty()
    } else {
        let rest = ready_list(selection, cache.drop_last());
        if matches(selection, cache.last().tile) {
            rest.push((cache.last().tile.id, cache.last().key))
        } else {
            rest
        }
    }
}

/// The keys of one pane's tiles that get a slot, in order.
pub open spec fn scope_order(
    selection: Selection,
    cache: Seq<CachedTileView>,
    quota: nat,
) -> Seq<u64> {
    coverage_order(
        selection.current,
        selection.previous,
        ready_list(selection, cache),
        quota,
    )
}

/// The keys of one pane's tiles that get a slot, in order.
pub fn coverage_aware_scope_order(
    selection: &MapTileSelection,
    cache: &Vec<CachedTile>,
    quota: usize,
) -> (r: Vec<u64>)
    ensures
        r@ == scope_order(selection@, cache_view(cache@), quota as nat),
{
    let mut ready: Vec<(TileId, u64)> = Vec::new();
    let ghost view = cache_view(cache@);
    let mut i: usize = 0;
    proof {
        assert(view.take(0) =~= Seq::<CachedTileView>::empty());
    }
    while i < cache.len()
        invariant
            i <= cache@.len(),
            view == cache_view(cache@),
            ready@ == ready_list(selection@, view.take(i as int)),
        decreases cache@.len() - i,
    {
        proof {
            assert(view.take(i + 1).drop_last() =~= view.take(i as int));
            assert(view.take(i + 1).last() == cache@[i as int]@);
        }
        if map_tile_matches(selection, &cache[i].tile) {
            ready.push((cache[i].tile.id, cache[i].key));
        }
        i = i + 1;
    }
    proof {
        assert(view.take(i as int) =~= view);
    }
    tile_order(&selection.current_tiles, &selection.previous_tiles, &ready, quota)
}

/// Above capacity not every pane can own a slot: then the active one goes
/// first, in exchange with the one that stood there.
pub open spec fn prioritized(scopes: Seq<MapScopeId>, active: Option<MapScopeId>) -> Seq<
    MapScopeId,
> {
    match active {
        Some(scope) => if scopes.len() > MAP_TILE_CAPACITY && scopes.contains(scope) {
            let index = first_index(scopes, scope, 0);
            scopes.update(0, scope).update(index, scopes[0])
        } else {
            scopes
        },
        None => scopes,
    }
}

/// The first index at or behind `i` that holds `scope`, or the length.
pub open spec fn first_index(scopes: Seq<MapScopeId>, scope: MapScopeId, i: int) -> int
    decreases scopes.len() - i,
{
    if i < 0 || i >= scopes.len() {
        scopes.len() as int
    } else if scopes[i] == scope {
        i
    } else {
        first_index(scopes, scope, i + 1)
    }
}

fn index_of_scope(scopes: &Vec<MapScopeId>, scope: MapScopeId) -> (r: usize)
    ensures
        r == first_index(scopes@, scope, 0),
        r <= scopes@.len(),
        r < scopes@.len() ==> scopes@[r as int] == scope,
        scopes@.contains(scope) <==> r < scopes@.len(),
{
    let mut i: usize = 0;
    while i < scopes.len() && scopes[i] != scope
        invariant
            i <= scopes@.len(),
            first_index(scopes@, scope, 0) == first_index(scopes@, scope, i as int),
            forall|j: int| 0 <= j < i ==> scopes@[j] != scope,
        ensures
            i <= scopes@.len(),
            i < scopes@.len() ==> scopes@[i as int] == scope,
            first_index(scopes@, scope, 0) == i,
            forall|j: int| 0 <= j < i ==> scopes@[j] != scope,
        decreases scopes@.len() - i,
    {
        i = i + 1;
    }
    i
}

/// Puts the active pane first where there are more panes than slots.
pub fn prioritize_active_scope(scopes: &mut Vec<MapScopeId>, active_scope: Option<MapScopeId>)
    ensures
        final(scopes)@ == prioritized(old(scopes)@, active_scope),
{
    if scopes.len() > MAP_TILE_CAPACITY {
        if let Some(active) = active_scope {
            let index = index_of_scope(scopes, active);
            if index < scopes.len() {
                let head = scopes[0];
                scopes.set(0, active);
                scopes.set(index, head);
            }
        }
    }
}

/// What one pane wants to draw, and the tiles held for it.
pub struct ScopeTiles {
    pub selection: MapTileSelection,
    pub cache: Vec<CachedTile>,
}

#[verifier::ext_equal]
pub ghost struct ScopeView {
    pub selection: Selection,
    pub cache: Seq<CachedTileView>,
}

impl View for ScopeTiles {
    type V = ScopeView;

    open spec fn view(&self) -> ScopeView {
        ScopeView { selection: self.selection@, cache: cache_view(self.cache@) }
    }
}

pub open spec fn scope_views(scopes: Seq<ScopeTiles>) -> Seq<ScopeView> {
    Seq::new(scopes.len(), |i: int| scopes[i]@)
}

pub open spec fn scope_ids(scopes: Seq<ScopeView>) -> Seq<MapScopeId> {
    Seq::new(scopes.len(), |i: int| scopes[i].selection.scope)
}

/// The map tiles of all panes.
pub struct MapResidency {
    pub epoch: u64,
    /// The panes that show tiles, by ascending id.
    pub scopes: Vec<ScopeTiles>,
    /// The keys that own a slot.
    pub resident: Vec<u64>,
    /// The signature of what was last uploaded under a key.
    pub signatures: Vec<(u64, u64)>,
}

#[verifier::ext_equal]
pub ghost struct ResidencyView {
    pub epoch: u64,
    pub scopes: Seq<ScopeView>,
    pub resident: Seq<u64>,
    pub signatures: Seq<(u64, u64)>,
}

impl View for MapResidency {
    type V = ResidencyView;

    open spec fn view(&self) -> ResidencyView {
        ResidencyView {
            epoch: self.epoch,
            scopes: scope_views(self.scopes@),
            resident: self.resident@,
            signatures: self.signatures@,
        }
    }
}

/// A cache holds each tile under its key, and one tile under a key.
pub open spec fn keyed(cache: Seq<CachedTileView>) -> bool {
    &&& forall|i: int|
        0 <= i < cache.len() ==> (#[trigger] cache[i]).key == tile_key(cache[i].tile)
    &&& forall|i: int, j: int|
        0 <= i < j < cache.len() ==> (#[trigger] cache[i]).key != (#[trigger] cache[j]).key
}

/// The caches of all panes hold one tile under a key.
pub open spec fn all_keyed(scopes: Seq<ScopeView>) -> bool {
    forall|i: int| 0 <= i < scopes.len() ==> keyed((#[trigger] scopes[i]).cache)
}

impl ResidencyView {
    /// The panes stand by ascending id, each once, and hold one tile under a
    /// key.
    pub open spec fn well_formed(self) -> bool {
        ordered(self.scopes) && all_keyed(self.scopes)
    }
}

/// The keys of `keys` that `allowed` holds.
pub open spec fn only(keys: Seq<u64>, allowed: Seq<u64>) -> Seq<u64>
    decreases keys.len(),
{
    if keys.len() == 0 {
        Seq::empty()
    } else {
        let rest = only(keys.drop_last(), allowed);
        if allowed.contains(keys.last()) {
            rest.push(keys.last())
        } else {
            rest
        }
    }
}

/// The entries of `signatures` whose key `allowed` holds.
pub open spec fn only_signatures(
    signatures: Seq<(u64, u64)>,
    allowed: Seq<u64>,
) -> Seq<(u64, u64)>
    decreases signatures.len(),
{
    if signatures.len() == 0 {
        Seq::empty()
    } else {
        let rest = only_signatures(signatures.drop_last(), allowed);
        if allowed.contains(signatures.last().0) {
            rest.push(signatures.last())
        } else {
            rest
        }
    }
}

/// The keys of `order` that must be uploaded: those without a slot, and those
/// whose content changed.
pub open spec fn uploads(order: Seq<u64>, resident: Seq<u64>, changed: Seq<u64>) -> Seq<u64>
    decreases order.len(),
{
    if order.len() == 0 {
        Seq::empty()
    } else {
        let rest = uploads(order.drop_last(), resident, changed);
        if resident.contains(order.last()) && !changed.contains(order.last()) {
            rest
        } else {
            rest.push(order.last())
        }
    }
}

/// The number of slots for the pane at `index` of `count`.
pub open spec fn quota_of(index: int, count: nat) -> nat {
    let n = if count == 0 { 1 } else { count };
    (MAP_TILE_CAPACITY as nat / n + if index < MAP_TILE_CAPACITY as nat % n { 1nat } else { 0nat })
        as nat
}

/// The pane `scope` of `scopes`, searched from `i` on.
pub open spec fn scope_index(scopes: Seq<ScopeView>, scope: MapScopeId, i: int) -> Option<int>
    decreases scopes.len() - i,
{
    if i < 0 || i >= scopes.len() {
        None
    } else if scopes[i].selection.scope == scope {
        Some(i)
    } else {
        scope_index(scopes, scope, i + 1)
    }
}

/// The admitted keys of the first `n` panes of `sequence`.
pub open spec fn admitted_prefix(
    scopes: Seq<ScopeView>,
    sequence: Seq<MapScopeId>,
    n: nat,
) -> Seq<u64>
    decreases n,
{
    if n == 0 {
        Seq::empty()
    } else {
        let rest = admitted_prefix(scopes, sequence, (n - 1) as nat);
        match scope_index(scopes, sequence[n - 1], 0) {
            Some(at) => rest + scope_order(
                scopes[at].selection,
                scopes[at].cache,
                quota_of(n - 1, sequence.len()),
            ),
            None => rest,
        }
    }
}

/// The keys that own a slot once the panes have been served in turn.
pub open spec fn admitted(scopes: Seq<ScopeView>, active: Option<MapScopeId>) -> Seq<u64> {
    let sequence = prioritized(scope_ids(scopes), active);
    admitted_prefix(scopes, sequence, sequence.len())
}

/// The state after the slots have been dealt out again.
pub open spec fn readmitted(state: ResidencyView, active: Option<MapScopeId>) -> ResidencyView {
    let order = admitted(state.scopes, active);
    ResidencyView {
        resident: only(state.resident, order),
        signatures: only_signatures(state.signatures, order),
        ..state
    }
}

/// The keys to upload once the slots have been dealt out again.
pub open spec fn readmission_uploads(
    state: ResidencyView,
    active: Option<MapScopeId>,
    changed: Seq<u64>,
) -> Seq<u64> {
    let order = admitted(state.scopes, active);
    uploads(order, only(state.resident, order), changed)
}

/// The state of a new epoch holds nothing of the one before but its slots.
pub open spec fn at_epoch(state: ResidencyView, epoch: u64) -> ResidencyView {
    if state.epoch != epoch {
        ResidencyView {
            epoch,
            scopes: Seq::empty(),
            signatures: Seq::empty(),
            resident: state.resident,
        }
    } else {
        state
    }
}

/// The panes without `scope`.
pub open spec fn without_scope(scopes: Seq<ScopeView>, scope: MapScopeId) -> Seq<ScopeView>
    decreases scopes.len(),
{
    if scopes.len() == 0 {
        Seq::empty()
    } else {
        let rest = without_scope(scopes.drop_last(), scope);
        if scopes.last().selection.scope == scope {
            rest
        } else {
            rest.push(scopes.last())
        }
    }
}

/// The panes of `live` among `scopes`.
pub open spec fn only_scopes(scopes: Seq<ScopeView>, live: Seq<MapScopeId>) -> Seq<ScopeView>
    decreases scopes.len(),
{
    if scopes.len() == 0 {
        Seq::empty()
    } else {
        let rest = only_scopes(scopes.drop_last(), live);
        if live.contains(scopes.last().selection.scope) {
            rest.push(scopes.last())
        } else {
            rest
        }
    }
}

/// Where a pane stands or belongs by ascending id, from `i` on.
pub open spec fn scope_slot(scopes: Seq<ScopeView>, scope: MapScopeId, i: int) -> int
    decreases scopes.len() - i,
{
    if i < 0 || i >= scopes.len() {
        scopes.len() as int
    } else if scopes[i].selection.scope.0 >= scope.0 {
        i
    } else {
        scope_slot(scopes, scope, i + 1)
    }
}

/// The panes with `entry` in place of what its pane had.
pub open spec fn with_scope(scopes: Seq<ScopeView>, entry: ScopeView) -> Seq<ScopeView> {
    let at = scope_slot(scopes, entry.selection.scope, 0);
    if at < scopes.len() && scopes[at].selection.scope == entry.selection.scope {
        scopes.update(at, entry)
    } else {
        scopes.insert(at, entry)
    }
}

/// The tiles held for a pane.
pub open spec fn cache_of(scopes: Seq<ScopeView>, scope: MapScopeId) -> Seq<CachedTileView> {
    match scope_index(scopes, scope, 0) {
        Some(at) => scopes[at].cache,
        None => Seq::empty(),
    }
}

/// Whether a tile of the cache comes from another provider or generation.
pub open spec fn is_outdated(selection: Selection, cache: Seq<CachedTileView>) -> bool {
    exists|i: int|
        0 <= i < cache.len() && ((#[trigger] cache[i]).tile.provider != selection.provider
            || cache[i].tile.generation != selection.generation)
}

/// The first entry of a cache with the key, from `i` on.
pub open spec fn cache_index(cache: Seq<CachedTileView>, key: u64, i: int) -> Option<int>
    decreases cache.len() - i,
{
    if i < 0 || i >= cache.len() {
        None
    } else if cache[i].key == key {
        Some(i)
    } else {
        cache_index(cache, key, i + 1)
    }
}

/// The cache with `tile` under its key.
pub open spec fn with_tile(cache: Seq<CachedTileView>, tile: ReadyTileView) -> Seq<
    CachedTileView,
> {
    let entry = CachedTileView { key: tile_key(tile), tile };
    match cache_index(cache, entry.key, 0) {
        Some(at) => cache.update(at, entry),
        None => cache.push(entry),
    }
}

/// The cache with the tiles of `ready` that match the selection.
pub open spec fn with_ready(
    cache: Seq<CachedTileView>,
    selection: Selection,
    ready: Seq<ReadyTileView>,
) -> Seq<CachedTileView>
    decreases ready.len(),
{
    if ready.len() == 0 {
        cache
    } else {
        let rest = with_ready(cache, selection, ready.drop_last());
        if matches(selection, ready.last()) {
            with_tile(rest, ready.last())
        } else {
            rest
        }
    }
}

/// The tiles of the cache that match the selection.
pub open spec fn only_matching(cache: Seq<CachedTileView>, selection: Selection) -> Seq<
    CachedTileView,
>
    decreases cache.len(),
{
    if cache.len() == 0 {
        Seq::empty()
    } else {
        let rest = only_matching(cache.drop_last(), selection);
        if matches(selection, cache.last().tile) {
            rest.push(cache.last())
        } else {
            rest
        }
    }
}

/// The signature recorded under a key.
pub open spec fn signature_of(signatures: Seq<(u64, u64)>, key: u64) -> Option<u64>
    decreases signatures.len(),
{
    if signatures.len() == 0 {
        None
    } else if signatures.last().0 == key {
        Some(signatures.last().1)
    } else {
        signature_of(signatures.drop_last(), key)
    }
}

/// The keys of the matching tiles of `ready` whose content is not the one that
/// was last uploaded.
pub open spec fn changed_keys(
    selection: Selection,
    ready: Seq<ReadyTileView>,
    signatures: Seq<(u64, u64)>,
) -> Seq<u64>
    decreases ready.len(),
{
    if ready.len() == 0 {
        Seq::empty()
    } else {
        let rest = changed_keys(selection, ready.drop_last(), signatures);
        let tile = ready.last();
        if matches(selection, tile) && signature_of(signatures, tile_key(tile)) != Some(
            tile_signature(tile),
        ) {
            rest.push(tile_key(tile))
        } else {
            rest
        }
    }
}

/// The cache of a pane after `ready` has arrived.
pub open spec fn refreshed_cache(
    cache: Seq<CachedTileView>,
    selection: Selection,
    ready: Seq<ReadyTileView>,
) -> Seq<CachedTileView> {
    let kept = if is_outdated(selection, cache) {
        Seq::empty()
    } else {
        cache
    };
    only_matching(with_ready(kept, selection, ready), selection)
}

/// The state with the selection of one pane and its newly arrived tiles, before
/// the slots are dealt out.
pub open spec fn selected(
    state: ResidencyView,
    selection: Selection,
    ready: Seq<ReadyTileView>,
) -> ResidencyView {
    let base = at_epoch(state, selection.epoch);
    if selection.enabled {
        let cache = refreshed_cache(cache_of(base.scopes, selection.scope), selection, ready);
        ResidencyView { scopes: with_scope(base.scopes, ScopeView { selection, cache }), ..base }
    } else {
        ResidencyView { scopes: without_scope(base.scopes, selection.scope), ..base }
    }
}

/// The state after one pane has been prepared.
pub open spec fn prepared(
    state: ResidencyView,
    selection: Selection,
    ready: Seq<ReadyTileView>,
) -> ResidencyView {
    readmitted(selected(state, selection, ready), Some(selection.scope))
}

/// The keys to upload for the preparation of one pane.
pub open spec fn prepared_uploads(
    state: ResidencyView,
    selection: Selection,
    ready: Seq<ReadyTileView>,
) -> Seq<u64> {
    let next = selected(state, selection, ready);
    let changed = if selection.enabled {
        changed_keys(selection, ready, next.signatures)
    } else {
        Seq::empty()
    };
    readmission_uploads(next, Some(selection.scope), changed)
}

/// The resident keys of the cached tiles that the selection shows: those of its
/// current zoom where `current` holds, else the other fallback tiles.
pub open spec fn visible_keys(
    cache: Seq<CachedTileView>,
    selection: Selection,
    resident: Seq<u64>,
    current: bool,
) -> Seq<u64>
    decreases cache.len(),
{
    if cache.len() == 0 {
        Seq::empty()
    } else {
        let rest = visible_keys(cache.drop_last(), selection, resident, current);
        let entry = cache.last();
        let shown = if current {
            is_current(selection, entry.tile.id)
        } else {
            !is_current(selection, entry.tile.id) && is_previous(selection, entry.tile.id)
        };
        if resident.contains(entry.key) && shown {
            rest.push(entry.key)
        } else {
            rest
        }
    }
}

/// Whether a cached tile with this id owns a slot.
pub open spec fn is_resident_id(
    cache: Seq<CachedTileView>,
    resident: Seq<u64>,
    id: TileId,
) -> bool {
    exists|i: int|
        0 <= i < cache.len() && (#[trigger] cache[i]).tile.id == id && resident.contains(
            cache[i].key,
        )
}

/// Whether a pane shows its current tiles: every one of them is resident, and
/// no fallback tile is.
pub open spec fn shows_current(state: ResidencyView, selection: Selection) -> bool {
    scope_index(state.scopes, selection.scope, 0) matches Some(at) && {
        let cache = state.scopes[at].cache;
        &&& forall|i: int|
            0 <= i < selection.current.len() ==> is_resident_id(
                cache,
                state.resident,
                (#[trigger] selection.current[i]).0,
            )
        &&& forall|i: int|
            0 <= i < selection.previous.len() ==> !is_resident_id(
                cache,
                state.resident,
                #[trigger] selection.previous[i],
            )
    }
}

/// Whether a pane has moved on from fallback tiles to its current ones.
pub open spec fn transition_complete(state: ResidencyView, selection: Selection) -> bool {
    selection.previous.len() > 0 && shows_current(state, selection)
}

/// The tile cached under a key, searched pane by pane from `i` on.
pub open spec fn cached_tile(scopes: Seq<ScopeView>, key: u64, i: int) -> Option<ReadyTileView>
    decreases scopes.len() - i,
{
    if i < 0 || i >= scopes.len() {
        None
    } else {
        match cache_index(scopes[i].cache, key, 0) {
            Some(at) => Some(scopes[i].cache[at].tile),
            None => cached_tile(scopes, key, i + 1),
        }
    }
}

/// The signatures with one recorded anew.
pub open spec fn with_signature(
    signatures: Seq<(u64, u64)>,
    key: u64,
    signature: u64,
) -> Seq<(u64, u64)>
    decreases signatures.len(),
{
    if signatures.len() == 0 {
        seq![(key, signature)]
    } else if signatures.last().0 == key {
        signatures.drop_last().push((key, signature))
    } else {
        with_signature(signatures.drop_last(), key, signature).push(signatures.last())
    }
}

/// The state after the tile under `key` has been uploaded.
pub open spec fn uploaded(state: ResidencyView, key: u64) -> ResidencyView {
    match cached_tile(state.scopes, key, 0) {
        Some(tile) => ResidencyView {
            resident: if state.resident.contains(key) {
                state.resident
            } else {
                state.resident.push(key)
            },
            signatures: with_signature(state.signatures, key, tile_signature(tile)),
            ..state
        },
        None => state,
    }
}

/// The tiles a pane draws, fallback tiles below current ones.
pub struct MapTileDrawGroups {
    pub previous: Vec<u64>,
    pub current: Vec<u64>,
}

fn key_in(keys: &Vec<u64>, key: u64) -> (r: bool)
    ensures
        r == keys@.contains(key),
{
    let mut i: usize = 0;
    while i < keys.len()
        invariant
            i <= keys@.len(),
            forall|j: int| 0 <= j < i ==> keys@[j] != key,
        decreases keys@.len() - i,
    {
        if keys[i] == key {
            return true;
        }
        i = i + 1;
    }
    false
}

fn find_scope(scopes: &Vec<ScopeTiles>, scope: MapScopeId) -> (r: Option<usize>)
    ensures
        scope_index(scope_views(scopes@), scope, 0) == match r {
            Some(at) => Some(at as int),
            None => None,
        },
        r matches Some(at) ==> at < scopes@.len(),
{
    let ghost view = scope_views(scopes@);
    let mut i: usize = 0;
    while i < scopes.len()
        invariant
            i <= scopes@.len(),
            view == scope_views(scopes@),
            scope_index(view, scope, 0) == scope_index(view, scope, i as int),
        decreases scopes@.len() - i,
    {
        assert(view[i as int] == scopes@[i as int]@);
        if scopes[i].selection.scope == scope {
            return Some(i);
        }
        i = i + 1;
    }
    None
}

fn find_cached(cache: &Vec<CachedTile>, key: u64) -> (r: Option<usize>)
    ensures
        cache_index(cache_view(cache@), key, 0) == match r {
            Some(at) => Some(at as int),
            None => None,
        },
        r matches Some(at) ==> at < cache@.len(),
{
    let ghost view = cache_view(cache@);
    let mut i: usize = 0;
    while i < cache.len()
        invariant
            i <= cache@.len(),
            view == cache_view(cache@),
            cache_index(view, key, 0) == cache_index(view, key, i as int),
        decreases cache@.len() - i,
    {
        assert(view[i as int] == cache@[i as int]@);
        if cache[i].key == key {
            return Some(i);
        }
        i = i + 1;
    }
    None
}

fn find_signature(signatures: &Vec<(u64, u64)>, key: u64) -> (r: Option<u64>)
    ensures
        r == signature_of(signatures@, key),
{
    let mut n: usize = signatures.len();
    proof {
        assert(signatures@.take(n as int) =~= signatures@);
    }
    while n > 0
        invariant
            n <= signatures@.len(),
            signature_of(signatures@, key) == signature_of(signatures@.take(n as int), key),
        decreases n,
    {
        proof {
            assert(signatures@.take(n as int).drop_last() =~= signatures@.take(n - 1));
            assert(signatures@.take(n as int).last() == signatures@[n - 1]);
        }
        if signatures[n - 1].0 == key {
            return Some(signatures[n - 1].1);
        }
        n = n - 1;
    }
    None
}

fn keep_keys(keys: &Vec<u64>, allowed: &Vec<u64>) -> (r: Vec<u64>)
    ensures
        r@ == only(keys@, allowed@),
{
    let mut out: Vec<u64> = Vec::new();
    let mut i: usize = 0;
    proof {
        assert(keys@.take(0) =~= Seq::<u64>::empty());
    }
    while i < keys.len()
        invariant
            i <= keys@.len(),
            out@ == only(keys@.take(i as int), allowed@),
        decreases keys@.len() - i,
    {
        proof {
            assert(keys@.take(i + 1).drop_last() =~= keys@.take(i as int));
            assert(keys@.take(i + 1).last() == keys@[i as int]);
        }
        if key_in(allowed, keys[i]) {
            out.push(keys[i]);
        }
        i = i + 1;
    }
    proof {
        assert(keys@.take(i as int) =~= keys@);
    }
    out
}

fn keep_signatures(signatures: &Vec<(u64, u64)>, allowed: &Vec<u64>) -> (r: Vec<(u64, u64)>)
    ensures
        r@ == only_signatures(signatures@, allowed@),
{
    let mut out: Vec<(u64, u64)> = Vec::new();
    let mut i: usize = 0;
    proof {
        assert(signatures@.take(0) =~= Seq::<(u64, u64)>::empty());
    }
    while i < signatures.len()
        invariant
            i <= signatures@.len(),
            out@ == only_signatures(signatures@.take(i as int), allowed@),
        decreases signatures@.len() - i,
    {
        proof {
            assert(signatures@.take(i + 1).drop_last() =~= signatures@.take(i as int));
            assert(signatures@.take(i + 1).last() == signatures@[i as int]);
        }
        if key_in(allowed, signatures[i].0) {
            out.push(signatures[i]);
        }
        i = i + 1;
    }
    proof {
        assert(signatures@.take(i as int) =~= signatures@);
    }
    out
}

fn list_uploads(order: &Vec<u64>, resident: &Vec<u64>, changed: &Vec<u64>) -> (r: Vec<u64>)
    ensures
        r@ == uploads(order@, resident@, changed@),
{
    let mut out: Vec<u64> = Vec::new();
    let mut i: usize = 0;
    proof {
        assert(order@.take(0) =~= Seq::<u64>::empty());
    }
    while i < order.len()
        invariant
            i <= order@.len(),
            out@ == uploads(order@.take(i as int), resident@, changed@),
        decreases order@.len() - i,
    {
        proof {
            assert(order@.take(i + 1).drop_last() =~= order@.take(i as int));
            assert(order@.take(i + 1).last() == order@[i as int]);
        }
        if !key_in(resident, order[i]) || key_in(changed, order[i]) {
            out.push(order[i]);
        }
        i = i + 1;
    }
    proof {
        assert(order@.take(i as int) =~= order@);
    }
    out
}

fn admit_scopes(scopes: &Vec<ScopeTiles>, active: Option<MapScopeId>) -> (order: Vec<u64>)
    ensures
        order@ == admitted(scope_views(scopes@), active),
{
    let ghost view = scope_views(scopes@);
    let mut sequence: Vec<MapScopeId> = Vec::new();
    let mut i: usize = 0;
    while i < scopes.len()
        invariant
            i <= scopes@.len(),
            view == scope_views(scopes@),
            sequence@ == scope_ids(view).take(i as int),
        decreases scopes@.len() - i,
    {
        sequence.push(scopes[i].selection.scope);
        proof {
            assert(view[i as int] == scopes@[i as int]@);
            assert(scope_ids(view).take(i + 1) =~= scope_ids(view).take(i as int).push(
                view[i as int].selection.scope,
            ));
        }
        i = i + 1;
    }
    proof {
        assert(scope_ids(view).take(i as int) =~= scope_ids(view));
    }
    prioritize_active_scope(&mut sequence, active);
    let count: usize = if sequence.len() == 0 {
        1
    } else {
        sequence.len()
    };
    let base: usize = MAP_TILE_CAPACITY / count;
    let remainder: usize = MAP_TILE_CAPACITY % count;
    proof {
        assert(base <= MAP_TILE_CAPACITY) by (nonlinear_arith)
            requires
                count > 0,
                base == MAP_TILE_CAPACITY as int / count as int,
        ;
    }
    let mut order: Vec<u64> = Vec::new();
    let mut n: usize = 0;
    while n < sequence.len()
        invariant
            n <= sequence@.len(),
            view == scope_views(scopes@),
            count == if sequence@.len() == 0 { 1 } else { sequence@.len() as int },
            base == MAP_TILE_CAPACITY as int / count as int,
            base <= MAP_TILE_CAPACITY,
            remainder == MAP_TILE_CAPACITY as int % count as int,
            order@ == admitted_prefix(view, sequence@, n as nat),
        decreases sequence@.len() - n,
    {
        let quota: usize = base + if n < remainder { 1 } else { 0 };
        assert(quota == quota_of(n as int, sequence@.len()));
        if let Some(at) = find_scope(scopes, sequence[n]) {
            assert(view[at as int] == scopes@[at as int]@);
            let mut keys = coverage_aware_scope_order(
                &scopes[at].selection,
                &scopes[at].cache,
                quota,
            );
            order.append(&mut keys);
        }
        n = n + 1;
    }
    order
}

fn refresh_cache(
    cache: Vec<CachedTile>,
    selection: &MapTileSelection,
    ready: &Vec<ReadyTile>,
    signatures: &Vec<(u64, u64)>,
) -> (r: (Vec<CachedTile>, Vec<u64>))
    ensures
        cache_view(r.0@) == refreshed_cache(
            cache_view(cache@),
            selection@,
            ready_views(ready@),
        ),
        r.1@ == changed_keys(selection@, ready_views(ready@), signatures@),
{
    let ghost before = cache_view(cache@);
    let mut cache = cache;
    let mut outdated = false;
    let mut i: usize = 0;
    while i < cache.len()
        invariant
            i <= cache@.len(),
            before == cache_view(cache@),
            outdated == exists|j: int|
                0 <= j < i && ((#[trigger] before[j]).tile.provider != selection@.provider
                    || before[j].tile.generation != selection@.generation),
        decreases cache@.len() - i,
    {
        assert(before[i as int] == cache@[i as int]@);
        if cache[i].tile.provider != selection.provider || cache[i].tile.generation
            != selection.generation {
            outdated = true;
        }
        i = i + 1;
    }
    if outdated {
        cache = Vec::new();
    }
    let ghost kept = cache_view(cache@);
    proof {
        assert(outdated == is_outdated(selection@, before));
        if outdated {
            assert(kept =~= Seq::<CachedTileView>::empty());
        }
    }
    let ghost arrived = ready_views(ready@);
    let mut changed: Vec<u64> = Vec::new();
    let mut n: usize = 0;
    proof {
        assert(arrived.take(0) =~= Seq::<ReadyTileView>::empty());
    }
    while n < ready.len()
        invariant
            n <= ready@.len(),
            arrived == ready_views(ready@),
            cache_view(cache@) == with_ready(kept, selection@, arrived.take(n as int)),
            changed@ == changed_keys(selection@, arrived.take(n as int), signatures@),
        decreases ready@.len() - n,
    {
        proof {
            assert(arrived.take(n + 1).drop_last() =~= arrived.take(n as int));
            assert(arrived.take(n + 1).last() == ready@[n as int]@);
        }
        if map_tile_matches(selection, &ready[n]) {
            let key = map_tile_key(&ready[n]);
            let signature = map_tile_signature(&ready[n]);
            let fresh = match find_signature(signatures, key) {
                Some(known) => known != signature,
                None => true,
            };
            if fresh {
                changed.push(key);
            }
            let entry = CachedTile { key, tile: ready[n].duplicate() };
            let ghost now = cache@;
            match find_cached(&cache, key) {
                Some(at) => {
                    cache.set(at, entry);
                    proof {
                        assert(cache_view(cache@) =~= cache_view(now).update(at as int, entry@));
                    }
                },
                None => {
                    cache.push(entry);
                    proof {
                        assert(cache_view(cache@) =~= cache_view(now).push(entry@));
                    }
                },
            }
        }
        n = n + 1;
    }
    let ghost full = cache_view(cache@);
    proof {
        assert(arrived.take(n as int) =~= arrived);
    }
    let mut out: Vec<CachedTile> = Vec::new();
    cache = reversed(cache);
    proof {
        assert(full.take(0) =~= Seq::<CachedTileView>::empty());
        assert(cache_view(out@) =~= Seq::<CachedTileView>::empty());
    }
    let ghost total = full.len();
    while cache.len() > 0
        invariant
            cache@.len() <= total == full.len(),
            forall|k: int|
                0 <= k < cache@.len() ==> (#[trigger] cache@[k])@ == full[total - 1 - k],
            cache_view(out@) == only_matching(full.take(total - cache@.len()), selection@),
        decreases cache@.len(),
    {
        let ghost done = total - cache@.len();
        proof {
            assert(full.take(done + 1).drop_last() =~= full.take(done));
            assert(full.take(done + 1).last() == full[done]);
            assert(cache@[cache@.len() - 1]@ == full[done]);
        }
        if let Some(entry) = cache.pop() {
            if map_tile_matches(selection, &entry.tile) {
                let ghost now = out@;
                out.push(entry);
                proof {
                    assert(cache_view(out@) =~= cache_view(now).push(entry@));
                }
            }
        }
    }
    proof {
        assert(full.take(total as int) =~= full);
    }
    (out, changed)
}

pub open spec fn ready_views(ready: Seq<ReadyTile>) -> Seq<ReadyTileView> {
    Seq::new(ready.len(), |i: int| ready[i]@)
}

fn reversed<T>(v: Vec<T>) -> (r: Vec<T>)
    ensures
        r@ == v@.reverse(),
{
    let mut v = v;
    let ghost all = v@;
    let mut out: Vec<T> = Vec::new();
    while v.len() > 0
        invariant
            v@ == all.take(v@.len() as int),
            v@.len() <= all.len(),
            out@ == all.reverse().take(all.len() - v@.len()),
        decreases v@.len(),
    {
        let ghost n = v@.len();
        if let Some(item) = v.pop() {
            out.push(item);
            proof {
                assert(all.reverse().take(all.len() - (n - 1)) =~= all.reverse().take(
                    all.len() - n,
                ).push(item));
                assert(v@ =~= all.take(n - 1));
            }
        }
    }
    proof {
        assert(all.reverse().take(all.len() as int) =~= all.reverse());
    }
    out
}

impl MapResidency {
    /// No panes, no tiles.
    pub fn new() -> (r: MapResidency)
        ensures
            r@ == (ResidencyView {
                epoch: 0,
                scopes: Seq::empty(),
                resident: Seq::empty(),
                signatures: Seq::empty(),
            }),
            r@.well_formed(),
    {
        let r = MapResidency {
            epoch: 0,
            scopes: Vec::new(),
            resident: Vec::new(),
            signatures: Vec::new(),
        };
        proof {
            assert(scope_views(r.scopes@) =~= Seq::<ScopeView>::empty());
        }
        r
    }

    /// Deals out the slots anew and lists the keys to upload.
    fn admit_map_tiles(&mut self, changed: &Vec<u64>, active_scope: Option<MapScopeId>) -> (r: Vec<
        u64,
    >)
        ensures
            final(self)@ == readmitted(old(self)@, active_scope),
            r@ == readmission_uploads(old(self)@, active_scope, changed@),
    {
        let order = admit_scopes(&self.scopes, active_scope);
        self.resident = keep_keys(&self.resident, &order);
        self.signatures = keep_signatures(&self.signatures, &order);
        list_uploads(&order, &self.resident, changed)
    }

    /// Drops the tiles of panes that no longer exist and hands their slots on.
    /// Returns the keys to upload.
    pub fn retain_map_scopes(&mut self, live: &Vec<MapScopeId>) -> (r: Vec<u64>)
        requires
            old(self)@.well_formed(),
        ensures
            final(self)@ == readmitted(
                (ResidencyView { scopes: only_scopes(old(self)@.scopes, live@), ..old(self)@ }),
                None,
            ),
            r@ == readmission_uploads(
                (ResidencyView { scopes: only_scopes(old(self)@.scopes, live@), ..old(self)@ }),
                None,
                Seq::empty(),
            ),
            final(self)@.well_formed(),
    {
        let mut rest: Vec<ScopeTiles> = Vec::new();
        core::mem::swap(&mut rest, &mut self.scopes);
        let ghost all = scope_views(rest@);
        let ghost total = rest@.len();
        let mut rest = reversed(rest);
        proof {
            assert(all.take(0) =~= Seq::<ScopeView>::empty());
            assert(scope_views(self.scopes@) =~= Seq::<ScopeView>::empty());
        }
        while rest.len() > 0
            invariant
                rest@.len() <= total == all.len(),
                forall|k: int| 0 <= k < rest@.len() ==> (#[trigger] rest@[k])@ == all[total - 1 - k],
                scope_views(self.scopes@) == only_scopes(all.take(total - rest@.len()), live@),
                self.epoch == old(self).epoch,
                self.resident@ == old(self).resident@,
                self.signatures@ == old(self).signatures@,
            decreases rest@.len(),
        {
            let ghost done = total - rest@.len();
            proof {
                assert(all.take(done + 1).drop_last() =~= all.take(done));
                assert(all.take(done + 1).last() == all[done]);
                assert(rest@[rest@.len() - 1]@ == all[done]);
            }
            if let Some(entry) = rest.pop() {
                let at = index_of_scope(live, entry.selection.scope);
                if at < live.len() {
                    let ghost now = self.scopes@;
                    self.scopes.push(entry);
                    proof {
                        assert(scope_views(self.scopes@) =~= scope_views(now).push(entry@));
                    }
                }
            }
        }
        proof {
            assert(all.take(total as int) =~= all);
            lemma_only_scopes_ordered(all, live@);
            let kept = only_scopes(all, live@);
            assert forall|k: int| 0 <= k < kept.len() implies keyed((#[trigger] kept[k]).cache) by {
                let j = choose|j: int| 0 <= j < all.len() && all[j] == kept[k];
                assert(keyed(all[j].cache));
            }
        }
        let none: Vec<u64> = Vec::new();
        self.admit_map_tiles(&none, None)
    }

    /// Takes a pane out and hands back its tiles.
    fn remove_scope(&mut self, scope: MapScopeId) -> (cache: Vec<CachedTile>)
        requires
            ordered(old(self)@.scopes),
        ensures
            final(self)@ == (ResidencyView {
                scopes: without_scope(old(self)@.scopes, scope),
                ..old(self)@
            }),
            ordered(final(self)@.scopes),
            cache_view(cache@) == cache_of(old(self)@.scopes, scope),
    {
        let ghost entries = scope_views(self.scopes@);
        let mut cache: Vec<CachedTile> = Vec::new();
        proof {
            assert(cache_view(cache@) =~= Seq::<CachedTileView>::empty());
            lemma_scope_index(entries, scope, 0);
            lemma_without_ordered(entries, scope);
        }
        if let Some(at) = find_scope(&self.scopes, scope) {
            assert(entries[at as int] == self.scopes@[at as int]@);
            let mut entry = self.scopes.remove(at);
            core::mem::swap(&mut cache, &mut entry.cache);
            proof {
                assert(scope_views(self.scopes@) =~= entries.remove(at as int));
                lemma_without_scope(entries, scope, at as int);
            }
        } else {
            proof {
                lemma_without_absent(entries, scope);
            }
        }
        cache
    }

    /// Puts a pane where its id belongs.
    fn place_scope(&mut self, entry: ScopeTiles)
        requires
            ordered(old(self)@.scopes),
            scope_index(old(self)@.scopes, entry@.selection.scope, 0) is None,
        ensures
            final(self)@ == (ResidencyView {
                scopes: with_scope(old(self)@.scopes, entry@),
                ..old(self)@
            }),
            ordered(final(self)@.scopes),
    {
        let ghost entries = scope_views(self.scopes@);
        let ghost scope = entry@.selection.scope;
        let mut at: usize = 0;
        while at < self.scopes.len() && self.scopes[at].selection.scope.0
            < entry.selection.scope.0
            invariant
                at <= self.scopes@.len(),
                entries == scope_views(self.scopes@),
                scope == entry@.selection.scope,
                scope_slot(entries, scope, 0) == scope_slot(entries, scope, at as int),
                *self == *old(self),
            ensures
                at <= self.scopes@.len(),
                at == scope_slot(entries, scope, 0),
                *self == *old(self),
            decreases self.scopes@.len() - at,
        {
            assert(entries[at as int] == self.scopes@[at as int]@);
            at = at + 1;
        }
        proof {
            lemma_scope_slot(entries, scope, 0);
            lemma_scope_index(entries, scope, 0);
        }
        self.scopes.insert(at, entry);
        proof {
            let out = entries.insert(at as int, entry@);
            assert(scope_views(self.scopes@) =~= out);
            assert forall|i: int, j: int| 0 <= i < j < out.len() implies (
            #[trigger] out[i]).selection.scope.0 < (#[trigger] out[j]).selection.scope.0 by {
                let a = if i < at { entries[i] } else if i == at { entry@ } else { entries[i - 1] };
                let b = if j < at { entries[j] } else if j == at { entry@ } else { entries[j - 1] };
                assert(out[i] == a && out[j] == b);
                if i == at {
                    assert(entries[at as int].selection.scope != scope);
                    if j - 1 > at {
                        assert(entries[at as int].selection.scope.0 < entries[j
                            - 1].selection.scope.0);
                    }
                }
            }
        }
    }

    /// Takes over what a pane wants to draw and the tiles that have arrived for
    /// it, deals out the slots anew, and lists the keys to upload.
    pub fn prepare_map_tiles(
        &mut self,
        selection: &MapTileSelection,
        ready: &Vec<ReadyTile>,
    ) -> (r: Vec<u64>)
        requires
            old(self)@.well_formed(),
        ensures
            final(self)@ == prepared(old(self)@, selection@, ready_views(ready@)),
            r@ == prepared_uploads(old(self)@, selection@, ready_views(ready@)),
            final(self)@.well_formed(),
    {
        if self.epoch != selection.epoch {
            self.epoch = selection.epoch;
            self.scopes = Vec::new();
            self.signatures = Vec::new();
            proof {
                assert(scope_views(self.scopes@) =~= Seq::<ScopeView>::empty());
            }
        }
        let ghost base = self@;
        proof {
            assert(base == at_epoch(old(self)@, selection@.epoch));
            lemma_selected_is_well_formed(old(self)@, selection@, ready_views(ready@));
            lemma_replaced_scope(base.scopes, selection@.scope);
        }
        let cache = self.remove_scope(selection.scope);
        if !selection.enabled {
            let none: Vec<u64> = Vec::new();
            return self.admit_map_tiles(&none, Some(selection.scope));
        }
        let (cache, changed) = refresh_cache(cache, selection, ready, &self.signatures);
        let entry = ScopeTiles { selection: selection.duplicate(), cache };
        self.place_scope(entry);
        self.admit_map_tiles(&changed, Some(selection.scope))
    }
}

/// Taking a pane out and putting it back anew is replacing it.
proof fn lemma_replaced_scope(scopes: Seq<ScopeView>, scope: MapScopeId)
    requires
        ordered(scopes),
    ensures
        scope_index(without_scope(scopes, scope), scope, 0) is None,
        forall|entry: ScopeView|
            entry.selection.scope == scope ==> #[trigger] with_scope(
                without_scope(scopes, scope),
                entry,
            ) == with_scope(scopes, entry),
{
    lemma_scope_index(scopes, scope, 0);
    lemma_scope_slot(scopes, scope, 0);
    match scope_index(scopes, scope, 0) {
        Some(at) => {
            lemma_without_scope(scopes, scope, at);
            lemma_slot_after_removal(scopes, scope, at);
            let rest = scopes.remove(at);
            lemma_scope_index(rest, scope, 0);
            if let Some(k) = scope_index(rest, scope, 0) {
                if k < at {
                    assert(rest[k] == scopes[k]);
                } else {
                    assert(rest[k] == scopes[k + 1]);
                }
            }
            assert forall|entry: ScopeView| entry.selection.scope == scope implies #[trigger] with_scope(
                rest,
                entry,
            ) == with_scope(scopes, entry) by {
                if at < rest.len() {
                    assert(rest[at] == scopes[at + 1]);
                }
                assert(rest.insert(at, entry) =~= scopes.update(at, entry));
            }
        },
        None => {
            lemma_without_absent(scopes, scope);
        },
    }
}

impl MapResidency {
    /// Whether the tile under `key` owns a slot.
    pub fn contains(&self, key: u64) -> (r: bool)
        ensures
            r == self@.resident.contains(key),
    {
        key_in(&self.resident, key)
    }

    /// Number of slots in use.
    pub fn resident_tile_count(&self) -> (r: usize)
        ensures
            r == self@.resident.len(),
    {
        self.resident.len()
    }

    /// The tile cached under `key`.
    pub fn cached(&self, key: u64) -> (r: Option<&ReadyTile>)
        ensures
            r is Some == cached_tile(self@.scopes, key, 0) is Some,
            r matches Some(tile) ==> cached_tile(self@.scopes, key, 0) == Some(tile@),
    {
        let ghost view = scope_views(self.scopes@);
        let mut i: usize = 0;
        while i < self.scopes.len()
            invariant
                i <= self.scopes@.len(),
                view == scope_views(self.scopes@),
                cached_tile(view, key, 0) == cached_tile(view, key, i as int),
            decreases self.scopes@.len() - i,
        {
            assert(view[i as int] == self.scopes@[i as int]@);
            if let Some(at) = find_cached(&self.scopes[i].cache, key) {
                return Some(&self.scopes[i].cache[at].tile);
            }
            i = i + 1;
        }
        None
    }

    /// Records that the tile under `key` has been uploaded.
    pub fn mark_uploaded(&mut self, key: u64)
        ensures
            final(self)@ == uploaded(old(self)@, key),
            old(self)@.well_formed() ==> final(self)@.well_formed(),
    {
        let signature = match self.cached(key) {
            Some(tile) => map_tile_signature(tile),
            None => {
                return;
            },
        };
        if !key_in(&self.resident, key) {
            self.resident.push(key);
        }
        let ghost before = self.signatures@;
        let mut n: usize = self.signatures.len();
        proof {
            assert(before.take(n as int) =~= before);
            lemma_with_signature_suffix(before, n as int, key, signature);
        }
        while n > 0 && self.signatures[n - 1].0 != key
            invariant
                n <= before.len(),
                self.signatures@ == before,
                forall|k: int| n <= k < before.len() ==> (#[trigger] before[k]).0 != key,
            ensures
                n <= before.len(),
                forall|k: int| n <= k < before.len() ==> (#[trigger] before[k]).0 != key,
                n > 0 ==> before[n - 1].0 == key,
            decreases n,
        {
            n = n - 1;
        }
        proof {
            lemma_with_signature_suffix(before, n as int, key, signature);
        }
        if n > 0 {
            self.signatures.set(n - 1, (key, signature));
        } else {
            self.signatures.insert(0, (key, signature));
        }
    }

    /// What a pane draws of its tiles.
    pub fn visible_map_tiles(&self, selection: &MapTileSelection) -> (r: MapTileDrawGroups)
        ensures
            r.current@ == ascending(
                visible_keys(
                    cache_of(self@.scopes, selection@.scope),
                    selection@,
                    self@.resident,
                    true,
                ),
            ),
            r.previous@ == ascending(
                visible_keys(
                    cache_of(self@.scopes, selection@.scope),
                    selection@,
                    self@.resident,
                    false,
                ),
            ),
    {
        let mut previous: Vec<u64> = Vec::new();
        let mut current: Vec<u64> = Vec::new();
        let ghost tiles = cache_of(self@.scopes, selection@.scope);
        if let Some(at) = find_scope(&self.scopes, selection.scope) {
            let cache = &self.scopes[at].cache;
            let mut i: usize = 0;
            proof {
                assert(scope_views(self.scopes@)[at as int] == self.scopes@[at as int]@);
                assert(tiles == cache_view(cache@));
                assert(tiles.take(0) =~= Seq::<CachedTileView>::empty());
            }
            while i < cache.len()
                invariant
                    i <= cache@.len(),
                    tiles == cache_view(cache@),
                    current@ == visible_keys(
                        tiles.take(i as int),
                        selection@,
                        self.resident@,
                        true,
                    ),
                    previous@ == visible_keys(
                        tiles.take(i as int),
                        selection@,
                        self.resident@,
                        false,
                    ),
                decreases cache@.len() - i,
            {
                proof {
                    assert(tiles.take(i + 1).drop_last() =~= tiles.take(i as int));
                    assert(tiles.take(i + 1).last() == cache@[i as int]@);
                }
                if key_in(&self.resident, cache[i].key) {
                    if map_tile_is_current(selection, &cache[i].tile) {
                        current.push(cache[i].key);
                    } else if map_tile_is_previous(selection, &cache[i].tile) {
                        previous.push(cache[i].key);
                    }
                }
                i = i + 1;
            }
            proof {
                assert(tiles.take(i as int) =~= tiles);
            }
        }
        MapTileDrawGroups { previous: sort_numbers(&previous), current: sort_numbers(&current) }
    }

    /// Whether the exact current selection has imagery resident for drawing.
    pub fn map_selection_has_current_imagery(
        &self,
        available: bool,
        selection: &MapTileSelection,
    ) -> (r: bool)
        ensures
            r == (available && selection@.current.len() > 0 && shows_current(self@, selection@)),
    {
        available && selection.current_tiles.len() > 0 && self.shows_current_tiles(selection)
    }

    /// Whether a pane has moved on from fallback tiles to its current ones.
    pub fn selection_transition_complete(&self, selection: &MapTileSelection) -> (r: bool)
        ensures
            r == transition_complete(self@, selection@),
    {
        selection.previous_tiles.len() > 0 && self.shows_current_tiles(selection)
    }

    fn shows_current_tiles(&self, selection: &MapTileSelection) -> (r: bool)
        ensures
            r == shows_current(self@, selection@),
    {
        let at = match find_scope(&self.scopes, selection.scope) {
            Some(at) => at,
            None => {
                return false;
            },
        };
        proof {
            assert(scope_views(self.scopes@)[at as int] == self.scopes@[at as int]@);
        }
        let cache = &self.scopes[at].cache;
        let mut i: usize = 0;
        while i < selection.current_tiles.len()
            invariant
                i <= selection.current_tiles@.len(),
                forall|k: int|
                    0 <= k < i ==> is_resident_id(
                        cache_view(cache@),
                        self.resident@,
                        (#[trigger] selection@.current[k]).0,
                    ),
                cache_view(cache@) == self@.scopes[at as int].cache,
                scope_index(self@.scopes, selection@.scope, 0) == Some(at as int),
            decreases selection.current_tiles@.len() - i,
        {
            assert(selection@.current[i as int] == selection.current_tiles@[i as int]);
            if !self.holds_id(cache, selection.current_tiles[i].0) {
                return false;
            }
            i = i + 1;
        }
        let mut j: usize = 0;
        while j < selection.previous_tiles.len()
            invariant
                j <= selection.previous_tiles@.len(),
                forall|k: int|
                    0 <= k < j ==> !is_resident_id(
                        cache_view(cache@),
                        self.resident@,
                        #[trigger] selection@.previous[k],
                    ),
                cache_view(cache@) == self@.scopes[at as int].cache,
                scope_index(self@.scopes, selection@.scope, 0) == Some(at as int),
            decreases selection.previous_tiles@.len() - j,
        {
            assert(selection@.previous[j as int] == selection.previous_tiles@[j as int]);
            if self.holds_id(cache, selection.previous_tiles[j]) {
                return false;
            }
            j = j + 1;
        }
        true
    }

    fn holds_id(&self, cache: &Vec<CachedTile>, id: TileId) -> (r: bool)
        ensures
            r == is_resident_id(cache_view(cache@), self.resident@, id),
    {
        let ghost view = cache_view(cache@);
        let mut i: usize = 0;
        while i < cache.len()
            invariant
                i <= cache@.len(),
                view == cache_view(cache@),
                forall|k: int|
                    0 <= k < i ==> !((#[trigger] view[k]).tile.id == id && self.resident@.contains(
                        view[k].key,
                    )),
            decreases cache@.len() - i,
        {
            assert(view[i as int] == cache@[i as int]@);
            if cache[i].tile.id == id && key_in(&self.resident, cache[i].key) {
                return true;
            }
            i = i + 1;
        }
        false
    }
}

/// `with_signature` replaces the last entry of the key, or puts the entry first.
proof fn lemma_with_signature_suffix(
    signatures: Seq<(u64, u64)>,
    n: int,
    key: u64,
    signature: u64,
)
    requires
        0 <= n <= signatures.len(),
    ensures
        (forall|k: int| n <= k < signatures.len() ==> (#[trigger] signatures[k]).0 != key) ==> (n > 0
            && signatures[n - 1].0 == key ==> with_signature(signatures, key, signature)
            == signatures.update(n - 1, (key, signature))) && (n == 0 ==> with_signature(
            signatures,
            key,
            signature,
        ) == signatures.insert(0, (key, signature))),
    decreases signatures.len(),
{
    if signatures.len() == 0 {
        assert(signatures.insert(0, (key, signature)) =~= seq![(key, signature)]);
    } else if signatures.last().0 == key {
        assert(signatures.drop_last().push((key, signature)) =~= signatures.update(
            signatures.len() - 1,
            (key, signature),
        ));
        if n < signatures.len() {
            assert(signatures[signatures.len() - 1].0 == key);
        }
    } else {
        let short = signatures.drop_last();
        if n < signatures.len() {
            lemma_with_signature_suffix(short, n, key, signature);
            if forall|k: int| n <= k < signatures.len() ==> (#[trigger] signatures[k]).0 != key {
                assert forall|k: int| n <= k < short.len() implies (#[trigger] short[k]).0 != key by {
                    assert(signatures[k] == short[k]);
                }
                if n > 0 && signatures[n - 1].0 == key {
                    assert(short.update(n - 1, (key, signature)).push(signatures.last())
                        =~= signatures.update(n - 1, (key, signature)));
                }
                if n == 0 {
                    assert(short.insert(0, (key, signature)).push(signatures.last())
                        =~= signatures.insert(0, (key, signature)));
                }
            }
        }
    }
}

pub(crate) proof fn lemma_scope_slot(scopes: Seq<ScopeView>, scope: MapScopeId, i: int)
    requires
        0 <= i <= scopes.len(),
    ensures
        i <= scope_slot(scopes, scope, i) <= scopes.len(),
        forall|k: int|
            i <= k < scope_slot(scopes, scope, i) ==> (#[trigger] scopes[k]).selection.scope.0
                < scope.0,
        scope_slot(scopes, scope, i) < scopes.len() ==> scopes[scope_slot(
            scopes,
            scope,
            i,
        )].selection.scope.0 >= scope.0,
    decreases scopes.len() - i,
{
    if i < scopes.len() && scopes[i].selection.scope.0 < scope.0 {
        lemma_scope_slot(scopes, scope, i + 1);
    }
}

proof fn lemma_scope_index(scopes: Seq<ScopeView>, scope: MapScopeId, i: int)
    requires
        0 <= i <= scopes.len(),
    ensures
        scope_index(scopes, scope, i) matches Some(at) ==> i <= at < scopes.len()
            && scopes[at].selection.scope == scope,
        scope_index(scopes, scope, i) is None ==> forall|k: int|
            i <= k < scopes.len() ==> (#[trigger] scopes[k]).selection.scope != scope,
    decreases scopes.len() - i,
{
    if i < scopes.len() && scopes[i].selection.scope != scope {
        lemma_scope_index(scopes, scope, i + 1);
    }
}

/// The panes of a list in ascending order of their ids.
pub open spec fn ordered(scopes: Seq<ScopeView>) -> bool {
    forall|i: int, j: int|
        0 <= i < j < scopes.len() ==> (#[trigger] scopes[i]).selection.scope.0 < (
        #[trigger] scopes[j]).selection.scope.0
}

proof fn lemma_slot_after_removal(scopes: Seq<ScopeView>, scope: MapScopeId, at: int)
    requires
        ordered(scopes),
        0 <= at < scopes.len(),
        scopes[at].selection.scope == scope,
    ensures
        scope_slot(scopes, scope, 0) == at,
        scope_slot(scopes.remove(at), scope, 0) == at,
{
    lemma_scope_slot(scopes, scope, 0);
    lemma_scope_slot(scopes.remove(at), scope, 0);
    let rest = scopes.remove(at);
    let s = scope_slot(rest, scope, 0);
    if s < at {
        assert(rest[s] == scopes[s]);
    } else if s > at {
        assert(rest[at] == scopes[at + 1]);
    }
}

proof fn lemma_without_absent(scopes: Seq<ScopeView>, scope: MapScopeId)
    requires
        forall|k: int| 0 <= k < scopes.len() ==> (#[trigger] scopes[k]).selection.scope != scope,
    ensures
        without_scope(scopes, scope) == scopes,
    decreases scopes.len(),
{
    if scopes.len() > 0 {
        lemma_without_absent(scopes.drop_last(), scope);
        assert(scopes.drop_last().push(scopes.last()) =~= scopes);
    } else {
        assert(without_scope(scopes, scope) =~= scopes);
    }
}

proof fn lemma_without_scope(scopes: Seq<ScopeView>, scope: MapScopeId, at: int)
    requires
        ordered(scopes),
        0 <= at < scopes.len(),
        scopes[at].selection.scope == scope,
    ensures
        without_scope(scopes, scope) == scopes.remove(at),
    decreases scopes.len(),
{
    if at == scopes.len() - 1 {
        assert forall|k: int| 0 <= k < scopes.drop_last().len() implies (
        #[trigger] scopes.drop_last()[k]).selection.scope != scope by {
            assert(scopes[k].selection.scope.0 < scopes[at].selection.scope.0);
        }
        lemma_without_absent(scopes.drop_last(), scope);
        assert(scopes.remove(at) =~= scopes.drop_last());
    } else {
        assert(scopes[at].selection.scope.0 < scopes.last().selection.scope.0);
        lemma_without_scope(scopes.drop_last(), scope, at);
        assert(scopes.remove(at) =~= scopes.drop_last().remove(at).push(scopes.last()));
    }
}

proof fn lemma_without_ordered(scopes: Seq<ScopeView>, scope: MapScopeId)
    requires
        ordered(scopes),
    ensures
        ordered(without_scope(scopes, scope)),
        forall|k: int|
            0 <= k < without_scope(scopes, scope).len() ==> exists|j: int|
                0 <= j < scopes.len() && scopes[j] == #[trigger] without_scope(scopes, scope)[k],
    decreases scopes.len(),
{
    if scopes.len() > 0 {
        let short = scopes.drop_last();
        lemma_without_ordered(short, scope);
        let rest = without_scope(short, scope);
        let out = without_scope(scopes, scope);
        assert forall|k: int| 0 <= k < rest.len() implies (#[trigger] rest[k]).selection.scope.0
            < scopes.last().selection.scope.0 by {
            let j = choose|j: int| 0 <= j < short.len() && short[j] == rest[k];
            assert(scopes[j] == rest[k]);
        }
        assert forall|k: int| 0 <= k < out.len() implies exists|j: int|
            0 <= j < scopes.len() && scopes[j] == #[trigger] out[k] by {
            if k < rest.len() {
                let j = choose|j: int| 0 <= j < short.len() && short[j] == rest[k];
                assert(scopes[j] == out[k]);
            } else {
                assert(scopes[scopes.len() - 1] == out[k]);
            }
        }
    }
}

proof fn lemma_only_scopes_ordered(scopes: Seq<ScopeView>, live: Seq<MapScopeId>)
    requires
        ordered(scopes),
    ensures
        ordered(only_scopes(scopes, live)),
        forall|k: int|
            0 <= k < only_scopes(scopes, live).len() ==> exists|j: int|
                0 <= j < scopes.len() && scopes[j] == #[trigger] only_scopes(scopes, live)[k],
    decreases scopes.len(),
{
    if scopes.len() > 0 {
        let short = scopes.drop_last();
        lemma_only_scopes_ordered(short, live);
        let rest = only_scopes(short, live);
        let out = only_scopes(scopes, live);
        assert forall|k: int| 0 <= k < rest.len() implies (#[trigger] rest[k]).selection.scope.0
            < scopes.last().selection.scope.0 by {
            let j = choose|j: int| 0 <= j < short.len() && short[j] == rest[k];
            assert(scopes[j] == rest[k]);
        }
        assert forall|k: int| 0 <= k < out.len() implies exists|j: int|
            0 <= j < scopes.len() && scopes[j] == #[trigger] out[k] by {
            if k < rest.len() {
                let j = choose|j: int| 0 <= j < short.len() && short[j] == rest[k];
                assert(scopes[j] == out[k]);
            } else {
                assert(scopes[scopes.len() - 1] == out[k]);
            }
        }
    }
}

pub(crate) proof fn lemma_cache_index(cache: Seq<CachedTileView>, key: u64, i: int)
    requires
        0 <= i <= cache.len(),
    ensures
        cache_index(cache, key, i) matches Some(at) ==> i <= at < cache.len() && cache[at].key
            == key,
        cache_index(cache, key, i) is None ==> forall|k: int|
            i <= k < cache.len() ==> (#[trigger] cache[k]).key != key,
    decreases cache.len() - i,
{
    if i < cache.len() && cache[i].key != key {
        lemma_cache_index(cache, key, i + 1);
    }
}

pub(crate) proof fn lemma_with_tile_keyed(cache: Seq<CachedTileView>, tile: ReadyTileView)
    requires
        keyed(cache),
    ensures
        keyed(with_tile(cache, tile)),
{
    let entry = CachedTileView { key: tile_key(tile), tile };
    let out = with_tile(cache, tile);
    lemma_cache_index(cache, entry.key, 0);
    assert forall|i: int| 0 <= i < out.len() implies (#[trigger] out[i]).key == tile_key(
        out[i].tile,
    ) by {
        if out[i] != entry {
            assert(out[i] == cache[i]);
        }
    }
    assert forall|i: int, j: int| 0 <= i < j < out.len() implies (#[trigger] out[i]).key != (
    #[trigger] out[j]).key by {
        if j < cache.len() {
            assert(cache[i].key != cache[j].key);
        }
    }
}

pub(crate) proof fn lemma_with_ready_keyed(
    cache: Seq<CachedTileView>,
    selection: Selection,
    ready: Seq<ReadyTileView>,
)
    requires
        keyed(cache),
    ensures
        keyed(with_ready(cache, selection, ready)),
    decreases ready.len(),
{
    if ready.len() > 0 {
        lemma_with_ready_keyed(cache, selection, ready.drop_last());
        if matches(selection, ready.last()) {
            lemma_with_tile_keyed(with_ready(cache, selection, ready.drop_last()), ready.last());
        }
    }
}

/// Dropping what does not match keeps the tiles that do, in their order.
pub(crate) proof fn lemma_only_matching(cache: Seq<CachedTileView>, selection: Selection)
    ensures
        keyed(cache) ==> keyed(only_matching(cache, selection)),
        forall|k: int|
            0 <= k < only_matching(cache, selection).len() ==> matches(
                selection,
                (#[trigger] only_matching(cache, selection)[k]).tile,
            ) && cache.contains(only_matching(cache, selection)[k]),
        forall|j: int|
            0 <= j < cache.len() && matches(selection, (#[trigger] cache[j]).tile)
                ==> only_matching(cache, selection).contains(cache[j]),
    decreases cache.len(),
{
    if cache.len() > 0 {
        let short = cache.drop_last();
        let rest = only_matching(short, selection);
        let out = only_matching(cache, selection);
        lemma_only_matching(short, selection);
        assert forall|k: int| 0 <= k < out.len() implies matches(
            selection,
            (#[trigger] out[k]).tile,
        ) && cache.contains(out[k]) by {
            if k < rest.len() {
                assert(short.contains(rest[k]));
                let j = choose|j: int| 0 <= j < short.len() && short[j] == rest[k];
                assert(cache[j] == out[k]);
            } else {
                assert(cache[cache.len() - 1] == out[k]);
            }
        }
        assert forall|j: int|
            0 <= j < cache.len() && matches(selection, (#[trigger] cache[j]).tile) implies out.contains(
            cache[j],
        ) by {
            if j < short.len() {
                assert(short[j] == cache[j]);
                assert(rest.contains(short[j]));
                let k = choose|k: int| 0 <= k < rest.len() && rest[k] == cache[j];
                assert(out[k] == cache[j]);
            } else {
                assert(out[rest.len() as int] == cache[j]);
            }
        }
        if keyed(cache) {
            assert(keyed(short)) by {
                assert forall|i: int, j: int| 0 <= i < j < short.len() implies (
                #[trigger] short[i]).key != (#[trigger] short[j]).key by {
                    assert(cache[i].key != cache[j].key);
                }
                assert forall|i: int| 0 <= i < short.len() implies (#[trigger] short[i]).key
                    == tile_key(short[i].tile) by {
                    assert(cache[i].key == tile_key(cache[i].tile));
                }
            }
            assert forall|i: int, j: int| 0 <= i < j < out.len() implies (#[trigger] out[i]).key
                != (#[trigger] out[j]).key by {
                if j < rest.len() {
                    assert(rest[i].key != rest[j].key);
                } else {
                    assert(short.contains(rest[i]));
                    let m = choose|m: int| 0 <= m < short.len() && short[m] == rest[i];
                    assert(cache[m].key != cache[cache.len() - 1].key);
                }
            }
            assert forall|i: int| 0 <= i < out.len() implies (#[trigger] out[i]).key == tile_key(
                out[i].tile,
            ) by {
                if i < rest.len() {
                    assert(rest[i].key == tile_key(rest[i].tile));
                } else {
                    assert(cache[cache.len() - 1].key == tile_key(cache[cache.len() - 1].tile));
                }
            }
        }
    }
}

pub(crate) proof fn lemma_with_scope(scopes: Seq<ScopeView>, entry: ScopeView)
    requires
        ordered(scopes),
        all_keyed(scopes),
        keyed(entry.cache),
    ensures
        ordered(with_scope(scopes, entry)),
        all_keyed(with_scope(scopes, entry)),
        cache_of(with_scope(scopes, entry), entry.selection.scope) == entry.cache,
{
    let scope = entry.selection.scope;
    let at = scope_slot(scopes, scope, 0);
    let out = with_scope(scopes, entry);
    lemma_scope_slot(scopes, scope, 0);
    let taken = at < scopes.len() && scopes[at].selection.scope == scope;
    assert(out[at] == entry);
    assert forall|k: int| 0 <= k < out.len() implies #[trigger] out[k] == if k == at {
        entry
    } else if k < at || taken {
        scopes[k]
    } else {
        scopes[k - 1]
    } by {}
    assert forall|i: int, j: int| 0 <= i < j < out.len() implies (
    #[trigger] out[i]).selection.scope.0 < (#[trigger] out[j]).selection.scope.0 by {
        let a = if i < at || taken { i } else { i - 1 };
        let b = if j < at || taken { j } else { j - 1 };
        if i != at && j != at {
            assert(scopes[a].selection.scope.0 < scopes[b].selection.scope.0);
        } else if i == at {
            if b > at {
                assert(scopes[at].selection.scope.0 < scopes[b].selection.scope.0);
            }
        }
    }
    assert forall|k: int| 0 <= k < out.len() implies keyed((#[trigger] out[k]).cache) by {
        if k != at {
            let g = if k < at || taken { k } else { k - 1 };
            assert(keyed(scopes[g].cache));
        }
    }
    lemma_scope_index(out, scope, 0);
    match scope_index(out, scope, 0) {
        Some(found) => {
            if found < at {
                assert(out[found].selection.scope.0 < out[at].selection.scope.0);
            } else if found > at {
                assert(out[at].selection.scope.0 < out[found].selection.scope.0);
            }
        },
        None => {
            assert(out[at].selection.scope != scope);
        },
    }
}

pub(crate) proof fn lemma_cache_of_keyed(scopes: Seq<ScopeView>, scope: MapScopeId)
    requires
        all_keyed(scopes),
    ensures
        keyed(cache_of(scopes, scope)),
{
    lemma_scope_index(scopes, scope, 0);
    if let Some(at) = scope_index(scopes, scope, 0) {
        assert(keyed(scopes[at].cache));
    }
}

pub(crate) proof fn lemma_refreshed_keyed(
    cache: Seq<CachedTileView>,
    selection: Selection,
    ready: Seq<ReadyTileView>,
)
    requires
        keyed(cache),
    ensures
        keyed(refreshed_cache(cache, selection, ready)),
{
    let kept = if is_outdated(selection, cache) {
        Seq::empty()
    } else {
        cache
    };
    lemma_with_ready_keyed(kept, selection, ready);
    lemma_only_matching(with_ready(kept, selection, ready), selection);
}

pub(crate) proof fn lemma_selected_is_well_formed(
    state: ResidencyView,
    selection: Selection,
    ready: Seq<ReadyTileView>,
)
    requires
        state.well_formed(),
    ensures
        at_epoch(state, selection.epoch).well_formed(),
        selected(state, selection, ready).well_formed(),
        selection.enabled ==> cache_of(selected(state, selection, ready).scopes, selection.scope)
            == refreshed_cache(
            cache_of(at_epoch(state, selection.epoch).scopes, selection.scope),
            selection,
            ready,
        ),
{
    let base = at_epoch(state, selection.epoch);
    lemma_cache_of_keyed(base.scopes, selection.scope);
    let cache = cache_of(base.scopes, selection.scope);
    lemma_refreshed_keyed(cache, selection, ready);
    lemma_with_scope(
        base.scopes,
        ScopeView { selection, cache: refreshed_cache(cache, selection, ready) },
    );
    lemma_without_ordered(base.scopes, selection.scope);
    let rest = without_scope(base.scopes, selection.scope);
    assert forall|k: int| 0 <= k < rest.len() implies keyed((#[trigger] rest[k]).cache) by {
        let j = choose|j: int| 0 <= j < base.scopes.len() && base.scopes[j] == rest[k];
        assert(keyed(base.scopes[j].cache));
    }
}

} // verus!
