use delog_app::map_residency::{
    coverage_aware_scope_order, map_tile_key, map_tile_matches, prioritize_active_scope,
    CachedTile, MapResidency, MapTileDrawGroups, ReadyTile,
};
use delog_app::map_tiles::{
    tiles_overlap_at_different_zooms, MapProviderId, MapScopeId, MapTileSelection, TileId,
    MAP_TILE_CAPACITY,
};

fn live_zoom(zoom: u8) -> Vec<(TileId, i32)> {
    (0..4)
        .flat_map(|y| (0..256).map(move |x| (TileId { zoom, x, y }, x as i32)))
        .collect()
}

fn live_zoom_ids(zoom: u8) -> Vec<TileId> {
    live_zoom(zoom).into_iter().map(|(id, _)| id).collect()
}

/// The residency with a card on which every upload succeeds.
struct Card {
    tiles: MapResidency,
    uploads: usize,
}

impl Card {
    fn new() -> Self {
        Card {
            tiles: MapResidency::new(),
            uploads: 0,
        }
    }

    fn prepare(&mut self, selection: &MapTileSelection, ready: &[ReadyTile]) -> MapTileDrawGroups {
        let keys = self.tiles.prepare_map_tiles(selection, &ready.to_vec());
        for key in keys {
            assert!(self.tiles.cached(key).is_some());
            self.tiles.mark_uploaded(key);
            self.uploads += 1;
        }
        self.tiles.visible_map_tiles(selection)
    }
}

fn is_empty(groups: &MapTileDrawGroups) -> bool {
    groups.current.is_empty() && groups.previous.is_empty()
}

#[test]
fn active_scope_is_first_only_when_scope_count_exceeds_capacity() {
    let mut saturated: Vec<_> = (0..=MAP_TILE_CAPACITY as u64).map(MapScopeId).collect();
    prioritize_active_scope(&mut saturated, Some(MapScopeId(128)));
    assert_eq!(saturated[0], MapScopeId(128));

    let mut normal = vec![MapScopeId(1), MapScopeId(2)];
    prioritize_active_scope(&mut normal, Some(MapScopeId(2)));
    assert_eq!(normal, vec![MapScopeId(1), MapScopeId(2)]);
}

#[test]
fn mixed_ready_batch_keeps_requested_current_and_previous_zoom_independent_of_order() {
    let selection = MapTileSelection {
        scope: MapScopeId(4),
        epoch: 3,
        provider: MapProviderId::BingSatellite,
        generation: 9,
        current_tiles: live_zoom(12),
        previous_tiles: live_zoom_ids(11),
        enabled: true,
    };
    let tile = |zoom| ReadyTile {
        scope: MapScopeId(4),
        epoch: 3,
        provider: MapProviderId::BingSatellite,
        id: TileId { zoom, x: 0, y: 0 },
        generation: 9,
        priority: 0,
        rgba: Vec::new(),
        corners: [[0; 3]; 4],
    };
    let mixed = [tile(11), tile(12)];
    assert!(mixed.iter().all(|tile| map_tile_matches(&selection, tile)));
    assert!(mixed
        .iter()
        .rev()
        .all(|tile| map_tile_matches(&selection, tile)));
    assert!(!map_tile_matches(&selection, &tile(10)));
}

#[test]
fn prepare_map_tiles_exposes_sorted_previous_then_current_draw_groups() {
    let mut card = Card::new();
    let selection = MapTileSelection {
        scope: MapScopeId(44),
        epoch: 2,
        provider: MapProviderId::BingSatellite,
        generation: 3,
        current_tiles: live_zoom(8),
        previous_tiles: live_zoom_ids(7),
        enabled: true,
    };
    let tile = |zoom, x| ReadyTile {
        scope: selection.scope,
        epoch: selection.epoch,
        provider: selection.provider,
        id: TileId { zoom, x, y: 3 },
        generation: selection.generation,
        priority: x as i32,
        rgba: [x as u8, zoom, 0, 255].repeat(16),
        corners: [[(x as f32).to_bits(), 0, 0]; 4],
    };
    let tiles = [tile(8, 5), tile(7, 2), tile(8, 1), tile(7, 6)];
    let mut expected_previous = vec![map_tile_key(&tiles[1]), map_tile_key(&tiles[3])];
    let mut expected_current = vec![map_tile_key(&tiles[0]), map_tile_key(&tiles[2])];
    expected_previous.sort_unstable();
    expected_current.sort_unstable();

    let first = card.prepare(&selection, &tiles);
    let reversed = card.prepare(
        &selection,
        &tiles.iter().rev().cloned().collect::<Vec<_>>(),
    );
    assert_eq!(first.previous, expected_previous);
    assert_eq!(first.current, expected_current);
    assert_eq!(reversed.previous, first.previous);
    assert_eq!(
        reversed.current, first.current,
        "ready insertion order cannot affect draws"
    );
    assert!(!card.tiles.selection_transition_complete(&selection));

    let mut other_pane = selection.clone();
    other_pane.scope = MapScopeId(45);
    assert!(!card.tiles.selection_transition_complete(&other_pane));

    let mut switched_generation = selection.clone();
    switched_generation.generation += 1;
    assert!(!card.tiles.selection_transition_complete(&switched_generation));
}

#[test]
fn cache_epoch_change_purges_cpu_and_gpu_tiles_on_empty_poll() {
    let mut card = Card::new();
    let selection = MapTileSelection {
        scope: MapScopeId(7),
        epoch: 0,
        provider: MapProviderId::BingSatellite,
        generation: 1,
        current_tiles: live_zoom(3),
        previous_tiles: Vec::new(),
        enabled: true,
    };
    let tile = ReadyTile {
        scope: selection.scope,
        epoch: 0,
        provider: MapProviderId::BingSatellite,
        id: TileId {
            zoom: 3,
            x: 1,
            y: 2,
        },
        generation: 1,
        priority: 0,
        rgba: [40, 80, 120, 255].repeat(16),
        corners: [[0; 3]; 4],
    };
    card.prepare(&selection, &[tile]);
    assert_eq!(card.tiles.scopes[0].cache.len(), 1);
    assert_eq!(card.tiles.resident_tile_count(), 1);

    card.prepare(
        &MapTileSelection {
            epoch: 1,
            ..selection
        },
        &[],
    );
    assert_eq!(card.tiles.scopes[0].cache.len(), 0);
    assert_eq!(card.tiles.resident_tile_count(), 0);
}

#[test]
fn map_tile_prepare_only_uploads_and_allocates_changed_residency() {
    let mut card = Card::new();
    let selection = MapTileSelection {
        scope: MapScopeId(8),
        epoch: 2,
        provider: MapProviderId::BingSatellite,
        generation: 5,
        current_tiles: live_zoom(4),
        previous_tiles: Vec::new(),
        enabled: true,
    };
    let tile = |zoom, x, color: [u8; 4]| ReadyTile {
        scope: selection.scope,
        epoch: selection.epoch,
        provider: MapProviderId::BingSatellite,
        id: TileId { zoom, x, y: 1 },
        generation: selection.generation,
        priority: x as i32,
        rgba: color.repeat(16),
        corners: [[(x as f32).to_bits(), 0, 0]; 4],
    };
    card.prepare(&selection, &[tile(4, 1, [1, 2, 3, 255])]);
    assert_eq!(card.uploads, 1);

    card.prepare(&selection, &[]);
    assert_eq!(card.uploads, 1, "static frame uploads zero");

    let zoomed = MapTileSelection {
        current_tiles: live_zoom(5),
        previous_tiles: live_zoom_ids(4),
        ..selection.clone()
    };
    card.prepare(&zoomed, &[tile(5, 2, [4, 5, 6, 255])]);
    assert_eq!(card.tiles.resident_tile_count(), 2);
    assert_eq!(card.uploads, 2, "only the new zoom uploads");

    card.prepare(&zoomed, &[tile(5, 2, [7, 8, 9, 255])]);
    assert_eq!(card.uploads, 3, "changed content uploads");
}

#[test]
fn alternating_map_scopes_keep_union_resident_without_cross_pane_draws() {
    let mut card = Card::new();
    let selection = |scope| MapTileSelection {
        scope: MapScopeId(scope),
        epoch: 4,
        provider: MapProviderId::BingSatellite,
        generation: 1,
        current_tiles: live_zoom(6),
        previous_tiles: Vec::new(),
        enabled: true,
    };
    let tile = |scope, x, color: [u8; 4]| ReadyTile {
        scope: MapScopeId(scope),
        epoch: 4,
        provider: MapProviderId::BingSatellite,
        id: TileId { zoom: 6, x, y: 2 },
        generation: 1,
        priority: x as i32,
        rgba: color.repeat(16),
        corners: [[(x as f32).to_bits(), 0, 0]; 4],
    };
    let tile_a = tile(10, 1, [10, 20, 30, 255]);
    let tile_b = tile(20, 2, [40, 50, 60, 255]);
    let key_a = map_tile_key(&tile_a);
    let key_b = map_tile_key(&tile_b);

    let draw_a = card.prepare(&selection(10), &[tile_a]);
    assert_eq!(draw_a.current, vec![key_a], "pane A draws only A");
    assert!(draw_a.previous.is_empty());
    let draw_b = card.prepare(&selection(20), &[tile_b]);
    assert_eq!(draw_b.current, vec![key_b], "pane B draws only B");
    assert!(draw_b.previous.is_empty());
    let draw_a_again = card.prepare(&selection(10), &[]);
    assert_eq!(
        draw_a_again.current,
        vec![key_a],
        "pane A still draws only A"
    );
    assert!(draw_a_again.previous.is_empty());
    assert_eq!(card.tiles.resident_tile_count(), 2);
    assert_eq!(card.uploads, 2, "each scope uploads once");

    let draw_disabled_b = card.prepare(
        &MapTileSelection {
            current_tiles: Vec::new(),
            previous_tiles: Vec::new(),
            enabled: false,
            ..selection(20)
        },
        &[],
    );
    assert!(is_empty(&draw_disabled_b));
    assert!(card
        .tiles
        .scopes
        .iter()
        .all(|scope| scope.selection.scope != MapScopeId(20)));
    assert_eq!(card.tiles.resident_tile_count(), 1);
    assert!(card.tiles.contains(key_a), "disabling B retains A");

    let draw_a_after_b_disabled = card.prepare(&selection(10), &[]);
    assert_eq!(draw_a_after_b_disabled.current, vec![key_a]);
    assert!(draw_a_after_b_disabled.previous.is_empty());
    assert_eq!(card.uploads, 2, "A is not reuploaded");

    let draw_after_epoch = card.prepare(
        &MapTileSelection {
            epoch: 5,
            ..selection(10)
        },
        &[],
    );
    assert!(is_empty(&draw_after_epoch));
    assert!(card.tiles.scopes.iter().all(|scope| scope.cache.is_empty()));
    assert_eq!(card.tiles.resident_tile_count(), 0);
}

#[test]
fn xyz_overlap_handles_zoom_in_out_and_jumps() {
    let id = |zoom, x, y| TileId { zoom, x, y };
    assert!(tiles_overlap_at_different_zooms(
        id(8, 3, 5),
        id(10, 13, 21)
    ));
    assert!(tiles_overlap_at_different_zooms(
        id(10, 13, 21),
        id(8, 3, 5)
    ));
    assert!(!tiles_overlap_at_different_zooms(
        id(8, 3, 5),
        id(10, 16, 21)
    ));
}

fn transition_selection(current: Vec<(TileId, i32)>, previous: Vec<TileId>) -> MapTileSelection {
    MapTileSelection {
        scope: MapScopeId(31),
        epoch: 1,
        provider: MapProviderId::BingSatellite,
        generation: 1,
        current_tiles: current,
        previous_tiles: previous,
        enabled: true,
    }
}

fn transition_tile(selection: &MapTileSelection, id: TileId, priority: i32) -> ReadyTile {
    ReadyTile {
        scope: selection.scope,
        epoch: selection.epoch,
        provider: selection.provider,
        id,
        generation: selection.generation,
        priority,
        rgba: [id.x as u8, id.zoom, id.y as u8, 255].repeat(16),
        corners: [[(id.x as f32).to_bits(), (id.y as f32).to_bits(), 0]; 4],
    }
}

fn children() -> [TileId; 4] {
    [
        TileId {
            zoom: 8,
            x: 6,
            y: 10,
        },
        TileId {
            zoom: 8,
            x: 7,
            y: 10,
        },
        TileId {
            zoom: 8,
            x: 6,
            y: 11,
        },
        TileId {
            zoom: 8,
            x: 7,
            y: 11,
        },
    ]
}

fn with_priorities(ids: &[TileId]) -> Vec<(TileId, i32)> {
    ids.iter()
        .enumerate()
        .map(|(p, id)| (*id, p as i32))
        .collect()
}

fn parents(count: u32) -> Vec<TileId> {
    (0..count).map(|x| TileId { zoom: 7, x, y: 5 }).collect()
}

#[test]
fn partial_children_keep_saturated_fallback_coverage() {
    let mut card = Card::new();
    let parent_ids = parents(128);
    let child_ids = children();
    let selection = transition_selection(with_priorities(&child_ids), parent_ids.clone());
    let previous: Vec<_> = parent_ids
        .iter()
        .copied()
        .map(|id| transition_tile(&selection, id, id.x as i32))
        .collect();
    let first = card.prepare(&selection, &previous);
    assert_eq!(first.previous.len(), 128);

    let child = transition_tile(&selection, child_ids[0], 0);
    let child_key = map_tile_key(&child);
    let draw = card.prepare(&selection, &[child]);
    assert!(!draw.current.contains(&child_key));
    assert!(!card.tiles.contains(child_key));
    assert_eq!(draw.previous.len(), 128);
    assert_eq!(card.tiles.resident_tile_count(), 128);
}

#[test]
fn partial_child_uses_spare_slot_over_retained_parent() {
    let mut card = Card::new();
    let parent_ids = parents(127);
    let child_ids = children();
    let selection = transition_selection(with_priorities(&child_ids), parent_ids.clone());
    let previous: Vec<_> = parent_ids
        .iter()
        .copied()
        .map(|id| transition_tile(&selection, id, id.x as i32))
        .collect();
    card.prepare(&selection, &previous);
    let child = transition_tile(&selection, child_ids[0], 0);
    let draw = card.prepare(&selection, &[child.clone()]);
    assert_eq!(draw.previous.len(), 127);
    assert!(draw.current.contains(&map_tile_key(&child)));
    assert!(card.tiles.contains(map_tile_key(&transition_tile(
        &selection,
        parent_ids[3],
        3
    ))));
}

#[test]
fn complete_children_replace_parent_atomically_when_quota_fits() {
    let mut card = Card::new();
    let parent_ids = parents(125);
    let children = children();
    let selection = transition_selection(with_priorities(&children), parent_ids.clone());
    let previous: Vec<_> = parent_ids
        .iter()
        .copied()
        .map(|id| transition_tile(&selection, id, id.x as i32))
        .collect();
    let ready_children: Vec<_> = children
        .iter()
        .enumerate()
        .map(|(priority, id)| transition_tile(&selection, *id, priority as i32))
        .collect();
    card.prepare(&selection, &previous);
    let draw = card.prepare(&selection, &ready_children);
    assert_eq!(draw.previous.len(), 124);
    assert_eq!(draw.current.len(), 4);
    assert!(!card.tiles.contains(map_tile_key(&transition_tile(
        &selection,
        parent_ids[3],
        3
    ))));
    let reversed = card.prepare(
        &selection,
        &ready_children.iter().rev().cloned().collect::<Vec<_>>(),
    );
    assert_eq!(reversed.previous, draw.previous);
    assert_eq!(
        reversed.current, draw.current,
        "ready arrival order cannot affect atomic replacement"
    );
}

#[test]
fn a_current_tile_that_is_also_a_fallback_keeps_its_slot() {
    let parent = TileId {
        zoom: 7,
        x: 3,
        y: 5,
    };
    assert!(tiles_overlap_at_different_zooms(parent, parent));
    let mut card = Card::new();
    let child = children()[0];
    let selection = transition_selection(vec![(parent, 0)], vec![parent, child]);
    card.prepare(&selection, &[transition_tile(&selection, child, 0)]);
    let current = transition_tile(&selection, parent, 0);
    let draw = card.prepare(&selection, &[current.clone()]);
    assert!(draw.current.contains(&map_tile_key(&current)));
    assert!(card.tiles.contains(map_tile_key(&current)));
}

#[test]
fn zoom_out_parent_replaces_fallback_children_atomically() {
    let mut card = Card::new();
    let parent = TileId {
        zoom: 7,
        x: 3,
        y: 5,
    };
    let children = children().to_vec();
    let selection = transition_selection(vec![(parent, 0)], children.clone());
    let fallback: Vec<_> = children
        .iter()
        .copied()
        .map(|id| transition_tile(&selection, id, 0))
        .collect();
    card.prepare(&selection, &fallback);
    let current = transition_tile(&selection, parent, 0);
    let draw = card.prepare(&selection, &[current.clone()]);
    assert_eq!(draw.current, vec![map_tile_key(&current)]);
    assert!(draw.previous.is_empty());
    assert!(card.tiles.selection_transition_complete(&selection));
    assert!(card.tiles.map_selection_has_current_imagery(true, &selection));
    assert!(!card.tiles.map_selection_has_current_imagery(false, &selection));

    let mut settled = selection.clone();
    settled.previous_tiles.clear();
    assert!(!card.tiles.selection_transition_complete(&settled));
    assert!(card.tiles.map_selection_has_current_imagery(true, &settled));
    settled.scope = MapScopeId(u64::MAX);
    assert!(!card.tiles.map_selection_has_current_imagery(true, &settled));
    settled.scope = selection.scope;
    settled.current_tiles.clear();
    assert!(!card.tiles.map_selection_has_current_imagery(true, &settled));
}

#[test]
fn the_order_of_one_scope_respects_its_quota() {
    let child_ids = children();
    let selection = transition_selection(with_priorities(&child_ids), parents(3));
    let cache: Vec<CachedTile> = child_ids
        .iter()
        .map(|id| transition_tile(&selection, *id, 0))
        .map(|tile| CachedTile {
            key: map_tile_key(&tile),
            tile,
        })
        .collect();
    let order = coverage_aware_scope_order(&selection, &cache, 3);
    assert_eq!(
        order,
        cache[..3].iter().map(|c| c.key).collect::<Vec<_>>(),
        "single tiles by priority where the group does not fit"
    );
    assert_eq!(coverage_aware_scope_order(&selection, &cache, 4).len(), 4);
    assert!(coverage_aware_scope_order(&selection, &cache, 0).is_empty());
}
