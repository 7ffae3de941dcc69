use delog_app::map_residency::{map_tile_key, MapResidency, MapTileDrawGroups, ReadyTile};
use delog_app::map_tiles::{MapProviderId, MapScopeId, MapTileSelection, TileId};

fn live_zoom(zoom: u8) -> Vec<(TileId, i32)> {
    (0..4)
        .flat_map(|y| (0..256).map(move |x| (TileId { zoom, x, y }, x as i32)))
        .collect()
}

/// The residency with a card on which every upload succeeds.
struct Card {
    tiles: MapResidency,
    uploads: usize,
}

impl Card {
    fn new() -> Self {
        Card {
            tiles: MapResidency::new(),
            uploads: 0,
        }
    }

    fn prepare(&mut self, selection: &MapTileSelection, ready: &[ReadyTile]) -> MapTileDrawGroups {
        let keys = self.tiles.prepare_map_tiles(selection, &ready.to_vec());
        for key in keys {
            self.tiles.mark_uploaded(key);
            self.uploads += 1;
        }
        self.tiles.visible_map_tiles(selection)
    }

    fn cached_in(&self, scope: MapScopeId) -> Option<usize> {
        self.tiles
            .scopes
            .iter()
            .find(|entry| entry.selection.scope == scope)
            .map(|entry| entry.cache.len())
    }

    fn resident_in(&self, scope: MapScopeId) -> usize {
        self.tiles
            .scopes
            .iter()
            .filter(|entry| entry.selection.scope == scope)
            .flat_map(|entry| entry.cache.iter())
            .filter(|tile| self.tiles.contains(tile.key))
            .count()
    }
}

fn selection(scope: u64, current_tiles: Vec<(TileId, i32)>) -> MapTileSelection {
    MapTileSelection {
        scope: MapScopeId(scope),
        epoch: 1,
        provider: MapProviderId::BingSatellite,
        generation: 1,
        current_tiles,
        previous_tiles: Vec::new(),
        enabled: true,
    }
}

fn tile(scope: u64, x: u32, y: u32, priority: i32, pixel: [u8; 4]) -> ReadyTile {
    ReadyTile {
        scope: MapScopeId(scope),
        epoch: 1,
        provider: MapProviderId::BingSatellite,
        id: TileId { zoom: 8, x, y },
        generation: 1,
        priority,
        rgba: pixel.repeat(256 * 256),
        corners: [[(x as f32).to_bits(), 0, 0]; 4],
    }
}

#[test]
fn saturated_scope_draws_only_deterministic_first_128_candidates() {
    let mut card = Card::new();
    let selection = selection(32, live_zoom(8));
    let make = |x: u32| tile(32, x, 0, x as i32, [x as u8, 8, 0, 255]);
    let tiles: Vec<_> = (0..140).rev().map(make).collect();
    let expected: std::collections::HashSet<_> = (0..128).map(|x| map_tile_key(&make(x))).collect();
    let draw = card.prepare(&selection, &tiles);
    assert_eq!(draw.current.len(), 128);
    assert_eq!(
        draw.current
            .iter()
            .copied()
            .collect::<std::collections::HashSet<_>>(),
        expected
    );
    assert!(draw.current.iter().all(|key| card.tiles.contains(*key)));
    assert_eq!(card.cached_in(selection.scope), Some(140), "CPU cache retains overflow");
}

#[test]
fn saturated_same_zoom_pan_replaces_disjoint_old_tiles_and_bounds_cpu_cache() {
    let mut card = Card::new();
    let mut selection = selection(33, live_zoom(8));
    let make = |x: u32| tile(33, x, 0, (x % 128) as i32, [x as u8, 8, 0, 255]);
    let old: Vec<_> = (0..128).map(make).collect();
    let new: Vec<_> = (128..256).map(make).collect();
    let expected: std::collections::HashSet<_> = new.iter().map(map_tile_key).collect();
    selection.current_tiles = old.iter().map(|tile| (tile.id, tile.priority)).collect();
    card.prepare(&selection, &old);
    selection.current_tiles = new.iter().map(|tile| (tile.id, tile.priority)).collect();
    let draw = card.prepare(&selection, &new);

    assert_eq!(
        draw.current
            .iter()
            .copied()
            .collect::<std::collections::HashSet<_>>(),
        expected
    );
    assert_eq!(card.cached_in(selection.scope), Some(128));
    assert_eq!(card.tiles.resident_tile_count(), 128);
}

#[test]
fn same_zoom_one_tile_pan_retains_old_nonoverlap_with_exact_current_group() {
    let mut card = Card::new();
    let id = |x| TileId { zoom: 8, x, y: 2 };
    let mut selection = selection(34, vec![(id(1), 0), (id(2), 1)]);
    let make = |x: u32, priority| tile(34, x, 2, priority, [x as u8, 8, 0, 255]);
    let old = vec![make(1, 0), make(2, 1)];
    let old_key = map_tile_key(&old[0]);
    card.prepare(&selection, &old);

    selection.current_tiles = vec![(id(2), 0), (id(3), 1)];
    selection.previous_tiles = vec![id(1)];
    let new = make(3, 1);
    let expected_current = [map_tile_key(&old[1]), map_tile_key(&new)]
        .into_iter()
        .collect::<std::collections::HashSet<_>>();
    let draw = card.prepare(&selection, &[new]);

    assert_eq!(draw.previous, vec![old_key]);
    assert_eq!(
        draw.current
            .into_iter()
            .collect::<std::collections::HashSet<_>>(),
        expected_current
    );
    assert!(card.tiles.contains(old_key));
}

#[test]
fn three_saturated_scopes_have_stable_sorted_quotas_and_uploads() {
    let mut card = Card::new();
    let wanted = |scope| {
        selection(
            scope,
            (0..128)
                .map(|x| (TileId { zoom: 8, x, y: 0 }, x as i32))
                .collect(),
        )
    };
    let tiles = |scope: u64| {
        (0..128)
            .map(|x| tile(scope, x, 0, x as i32, [scope as u8, x as u8, 0, 255]))
            .collect::<Vec<_>>()
    };
    for scope in [30, 10, 20] {
        card.prepare(&wanted(scope), &tiles(scope));
    }
    let warm = card.uploads;
    for _ in 0..3 {
        for scope in [30, 10, 20] {
            card.prepare(&wanted(scope), &[]);
        }
    }
    let resident = |scope| card.resident_in(MapScopeId(scope));
    assert_eq!((resident(10), resident(20), resident(30)), (43, 43, 42));
    assert_eq!(card.uploads, warm);
}

#[test]
fn saturated_other_scope_cannot_starve_active_scope() {
    let mut card = Card::new();
    let wanted = |scope| selection(scope, live_zoom(8));
    let make = |scope: u64, x: u32| tile(scope, x, 0, x as i32, [scope as u8, x as u8, 0, 255]);
    let a: Vec<_> = (0..128).map(|x| make(41, x)).collect();
    let b = make(42, 0);
    let b_key = map_tile_key(&b);
    card.prepare(&wanted(41), &a);
    let draw_b = card.prepare(&wanted(42), &[b]);
    assert_eq!(draw_b.current, vec![b_key]);
    assert!(card.tiles.contains(b_key));
    assert!(draw_b.current.iter().all(|key| card.tiles.contains(*key)));
    let draw_a = card.prepare(&wanted(41), &[]);
    assert_eq!(draw_a.current.len(), 64);
    assert!(
        card.tiles.contains(b_key),
        "alternating panes stabilizes without evicting B"
    );
    let draw_b_again = card.prepare(&wanted(42), &[]);
    assert_eq!(draw_b_again.current, vec![b_key]);
    assert_eq!(card.tiles.resident_tile_count(), 65);
}

#[test]
fn retaining_live_map_scopes_reclaims_closed_scope_quota_and_cache() {
    let mut card = Card::new();
    let wanted = |scope| selection(scope, live_zoom(8));
    let make = |scope: u64, x: u32| tile(scope, x, 0, x as i32, [scope as u8, x as u8, 0, 255]);
    let a: Vec<_> = (0..128).map(|x| make(51, x)).collect();
    let b: Vec<_> = (0..128).map(|x| make(52, x)).collect();
    card.prepare(&wanted(51), &a);
    card.prepare(&wanted(52), &b);

    for key in card.tiles.retain_map_scopes(&vec![MapScopeId(52)]) {
        card.tiles.mark_uploaded(key);
    }

    assert_eq!(card.cached_in(MapScopeId(51)), None);
    assert_eq!(card.tiles.resident_tile_count(), 128);
    let draw_b = card.prepare(&wanted(52), &[]);
    assert_eq!(draw_b.current.len(), 128, "B gets the closed pane's quota");

    card.tiles.retain_map_scopes(&vec![]);
    assert!(card.tiles.scopes.is_empty());
    assert!(card.tiles.signatures.is_empty());
    assert_eq!(card.tiles.resident_tile_count(), 0);

    for scope in 60..64 {
        let tiles: Vec<_> = (0..128).map(|x| make(scope, x)).collect();
        card.prepare(&wanted(scope), &tiles);
        card.tiles.retain_map_scopes(&vec![]);
        assert!(card.tiles.scopes.is_empty());
        assert!(card.tiles.signatures.is_empty());
        assert_eq!(card.tiles.resident_tile_count(), 0);
    }

    let disabled_scope = MapScopeId(70);
    card.prepare(
        &MapTileSelection {
            current_tiles: Vec::new(),
            previous_tiles: Vec::new(),
            enabled: false,
            ..wanted(disabled_scope.0)
        },
        &[],
    );
    card.tiles.retain_map_scopes(&vec![disabled_scope]);
    assert!(card.tiles.scopes.is_empty());
    assert_eq!(card.tiles.resident_tile_count(), 0);
}
