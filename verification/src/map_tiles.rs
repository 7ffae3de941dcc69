//! Which map tiles of a 3D pane are kept for drawing.

use crate::order::{as_ints, order_of, ranks_of, sorted_by, stable_order, RankKey};
use vstd::prelude::*;

verus! {

/// Number of map tiles that can be resident at once, over all panes.
pub const MAP_TILE_CAPACITY: usize = 128;

/// A 3D pane that shows map tiles.
#[derive(Clone, Copy, Debug, PartialEq, Eq, PartialOrd, Ord, Hash, Structural)]
pub struct MapScopeId(pub u64);

/// Where a tile comes from.
#[derive(Clone, Copy, Debug, PartialEq, Eq, Hash, Structural)]
pub enum MapProviderId {
    BingSatellite,
    Custom(u32),
}

/// A tile of the XYZ grid.
#[derive(Clone, Copy, Debug, PartialEq, Eq, Hash, Structural)]
pub struct TileId {
    pub zoom: u8,
    pub x: u32,
    pub y: u32,
}

/// What a pane wants to draw.
#[derive(Clone, Debug)]
pub struct MapTileSelection {
    pub scope: MapScopeId,
    pub epoch: u64,
    pub provider: MapProviderId,
    pub generation: u64,
    /// Exactly the tiles visible in the current camera footprint, with their priority.
    pub current_tiles: Vec<(TileId, i32)>,
    /// Exact previous-zoom footprint intentionally retained as a visual fallback.
    pub previous_tiles: Vec<TileId>,
    pub enabled: bool,
}

pub ghost struct Selection {
    pub scope: MapScopeId,
    pub epoch: u64,
    pub provider: MapProviderId,
    pub generation: u64,
    pub current: Seq<(TileId, i32)>,
    pub previous: Seq<TileId>,
    pub enabled: bool,
}

impl View for MapTileSelection {
    type V = Selection;

    open spec fn view(&self) -> Selection {
        Selection {
            scope: self.scope,
            epoch: self.epoch,
            provider: self.provider,
            generation: self.generation,
            current: self.current_tiles@,
            previous: self.previous_tiles@,
            enabled: self.enabled,
        }
    }
}

/// The ids of a list of tiles with priorities.
pub open spec fn ids_of(tiles: Seq<(TileId, i32)>) -> Seq<TileId> {
    Seq::new(tiles.len(), |i: int| tiles[i].0)
}

/// `2^n`.
pub open spec fn pow2(n: nat) -> nat
    decreases n,
{
    if n == 0 {
        1
    } else {
        2 * pow2((n - 1) as nat)
    }
}

/// Whether `fine`, whose zoom is not smaller, lies inside `coarse`.
pub open spec fn tile_inside(fine: TileId, coarse: TileId) -> bool {
    let delta = (fine.zoom - coarse.zoom) as nat;
    delta < 32 && fine.x as nat / pow2(delta) == coarse.x && fine.y as nat / pow2(delta)
        == coarse.y
}

/// Whether one of two tiles covers the other.
pub open spec fn tiles_overlap(a: TileId, b: TileId) -> bool {
    if a.zoom <= b.zoom {
        tile_inside(b, a)
    } else {
        tile_inside(a, b)
    }
}

/// A tile overlaps itself.
pub proof fn a_tile_overlaps_itself(id: TileId)
    ensures
        tiles_overlap(id, id),
{
    assert(pow2(0) == 1);
}

/// Overlap does not depend on the order of the two tiles.
pub proof fn tile_overlap_is_symmetric(a: TileId, b: TileId)
    ensures
        tiles_overlap(a, b) == tiles_overlap(b, a),
{
    if a.zoom == b.zoom {
        assert(pow2(0) == 1);
        assert(a.x as nat / 1 == a.x && a.y as nat / 1 == a.y && b.x as nat / 1 == b.x && b.y as nat
            / 1 == b.y);
    }
}

/// `v` divided by two, `delta` times.
fn halved(v: u32, delta: u8) -> (r: u32)
    ensures
        r == v as nat / pow2(delta as nat),
    decreases delta,
{
    if delta == 0 {
        proof {
            assert(pow2(0) == 1);
        }
        v
    } else {
        let h = halved(v, delta - 1);
        proof {
            let p = pow2((delta - 1) as nat);
            lemma_pow2_positive((delta - 1) as nat);
            vstd::arithmetic::div_mod::lemma_div_denominator(v as int, p as int, 2);
            assert(p * 2 == pow2(delta as nat));
        }
        h / 2
    }
}

proof fn lemma_pow2_positive(n: nat)
    ensures
        pow2(n) > 0,
    decreases n,
{
    if n > 0 {
        lemma_pow2_positive((n - 1) as nat);
    }
}

/// Whether one of two tiles covers the other.
pub fn tiles_overlap_at_different_zooms(a: TileId, b: TileId) -> (r: bool)
    ensures
        r == tiles_overlap(a, b),
{
    let (coarse, fine) = if a.zoom <= b.zoom {
        (a, b)
    } else {
        (b, a)
    };
    let delta: u8 = fine.zoom - coarse.zoom;
    delta < 32 && halved(fine.x, delta) == coarse.x && halved(fine.y, delta) == coarse.y
}

fn has_key(keys: &Vec<u64>, key: u64) -> (r: bool)
    ensures
        r == keys@.contains(key),
{
    let mut i: usize = 0;
    while i < keys.len()
        invariant
            i <= keys@.len(),
            forall|j: int| 0 <= j < i ==> keys@[j] != key,
        decreases keys@.len() - i,
    {
        if keys[i] == key {
            return true;
        }
        i = i + 1;
    }
    false
}

fn has_tile(tiles: &Vec<TileId>, id: TileId) -> (r: bool)
    ensures
        r == tiles@.contains(id),
{
    let mut i: usize = 0;
    while i < tiles.len()
        invariant
            i <= tiles@.len(),
            forall|j: int| 0 <= j < i ==> tiles@[j] != id,
        decreases tiles@.len() - i,
    {
        if tiles[i] == id {
            return true;
        }
        i = i + 1;
    }
    false
}

/// The key under which the tile `id` is ready, if it is.
pub open spec fn lookup(ready: Seq<(TileId, u64)>, id: TileId) -> Option<u64>
    decreases ready.len(),
{
    if ready.len() == 0 {
        None
    } else if ready.last().0 == id {
        Some(ready.last().1)
    } else {
        lookup(ready.drop_last(), id)
    }
}

fn find_key(ready: &Vec<(TileId, u64)>, id: TileId) -> (r: Option<u64>)
    ensures
        r == lookup(ready@, id),
{
    let mut n: usize = ready.len();
    proof {
        assert(ready@.take(n as int) =~= ready@);
    }
    while n > 0
        invariant
            n <= ready@.len(),
            lookup(ready@, id) == lookup(ready@.take(n as int), id),
        decreases n,
    {
        proof {
            assert(ready@.take(n as int).drop_last() =~= ready@.take(n - 1));
            assert(ready@.take(n as int).last() == ready@[n - 1]);
        }
        if ready[n - 1].0 == id {
            return Some(ready[n - 1].1);
        }
        n = n - 1;
    }
    None
}

/// Admits one tile: its key joins the order where it is ready, there is room,
/// and it is neither there already nor blocked.
pub open spec fn admit_one(
    order: Seq<u64>,
    id: TileId,
    ready: Seq<(TileId, u64)>,
    blocked: Seq<u64>,
    quota: nat,
) -> Seq<u64> {
    match lookup(ready, id) {
        Some(key) => if order.len() < quota && !order.contains(key) && !blocked.contains(key) {
            order.push(key)
        } else {
            order
        },
        None => order,
    }
}

/// Admits the tiles `ids` one after the other.
pub open spec fn admit_all(
    order: Seq<u64>,
    ids: Seq<TileId>,
    ready: Seq<(TileId, u64)>,
    blocked: Seq<u64>,
    quota: nat,
) -> Seq<u64>
    decreases ids.len(),
{
    if ids.len() == 0 {
        order
    } else {
        admit_one(
            admit_all(order, ids.drop_last(), ready, blocked, quota),
            ids.last(),
            ready,
            blocked,
            quota,
        )
    }
}

fn admit_tiles(
    order: &mut Vec<u64>,
    ids: &Vec<TileId>,
    ready: &Vec<(TileId, u64)>,
    blocked: &Vec<u64>,
    quota: usize,
)
    ensures
        final(order)@ == admit_all(old(order)@, ids@, ready@, blocked@, quota as nat),
{
    let mut i: usize = 0;
    proof {
        assert(ids@.take(0) =~= Seq::<TileId>::empty());
    }
    while i < ids.len()
        invariant
            i <= ids@.len(),
            order@ == admit_all(old(order)@, ids@.take(i as int), ready@, blocked@, quota as nat),
        decreases ids@.len() - i,
    {
        proof {
            assert(ids@.take(i + 1).drop_last() =~= ids@.take(i as int));
            assert(ids@.take(i + 1).last() == ids@[i as int]);
        }
        if let Some(key) = find_key(ready, ids[i]) {
            if order.len() < quota && !has_key(order, key) && !has_key(blocked, key) {
                order.push(key);
            }
        }
        i = i + 1;
    }
    proof {
        assert(ids@.take(i as int) =~= ids@);
    }
}

/// Current tiles that share fallback tiles, and the fallback tiles they share.
pub struct Group {
    pub current: Vec<(TileId, i32)>,
    pub previous: Vec<TileId>,
}

#[verifier::ext_equal]
pub ghost struct GroupView {
    pub current: Seq<(TileId, i32)>,
    pub previous: Seq<TileId>,
}

impl View for Group {
    type V = GroupView;

    open spec fn view(&self) -> GroupView {
        GroupView { current: self.current@, previous: self.previous@ }
    }
}

pub open spec fn group_views(groups: Seq<Group>) -> Seq<GroupView> {
    Seq::new(groups.len(), |i: int| groups[i]@)
}

/// The tiles of `previous` that overlap `id`.
pub open spec fn overlaps(id: TileId, previous: Seq<TileId>) -> Seq<TileId>
    decreases previous.len(),
{
    if previous.len() == 0 {
        Seq::empty()
    } else {
        let rest = overlaps(id, previous.drop_last());
        if tiles_overlap(id, previous.last()) {
            rest.push(previous.last())
        } else {
            rest
        }
    }
}

fn overlapping(id: TileId, previous: &Vec<TileId>) -> (r: Vec<TileId>)
    ensures
        r@ == overlaps(id, previous@),
{
    let mut out: Vec<TileId> = Vec::new();
    let mut i: usize = 0;
    proof {
        assert(previous@.take(0) =~= Seq::<TileId>::empty());
    }
    while i < previous.len()
        invariant
            i <= previous@.len(),
            out@ == overlaps(id, previous@.take(i as int)),
        decreases previous@.len() - i,
    {
        proof {
            assert(previous@.take(i + 1).drop_last() =~= previous@.take(i as int));
            assert(previous@.take(i + 1).last() == previous@[i as int]);
        }
        if tiles_overlap_at_different_zooms(id, previous[i]) {
            out.push(previous[i]);
        }
        i = i + 1;
    }
    proof {
        assert(previous@.take(i as int) =~= previous@);
    }
    out
}

/// Whether two tile lists share a tile.
pub open spec fn shares_tile(a: Seq<TileId>, b: Seq<TileId>) -> bool {
    exists|i: int| 0 <= i < a.len() && b.contains(#[trigger] a[i])
}

fn shares(a: &Vec<TileId>, b: &Vec<TileId>) -> (r: bool)
    ensures
        r == shares_tile(a@, b@),
{
    let mut i: usize = 0;
    while i < a.len()
        invariant
            i <= a@.len(),
            forall|j: int| 0 <= j < i ==> !b@.contains(#[trigger] a@[j]),
        decreases a@.len() - i,
    {
        if has_tile(b, a[i]) {
            return true;
        }
        i = i + 1;
    }
    false
}

/// `tiles` with the tiles of `more` that it lacks behind it.
pub open spec fn with_missing(tiles: Seq<TileId>, more: Seq<TileId>) -> Seq<TileId>
    decreases more.len(),
{
    if more.len() == 0 {
        tiles
    } else {
        let rest = with_missing(tiles, more.drop_last());
        if rest.contains(more.last()) {
            rest
        } else {
            rest.push(more.last())
        }
    }
}

fn push_missing(tiles: &mut Vec<TileId>, more: &Vec<TileId>)
    ensures
        final(tiles)@ == with_missing(old(tiles)@, more@),
{
    let mut i: usize = 0;
    proof {
        assert(more@.take(0) =~= Seq::<TileId>::empty());
    }
    while i < more.len()
        invariant
            i <= more@.len(),
            tiles@ == with_missing(old(tiles)@, more@.take(i as int)),
        decreases more@.len() - i,
    {
        proof {
            assert(more@.take(i + 1).drop_last() =~= more@.take(i as int));
            assert(more@.take(i + 1).last() == more@[i as int]);
        }
        if !has_tile(tiles, more[i]) {
            tiles.push(more[i]);
        }
        i = i + 1;
    }
    proof {
        assert(more@.take(i as int) =~= more@);
    }
}

/// The first group that shares a fallback tile with `found`.
pub open spec fn first_touching(groups: Seq<GroupView>, found: Seq<TileId>, i: int) -> Option<int>
    decreases groups.len() - i,
{
    if i < 0 || i >= groups.len() {
        None
    } else if shares_tile(groups[i].previous, found) {
        Some(i)
    } else {
        first_touching(groups, found, i + 1)
    }
}

/// Moves the groups behind `first`, from index `i` down, that share a fallback
/// tile with `found` into `target`.
pub open spec fn absorb(
    groups: Seq<GroupView>,
    target: GroupView,
    found: Seq<TileId>,
    first: int,
    i: int,
) -> (Seq<GroupView>, GroupView)
    decreases i,
{
    if i <= first || i <= 0 {
        (groups, target)
    } else if i < groups.len() && shares_tile(groups[i].previous, found) {
        absorb(
            groups.remove(i),
            GroupView {
                current: target.current + groups[i].current,
                previous: with_missing(target.previous, groups[i].previous),
            },
            found,
            first,
            i - 1,
        )
    } else {
        absorb(groups, target, found, first, i - 1)
    }
}

/// The groups once one more current tile has been placed: it joins the groups
/// that share one of its fallback tiles, which become one group, or starts a
/// group of its own.
pub open spec fn group_with(
    groups: Seq<GroupView>,
    tile: (TileId, i32),
    previous: Seq<TileId>,
) -> Seq<GroupView> {
    let found = overlaps(tile.0, previous);
    match first_touching(groups, found, 0) {
        None => groups.push(GroupView { current: seq![tile], previous: found }),
        Some(first) => {
            let target = GroupView {
                current: groups[first].current.push(tile),
                previous: with_missing(groups[first].previous, found),
            };
            let (rest, merged) = absorb(groups, target, found, first, groups.len() - 1);
            rest.update(first, merged)
        },
    }
}

/// The groups of the current tiles `current` over the fallback tiles `previous`.
pub open spec fn groups_of(
    current: Seq<(TileId, i32)>,
    previous: Seq<TileId>,
) -> Seq<GroupView>
    decreases current.len(),
{
    if current.len() == 0 {
        Seq::empty()
    } else {
        group_with(groups_of(current.drop_last(), previous), current.last(), previous)
    }
}

proof fn lemma_first_touching(groups: Seq<GroupView>, found: Seq<TileId>, i: int)
    requires
        0 <= i,
    ensures
        first_touching(groups, found, i) matches Some(f) ==> i <= f < groups.len() && shares_tile(
            groups[f].previous,
            found,
        ) && forall|k: int| i <= k < f ==> !shares_tile(#[trigger] groups[k].previous, found),
        first_touching(groups, found, i) is None ==> forall|k: int|
            i <= k < groups.len() ==> !shares_tile(#[trigger] groups[k].previous, found),
    decreases groups.len() - i,
{
    if i < groups.len() && !shares_tile(groups[i].previous, found) {
        lemma_first_touching(groups, found, i + 1);
    }
}

fn join_groups(groups: &mut Vec<Group>, tile: (TileId, i32), previous: &Vec<TileId>)
    ensures
        group_views(final(groups)@) == group_with(group_views(old(groups)@), tile, previous@),
{
    let found = overlapping(tile.0, previous);
    let ghost start = group_views(groups@);
    let mut first: usize = 0;
    while first < groups.len() && !shares(&groups[first].previous, &found)
        invariant
            first <= groups@.len(),
            groups@ == old(groups)@,
            start == group_views(groups@),
            first_touching(start, found@, 0) == first_touching(start, found@, first as int),
        ensures
            first <= groups@.len(),
            groups@ == old(groups)@,
            first_touching(start, found@, 0) == if first < groups@.len() {
                Some(first as int)
            } else {
                None
            },
        decreases groups@.len() - first,
    {
        first = first + 1;
    }
    if first == groups.len() {
        let mut current: Vec<(TileId, i32)> = Vec::new();
        current.push(tile);
        groups.push(Group { current, previous: found });
        proof {
            assert(groups@.last()@.current =~= seq![tile]);
            assert(group_views(groups@) =~= start.push(groups@.last()@));
        }
        return;
    }
    let mut target = Group { current: Vec::new(), previous: Vec::new() };
    core::mem::swap(&mut target, &mut groups[first]);
    target.current.push(tile);
    push_missing(&mut target.previous, &found);
    let ghost target0 = target@;
    let mut i: usize = groups.len() - 1;
    proof {
        assert(target0 == GroupView {
            current: start[first as int].current.push(tile),
            previous: with_missing(start[first as int].previous, found@),
        });
    }
    let ghost mut seen = start;
    while i > first
        invariant
            first <= i < groups@.len(),
            seen.len() == groups@.len(),
            forall|k: int|
                0 <= k < seen.len() && k != first ==> #[trigger] seen[k] == groups@[k]@,
            absorb(start, target0, found@, first as int, start.len() - 1) == absorb(
                seen,
                target@,
                found@,
                first as int,
                i as int,
            ),
        decreases i,
    {
        assert(seen[i as int] == groups@[i as int]@);
        if shares(&groups[i].previous, &found) {
            let ghost before = groups@;
            let mut merged = groups.remove(i);
            target.current.append(&mut merged.current);
            push_missing(&mut target.previous, &merged.previous);
            proof {
                let next = seen.remove(i as int);
                assert forall|k: int| 0 <= k < next.len() && k != first implies #[trigger] next[k]
                    == groups@[k]@ by {
                    if k < i {
                        assert(next[k] == seen[k]);
                    } else {
                        assert(next[k] == seen[k + 1]);
                    }
                }
                seen = next;
            }
        }
        i = i - 1;
    }
    groups.set(first, target);
    proof {
        assert(group_views(groups@) =~= seen.update(first as int, target@));
    }
}

/// The coarser of two tiles; of two equal ones the first.
pub open spec fn coarser(a: TileId, b: TileId) -> TileId {
    if (a.zoom, a.y, a.x) == (b.zoom, b.y, b.x) {
        a
    } else if b.zoom < a.zoom || b.zoom == a.zoom && b.y < a.y || b.zoom == a.zoom && b.y == a.y
        && b.x < a.x {
        b
    } else {
        a
    }
}

/// The coarsest of `first` and `ids`.
pub open spec fn coarsest(first: TileId, ids: Seq<TileId>) -> TileId
    decreases ids.len(),
{
    if ids.len() == 0 {
        first
    } else {
        coarser(coarsest(first, ids.drop_last()), ids.last())
    }
}

fn coarsest_tile(first: TileId, ids: &Vec<TileId>) -> (r: TileId)
    ensures
        r == coarsest(first, ids@),
{
    let mut best = first;
    let mut i: usize = 0;
    proof {
        assert(ids@.take(0) =~= Seq::<TileId>::empty());
    }
    while i < ids.len()
        invariant
            i <= ids@.len(),
            best == coarsest(first, ids@.take(i as int)),
        decreases ids@.len() - i,
    {
        proof {
            assert(ids@.take(i + 1).drop_last() =~= ids@.take(i as int));
            assert(ids@.take(i + 1).last() == ids@[i as int]);
        }
        let id = ids[i];
        if id.zoom < best.zoom || (id.zoom == best.zoom && id.y < best.y) || (id.zoom == best.zoom
            && id.y == best.y && id.x < best.x) {
            best = id;
        }
        i = i + 1;
    }
    proof {
        assert(ids@.take(i as int) =~= ids@);
    }
    best
}

/// The smallest priority of a list of tiles, `i32::MAX` for none.
pub open spec fn least_priority(tiles: Seq<(TileId, i32)>) -> i32
    decreases tiles.len(),
{
    if tiles.len() == 0 {
        i32::MAX
    } else {
        let rest = least_priority(tiles.drop_last());
        if tiles.last().1 < rest {
            tiles.last().1
        } else {
            rest
        }
    }
}

/// The place of a group in the sequence in which groups are replaced: by its
/// smallest priority, then by its coarsest tile.
pub open spec fn group_rank(group: GroupView) -> RankKey {
    let coarse = coarsest(
        coarsest(group.current[0].0, ids_of(group.current)),
        group.previous,
    );
    RankKey {
        a: least_priority(group.current) as i64,
        b: coarse.zoom as i64,
        c: coarse.y as i64,
        d: coarse.x as i64,
    }
}

pub open spec fn group_ranks(groups: Seq<GroupView>) -> Seq<RankKey> {
    Seq::new(groups.len(), |i: int| group_rank(groups[i]))
}

/// The place of a current tile: by priority, then from coarse to fine.
pub open spec fn current_rank(tile: (TileId, i32)) -> RankKey {
    RankKey { a: tile.1 as i64, b: tile.0.zoom as i64, c: tile.0.y as i64, d: tile.0.x as i64 }
}

pub open spec fn current_ranks(tiles: Seq<(TileId, i32)>) -> Seq<RankKey> {
    Seq::new(tiles.len(), |i: int| current_rank(tiles[i]))
}

/// The ids of current tiles in the sequence in which they are admitted.
pub open spec fn ranked_ids(tiles: Seq<(TileId, i32)>) -> Seq<TileId> {
    ids_of(sorted_by(tiles, current_ranks(tiles)))
}

fn tile_ids(tiles: &Vec<(TileId, i32)>) -> (r: Vec<TileId>)
    ensures
        r@ == ids_of(tiles@),
{
    let mut out: Vec<TileId> = Vec::new();
    let mut i: usize = 0;
    while i < tiles.len()
        invariant
            i <= tiles@.len(),
            out@ == ids_of(tiles@.take(i as int)),
        decreases tiles@.len() - i,
    {
        out.push(tiles[i].0);
        proof {
            assert(ids_of(tiles@.take(i + 1)) =~= ids_of(tiles@.take(i as int)).push(
                tiles@[i as int].0,
            ));
        }
        i = i + 1;
    }
    proof {
        assert(tiles@.take(i as int) =~= tiles@);
    }
    out
}

fn sorted_ids(tiles: &Vec<(TileId, i32)>) -> (r: Vec<TileId>)
    ensures
        r@ == ranked_ids(tiles@),
{
    let mut keys: Vec<RankKey> = Vec::new();
    let mut i: usize = 0;
    while i < tiles.len()
        invariant
            i <= tiles@.len(),
            keys@ == current_ranks(tiles@.take(i as int)),
        decreases tiles@.len() - i,
    {
        let t = tiles[i];
        keys.push(
            RankKey { a: t.1 as i64, b: t.0.zoom as i64, c: t.0.y as i64, d: t.0.x as i64 },
        );
        proof {
            assert(current_ranks(tiles@.take(i + 1)) =~= current_ranks(tiles@.take(i as int)).push(
                current_rank(tiles@[i as int]),
            ));
        }
        i = i + 1;
    }
    proof {
        assert(tiles@.take(i as int) =~= tiles@);
    }
    let order = stable_order(&keys);
    proof {
        assert(ranks_of(keys@) =~= keys@);
    }
    let mut out: Vec<TileId> = Vec::new();
    let mut j: usize = 0;
    while j < order.len()
        invariant
            j <= order@.len(),
            order@.len() == tiles@.len(),
            forall|k: int| 0 <= k < order@.len() ==> (#[trigger] order@[k]) < tiles@.len(),
            as_ints(order@) == order_of(current_ranks(tiles@)),
            out@ == ranked_ids(tiles@).take(j as int),
        decreases order@.len() - j,
    {
        out.push(tiles[order[j]].0);
        proof {
            assert(as_ints(order@)[j as int] == order@[j as int]);
            assert(ranked_ids(tiles@).take(j + 1) =~= ranked_ids(tiles@).take(j as int).push(
                tiles@[order@[j as int] as int].0,
            ));
        }
        j = j + 1;
    }
    proof {
        assert(as_ints(order@).len() == order@.len());
        assert(ranked_ids(tiles@).take(j as int) =~= ranked_ids(tiles@));
    }
    out
}

/// The keys of the tiles of `ids` that are ready.
pub open spec fn ready_keys(ids: Seq<TileId>, ready: Seq<(TileId, u64)>) -> Seq<u64>
    decreases ids.len(),
{
    if ids.len() == 0 {
        Seq::empty()
    } else {
        let rest = ready_keys(ids.drop_last(), ready);
        match lookup(ready, ids.last()) {
            Some(key) => rest.push(key),
            None => rest,
        }
    }
}

/// Whether every tile of `ids` is ready.
pub open spec fn all_ready(ids: Seq<TileId>, ready: Seq<(TileId, u64)>) -> bool {
    forall|i: int| 0 <= i < ids.len() ==> lookup(ready, #[trigger] ids[i]) is Some
}

/// `keys` without those in `out`.
pub open spec fn without(keys: Seq<u64>, out: Seq<u64>) -> Seq<u64>
    decreases keys.len(),
{
    if keys.len() == 0 {
        Seq::empty()
    } else {
        let rest = without(keys.drop_last(), out);
        if out.contains(keys.last()) {
            rest
        } else {
            rest.push(keys.last())
        }
    }
}

/// `keys` with those of `more` that it lacks behind it.
pub open spec fn with_missing_keys(keys: Seq<u64>, more: Seq<u64>) -> Seq<u64>
    decreases more.len(),
{
    if more.len() == 0 {
        keys
    } else {
        let rest = with_missing_keys(keys, more.drop_last());
        if rest.contains(more.last()) {
            rest
        } else {
            rest.push(more.last())
        }
    }
}

/// The admitted keys and the fallback keys given up so far.
pub ghost struct Replacement {
    pub order: Seq<u64>,
    pub replaced: Seq<u64>,
}

/// Replaces the fallback tiles of one group by its current tiles, all at once,
/// where every current tile is ready and the outcome fits the quota.
pub open spec fn replace_group(
    state: Replacement,
    group: GroupView,
    ready: Seq<(TileId, u64)>,
    quota: nat,
) -> Replacement {
    let ids = ranked_ids(group.current);
    let fallback = ready_keys(group.previous, ready);
    let kept = without(state.order, fallback);
    let keys = ready_keys(ids, ready);
    if all_ready(ids, ready) && kept.len() + keys.len() <= quota {
        Replacement {
            order: with_missing_keys(kept, keys),
            replaced: state.replaced + fallback,
        }
    } else {
        state
    }
}

/// Replaces the groups one after the other.
pub open spec fn replace_groups(
    state: Replacement,
    groups: Seq<GroupView>,
    ready: Seq<(TileId, u64)>,
    quota: nat,
) -> Replacement
    decreases groups.len(),
{
    if groups.len() == 0 {
        state
    } else {
        replace_group(
            replace_groups(state, groups.drop_last(), ready, quota),
            groups.last(),
            ready,
            quota,
        )
    }
}

/// The keys of one pane's tiles that get a slot, at most `quota`, in order:
/// ready fallback tiles first; then whole groups of current tiles in place of
/// the fallback they cover; then single current tiles and unreplaced fallback
/// tiles into what room is left.
pub open spec fn coverage_order(
    current: Seq<(TileId, i32)>,
    previous: Seq<TileId>,
    ready: Seq<(TileId, u64)>,
    quota: nat,
) -> Seq<u64> {
    let fallback = admit_all(Seq::empty(), previous, ready, Seq::empty(), quota);
    let groups = groups_of(current, previous);
    let state = replace_groups(
        Replacement { order: fallback, replaced: Seq::empty() },
        sorted_by(groups, group_ranks(groups)),
        ready,
        quota,
    );
    admit_all(
        admit_all(state.order, ranked_ids(current), ready, Seq::empty(), quota),
        previous,
        ready,
        state.replaced,
        quota,
    )
}

fn collect_ready(ids: &Vec<TileId>, ready: &Vec<(TileId, u64)>) -> (r: Vec<u64>)
    ensures
        r@ == ready_keys(ids@, ready@),
        r@.len() <= ids@.len(),
        r@.len() == ids@.len() <==> all_ready(ids@, ready@),
{
    let mut out: Vec<u64> = Vec::new();
    let mut i: usize = 0;
    proof {
        assert(ids@.take(0) =~= Seq::<TileId>::empty());
    }
    while i < ids.len()
        invariant
            i <= ids@.len(),
            out@ == ready_keys(ids@.take(i as int), ready@),
            out@.len() <= i,
            out@.len() == i <==> forall|k: int|
                0 <= k < i ==> lookup(ready@, #[trigger] ids@[k]) is Some,
        decreases ids@.len() - i,
    {
        proof {
            assert(ids@.take(i + 1).drop_last() =~= ids@.take(i as int));
            assert(ids@.take(i + 1).last() == ids@[i as int]);
        }
        if let Some(key) = find_key(ready, ids[i]) {
            out.push(key);
        }
        i = i + 1;
    }
    proof {
        assert(ids@.take(i as int) =~= ids@);
    }
    out
}

fn filter_out(keys: &Vec<u64>, out: &Vec<u64>) -> (r: Vec<u64>)
    ensures
        r@ == without(keys@, out@),
{
    let mut kept: Vec<u64> = Vec::new();
    let mut i: usize = 0;
    proof {
        assert(keys@.take(0) =~= Seq::<u64>::empty());
    }
    while i < keys.len()
        invariant
            i <= keys@.len(),
            kept@ == without(keys@.take(i as int), out@),
        decreases keys@.len() - i,
    {
        proof {
            assert(keys@.take(i + 1).drop_last() =~= keys@.take(i as int));
            assert(keys@.take(i + 1).last() == keys@[i as int]);
        }
        if !has_key(out, keys[i]) {
            kept.push(keys[i]);
        }
        i = i + 1;
    }
    proof {
        assert(keys@.take(i as int) =~= keys@);
    }
    kept
}

fn push_missing_keys(keys: &mut Vec<u64>, more: &Vec<u64>)
    ensures
        final(keys)@ == with_missing_keys(old(keys)@, more@),
{
    let mut i: usize = 0;
    proof {
        assert(more@.take(0) =~= Seq::<u64>::empty());
    }
    while i < more.len()
        invariant
            i <= more@.len(),
            keys@ == with_missing_keys(old(keys)@, more@.take(i as int)),
        decreases more@.len() - i,
    {
        proof {
            assert(more@.take(i + 1).drop_last() =~= more@.take(i as int));
            assert(more@.take(i + 1).last() == more@[i as int]);
        }
        if !has_key(keys, more[i]) {
            keys.push(more[i]);
        }
        i = i + 1;
    }
    proof {
        assert(more@.take(i as int) =~= more@);
    }
}

fn replace_one_group(
    order: &mut Vec<u64>,
    replaced: &mut Vec<u64>,
    group: &Group,
    ready: &Vec<(TileId, u64)>,
    quota: usize,
)
    ensures
        (Replacement { order: final(order)@, replaced: final(replaced)@ }) == replace_group(
            Replacement { order: old(order)@, replaced: old(replaced)@ },
            group@,
            ready@,
            quota as nat,
        ),
{
    let ids = sorted_ids(&group.current);
    let keys = collect_ready(&ids, ready);
    if keys.len() != ids.len() {
        return;
    }
    let mut fallback = collect_ready(&group.previous, ready);
    let mut kept = filter_out(order, &fallback);
    if kept.len() <= quota && keys.len() <= quota - kept.len() {
        push_missing_keys(&mut kept, &keys);
        *order = kept;
        replaced.append(&mut fallback);
    }
}

fn smallest_priority(tiles: &Vec<(TileId, i32)>) -> (r: i32)
    ensures
        r == least_priority(tiles@),
{
    let mut best: i32 = i32::MAX;
    let mut i: usize = 0;
    proof {
        assert(tiles@.take(0) =~= Seq::<(TileId, i32)>::empty());
    }
    while i < tiles.len()
        invariant
            i <= tiles@.len(),
            best == least_priority(tiles@.take(i as int)),
        decreases tiles@.len() - i,
    {
        proof {
            assert(tiles@.take(i + 1).drop_last() =~= tiles@.take(i as int));
            assert(tiles@.take(i + 1).last() == tiles@[i as int]);
        }
        if tiles[i].1 < best {
            best = tiles[i].1;
        }
        i = i + 1;
    }
    proof {
        assert(tiles@.take(i as int) =~= tiles@);
    }
    best
}

fn rank_group(group: &Group) -> (r: RankKey)
    requires
        group@.current.len() > 0,
    ensures
        r == group_rank(group@),
{
    let ids = tile_ids(&group.current);
    let coarse = coarsest_tile(coarsest_tile(group.current[0].0, &ids), &group.previous);
    RankKey {
        a: smallest_priority(&group.current) as i64,
        b: coarse.zoom as i64,
        c: coarse.y as i64,
        d: coarse.x as i64,
    }
}

proof fn lemma_absorb_nonempty(
    groups: Seq<GroupView>,
    target: GroupView,
    found: Seq<TileId>,
    first: int,
    i: int,
)
    requires
        0 <= first < groups.len(),
        i < groups.len(),
        target.current.len() > 0,
        forall|k: int| 0 <= k < groups.len() ==> (#[trigger] groups[k]).current.len() > 0,
    ensures
        ({
            let (rest, merged) = absorb(groups, target, found, first, i);
            &&& merged.current.len() > 0
            &&& rest.len() > first
            &&& forall|k: int| 0 <= k < rest.len() ==> (#[trigger] rest[k]).current.len() > 0
        }),
    decreases i,
{
    if i > first {
        if shares_tile(groups[i].previous, found) {
            let next = groups.remove(i);
            assert forall|k: int| 0 <= k < next.len() implies (#[trigger] next[k]).current.len()
                > 0 by {
                if k < i {
                    assert(next[k] == groups[k]);
                } else {
                    assert(next[k] == groups[k + 1]);
                }
            }
            lemma_absorb_nonempty(
                next,
                GroupView {
                    current: target.current + groups[i].current,
                    previous: with_missing(target.previous, groups[i].previous),
                },
                found,
                first,
                i - 1,
            );
        } else {
            lemma_absorb_nonempty(groups, target, found, first, i - 1);
        }
    }
}

pub(crate) proof fn lemma_groups_nonempty(current: Seq<(TileId, i32)>, previous: Seq<TileId>)
    ensures
        forall|k: int|
            0 <= k < groups_of(current, previous).len() ==> (#[trigger] groups_of(
                current,
                previous,
            )[k]).current.len() > 0,
    decreases current.len(),
{
    if current.len() > 0 {
        lemma_groups_nonempty(current.drop_last(), previous);
        let groups = groups_of(current.drop_last(), previous);
        let found = overlaps(current.last().0, previous);
        lemma_first_touching(groups, found, 0);
        if let Some(first) = first_touching(groups, found, 0) {
            let target = GroupView {
                current: groups[first].current.push(current.last()),
                previous: with_missing(groups[first].previous, found),
            };
            lemma_absorb_nonempty(groups, target, found, first, groups.len() - 1);
        }
    }
}

/// The keys of one pane's tiles that get a slot, in order.
pub fn tile_order(
    current: &Vec<(TileId, i32)>,
    previous: &Vec<TileId>,
    ready: &Vec<(TileId, u64)>,
    quota: usize,
) -> (r: Vec<u64>)
    ensures
        r@ == coverage_order(current@, previous@, ready@, quota as nat),
{
    let none: Vec<u64> = Vec::new();
    let mut order: Vec<u64> = Vec::new();
    admit_tiles(&mut order, previous, ready, &none, quota);

    let mut groups: Vec<Group> = Vec::new();
    let mut i: usize = 0;
    proof {
        assert(current@.take(0) =~= Seq::<(TileId, i32)>::empty());
        assert(group_views(groups@) =~= Seq::<GroupView>::empty());
    }
    while i < current.len()
        invariant
            i <= current@.len(),
            group_views(groups@) == groups_of(current@.take(i as int), previous@),
        decreases current@.len() - i,
    {
        proof {
            assert(current@.take(i + 1).drop_last() =~= current@.take(i as int));
            assert(current@.take(i + 1).last() == current@[i as int]);
        }
        join_groups(&mut groups, current[i], previous);
        i = i + 1;
    }
    proof {
        assert(current@.take(i as int) =~= current@);
        lemma_groups_nonempty(current@, previous@);
    }
    let ghost all = groups_of(current@, previous@);
    let mut ranks: Vec<RankKey> = Vec::new();
    let mut j: usize = 0;
    while j < groups.len()
        invariant
            j <= groups@.len(),
            group_views(groups@) == all,
            forall|k: int| 0 <= k < all.len() ==> (#[trigger] all[k]).current.len() > 0,
            ranks@ == group_ranks(all).take(j as int),
        decreases groups@.len() - j,
    {
        assert(all[j as int] == groups@[j as int]@);
        ranks.push(rank_group(&groups[j]));
        proof {
            assert(group_ranks(all).take(j + 1) =~= group_ranks(all).take(j as int).push(
                group_rank(all[j as int]),
            ));
        }
        j = j + 1;
    }
    proof {
        assert(group_ranks(all).take(j as int) =~= group_ranks(all));
    }
    let sequence = stable_order(&ranks);
    proof {
        assert(ranks_of(ranks@) =~= ranks@);
    }
    let mut replaced: Vec<u64> = Vec::new();
    let ghost start = Replacement { order: order@, replaced: replaced@ };
    let ghost sorted = sorted_by(all, group_ranks(all));
    let mut n: usize = 0;
    proof {
        assert(as_ints(sequence@).len() == sequence@.len());
        assert(sorted.take(0) =~= Seq::<GroupView>::empty());
    }
    while n < sequence.len()
        invariant
            n <= sequence@.len(),
            sequence@.len() == groups@.len(),
            group_views(groups@) == all,
            sorted == sorted_by(all, group_ranks(all)),
            as_ints(sequence@) == order_of(group_ranks(all)),
            sorted.len() == sequence@.len(),
            forall|k: int| 0 <= k < sequence@.len() ==> (#[trigger] sequence@[k]) < groups@.len(),
            (Replacement { order: order@, replaced: replaced@ }) == replace_groups(
                start,
                sorted.take(n as int),
                ready@,
                quota as nat,
            ),
        decreases sequence@.len() - n,
    {
        proof {
            assert(sorted.take(n + 1).drop_last() =~= sorted.take(n as int));
            assert(as_ints(sequence@)[n as int] == sequence@[n as int]);
            assert(sorted.take(n + 1).last() == groups@[sequence@[n as int] as int]@);
        }
        replace_one_group(&mut order, &mut replaced, &groups[sequence[n]], ready, quota);
        n = n + 1;
    }
    proof {
        assert(sorted.take(n as int) =~= sorted);
    }
    let ids = sorted_ids(current);
    admit_tiles(&mut order, &ids, ready, &none, quota);
    admit_tiles(&mut order, previous, ready, &replaced, quota);
    order
}

} // verus!
