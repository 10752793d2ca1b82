//! What is to be rendered: for each root tile the leaf tiles below it, each
//! with the maps that cover it in the order in which they are drawn.

use crate::map::MapItem;
use crate::scan::{lemma_placed_order, MapScan, PlacedMap, ScanView};
use crate::sorted::{inserted, lemma_rank, lemma_rank_is, rank, sorted, Keyed, SortedVec};
use crate::tile::{lemma_quadrant_of, lemma_scaled, lemma_span_values, lemma_tile_order, Tile};
use crate::time::Timestamp;
use vstd::prelude::*;

verus! {

/// The tile one level up that covers `t`.
pub open spec fn parent(t: Tile) -> Tile
    recommends
        t.zoom > 0,
{
    Tile { zoom: (t.zoom - 1) as u8, x: (t.x as int / 2) as i32, y: (t.y as int / 2) as i32 }
}

/// A quadrant's parent is the tile that it is a quadrant of.
pub proof fn lemma_parent(t: Tile, i: int)
    requires
        t.valid(),
        t.zoom < 4,
        0 <= i < 4,
    ensures
        parent(t.children()[i]) == t,
{
    lemma_quadrant_of(t, i);
    lemma_span_values();
    lemma_scaled(t.x as int, t.zoom as int);
    lemma_scaled(t.y as int, t.zoom as int);
}

/// The distance between the keys of the first maps of two tiles that
/// follow each other in the order of tiles.
pub open spec fn stride() -> int {
    0x1_0000_0000_0000_0000_0000_0000_0000_0000_0000_0000int
}

/// The least key that a map on the tile `t` can have.
pub open spec fn floor_key(t: Tile) -> int {
    t.key() * stride()
}

/// The maps that lie on the tile `t` itself, in their order: by time of
/// last change, then by id.
pub open spec fn maps_on(maps: Seq<PlacedMap>, t: Tile) -> Seq<MapItem> {
    maps.subrange(rank(maps, floor_key(t)), rank(maps, floor_key(t) + stride())).map_values(
        |p: PlacedMap| p.0,
    )
}

/// The maps on `t` are those of `maps` whose tile is `t`: they stand
/// together, from the rank of the tile's least key on.
pub proof fn lemma_maps_on(maps: Seq<PlacedMap>, t: Tile)
    requires
        sorted(maps),
    ensures
        0 <= rank(maps, floor_key(t)) <= rank(maps, floor_key(t) + stride()) <= maps.len(),
        forall|i: int|
            0 <= i < maps.len() ==> ((#[trigger] maps[i]).0.tile == t <==> rank(
                maps,
                floor_key(t),
            ) <= i < rank(maps, floor_key(t) + stride())),
{
    let lo = rank(maps, floor_key(t));
    let hi = rank(maps, floor_key(t) + stride());
    lemma_rank(maps, floor_key(t));
    lemma_rank(maps, floor_key(t) + stride());
    if hi < lo {
        assert(maps[hi].key() < floor_key(t));
    }
    assert forall|i: int| 0 <= i < maps.len() implies ((#[trigger] maps[i]).0.tile == t <==> lo
        <= i < hi) by {
        lemma_key_span(maps[i], t);
        if i < lo {
            assert(maps[i].key() < floor_key(t));
        }
        if i >= hi {
            assert(maps[i].key() >= floor_key(t) + stride());
        }
        if lo <= i {
            assert(maps[i].key() >= floor_key(t));
        }
        if i < hi {
            assert(maps[i].key() < floor_key(t) + stride());
        }
    }
}

/// The maps on one tile stand in the order of maps: by time of last change
/// and then by id.
pub proof fn lemma_maps_on_sorted(maps: Seq<PlacedMap>, t: Tile)
    requires
        sorted(maps),
    ensures
        sorted(maps_on(maps, t)),
        forall|k: int| 0 <= k < maps_on(maps, t).len() ==> (#[trigger] maps_on(maps, t)[k]).tile == t,
{
    let here = maps_on(maps, t);
    let lo = rank(maps, floor_key(t));
    lemma_maps_on(maps, t);
    assert forall|k: int| 0 <= k < here.len() implies (#[trigger] here[k]).tile == t by {
        assert(here[k] == maps[lo + k].0);
    }
    assert forall|i: int, j: int| 0 <= i < j < here.len() implies (#[trigger] here[i]).key() < (
    #[trigger] here[j]).key() by {
        assert(here[i] == maps[lo + i].0);
        assert(here[j] == maps[lo + j].0);
        assert(maps[lo + i].key() < maps[lo + j].key());
        lemma_placed_order(maps[lo + i], maps[lo + j]);
    }
}

/// The key of a map lies in the stretch of keys of its tile and of no
/// other.
pub proof fn lemma_key_span(p: PlacedMap, t: Tile)
    ensures
        p.0.tile == t <==> floor_key(t) <= p.key() < floor_key(t) + stride(),
        p.0.tile.key() < t.key() ==> p.key() < floor_key(t),
        p.0.tile.key() > t.key() ==> p.key() >= floor_key(t) + stride(),
{
    lemma_tile_order(p.0.tile, t);
    let a = p.0.tile.key();
    let b = t.key();
    let low = p.key() - a * stride();
    assert(0 <= low < stride());
    if a < b {
        assert(a * stride() + stride() <= b * stride()) by (nonlinear_arith)
            requires
                a + 1 <= b,
                stride() > 0,
        ;
    }
    if a > b {
        assert(b * stride() + stride() <= a * stride()) by (nonlinear_arith)
            requires
                b + 1 <= a,
                stride() > 0,
        ;
    }
}

/// The maps that cover the tile `t`, from the root down to `t` itself: on
/// each level the maps on the tile of that level, in their order.
pub open spec fn stack_at(maps: Seq<PlacedMap>, t: Tile) -> Seq<MapItem>
    decreases t.zoom,
{
    if t.zoom == 0 {
        maps_on(maps, t)
    } else {
        stack_at(maps, parent(t)) + maps_on(maps, t)
    }
}

/// The maps that cover the levels above `t`.
pub open spec fn stack_above(maps: Seq<PlacedMap>, t: Tile) -> Seq<MapItem> {
    if t.zoom == 0 {
        Seq::empty()
    } else {
        stack_at(maps, parent(t))
    }
}

/// The latest change among `maps`, which are not none.
pub open spec fn newest(maps: Seq<MapItem>) -> Timestamp
    decreases maps.len(),
{
    if maps.len() <= 1 {
        maps[0].modified
    } else {
        let rest = newest(maps.drop_last());
        if rest.nanos < maps.last().modified.nanos {
            maps.last().modified
        } else {
            rest
        }
    }
}

/// One leaf tile to be rendered.
pub struct LeafPlan {
    /// The tile.
    pub tile: Tile,
    /// The maps that cover it, in the order of drawing: the deepest level
    /// first, and on one level the map that changed last first. What is
    /// drawn first is not drawn over.
    pub maps: Vec<MapItem>,
    /// The latest change of one of these maps.
    pub modified: Timestamp,
}

/// `LeafPlan` with its maps as a sequence.
pub ghost struct LeafView {
    pub tile: Tile,
    pub maps: Seq<MapItem>,
    pub modified: Timestamp,
}

impl View for LeafPlan {
    type V = LeafView;

    open spec fn view(&self) -> LeafView {
        LeafView { tile: self.tile, maps: self.maps@, modified: self.modified }
    }
}

/// The views of a sequence of leaf plans.
pub open spec fn leaf_views(leaves: Seq<LeafPlan>) -> Seq<LeafView> {
    leaves.map_values(|l: LeafPlan| l@)
}

/// The plan of the leaf tile `t`: none where no map covers it.
pub open spec fn leaf_at(maps: Seq<PlacedMap>, t: Tile) -> Seq<LeafView> {
    let stack = stack_at(maps, t);
    if stack.len() > 0 {
        seq![LeafView { tile: t, maps: stack.reverse(), modified: newest(stack) }]
    } else {
        Seq::empty()
    }
}

/// The plans of the leaf tiles below `t` that a map covers, quadrant by
/// quadrant.
pub open spec fn leaves_below(maps: Seq<PlacedMap>, t: Tile) -> Seq<LeafView>
    decreases 4 - t.zoom,
{
    if t.zoom >= 4 {
        leaf_at(maps, t)
    } else {
        leaves_below(maps, t.children()[0]) + leaves_below(maps, t.children()[1]) + leaves_below(
            maps,
            t.children()[2],
        ) + leaves_below(maps, t.children()[3])
    }
}

/// The maps on `t` and on the tiles below it, quadrant by quadrant.
pub open spec fn maps_below(maps: Seq<PlacedMap>, t: Tile) -> Seq<MapItem>
    decreases 4 - t.zoom,
{
    if t.zoom >= 4 {
        maps_on(maps, t)
    } else {
        maps_on(maps, t) + maps_below(maps, t.children()[0]) + maps_below(maps, t.children()[1])
            + maps_below(maps, t.children()[2]) + maps_below(maps, t.children()[3])
    }
}

/// Appends the maps on `tile` to `out`.
fn push_maps_on(maps: &SortedVec<PlacedMap>, tile: &Tile, out: &mut Vec<MapItem>)
    ensures
        final(out)@ == old(out)@ + maps_on(maps@, *tile),
{
    let probe = PlacedMap(
        MapItem {
            modified: Timestamp { nanos: -0x8000_0000_0000_0000_0000_0000_0000_0000 },
            id: 0,
            tile: *tile,
        },
    );
    let lo = maps.rank_of(&probe);
    let n = maps.len();
    let ghost all = maps@;
    let ghost start = out@;
    let ghost t = *tile;
    proof {
        assert(probe.key() == floor_key(t));
        lemma_maps_on(all, t);
    }
    let ghost hi = rank(all, floor_key(t) + stride());
    let mut j = lo;
    loop
        invariant_except_break
            lo <= j <= hi <= n,
            out@ == start + all.subrange(lo as int, j as int).map_values(|p: PlacedMap| p.0),
        invariant
            n == all.len(),
            all == maps@,
            t == *tile,
            sorted(all),
            lo == rank(all, floor_key(t)),
            hi == rank(all, floor_key(t) + stride()),
            forall|i: int|
                0 <= i < all.len() ==> ((#[trigger] all[i]).0.tile == t <==> lo <= i < hi),
        ensures
            out@ == start + all.subrange(lo as int, hi).map_values(|p: PlacedMap| p.0),
        decreases n - j,
    {
        if j >= n {
            proof {
                assert(j == hi);
            }
            break ;
        }
        let p = maps.get(j);
        if !(p.0.tile == *tile) {
            proof {
                assert(all[j as int].0.tile != t);
                assert(j == hi);
            }
            break ;
        }
        proof {
            assert(all[j as int].0.tile == t);
            assert(all.subrange(lo as int, j + 1).map_values(|p: PlacedMap| p.0) =~= all.subrange(
                lo as int,
                j as int,
            ).map_values(|p: PlacedMap| p.0).push(all[j as int].0));
        }
        out.push(p.0);
        j += 1;
    }
}

/// The parent of a valid tile is valid and covers it.
pub proof fn lemma_parent_covers(t: Tile)
    requires
        t.valid(),
        t.zoom > 0,
    ensures
        parent(t).valid(),
        parent(t).covers(t),
{
    let p = parent(t);
    lemma_span_values();
    lemma_scaled(t.x as int, t.zoom as int);
    lemma_scaled(t.y as int, t.zoom as int);
    lemma_scaled(t.x as int / 2, t.zoom - 1);
    lemma_scaled(t.y as int / 2, t.zoom - 1);
}

/// A tile that covers a second one covers what the second one covers.
pub proof fn lemma_covers_trans(a: Tile, b: Tile, c: Tile)
    requires
        a.covers(b),
        b.covers(c),
    ensures
        a.covers(c),
{
}

/// Whether a leaf plan can be drawn: the tile is a valid leaf tile, and
/// each map lies on a valid tile that covers it.
pub open spec fn paintable(leaf: LeafView) -> bool {
    &&& leaf.tile.valid()
    &&& leaf.tile.zoom == 4
    &&& leaf.maps.len() > 0
    &&& forall|k: int|
        0 <= k < leaf.maps.len() ==> (#[trigger] leaf.maps[k]).tile.valid()
            && leaf.maps[k].tile.covers(leaf.tile)
}

/// Every map of the stack at a valid tile lies on a valid tile that covers
/// it.
pub proof fn lemma_stack_covers(maps: Seq<PlacedMap>, t: Tile)
    requires
        sorted(maps),
        t.valid(),
    ensures
        forall|k: int|
            0 <= k < stack_at(maps, t).len() ==> (#[trigger] stack_at(maps, t)[k]).tile.valid()
                && stack_at(maps, t)[k].tile.covers(t),
    decreases t.zoom,
{
    let here = maps_on(maps, t);
    lemma_maps_on(maps, t);
    let lo = rank(maps, floor_key(t));
    assert forall|k: int| 0 <= k < here.len() implies (#[trigger] here[k]).tile == t by {
        assert(here[k] == maps[lo + k].0);
    }
    if t.zoom > 0 {
        let p = parent(t);
        lemma_parent_covers(t);
        lemma_stack_covers(maps, p);
        let up = stack_at(maps, p);
        assert forall|k: int| 0 <= k < stack_at(maps, t).len() implies (#[trigger] stack_at(
            maps,
            t,
        )[k]).tile.valid() && stack_at(maps, t)[k].tile.covers(t) by {
            if k < up.len() {
                assert(stack_at(maps, t)[k] == up[k]);
                lemma_covers_trans(up[k].tile, p, t);
            } else {
                assert(stack_at(maps, t)[k] == here[k - up.len()]);
            }
        }
    }
}

/// Every leaf plan below a valid tile can be drawn.
pub proof fn lemma_leaves_paintable(maps: Seq<PlacedMap>, t: Tile)
    requires
        sorted(maps),
        t.valid(),
    ensures
        forall|k: int|
            0 <= k < leaves_below(maps, t).len() ==> paintable(#[trigger] leaves_below(maps, t)[k]),
    decreases 4 - t.zoom,
{
    if t.zoom >= 4 {
        lemma_stack_covers(maps, t);
        let stack = stack_at(maps, t);
        if stack.len() > 0 {
            let leaf = leaf_at(maps, t)[0];
            assert forall|k: int| 0 <= k < leaf.maps.len() implies (#[trigger] leaf.maps[k]).tile.valid()
                && leaf.maps[k].tile.covers(t) by {
                assert(leaf.maps[k] == stack[stack.len() - 1 - k]);
            }
        }
    } else {
        let c = t.children();
        lemma_quadrant_of(t, 0);
        lemma_quadrant_of(t, 1);
        lemma_quadrant_of(t, 2);
        lemma_quadrant_of(t, 3);
        lemma_leaves_paintable(maps, c[0]);
        lemma_leaves_paintable(maps, c[1]);
        lemma_leaves_paintable(maps, c[2]);
        lemma_leaves_paintable(maps, c[3]);
        let l0 = leaves_below(maps, c[0]);
        let l1 = leaves_below(maps, c[1]);
        let l2 = leaves_below(maps, c[2]);
        let l3 = leaves_below(maps, c[3]);
        assert forall|k: int| 0 <= k < leaves_below(maps, t).len() implies paintable(
            #[trigger] leaves_below(maps, t)[k],
        ) by {
            let all = leaves_below(maps, t);
            if k < l0.len() {
                assert(all[k] == l0[k]);
            } else if k < l0.len() + l1.len() {
                assert(all[k] == l1[k - l0.len()]);
            } else if k < l0.len() + l1.len() + l2.len() {
                assert(all[k] == l2[k - l0.len() - l1.len()]);
            } else {
                assert(all[k] == l3[k - l0.len() - l1.len() - l2.len()]);
            }
        }
    }
}

/// The maps in the opposite order.
fn reversed(stack: &Vec<MapItem>) -> (r: Vec<MapItem>)
    ensures
        r@ == stack@.reverse(),
{
    let mut r: Vec<MapItem> = Vec::new();
    let n = stack.len();
    let mut i: usize = 0;
    while i < n
        invariant
            i <= n,
            n == stack@.len(),
            r@.len() == i,
            forall|k: int| 0 <= k < i ==> r@[k] == stack@[n - 1 - k],
        decreases n - i,
    {
        r.push(stack[n - 1 - i]);
        i += 1;
    }
    proof {
        assert(r@ =~= stack@.reverse());
    }
    r
}

/// The latest change among the maps.
fn newest_of(stack: &Vec<MapItem>) -> (t: Timestamp)
    requires
        stack@.len() > 0,
    ensures
        t == newest(stack@),
{
    let mut t = stack[0].modified;
    let mut i: usize = 1;
    proof {
        assert(stack@.take(1).len() == 1);
    }
    while i < stack.len()
        invariant
            1 <= i <= stack@.len(),
            t == newest(stack@.take(i as int)),
        decreases stack@.len() - i,
    {
        proof {
            assert(stack@.take(i + 1).drop_last() =~= stack@.take(i as int));
            assert(stack@.take(i + 1).last() == stack@[i as int]);
        }
        if t.nanos < stack[i].modified.nanos {
            t = stack[i].modified;
        }
        i += 1;
    }
    proof {
        assert(stack@.take(i as int) =~= stack@);
    }
    t
}

/// Goes through `tile` and the tiles below it, with `stack` holding the
/// maps that cover the levels above, and appends what it finds.
fn descend(
    maps: &SortedVec<PlacedMap>,
    tile: Tile,
    stack: &mut Vec<MapItem>,
    leaves: &mut Vec<LeafPlan>,
    found: &mut Vec<MapItem>,
)
    requires
        tile.valid(),
        old(stack)@ == stack_above(maps@, tile),
    ensures
        final(stack)@ == old(stack)@,
        leaf_views(final(leaves)@) == leaf_views(old(leaves)@) + leaves_below(maps@, tile),
        final(found)@ == old(found)@ + maps_below(maps@, tile),
    decreases 4 - tile.zoom,
{
    let depth = stack.len();
    let ghost above = stack@;
    let ghost leaves_before = leaf_views(leaves@);
    let ghost found_before = found@;
    push_maps_on(maps, &tile, stack);
    push_maps_on(maps, &tile, found);
    proof {
        assert(stack@ == stack_at(maps@, tile));
    }
    if tile.zoom >= 4 {
        if stack.len() > 0 {
            let leaf = LeafPlan { tile, maps: reversed(stack), modified: newest_of(stack) };
            proof {
                assert(leaf_views(leaves@.push(leaf)) =~= leaf_views(leaves@).push(leaf@));
                assert(leaves_before.push(leaf@) =~= leaves_before + leaf_at(maps@, tile));
            }
            leaves.push(leaf);
        } else {
            proof {
                assert(leaves_before =~= leaves_before + leaf_at(maps@, tile));
            }
        }
    } else {
        let q = tile.quadrants();
        proof {
            lemma_parent(tile, 0);
            lemma_parent(tile, 1);
            lemma_parent(tile, 2);
            lemma_parent(tile, 3);
            assert(q@[0] == tile.children()[0]);
            assert(q@[1] == tile.children()[1]);
            assert(q@[2] == tile.children()[2]);
            assert(q@[3] == tile.children()[3]);
        }
        descend(maps, q[0], stack, leaves, found);
        descend(maps, q[1], stack, leaves, found);
        descend(maps, q[2], stack, leaves, found);
        descend(maps, q[3], stack, leaves, found);
        proof {
            let c = tile.children();
            assert(leaf_views(leaves@) =~= leaves_before + leaves_below(maps@, tile)) by {
                assert(leaf_views(leaves@) =~= leaves_before + leaves_below(maps@, c[0])
                    + leaves_below(maps@, c[1]) + leaves_below(maps@, c[2]) + leaves_below(
                    maps@,
                    c[3],
                ));
            }
            assert(found@ =~= found_before + maps_below(maps@, tile));
        }
    }
    stack.truncate(depth);
    proof {
        assert(stack@ =~= above);
    }
}

/// What is to be rendered below one root tile.
pub struct RootPlan {
    /// The leaf tiles that a map covers, quadrant by quadrant.
    pub leaves: Vec<LeafPlan>,
    /// The maps on the root tile and on every tile below it.
    pub maps: Vec<MapItem>,
}

/// Plans the rendering below the root tile `root`.
pub fn plan_root(scan: &MapScan, root: &Tile) -> (plan: RootPlan)
    requires
        root.valid(),
        root.zoom == 0,
    ensures
        leaf_views(plan.leaves@) == leaves_below(scan@.maps, *root),
        plan.maps@ == maps_below(scan@.maps, *root),
        forall|k: int| 0 <= k < plan.leaves@.len() ==> paintable(#[trigger] plan.leaves@[k]@),
{
    let maps = scan.maps();
    let mut stack: Vec<MapItem> = Vec::new();
    let mut leaves: Vec<LeafPlan> = Vec::new();
    let mut found: Vec<MapItem> = Vec::new();
    proof {
        assert(stack@ =~= stack_above(maps@, *root));
        assert(leaf_views(leaves@) =~= Seq::empty());
    }
    descend(maps, *root, &mut stack, &mut leaves, &mut found);
    proof {
        reveal(ScanView::wf);
        lemma_leaves_paintable(maps@, *root);
        assert(leaf_views(leaves@) =~= leaves_below(maps@, *root));
        assert(found@ =~= maps_below(maps@, *root));
        assert forall|k: int| 0 <= k < leaves@.len() implies paintable(#[trigger] leaves@[k]@) by {
            assert(leaf_views(leaves@)[k] == leaves@[k]@);
        }
    }
    RootPlan { leaves, maps: found }
}

/// The tile one level up that covers `tile`.
fn parent_of(tile: &Tile) -> (p: Tile)
    requires
        tile.zoom > 0,
    ensures
        p == parent(*tile),
{
    let x = match tile.x.checked_div_euclid(2) {
        Some(x) => x,
        None => 0,
    };
    let y = match tile.y.checked_div_euclid(2) {
        Some(y) => y,
        None => 0,
    };
    Tile { zoom: tile.zoom - 1, x, y }
}

/// Appends the maps that cover `tile`, from the root down to `tile`.
fn push_stack(maps: &SortedVec<PlacedMap>, tile: Tile, out: &mut Vec<MapItem>)
    requires
        tile.valid(),
    ensures
        final(out)@ == old(out)@ + stack_at(maps@, tile),
    decreases tile.zoom,
{
    if tile.zoom > 0 {
        proof {
            lemma_parent_covers(tile);
        }
        push_stack(maps, parent_of(&tile), out);
    }
    push_maps_on(maps, &tile, out);
    proof {
        assert(out@ =~= old(out)@ + stack_at(maps@, tile));
    }
}

/// Plans the rendering of the leaf tile `tile` alone: the maps that cover
/// it, from the deepest level up and on one level the map that changed
/// last first, and the time of the latest change among them. Nothing
/// where no map covers the tile.
pub fn plan_leaf(scan: &MapScan, tile: &Tile) -> (r: Option<LeafPlan>)
    requires
        tile.valid(),
        tile.zoom == 4,
    ensures
        match r {
            Some(leaf) => leaf_at(scan@.maps, *tile) == seq![leaf@] && paintable(leaf@),
            None => leaf_at(scan@.maps, *tile).len() == 0,
        },
{
    let maps = scan.maps();
    let mut stack: Vec<MapItem> = Vec::new();
    push_stack(maps, *tile, &mut stack);
    proof {
        reveal(ScanView::wf);
        assert(stack@ =~= stack_at(maps@, *tile));
        lemma_stack_covers(maps@, *tile);
    }
    if stack.len() == 0 {
        None
    } else {
        let leaf = LeafPlan { tile: *tile, maps: reversed(&stack), modified: newest_of(&stack) };
        proof {
            assert(leaf_at(maps@, *tile) =~= seq![leaf@]);
            assert forall|k: int| 0 <= k < leaf.maps@.len() implies (#[trigger] leaf.maps@[k]).tile.valid()
                && leaf.maps@[k].tile.covers(*tile) by {
                assert(leaf.maps@[k] == stack@[stack@.len() - 1 - k]);
            }
        }
        Some(leaf)
    }
}

/// Two maps on one leaf tile that no coarser map covers: the one that is
/// later in the order of maps is drawn first, so that its colours stay,
/// and the time of the leaf is the time of that map.
pub proof fn lemma_leaf_of_two(maps: Seq<PlacedMap>, t: Tile, a: MapItem, b: MapItem)
    requires
        sorted(maps),
        maps_on(maps, t) == seq![a, b],
        stack_above(maps, t).len() == 0,
    ensures
        a.key() < b.key(),
        leaf_at(maps, t) == seq![LeafView { tile: t, maps: seq![b, a], modified: b.modified }],
{
    lemma_maps_on_sorted(maps, t);
    let here = maps_on(maps, t);
    assert(here[0] == a && here[1] == b);
    assert(here[0].key() < here[1].key());
    crate::map::lemma_map_order(a, b);
    let stack = stack_at(maps, t);
    assert(stack =~= seq![a, b]) by {
        if t.zoom > 0 {
            assert(stack_at(maps, parent(t)) =~= Seq::<MapItem>::empty());
        }
    }
    assert(stack.reverse() =~= seq![b, a]);
    assert(stack.drop_last() =~= seq![a]);
    assert(newest(stack.drop_last()) == a.modified);
    assert(newest(stack) == b.modified);
}

/// The tile `n` levels up that covers `t`.
pub open spec fn up(t: Tile, n: nat) -> Tile
    decreases n,
{
    if n == 0 {
        t
    } else {
        parent(up(t, (n - 1) as nat))
    }
}

/// Going up from a valid tile gives valid tiles that cover it, as many
/// levels up as was gone.
pub proof fn lemma_up(t: Tile, n: nat)
    requires
        t.valid(),
        n <= t.zoom,
    ensures
        up(t, n).valid(),
        up(t, n).zoom == t.zoom - n,
        up(t, n).covers(t),
    decreases n,
{
    if n > 0 {
        lemma_up(t, (n - 1) as nat);
        lemma_parent_covers(up(t, (n - 1) as nat));
        lemma_covers_trans(up(t, n), up(t, (n - 1) as nat), t);
    }
}

/// A valid tile is one of the quadrants of its parent.
pub proof fn lemma_child_of_parent(t: Tile)
    requires
        t.valid(),
        t.zoom > 0,
    ensures
        exists|i: int| 0 <= i < 4 && #[trigger] parent(t).children()[i] == t,
{
    let p = parent(t);
    lemma_parent_covers(t);
    lemma_span_values();
    lemma_scaled(p.x as int, p.zoom as int);
    lemma_scaled(p.y as int, p.zoom as int);
    let c = p.children();
    if t.x == 2 * p.x {
        if t.y == 2 * p.y {
            assert(c[0] == t);
        } else {
            assert(c[1] == t);
        }
    } else {
        if t.y == 2 * p.y {
            assert(c[2] == t);
        } else {
            assert(c[3] == t);
        }
    }
}

/// Whether one of the leaves is the plan of the tile `leaf`.
pub open spec fn has_leaf(leaves: Seq<LeafView>, leaf: Tile) -> bool {
    exists|k: int| 0 <= k < leaves.len() && (#[trigger] leaves[k]).tile == leaf
}

/// Whether `leaf` is the plan of a leaf tile that `t` covers.
pub open spec fn leaf_under(maps: Seq<PlacedMap>, t: Tile, leaf: LeafView) -> bool {
    &&& leaf.tile.zoom == 4
    &&& leaf.tile.valid()
    &&& up(leaf.tile, (4 - t.zoom) as nat) == t
    &&& leaf_at(maps, leaf.tile) == seq![leaf]
}

/// A leaf under a quadrant of a tile is a leaf under the tile.
proof fn lemma_leaf_under(maps: Seq<PlacedMap>, t: Tile, i: int, leaf: LeafView)
    requires
        t.valid(),
        t.zoom < 4,
        0 <= i < 4,
        leaf_under(maps, t.children()[i], leaf),
    ensures
        leaf_under(maps, t, leaf),
        up(leaf.tile, (4 - t.zoom - 1) as nat) == t.children()[i],
{
    lemma_quadrant_of(t, i);
    lemma_parent(t, i);
}

/// The item at a place of four joined sequences.
proof fn lemma_part<T>(a: Seq<T>, b: Seq<T>, c: Seq<T>, d: Seq<T>, k: int)
    requires
        0 <= k < (a + b + c + d).len(),
    ensures
        ({
            let part = part_of(k, a.len() as int, b.len() as int, c.len() as int);
            let all = a + b + c + d;
            &&& part == 0 ==> 0 <= k < a.len() && all[k] == a[k]
            &&& part == 1 ==> 0 <= k - a.len() < b.len() && all[k] == b[k - a.len()]
            &&& part == 2 ==> 0 <= k - a.len() - b.len() < c.len() && all[k] == c[k - a.len()
                - b.len()]
            &&& part == 3 ==> 0 <= k - a.len() - b.len() - c.len() < d.len() && all[k] == d[k
                - a.len() - b.len() - c.len()]
        }),
{
}

/// The quadrants of a tile are four different tiles.
proof fn lemma_children_differ(t: Tile, a: int, b: int)
    requires
        t.valid(),
        t.zoom < 4,
        0 <= a < 4,
        0 <= b < 4,
        a != b,
    ensures
        t.children()[a] != t.children()[b],
{
    lemma_span_values();
    lemma_scaled(t.x as int, t.zoom as int);
    lemma_scaled(t.y as int, t.zoom as int);
}

/// The leaves below a tile are the plans of leaf tiles that the tile
/// covers, each the plan of its tile.
pub proof fn lemma_leaves_under(maps: Seq<PlacedMap>, t: Tile)
    requires
        t.valid(),
    ensures
        forall|k: int|
            0 <= k < leaves_below(maps, t).len() ==> leaf_under(
                maps,
                t,
                #[trigger] leaves_below(maps, t)[k],
            ),
    decreases 4 - t.zoom,
{
    let all = leaves_below(maps, t);
    if t.zoom >= 4 {
        assert forall|k: int| 0 <= k < all.len() implies leaf_under(maps, t, #[trigger] all[k]) by {
            assert(all =~= seq![all[0]]);
        }
    } else {
        let c = t.children();
        lemma_quadrant_of(t, 0);
        lemma_quadrant_of(t, 1);
        lemma_quadrant_of(t, 2);
        lemma_quadrant_of(t, 3);
        lemma_leaves_under(maps, c[0]);
        lemma_leaves_under(maps, c[1]);
        lemma_leaves_under(maps, c[2]);
        lemma_leaves_under(maps, c[3]);
        let l0 = leaves_below(maps, c[0]);
        let l1 = leaves_below(maps, c[1]);
        let l2 = leaves_below(maps, c[2]);
        let l3 = leaves_below(maps, c[3]);
        assert(all == l0 + l1 + l2 + l3);
        assert forall|k: int| 0 <= k < all.len() implies leaf_under(maps, t, #[trigger] all[k]) by {
            lemma_part(l0, l1, l2, l3, k);
            lemma_leaf_under(
                maps,
                t,
                part_of(k, l0.len() as int, l1.len() as int, l2.len() as int),
                all[k],
            );
        }
    }
}

/// Among the leaves below a tile no tile comes twice.
pub proof fn lemma_leaves_below(maps: Seq<PlacedMap>, t: Tile)
    requires
        t.valid(),
    ensures
        forall|k: int|
            0 <= k < leaves_below(maps, t).len() ==> leaf_under(
                maps,
                t,
                #[trigger] leaves_below(maps, t)[k],
            ),
        forall|i: int, j: int|
            0 <= i < j < leaves_below(maps, t).len() ==> (#[trigger] leaves_below(maps, t)[i]).tile
                != (#[trigger] leaves_below(maps, t)[j]).tile,
    decreases 4 - t.zoom,
{
    let all = leaves_below(maps, t);
    lemma_leaves_under(maps, t);
    if t.zoom < 4 {
        let c = t.children();
        lemma_quadrant_of(t, 0);
        lemma_quadrant_of(t, 1);
        lemma_quadrant_of(t, 2);
        lemma_quadrant_of(t, 3);
        let l0 = leaves_below(maps, c[0]);
        let l1 = leaves_below(maps, c[1]);
        let l2 = leaves_below(maps, c[2]);
        let l3 = leaves_below(maps, c[3]);
        assert(all == l0 + l1 + l2 + l3);
        assert forall|i: int, j: int| 0 <= i < j < all.len() implies (#[trigger] all[i]).tile != (
        #[trigger] all[j]).tile by {
            lemma_differ(maps, t, i, j);
        }
    }
}

/// Two leaves at different places below a tile are plans of different
/// tiles.
proof fn lemma_differ(maps: Seq<PlacedMap>, t: Tile, i: int, j: int)
    requires
        t.valid(),
        t.zoom < 4,
        0 <= i < j < leaves_below(maps, t).len(),
    ensures
        leaves_below(maps, t)[i].tile != leaves_below(maps, t)[j].tile,
    decreases 4 - t.zoom, 0int,
{
    let all = leaves_below(maps, t);
    let c = t.children();
    let l0 = leaves_below(maps, c[0]);
    let l1 = leaves_below(maps, c[1]);
    let l2 = leaves_below(maps, c[2]);
    let l3 = leaves_below(maps, c[3]);
    assert(all == l0 + l1 + l2 + l3);
    lemma_part(l0, l1, l2, l3, i);
    lemma_part(l0, l1, l2, l3, j);
    let a = part_of(i, l0.len() as int, l1.len() as int, l2.len() as int);
    let b = part_of(j, l0.len() as int, l1.len() as int, l2.len() as int);
    lemma_quadrant_of(t, a);
    lemma_quadrant_of(t, b);
    lemma_leaves_under(maps, c[a]);
    lemma_leaves_under(maps, c[b]);
    if a != b {
        lemma_leaf_under(maps, t, a, all[i]);
        lemma_leaf_under(maps, t, b, all[j]);
        lemma_children_differ(t, a, b);
    } else {
        lemma_same_part(maps, c[a], if a == 0 {
            i
        } else if a == 1 {
            i - l0.len()
        } else if a == 2 {
            i - l0.len() - l1.len()
        } else {
            i - l0.len() - l1.len() - l2.len()
        }, if a == 0 {
            j
        } else if a == 1 {
            j - l0.len()
        } else if a == 2 {
            j - l0.len() - l1.len()
        } else {
            j - l0.len() - l1.len() - l2.len()
        });
    }
}

/// Two leaves at different places below a tile of any level are plans of
/// different tiles.
proof fn lemma_same_part(maps: Seq<PlacedMap>, t: Tile, i: int, j: int)
    requires
        t.valid(),
        0 <= i < j < leaves_below(maps, t).len(),
    ensures
        leaves_below(maps, t)[i].tile != leaves_below(maps, t)[j].tile,
    decreases 4 - t.zoom, 1int,
{
    if t.zoom < 4 {
        lemma_differ(maps, t, i, j);
    }
}

/// The part of four joined sequences that the place `k` lies in.
pub open spec fn part_of(k: int, first: int, second: int, third: int) -> int {
    if k < first {
        0
    } else if k < first + second {
        1
    } else if k < first + second + third {
        2
    } else {
        3
    }
}

/// A leaf tile that a tile covers, and that a map covers, has its plan
/// among the leaves below the tile.
pub proof fn lemma_leaf_below(maps: Seq<PlacedMap>, t: Tile, leaf: Tile)
    requires
        t.valid(),
        leaf.valid(),
        leaf.zoom == 4,
        up(leaf, (4 - t.zoom) as nat) == t,
        stack_at(maps, leaf).len() > 0,
    ensures
        has_leaf(leaves_below(maps, t), leaf),
    decreases 4 - t.zoom,
{
    let all = leaves_below(maps, t);
    if t.zoom >= 4 {
        assert(all[0].tile == leaf);
    } else {
        let n = (4 - t.zoom) as nat;
        let m = up(leaf, (n - 1) as nat);
        lemma_up(leaf, (n - 1) as nat);
        lemma_child_of_parent(m);
        let i = choose|i: int| 0 <= i < 4 && #[trigger] parent(m).children()[i] == m;
        let c = t.children();
        lemma_quadrant_of(t, i);
        lemma_leaf_below(maps, c[i], leaf);
        let part = leaves_below(maps, c[i]);
        let k = choose|k: int| 0 <= k < part.len() && (#[trigger] part[k]).tile == leaf;
        let l0 = leaves_below(maps, c[0]);
        let l1 = leaves_below(maps, c[1]);
        let l2 = leaves_below(maps, c[2]);
        if i == 0 {
            assert(all[k] == part[k]);
        } else if i == 1 {
            assert(all[l0.len() + k] == part[k]);
        } else if i == 2 {
            assert(all[l0.len() + l1.len() + k] == part[k]);
        } else {
            assert(all[l0.len() + l1.len() + l2.len() + k] == part[k]);
        }
    }
}

/// The root tile that covers a tile is the root of that tile.
pub proof fn lemma_root_unique(t: Tile, r: Tile)
    requires
        t.valid(),
        r.valid(),
        r.zoom == 0,
        r.covers(t),
    ensures
        r == t.root_of(),
{
    lemma_span_values();
    lemma_scaled(r.x as int, 0);
    lemma_scaled(r.y as int, 0);
    lemma_scaled(t.x as int, t.zoom as int);
    lemma_scaled(t.y as int, t.zoom as int);
    vstd::arithmetic::div_mod::lemma_fundamental_div_mod_converse(
        t.origin().0,
        2048,
        r.x as int,
        t.origin().0 - 2048 * r.x,
    );
    vstd::arithmetic::div_mod::lemma_fundamental_div_mod_converse(
        t.origin().1,
        2048,
        r.y as int,
        t.origin().1 - 2048 * r.y,
    );
}

/// Where only one map is, the maps on a tile are that map, if it lies on
/// the tile, and else none.
pub proof fn lemma_maps_on_single(p: PlacedMap, t: Tile)
    ensures
        maps_on(seq![p], t) == if p.0.tile == t {
            seq![p.0]
        } else {
            Seq::<MapItem>::empty()
        },
{
    let maps = seq![p];
    assert(sorted(maps));
    lemma_maps_on(maps, t);
    let lo = rank(maps, floor_key(t));
    let hi = rank(maps, floor_key(t) + stride());
    let here = maps_on(maps, t);
    if p.0.tile == t {
        assert(maps[0].0.tile == t);
        assert(lo == 0 && hi == 1);
        assert(here =~= seq![p.0]);
    } else {
        assert(maps[0].0.tile != t);
        assert(lo == hi);
        assert(here =~= Seq::<MapItem>::empty());
    }
}

/// Where only one map is, and that on a leaf tile, it covers that tile and
/// no other.
pub proof fn lemma_stack_single(p: PlacedMap, t: Tile)
    requires
        p.0.tile.zoom == 4,
        t.zoom <= 4,
    ensures
        stack_at(seq![p], t) == if p.0.tile == t {
            seq![p.0]
        } else {
            Seq::<MapItem>::empty()
        },
    decreases t.zoom,
{
    lemma_maps_on_single(p, t);
    if t.zoom > 0 {
        lemma_stack_single(p, parent(t));
        assert(stack_at(seq![p], parent(t)) =~= Seq::<MapItem>::empty());
        assert(stack_at(seq![p], t) =~= maps_on(seq![p], t));
    }
}

/// One map on a leaf tile: below the root of that tile, the one leaf that
/// is planned is this tile, with this map alone and its time.
pub proof fn lemma_single_map(p: PlacedMap)
    requires
        p.0.tile.valid(),
        p.0.tile.zoom == 4,
    ensures
        leaves_below(seq![p], p.0.tile.root_of()) == seq![
            LeafView { tile: p.0.tile, maps: seq![p.0], modified: p.0.modified },
        ],
{
    let maps = seq![p];
    let tile = p.0.tile;
    let root = tile.root_of();
    let all = leaves_below(maps, root);
    crate::tile::lemma_root_valid(tile);
    lemma_up(tile, 4);
    lemma_root_unique(tile, up(tile, 4));
    lemma_stack_single(p, tile);
    lemma_leaves_below(maps, root);
    lemma_leaf_below(maps, root, tile);
    assert forall|k: int| 0 <= k < all.len() implies (#[trigger] all[k]).tile == tile by {
        let leaf = all[k];
        assert(leaf_under(maps, root, leaf));
        lemma_stack_single(p, leaf.tile);
        assert(leaf_at(maps, leaf.tile) == seq![leaf]);
        assert(leaf_at(maps, leaf.tile).len() == 1);
    }
    if all.len() > 1 {
        assert(all[0].tile != all[1].tile);
    }
    assert(all.len() == 1);
    assert(leaf_under(maps, root, all[0]));
    assert(leaf_at(maps, tile) == seq![all[0]]);
    assert(seq![p.0].reverse() =~= seq![p.0]);
    assert(leaf_at(maps, tile)[0] == all[0]);
    assert(all =~= seq![LeafView { tile, maps: seq![p.0], modified: p.0.modified }]);
}

/// A map on a leaf tile and a map on the tile one level up, and no other
/// map that covers the leaf tile: the map on the leaf tile is drawn first,
/// whichever of the two changed last, and the time of the leaf is the
/// later of their times.
pub proof fn lemma_leaf_under_coarser(maps: Seq<PlacedMap>, t: Tile, a: MapItem, b: MapItem)
    requires
        t.zoom == 4,
        maps_on(maps, t) == seq![a],
        maps_on(maps, parent(t)) == seq![b],
        stack_above(maps, parent(t)).len() == 0,
    ensures
        leaf_at(maps, t) == seq![
            LeafView {
                tile: t,
                maps: seq![a, b],
                modified: if b.modified.nanos < a.modified.nanos {
                    a.modified
                } else {
                    b.modified
                },
            },
        ],
{
    let p = parent(t);
    assert(stack_at(maps, p) =~= seq![b]) by {
        if p.zoom > 0 {
            assert(stack_at(maps, parent(p)) =~= Seq::<MapItem>::empty());
        }
    }
    let stack = stack_at(maps, t);
    assert(stack =~= seq![b, a]);
    assert(stack.reverse() =~= seq![a, b]);
    assert(stack.drop_last() =~= seq![b]);
    assert(newest(stack.drop_last()) == b.modified);
}

/// Where no map lies on a tile of the zoom of `t` or above it, no map
/// covers the levels down to `t`.
pub proof fn lemma_stack_none(maps: Seq<PlacedMap>, t: Tile)
    requires
        sorted(maps),
        forall|i: int| 0 <= i < maps.len() ==> (#[trigger] maps[i]).0.tile.zoom > t.zoom,
    ensures
        stack_at(maps, t).len() == 0,
    decreases t.zoom,
{
    lemma_maps_on(maps, t);
    let lo = rank(maps, floor_key(t));
    let hi = rank(maps, floor_key(t) + stride());
    if lo < hi {
        assert(maps[lo].0.tile == t);
    }
    if t.zoom > 0 {
        lemma_stack_none(maps, parent(t));
    }
}

/// A map on a leaf tile and a map on the tile one level up, as a scan
/// holds them: the coarser map first, each alone on its tile, and nothing
/// above.
proof fn lemma_two_placed(fine: MapItem, coarse: MapItem)
    requires
        fine.tile.valid(),
        fine.tile.zoom == 4,
        coarse.tile == parent(fine.tile),
    ensures
        ({
            let maps = inserted(seq![PlacedMap(fine)], PlacedMap(coarse));
            &&& maps == seq![PlacedMap(coarse), PlacedMap(fine)]
            &&& sorted(maps)
            &&& maps_on(maps, fine.tile) == seq![fine]
            &&& maps_on(maps, coarse.tile) == seq![coarse]
            &&& stack_at(maps, coarse.tile) == seq![coarse]
        }),
{
    let pf = PlacedMap(fine);
    let pc = PlacedMap(coarse);
    let t = fine.tile;
    let p = coarse.tile;
    lemma_tile_order(p, t);
    lemma_placed_order(pc, pf);
    assert(pc.key() < pf.key());
    assert(sorted(seq![pf]));
    lemma_rank(seq![pf], pc.key());
    assert(!crate::sorted::has_key(seq![pf], pc.key())) by {
        if crate::sorted::has_key(seq![pf], pc.key()) {
            let i = choose|i: int| 0 <= i < 1 && (#[trigger] seq![pf][i]).key() == pc.key();
            assert(seq![pf][i] == pf);
        }
    }
    assert(rank(seq![pf], pc.key()) == 0) by {
        if rank(seq![pf], pc.key()) > 0 {
            assert(seq![pf][0].key() < pc.key());
        }
    }
    let maps = inserted(seq![pf], pc);
    assert(maps =~= seq![pc, pf]);
    assert(sorted(maps)) by {
        assert forall|i: int, j: int| 0 <= i < j < maps.len() implies (#[trigger] maps[i]).key() < (
        #[trigger] maps[j]).key() by {
            assert(maps[i] == pc && maps[j] == pf);
        }
    }
    lemma_maps_on(maps, t);
    lemma_maps_on(maps, p);
    assert(maps[0].0.tile == p && maps[1].0.tile == t);
    assert(maps_on(maps, t) =~= seq![fine]) by {
        assert(rank(maps, floor_key(t)) == 1 && rank(maps, floor_key(t) + stride()) == 2);
    }
    assert(maps_on(maps, p) =~= seq![coarse]) by {
        assert(rank(maps, floor_key(p)) == 0 && rank(maps, floor_key(p) + stride()) == 1);
    }
    assert(stack_at(maps, p) =~= seq![coarse]) by {
        if p.zoom > 0 {
            lemma_stack_none(maps, parent(p));
            assert(stack_at(maps, parent(p)) =~= Seq::<MapItem>::empty());
        }
    }
}

/// The scan of a map on a leaf tile and of a map on the tile one level up:
/// the leaf tile is planned with the finer map drawn first, whichever of
/// the two changed last.
pub proof fn lemma_stacked_maps(fine: MapItem, coarse: MapItem)
    requires
        fine.tile.valid(),
        fine.tile.zoom == 4,
        coarse.tile == parent(fine.tile),
    ensures
        leaf_at(inserted(seq![PlacedMap(fine)], PlacedMap(coarse)), fine.tile) == seq![
            LeafView {
                tile: fine.tile,
                maps: seq![fine, coarse],
                modified: if coarse.modified.nanos < fine.modified.nanos {
                    fine.modified
                } else {
                    coarse.modified
                },
            },
        ],
        inserted(seq![PlacedMap(fine)], PlacedMap(coarse)) == seq![
            PlacedMap(coarse),
            PlacedMap(fine),
        ],
{
    lemma_two_placed(fine, coarse);
    let maps = inserted(seq![PlacedMap(fine)], PlacedMap(coarse));
    lemma_leaf_under_coarser(maps, fine.tile, fine, coarse);
}

/// The scan of a map on a leaf tile and of a map on the tile one level up:
/// every other leaf tile below the coarser map is planned with the coarser
/// map alone, and with its time.
pub proof fn lemma_beside_stacked(fine: MapItem, coarse: MapItem, other: Tile)
    requires
        fine.tile.valid(),
        fine.tile.zoom == 4,
        coarse.tile == parent(fine.tile),
        other.zoom == 4,
        parent(other) == coarse.tile,
        other != fine.tile,
    ensures
        leaf_at(inserted(seq![PlacedMap(fine)], PlacedMap(coarse)), other) == seq![
            LeafView { tile: other, maps: seq![coarse], modified: coarse.modified },
        ],
{
    lemma_two_placed(fine, coarse);
    let maps = inserted(seq![PlacedMap(fine)], PlacedMap(coarse));
    lemma_maps_on(maps, other);
    let lo = rank(maps, floor_key(other));
    let hi = rank(maps, floor_key(other) + stride());
    if lo < hi {
        assert(maps[lo].0.tile == other);
    }
    assert(maps_on(maps, other) =~= Seq::<MapItem>::empty());
    let stack = stack_at(maps, other);
    assert(stack =~= seq![coarse]);
    assert(stack.reverse() =~= seq![coarse]);
}

/// Going up by steps is going up by their sum.
pub proof fn lemma_up_up(t: Tile, a: nat, b: nat)
    ensures
        up(up(t, a), b) == up(t, a + b),
    decreases b,
{
    if b > 0 {
        lemma_up_up(t, a, (b - 1) as nat);
    }
}

/// Where every leaf tile that a map covers lies below `target`, and
/// `target` in turn below `t`, the leaves below `t` are those below
/// `target`.
pub proof fn lemma_only_below(maps: Seq<PlacedMap>, t: Tile, target: Tile)
    requires
        t.valid(),
        target.valid(),
        t.zoom <= target.zoom,
        up(target, (target.zoom - t.zoom) as nat) == t,
        forall|l: Tile|
            l.valid() && l.zoom == 4 && (#[trigger] stack_at(maps, l)).len() > 0 ==> up(
                l,
                (4 - target.zoom) as nat,
            ) == target,
    ensures
        leaves_below(maps, t) == leaves_below(maps, target),
    decreases target.zoom - t.zoom,
{
    if t.zoom < target.zoom {
        let n = (target.zoom - t.zoom - 1) as nat;
        let m = up(target, n);
        lemma_up(target, n);
        lemma_child_of_parent(m);
        let i = choose|i: int| 0 <= i < 4 && #[trigger] parent(m).children()[i] == m;
        let c = t.children();
        lemma_quadrant_of(t, i);
        assert forall|j: int| 0 <= j < 4 && j != i implies #[trigger] leaves_below(maps, c[j])
            =~= Seq::<LeafView>::empty() by {
            let part = leaves_below(maps, c[j]);
            lemma_quadrant_of(t, j);
            if part.len() > 0 {
                lemma_leaves_below(maps, c[j]);
                let leaf = part[0];
                assert(leaf_under(maps, c[j], leaf));
                assert(leaf_at(maps, leaf.tile).len() == 1);
                assert(stack_at(maps, leaf.tile).len() > 0);
                lemma_up_up(leaf.tile, (4 - target.zoom) as nat, n);
                lemma_children_differ(t, i, j);
            }
        }
        assert(leaves_below(maps, c[0]) + leaves_below(maps, c[1]) + leaves_below(maps, c[2])
            + leaves_below(maps, c[3]) =~= leaves_below(maps, c[i]));
        lemma_only_below(maps, c[i], target);
    }
}

/// The plan of a leaf tile below the coarser of two stacked maps: the tile
/// of the finer map shows that map first, the others show the coarser map
/// alone.
pub open spec fn stacked_leaf(fine: MapItem, coarse: MapItem, tile: Tile) -> LeafView {
    if tile == fine.tile {
        LeafView {
            tile,
            maps: seq![fine, coarse],
            modified: if coarse.modified.nanos < fine.modified.nanos {
                fine.modified
            } else {
                coarse.modified
            },
        }
    } else {
        LeafView { tile, maps: seq![coarse], modified: coarse.modified }
    }
}

/// The scan of a map on a leaf tile and of a map on the tile one level up:
/// below the root of the two, the leaves that are planned are the four
/// leaf tiles below the coarser map, quadrant by quadrant. The tile of the
/// finer map shows the finer map first, whichever of the two changed
/// last, and the three others show the coarser map alone.
pub proof fn lemma_stacked_root(fine: MapItem, coarse: MapItem)
    requires
        fine.tile.valid(),
        fine.tile.zoom == 4,
        coarse.tile == parent(fine.tile),
    ensures
        leaves_below(
            inserted(seq![PlacedMap(fine)], PlacedMap(coarse)),
            fine.tile.root_of(),
        ) == Seq::new(
            4,
            |i: int| stacked_leaf(fine, coarse, coarse.tile.children()[i]),
        ),
{
    let maps = inserted(seq![PlacedMap(fine)], PlacedMap(coarse));
    let t = fine.tile;
    let p = coarse.tile;
    let root = t.root_of();
    let c = p.children();
    lemma_two_placed(fine, coarse);
    crate::tile::lemma_root_valid(t);
    lemma_up(t, 1);
    lemma_up(t, 4);
    lemma_root_unique(t, up(t, 4));
    lemma_up_up(t, 1, 3);
    assert(up(t, 1) == p) by {
        reveal_with_fuel(up, 2);
    }
    assert forall|l: Tile|
        l.valid() && l.zoom == 4 && (#[trigger] stack_at(maps, l)).len() > 0 implies up(l, 1)
        == p by {
        reveal_with_fuel(up, 2);
        if parent(l) != p {
            lemma_maps_on(maps, l);
            lemma_maps_on(maps, parent(l));
            let lo = rank(maps, floor_key(l));
            if lo < rank(maps, floor_key(l) + stride()) {
                assert(maps[lo].0.tile == l);
            }
            let lo = rank(maps, floor_key(parent(l)));
            if lo < rank(maps, floor_key(parent(l)) + stride()) {
                assert(maps[lo].0.tile == parent(l));
            }
            lemma_stack_none(maps, parent(parent(l)));
            assert(stack_at(maps, parent(l)) =~= Seq::<MapItem>::empty());
            assert(stack_at(maps, l) =~= Seq::<MapItem>::empty());
        }
    }
    lemma_only_below(maps, root, p);
    assert forall|i: int| 0 <= i < 4 implies leaf_at(maps, #[trigger] c[i]) == seq![
        stacked_leaf(fine, coarse, c[i]),
    ] by {
        lemma_quadrant_of(p, i);
        lemma_parent(p, i);
        if c[i] == t {
            lemma_stacked_maps(fine, coarse);
        } else {
            lemma_beside_stacked(fine, coarse, c[i]);
        }
    }
    assert(leaves_below(maps, p) == leaf_at(maps, c[0]) + leaf_at(maps, c[1]) + leaf_at(
        maps,
        c[2],
    ) + leaf_at(maps, c[3])) by {
        lemma_quadrant_of(p, 0);
        lemma_quadrant_of(p, 1);
        lemma_quadrant_of(p, 2);
        lemma_quadrant_of(p, 3);
        reveal_with_fuel(leaves_below, 2);
    }
    assert(leaves_below(maps, p) =~= Seq::new(
        4,
        |i: int| stacked_leaf(fine, coarse, coarse.tile.children()[i]),
    ));
}

/// The scan of one map file with a map on a leaf tile: one root tile is
/// to be rendered, and below it the one leaf that is planned is the tile
/// of the map, with this map alone and its time. A map without banners
/// leaves the time of the banners unknown, so that no list of banners is
/// written.
pub proof fn lemma_single_map_scan(entry: crate::scan::MapEntry)
    requires
        crate::scan::placed_of(entry) is Some,
        crate::scan::placed_of(entry).unwrap().0.tile.valid(),
        crate::scan::placed_of(entry).unwrap().0.tile.zoom == 4,
    ensures
        ({
            let scan = crate::scan::scan_of(seq![entry]);
            let map = crate::scan::placed_of(entry).unwrap().0;
            &&& scan.root_tiles == seq![map.tile.root_of()]
            &&& leaves_below(scan.maps, map.tile.root_of()) == seq![
                LeafView { tile: map.tile, maps: seq![map], modified: map.modified },
            ]
            &&& crate::scan::banners_in(entry).len() == 0 ==> scan.banners_modified is None
        }),
{
    crate::scan::lemma_scan_of_one(entry);
    lemma_single_map(crate::scan::placed_of(entry)->0);
}

/// The scan of two map files, a map on a leaf tile and then a map on the
/// tile one level up: one root tile is to be rendered, and below it the
/// four leaf tiles below the coarser map, quadrant by quadrant, the tile
/// of the finer map with the finer map first.
pub proof fn lemma_stacked_scan(fine: crate::scan::MapEntry, coarse: crate::scan::MapEntry)
    requires
        crate::scan::placed_of(fine) is Some,
        crate::scan::placed_of(coarse) is Some,
        crate::scan::placed_of(fine).unwrap().0.tile.valid(),
        crate::scan::placed_of(fine).unwrap().0.tile.zoom == 4,
        crate::scan::placed_of(coarse).unwrap().0.tile == parent(
            crate::scan::placed_of(fine).unwrap().0.tile,
        ),
    ensures
        ({
            let scan = crate::scan::scan_of(seq![fine, coarse]);
            let a = crate::scan::placed_of(fine).unwrap().0;
            let b = crate::scan::placed_of(coarse).unwrap().0;
            &&& scan.root_tiles == seq![a.tile.root_of()]
            &&& leaves_below(scan.maps, a.tile.root_of()) == Seq::new(
                4,
                |i: int| stacked_leaf(a, b, b.tile.children()[i]),
            )
        }),
{
    let entries = seq![fine, coarse];
    let a = crate::scan::placed_of(fine).unwrap().0;
    let b = crate::scan::placed_of(coarse).unwrap().0;
    crate::scan::lemma_scan_of_one(fine);
    assert(entries.drop_last() =~= seq![fine]);
    assert(entries.last() == coarse);
    assert(crate::scan::scan_of(entries) == crate::scan::scan_of(seq![fine]).with_entry(coarse)) by {
        reveal_with_fuel(crate::scan::scan_of, 2);
    }
    assert(crate::scan::scan_of(entries).maps == inserted(seq![PlacedMap(a)], PlacedMap(b)));
    let root = a.tile.root_of();
    lemma_parent_covers(a.tile);
    crate::tile::lemma_root_valid(a.tile);
    crate::tile::lemma_root_valid(b.tile);
    lemma_up(a.tile, 4);
    lemma_root_unique(a.tile, up(a.tile, 4));
    lemma_up(b.tile, 3);
    lemma_up_up(a.tile, 1, 3);
    assert(up(a.tile, 1) == b.tile) by {
        reveal_with_fuel(up, 2);
    }
    lemma_root_unique(b.tile, up(b.tile, 3));
    assert(b.tile.root_of() == root);
    assert(seq![root][0].key() == root.key());
    assert(crate::sorted::has_key(seq![root], root.key()));
    lemma_stacked_root(a, b);
}

} // verus!
