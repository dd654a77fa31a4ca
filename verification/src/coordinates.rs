//! Tiles of the XYZ ("slippy map") scheme and the tiles that a metatile covers.
use vstd::prelude::*;

verus! {

/// A map tile: column `x`, row `y` at zoom level `zoom`.
#[derive(Clone, Copy, Debug, PartialEq, Eq, Structural)]
pub struct Tile {
    pub x: u32,
    pub y: u32,
    pub zoom: u32,
}

/// `n` doubled `levels` times, that is `n * 2^levels`.
pub open spec fn scale_up(n: int, levels: nat) -> int
    decreases levels,
{
    if levels == 0 {
        n
    } else {
        2 * scale_up(n, (levels - 1) as nat)
    }
}

/// Number of tiles in a complete quadtree of `levels` levels below its root:
/// `1 + 4 + ... + 4^levels`.
pub open spec fn tree_size(levels: nat) -> nat
    decreases levels,
{
    if levels == 0 {
        1
    } else {
        1 + 4 * tree_size((levels - 1) as nat)
    }
}

/// How many zoom levels below `t` the descent to `target_zoom` goes.
pub open spec fn descent(t: Tile, target_zoom: u32) -> nat {
    if target_zoom > t.zoom {
        (target_zoom - t.zoom) as nat
    } else {
        0
    }
}

/// Quadrant `q` (0..4) of `t` one zoom level down: top-left, top-right,
/// bottom-right, bottom-left.
pub open spec fn quadrant(t: Tile, q: int) -> Tile {
    Tile {
        x: (2 * t.x + quadrant_dx(q)) as u32,
        y: (2 * t.y + quadrant_dy(q)) as u32,
        zoom: (t.zoom + 1) as u32,
    }
}

/// Column offset of quadrant `q` within its parent.
pub open spec fn quadrant_dx(q: int) -> int {
    if q == 1 || q == 2 { 1 } else { 0 }
}

/// Row offset of quadrant `q` within its parent.
pub open spec fn quadrant_dy(q: int) -> int {
    if q == 2 || q == 3 { 1 } else { 0 }
}

/// `tiles` lists a quadtree breadth first: the tile at index `j > 0` is
/// quadrant `(j - 1) % 4` of the tile at index `(j - 1) / 4`.
pub open spec fn is_quadtree_listing(tiles: Seq<Tile>) -> bool {
    forall|j: int| 1 <= j < tiles.len() ==> #[trigger] tiles[j] == quadrant(tiles[(j - 1) / 4], (j - 1) % 4)
}

/// The tile at index `j` of the breadth-first listing of the quadtree under
/// `root`: the root itself at index 0, and quadrant `(j - 1) % 4` of the tile
/// at index `(j - 1) / 4` elsewhere.
pub open spec fn listed_tile(root: Tile, j: nat) -> Tile
    decreases j,
{
    if j == 0 {
        root
    } else {
        quadrant(listed_tile(root, ((j - 1) / 4) as nat), (j - 1) % 4)
    }
}

/// The tiles under `t` down to `target_zoom`, breadth first, `t` included.
pub open spec fn descendants(t: Tile, target_zoom: u32) -> Seq<Tile> {
    Seq::new(tree_size(descent(t, target_zoom)), |j: int| listed_tile(t, j as nat))
}

/// `c` lies inside metatile `m`: `c` is at `m`'s zoom level or deeper, and its
/// column and row fall within the span of `m` at `c`'s zoom level.
pub open spec fn covers(m: Tile, c: Tile) -> bool {
    &&& m.zoom <= c.zoom
    &&& scale_up(m.x as int, (c.zoom - m.zoom) as nat) <= c.x < scale_up(m.x + 1, (c.zoom - m.zoom) as nat)
    &&& scale_up(m.y as int, (c.zoom - m.zoom) as nat) <= c.y < scale_up(m.y + 1, (c.zoom - m.zoom) as nat)
}

/// The descendants of `t` down to `target_zoom` fit the machine: their
/// columns and rows fit in `u32` and their number in `usize`.
pub open spec fn descent_fits(t: Tile, target_zoom: u32) -> bool {
    &&& scale_up(t.x + 1, descent(t, target_zoom)) <= 0x1_0000_0000
    &&& scale_up(t.y + 1, descent(t, target_zoom)) <= 0x1_0000_0000
    &&& tree_size(descent(t, target_zoom)) <= usize::MAX
}

/// Doubling more times gives no less.
pub proof fn lemma_scale_up_monotonic(n: int, k: nat, d: nat)
    requires
        k <= d,
        n >= 0,
    ensures
        0 <= scale_up(n, k) <= scale_up(n, d),
    decreases d,
{
    if k < d {
        lemma_scale_up_monotonic(n, k, (d - 1) as nat);
    } else if k > 0 {
        lemma_scale_up_monotonic(n, (k - 1) as nat, (k - 1) as nat);
    }
}

impl Tile {
    /// All tiles from this tile's zoom level down to `target_zoom`, listed
    /// level by level: first this tile, then its four quadrants, then their
    /// sixteen, and so on. When `target_zoom` is not below this tile's zoom
    /// the list holds this tile alone.
    pub fn children(&self, target_zoom: u32) -> (tiles: Vec<Tile>)
        requires
            descent_fits(*self, target_zoom),
        ensures
            tiles@ == descendants(*self, target_zoom),
    {
        let mut tiles: Vec<Tile> = Vec::new();
        tiles.push(*self);
        if target_zoom <= self.zoom {
            proof {
                lemma_listing_matches(tiles@, *self);
            }
            return tiles;
        }
        let levels: u32 = target_zoom - self.zoom;
        let ghost d = levels as nat;
        let ghost root = *self;
        // The tiles of the current level are tiles[start..end].
        let mut start: usize = 0;
        let mut end: usize = 1;
        let mut level: u32 = 0;
        while level < levels
            invariant
                d == levels as nat,
                root == *self,
                d == descent(root, target_zoom),
                descent_fits(root, target_zoom),
                level <= levels,
                end == tree_size(level as nat),
                end == 1 + 4 * start,
                tiles@.len() == end,
                tiles@[0] == root,
                is_quadtree_listing(tiles@),
                forall|j: int| start <= j < end ==> {
                    &&& (#[trigger] tiles@[j]).zoom == root.zoom + level
                    &&& tiles@[j].x < scale_up(root.x + 1, level as nat)
                    &&& tiles@[j].y < scale_up(root.y + 1, level as nat)
                },
            decreases levels - level,
        {
            proof {
                lemma_scale_up_monotonic(root.x + 1, (level + 1) as nat, d);
                lemma_scale_up_monotonic(root.y + 1, (level + 1) as nat, d);
                lemma_tree_size_monotonic((level + 1) as nat, d);
            }
            let mut p: usize = start;
            while p < end
                invariant
                    start <= p <= end,
                    end == 1 + 4 * start,
                    (level as nat) < d,
                    root.zoom + level < target_zoom,
                    tree_size((level + 1) as nat) <= usize::MAX,
                    tree_size((level + 1) as nat) == 1 + 4 * end,
                    scale_up(root.x + 1, (level + 1) as nat) <= 0x1_0000_0000,
                    scale_up(root.y + 1, (level + 1) as nat) <= 0x1_0000_0000,
                    tiles@.len() == 1 + 4 * p,
                    tiles@[0] == root,
                    is_quadtree_listing(tiles@),
                    forall|j: int| start <= j < end ==> {
                        &&& (#[trigger] tiles@[j]).zoom == root.zoom + level
                        &&& tiles@[j].x < scale_up(root.x + 1, level as nat)
                        &&& tiles@[j].y < scale_up(root.y + 1, level as nat)
                    },
                    forall|j: int| end <= j < tiles@.len() ==> {
                        &&& (#[trigger] tiles@[j]).zoom == root.zoom + level + 1
                        &&& tiles@[j].x < scale_up(root.x + 1, (level + 1) as nat)
                        &&& tiles@[j].y < scale_up(root.y + 1, (level + 1) as nat)
                    },
                decreases end - p,
            {
                let t = tiles[p];
                let x2 = t.x * 2;
                let y2 = t.y * 2;
                let z = t.zoom + 1;
                let ghost before = tiles@;
                tiles.push(Tile { x: x2, y: y2, zoom: z });
                tiles.push(Tile { x: x2 + 1, y: y2, zoom: z });
                tiles.push(Tile { x: x2 + 1, y: y2 + 1, zoom: z });
                tiles.push(Tile { x: x2, y: y2 + 1, zoom: z });
                proof {
                    assert forall|j: int| 1 <= j < tiles@.len() implies #[trigger] tiles@[j]
                        == quadrant(tiles@[(j - 1) / 4], (j - 1) % 4) by {
                        if j < before.len() {
                            assert(tiles@[j] == before[j]);
                            assert(before[j] == quadrant(before[(j - 1) / 4], (j - 1) % 4));
                        } else {
                            assert((j - 1) / 4 == p);
                        }
                    }
                }
                p = p + 1;
            }
            start = end;
            end = tiles.len();
            level = level + 1;
        }
        proof {
            lemma_listing_matches(tiles@, *self);
        }
        tiles
    }
}

proof fn lemma_listing_at(s: Seq<Tile>, root: Tile, j: int)
    requires
        s.len() > 0,
        s[0] == root,
        is_quadtree_listing(s),
        0 <= j < s.len(),
    ensures
        s[j] == listed_tile(root, j as nat),
    decreases j,
{
    if j > 0 {
        lemma_listing_at(s, root, (j - 1) / 4);
        assert(s[j] == quadrant(s[(j - 1) / 4], (j - 1) % 4));
    }
}

proof fn lemma_listing_matches(s: Seq<Tile>, root: Tile)
    requires
        s.len() > 0,
        s[0] == root,
        is_quadtree_listing(s),
    ensures
        s == Seq::new(s.len(), |j: int| listed_tile(root, j as nat)),
{
    assert forall|j: int| 0 <= j < s.len() implies s[j] == listed_tile(root, j as nat) by {
        lemma_listing_at(s, root, j);
    }
    assert(s =~= Seq::new(s.len(), |j: int| listed_tile(root, j as nat)));
}

/// Whether `n` doubled `levels` times stays within `2^32`.
fn scaled_fits(n: u64, levels: u32) -> (ok: bool)
    requires
        1 <= n <= 0x1_0000_0000,
    ensures
        ok == (scale_up(n as int, levels as nat) <= 0x1_0000_0000),
{
    let mut v: u64 = n;
    let mut k: u32 = 0;
    while k < levels
        invariant
            k <= levels,
            1 <= n <= 0x1_0000_0000,
            v == scale_up(n as int, k as nat),
            v <= 0x1_0000_0000,
        decreases levels - k,
    {
        if v > 0x8000_0000 {
            proof {
                lemma_scale_up_monotonic(n as int, (k + 1) as nat, levels as nat);
            }
            return false;
        }
        v = v * 2;
        k = k + 1;
    }
    true
}

/// Whether `tree_size(levels)` fits in `usize`.
fn tree_size_fits(levels: u32) -> (ok: bool)
    ensures
        ok == (tree_size(levels as nat) <= usize::MAX),
{
    let mut t: usize = 1;
    let mut k: u32 = 0;
    while k < levels
        invariant
            k <= levels,
            t == tree_size(k as nat),
        decreases levels - k,
    {
        if t > (usize::MAX - 1) / 4 {
            proof {
                lemma_tree_size_monotonic((k + 1) as nat, levels as nat);
            }
            return false;
        }
        t = 1 + 4 * t;
        k = k + 1;
    }
    true
}

impl Tile {
    /// Whether the tiles down to `target_zoom` fit the machine, so that
    /// `children` may be called.
    pub fn children_fit(&self, target_zoom: u32) -> (ok: bool)
        ensures
            ok == descent_fits(*self, target_zoom),
    {
        let levels: u32 = if target_zoom > self.zoom { target_zoom - self.zoom } else { 0 };
        scaled_fits(self.x as u64 + 1, levels) && scaled_fits(self.y as u64 + 1, levels) && tree_size_fits(levels)
    }
}

/// A quadtree holds at least its root.
pub proof fn lemma_tree_size_positive(k: nat)
    ensures
        tree_size(k) >= 1,
{
    lemma_tree_size_step(k);
}

/// A deeper quadtree holds no fewer tiles.
pub proof fn lemma_tree_size_monotonic(k: nat, d: nat)
    requires
        k <= d,
    ensures
        tree_size(k) <= tree_size(d),
    decreases d,
{
    if k < d {
        lemma_tree_size_monotonic(k, (d - 1) as nat);
    }
}


/// Number of levels between the root and index `j` of a breadth-first
/// quadtree listing.
pub open spec fn level_of(j: nat) -> nat
    decreases j,
{
    if j == 0 {
        0
    } else {
        1 + level_of(((j - 1) / 4) as nat)
    }
}

/// First index of level `k` in a breadth-first quadtree listing.
pub open spec fn level_start(k: nat) -> nat {
    if k == 0 {
        0
    } else {
        tree_size((k - 1) as nat)
    }
}

proof fn lemma_tree_size_step(k: nat)
    ensures
        tree_size(k) == 4 * level_start(k) + 1,
        tree_size(k) >= 1,
    decreases k,
{
    if k > 0 {
        lemma_tree_size_step((k - 1) as nat);
    }
}

/// Bounds that keep every tile under `root`, down to `levels` levels below
/// it, representable.
pub open spec fn levels_fit(root: Tile, levels: nat) -> bool {
    &&& root.zoom + levels <= u32::MAX
    &&& scale_up(root.x + 1, levels) <= 0x1_0000_0000
    &&& scale_up(root.y + 1, levels) <= 0x1_0000_0000
}

proof fn lemma_listed_tile_facts(root: Tile, d: nat, j: nat)
    requires
        levels_fit(root, d),
        j < tree_size(d),
    ensures
        level_of(j) <= d,
        level_start(level_of(j)) <= j < tree_size(level_of(j)),
        listed_tile(root, j).zoom == root.zoom + level_of(j),
        scale_up(root.x as int, level_of(j)) <= listed_tile(root, j).x < scale_up(root.x + 1, level_of(j)),
        scale_up(root.y as int, level_of(j)) <= listed_tile(root, j).y < scale_up(root.y + 1, level_of(j)),
        j > 0 ==> listed_tile(root, j).x == 2 * listed_tile(root, ((j - 1) / 4) as nat).x + quadrant_dx((j - 1) % 4),
        j > 0 ==> listed_tile(root, j).y == 2 * listed_tile(root, ((j - 1) / 4) as nat).y + quadrant_dy((j - 1) % 4),
        j > 0 ==> level_of(j) == level_of(((j - 1) / 4) as nat) + 1,
    decreases j,
{
    lemma_tree_size_step(0);
    if j > 0 {
        let p = ((j - 1) / 4) as nat;
        let q = (j - 1) % 4;
        lemma_listed_tile_facts(root, d, p);
        let k = level_of(p);
        lemma_tree_size_step(k);
        lemma_tree_size_step(k + 1);
        if k == d {
            assert(j >= tree_size(d));
        }
        lemma_scale_up_monotonic(root.x + 1, k + 1, d);
        lemma_scale_up_monotonic(root.y + 1, k + 1, d);
        let tp = listed_tile(root, p);
        assert(listed_tile(root, j) == quadrant(tp, q));
    }
}

proof fn lemma_covered_tile_index(root: Tile, c: Tile) -> (j: nat)
    requires
        covers(root, c),
    ensures
        level_start((c.zoom - root.zoom) as nat) <= j < tree_size((c.zoom - root.zoom) as nat),
        listed_tile(root, j) == c,
    decreases c.zoom - root.zoom,
{
    let k = (c.zoom - root.zoom) as nat;
    if k == 0 {
        lemma_tree_size_step(0);
        0
    } else {
        let pc = Tile { x: c.x / 2, y: c.y / 2, zoom: (c.zoom - 1) as u32 };
        assert(scale_up(root.x as int, k) == 2 * scale_up(root.x as int, (k - 1) as nat));
        assert(scale_up(root.x + 1, k) == 2 * scale_up(root.x + 1, (k - 1) as nat));
        assert(scale_up(root.y as int, k) == 2 * scale_up(root.y as int, (k - 1) as nat));
        assert(scale_up(root.y + 1, k) == 2 * scale_up(root.y + 1, (k - 1) as nat));
        let jp = lemma_covered_tile_index(root, pc);
        let q: int = if c.x % 2 == 0 {
            if c.y % 2 == 0 { 0 } else { 3 }
        } else {
            if c.y % 2 == 0 { 1 } else { 2 }
        };
        let j = (4 * jp + 1 + q) as nat;
        lemma_tree_size_step((k - 1) as nat);
        lemma_tree_size_step(k);
        assert((j - 1) / 4 == jp);
        assert((j - 1) % 4 == q);
        assert(listed_tile(root, j) == quadrant(pc, q));
        j
    }
}

proof fn lemma_listed_tile_injective(root: Tile, d: nat, i: nat, j: nat)
    requires
        levels_fit(root, d),
        i < tree_size(d),
        j < tree_size(d),
        listed_tile(root, i) == listed_tile(root, j),
    ensures
        i == j,
    decreases i,
{
    lemma_listed_tile_facts(root, d, i);
    lemma_listed_tile_facts(root, d, j);
    let k = level_of(i);
    assert(level_of(j) == k);
    if k > 0 {
        lemma_tree_size_step((k - 1) as nat);
        assert(i >= 1 && j >= 1);
        let pi = ((i - 1) / 4) as nat;
        let pj = ((j - 1) / 4) as nat;
        lemma_listed_tile_facts(root, d, pi);
        lemma_listed_tile_facts(root, d, pj);
        let ti = listed_tile(root, pi);
        let tj = listed_tile(root, pj);
        assert(ti.x == tj.x);
        assert(ti.y == tj.y);
        assert(ti.zoom == tj.zoom);
        assert(ti == tj);
        lemma_listed_tile_injective(root, d, pi, pj);
    }
}

/// The tiles that `Tile::children` lists are exactly the tiles that `t`
/// covers, from `t`'s own zoom level down to the deepest level reached.
pub proof fn lemma_children_cover_exactly(t: Tile, target_zoom: u32, c: Tile)
    requires
        descent_fits(t, target_zoom),
    ensures
        descendants(t, target_zoom).contains(c) <==> (covers(t, c) && c.zoom <= t.zoom + descent(
            t,
            target_zoom,
        )),
{
    let d = descent(t, target_zoom);
    let s = descendants(t, target_zoom);
    if s.contains(c) {
        let j = choose|j: int| 0 <= j < s.len() && s[j] == c;
        lemma_listed_tile_facts(t, d, j as nat);
    }
    if covers(t, c) && c.zoom <= t.zoom + d {
        let j = lemma_covered_tile_index(t, c);
        lemma_tree_size_monotonic((c.zoom - t.zoom) as nat, d);
        assert(s[j as int] == c);
    }
}

/// `Tile::children` lists no tile twice.
pub proof fn lemma_children_distinct(t: Tile, target_zoom: u32)
    requires
        descent_fits(t, target_zoom),
    ensures
        descendants(t, target_zoom).no_duplicates(),
{
    let d = descent(t, target_zoom);
    let s = descendants(t, target_zoom);
    assert forall|i: int, j: int| 0 <= i < s.len() && 0 <= j < s.len() && i != j implies s[i] != s[j] by {
        if s[i] == s[j] {
            lemma_listed_tile_injective(t, d, i as nat, j as nat);
        }
    }
}

/// Index `j` of the listing under `t` holds a tile of level `level_of(j)`,
/// and that level's indices run from `level_start` up to `tree_size`.
proof fn lemma_listed_level(t: Tile, target_zoom: u32, j: int)
    requires
        descent_fits(t, target_zoom),
        0 <= j < descendants(t, target_zoom).len(),
    ensures
        descendants(t, target_zoom)[j].zoom == t.zoom + level_of(j as nat),
        level_start(level_of(j as nat)) <= j < tree_size(level_of(j as nat)),
{
    let d = descent(t, target_zoom);
    assert(levels_fit(t, d));
    assert(descendants(t, target_zoom)[j] == listed_tile(t, j as nat));
    lemma_listed_tile_facts(t, d, j as nat);
}

/// A later index of the listing under `t` holds a tile no shallower.
proof fn lemma_listed_zoom_ordered(t: Tile, target_zoom: u32, i: int, j: int)
    requires
        descent_fits(t, target_zoom),
        0 <= i <= j < descendants(t, target_zoom).len(),
    ensures
        descendants(t, target_zoom)[i].zoom <= descendants(t, target_zoom)[j].zoom,
{
    lemma_listed_level(t, target_zoom, i);
    lemma_listed_level(t, target_zoom, j);
    let ki = level_of(i as nat);
    let kj = level_of(j as nat);
    if ki > kj {
        lemma_tree_size_step(ki);
        lemma_tree_size_monotonic(kj, (ki - 1) as nat);
    }
}

/// `Tile::children` lists the tiles level by level: the zoom never decreases
/// along the list, and the tiles of zoom `t.zoom + k` stand at the indices
/// from `level_start(k)` up to `tree_size(k)`.
#[verifier::spinoff_prover]
pub proof fn lemma_children_level_order(t: Tile, target_zoom: u32)
    requires
        descent_fits(t, target_zoom),
    ensures
        forall|i: int, j: int|
            0 <= i <= j < descendants(t, target_zoom).len() ==> #[trigger] descendants(t, target_zoom)[i].zoom
                <= #[trigger] descendants(t, target_zoom)[j].zoom,
        forall|j: int|
            0 <= j < descendants(t, target_zoom).len() ==> #[trigger] descendants(t, target_zoom)[j].zoom
                == t.zoom + level_of(j as nat) && level_start(level_of(j as nat)) <= j < tree_size(
                level_of(j as nat),
            ),
{
    let s = descendants(t, target_zoom);
    assert forall|j: int| 0 <= j < s.len() implies #[trigger] s[j].zoom == t.zoom + level_of(j as nat)
        && level_start(level_of(j as nat)) <= j < tree_size(level_of(j as nat)) by {
        lemma_listed_level(t, target_zoom, j);
    }
    assert forall|i: int, j: int| 0 <= i <= j < s.len() implies #[trigger] s[i].zoom <= #[trigger] s[j].zoom by {
        lemma_listed_zoom_ordered(t, target_zoom, i, j);
    }
}

} // verus!
