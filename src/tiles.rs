use vstd::arithmetic::div_mod::*;
use vstd::arithmetic::mul::*;
use vstd::prelude::*;

verus! {

/// Number of tiles of side `size` that cover `extent` pixels.
pub open spec fn tiles_along(extent: int, size: int) -> int {
    extent / size + if extent % size == 0 {
        0int
    } else {
        1int
    }
}

/// Pixel length of tile `c` along an axis of `extent` pixels: every tile is
/// `size` long but the last, which holds what is left.
pub open spec fn span_of(extent: int, size: int, c: int) -> int {
    if c == tiles_along(extent, size) - 1 {
        extent - size * c
    } else {
        size
    }
}

/// A rectangular region of the frame, in pixels.
#[derive(Clone, Copy, Debug, PartialEq, Eq, Structural)]
pub struct TileRect {
    pub x: u32,
    pub y: u32,
    pub width: u32,
    pub height: u32,
}

impl TileRect {
    pub open spec fn contains(self, px: int, py: int) -> bool {
        &&& self.x <= px < self.x + self.width
        &&& self.y <= py < self.y + self.height
    }

    pub open spec fn area(self) -> int {
        self.width * self.height
    }

    /// Number of pixels in the rectangle.
    pub fn pixel_count(&self) -> (r: u64)
        ensures
            r == self.area(),
    {
        proof {
            lemma_mul_upper_bound(self.width as int, u32::MAX as int, self.height as int, u32::MAX as int);
        }
        self.width as u64 * self.height as u64
    }

    /// Frame coordinates of the `i`-th pixel of the rectangle, rows stored one
    /// after another from the top-left corner.
    pub fn pixel(&self, i: u64) -> (r: (u32, u32))
        requires
            i < self.area(),
            self.x + self.width <= u32::MAX,
            self.y + self.height <= u32::MAX,
        ensures
            r.0 == self.x + (i as int) % (self.width as int),
            r.1 == self.y + (i as int) / (self.width as int),
            self.contains(r.0 as int, r.1 as int),
            i == (r.0 - self.x) + self.width * (r.1 - self.y),
    {
        let w = self.width as u64;
        proof {
            if w == 0 {
                assert(self.area() == 0);
            }
            lemma_fundamental_div_mod(i as int, w as int);
            lemma_div_strictly_bounded_by(i as int, w as int, self.height as int);
        }
        let col = i % w;
        let row = i / w;
        (self.x + col as u32, self.y + row as u32)
    }
}

proof fn lemma_div_strictly_bounded_by(i: int, w: int, h: int)
    requires
        0 < w,
        0 <= i < w * h,
    ensures
        i / w < h,
{
    lemma_div_is_ordered(i, w * h - 1, w);
    lemma_mul_is_commutative(w, h);
    lemma_div_multiples_vanish(h, w);
    lemma_div_is_ordered(w * h - 1, w * h, w);
    if i / w >= h {
        lemma_fundamental_div_mod(i, w);
        lemma_mul_inequality(h, i / w, w);
        lemma_mul_is_commutative(w, i / w);
    }
}

/// The tiles of a frame: `columns × rows` tiles of side `tile_size`, listed
/// row by row, the last column and row holding what is left of the frame.
#[derive(Clone, Copy, Debug)]
pub struct TileGrid {
    width: u32,
    height: u32,
    tile_size: u32,
    columns: u32,
    rows: u32,
}

impl TileGrid {
    pub closed spec fn frame_width(self) -> int {
        self.width as int
    }

    pub closed spec fn frame_height(self) -> int {
        self.height as int
    }

    pub closed spec fn side(self) -> int {
        self.tile_size as int
    }

    pub closed spec fn spec_columns(self) -> int {
        self.columns as int
    }

    pub closed spec fn spec_rows(self) -> int {
        self.rows as int
    }

    pub open spec fn wf(self) -> bool {
        &&& self.side() > 0
        &&& self.spec_columns() == tiles_along(self.frame_width(), self.side())
        &&& self.spec_rows() == tiles_along(self.frame_height(), self.side())
    }

    /// Number of tiles in the frame.
    pub open spec fn count(self) -> int {
        self.spec_columns() * self.spec_rows()
    }

    /// Tile `t`: column `t % columns`, row `t / columns`.
    pub open spec fn spec_tile(self, t: int) -> TileRect {
        let c = t % self.spec_columns();
        let r = t / self.spec_columns();
        TileRect {
            x: (self.side() * c) as u32,
            y: (self.side() * r) as u32,
            width: span_of(self.frame_width(), self.side(), c) as u32,
            height: span_of(self.frame_height(), self.side(), r) as u32,
        }
    }

    /// The grid of a `width × height` frame cut into tiles of side
    /// `tile_size`; `None` when `tile_size` is zero.
    pub fn new(width: u32, height: u32, tile_size: u32) -> (r: Option<TileGrid>)
        ensures
            r is None <==> tile_size == 0,
            r matches Some(g) ==> {
                &&& g.wf()
                &&& g.frame_width() == width
                &&& g.frame_height() == height
                &&& g.side() == tile_size
            },
    {
        if tile_size == 0 {
            return None;
        }
        let columns = tiles_needed(width, tile_size);
        let rows = tiles_needed(height, tile_size);
        Some(TileGrid { width, height, tile_size, columns, rows })
    }

    pub fn width(&self) -> (r: u32)
        ensures
            r == self.frame_width(),
    {
        self.width
    }

    pub fn height(&self) -> (r: u32)
        ensures
            r == self.frame_height(),
    {
        self.height
    }

    pub fn tile_size(&self) -> (r: u32)
        ensures
            r == self.side(),
    {
        self.tile_size
    }

    pub fn columns(&self) -> (r: u32)
        ensures
            r == self.spec_columns(),
    {
        self.columns
    }

    pub fn rows(&self) -> (r: u32)
        ensures
            r == self.spec_rows(),
    {
        self.rows
    }

    /// Number of tiles in the frame.
    pub fn tile_count(&self) -> (r: u64)
        ensures
            r == self.count(),
    {
        proof {
            lemma_mul_upper_bound(self.columns as int, u32::MAX as int, self.rows as int, u32::MAX as int);
        }
        self.columns as u64 * self.rows as u64
    }

    /// The rectangle of tile `t`.
    pub fn tile(&self, t: u64) -> (r: TileRect)
        requires
            self.wf(),
            t < self.count(),
        ensures
            r == self.spec_tile(t as int),
            r.width > 0,
            r.height > 0,
            r.x + r.width <= self.frame_width(),
            r.y + r.height <= self.frame_height(),
    {
        let ts = self.tile_size;
        let cols = self.columns as u64;
        proof {
            if cols == 0 {
                assert(self.count() == 0);
            }
            lemma_mod_pos_bound(t as int, cols as int);
            lemma_div_strictly_bounded_by(t as int, cols as int, self.rows as int);
            lemma_span(self.width as int, ts as int, (t % cols) as int);
            lemma_span(self.height as int, ts as int, (t / cols) as int);
        }
        let c = (t % cols) as u32;
        let r = (t / cols) as u32;
        let x = ts * c;
        let y = ts * r;
        let w = if c == self.columns - 1 {
            self.width - x
        } else {
            ts
        };
        let h = if r == self.rows - 1 {
            self.height - y
        } else {
            ts
        };
        TileRect { x, y, width: w, height: h }
    }
}

/// Tiles of side `size` needed along `extent` pixels, without overflow.
fn tiles_needed(extent: u32, size: u32) -> (r: u32)
    requires
        size > 0,
    ensures
        r == tiles_along(extent as int, size as int),
{
    if extent % size == 0 {
        extent / size
    } else {
        proof {
            lemma_div_is_ordered_by_denominator(extent as int, 2, size as int);
        }
        extent / size + 1
    }
}

/// The tile count covers the extent: all tiles but the last are full, and
/// the last holds between one pixel and a full tile.
proof fn lemma_last_span(extent: int, size: int)
    requires
        size > 0,
        extent >= 0,
    ensures
        tiles_along(extent, size) >= 0,
        extent == 0 <==> tiles_along(extent, size) == 0,
        extent > 0 ==> 0 < extent - size * (tiles_along(extent, size) - 1) <= size,
{
    let q = extent / size;
    let m = extent % size;
    lemma_fundamental_div_mod(extent, size);
    lemma_mod_pos_bound(extent, size);
    lemma_div_pos_is_pos(extent, size);
    if extent > 0 {
        if m == 0 {
            assert(q >= 1) by (nonlinear_arith)
                requires
                    extent == size * q + m,
                    m == 0,
                    extent > 0,
                    size > 0,
            ;
            lemma_mul_is_distributive_sub(size, q, 1);
        }
    } else {
        assert(q == 0 && m == 0) by (nonlinear_arith)
            requires
                extent == size * q + m,
                extent == 0,
                0 <= m < size,
                q >= 0,
        ;
    }
}

/// Tile `c` of an axis lies inside the extent and is neither empty nor longer
/// than a full tile.
proof fn lemma_span(extent: int, size: int, c: int)
    requires
        size > 0,
        extent >= 0,
        0 <= c < tiles_along(extent, size),
    ensures
        0 < span_of(extent, size, c) <= size,
        size * c + span_of(extent, size, c) <= extent,
        c < tiles_along(extent, size) - 1 ==> span_of(extent, size, c) == size,
{
    let n = tiles_along(extent, size);
    lemma_last_span(extent, size);
    if c < n - 1 {
        lemma_mul_inequality(c + 1, n - 1, size);
        lemma_mul_is_commutative(c + 1, size);
        lemma_mul_is_commutative(n - 1, size);
        lemma_mul_is_distributive_add(size, c, 1);
    }
}

/// Pixel `p` of an axis falls in tile `p / size`.
proof fn lemma_locate(extent: int, size: int, p: int)
    requires
        size > 0,
        0 <= p < extent,
    ensures
        0 <= p / size < tiles_along(extent, size),
        size * (p / size) <= p < size * (p / size) + span_of(extent, size, p / size),
{
    let n = tiles_along(extent, size);
    let c = p / size;
    lemma_last_span(extent, size);
    lemma_fundamental_div_mod(p, size);
    lemma_mod_pos_bound(p, size);
    lemma_div_pos_is_pos(p, size);
    if c >= n {
        lemma_mul_inequality(n, c, size);
        lemma_mul_is_commutative(n, size);
        lemma_mul_is_commutative(c, size);
        lemma_mul_is_distributive_sub(size, n, 1);
        assert(false);
    }
}

/// A pixel inside tile `c` of an axis has `c` as its tile.
proof fn lemma_unique(extent: int, size: int, c: int, p: int)
    requires
        size > 0,
        extent >= 0,
        0 <= c < tiles_along(extent, size),
        size * c <= p < size * c + span_of(extent, size, c),
    ensures
        p / size == c,
{
    lemma_span(extent, size, c);
    lemma_mul_is_commutative(c, size);
    lemma_fundamental_div_mod_converse(p, size, c, p - size * c);
}

/// Tile `t` of a well-formed grid is a non-empty rectangle inside the frame.
pub proof fn lemma_tile_inside_frame(g: TileGrid, t: int)
    requires
        g.wf(),
        0 <= t < g.count(),
    ensures
        g.spec_tile(t).width > 0,
        g.spec_tile(t).height > 0,
        g.spec_tile(t).x + g.spec_tile(t).width <= g.frame_width(),
        g.spec_tile(t).y + g.spec_tile(t).height <= g.frame_height(),
{
    lemma_tile_placed(g, t);
}

/// Where tile `t` lies, with the casts to `u32` shown to lose nothing.
proof fn lemma_tile_placed(g: TileGrid, t: int)
    requires
        g.wf(),
        0 <= t < g.count(),
    ensures
        0 <= t % g.spec_columns() < g.spec_columns(),
        0 <= t / g.spec_columns() < g.spec_rows(),
        g.spec_tile(t).x == g.side() * (t % g.spec_columns()),
        g.spec_tile(t).y == g.side() * (t / g.spec_columns()),
        g.spec_tile(t).width == span_of(g.frame_width(), g.side(), t % g.spec_columns()),
        g.spec_tile(t).height == span_of(g.frame_height(), g.side(), t / g.spec_columns()),
        g.spec_tile(t).width > 0,
        g.spec_tile(t).height > 0,
        g.spec_tile(t).x + g.spec_tile(t).width <= g.frame_width(),
        g.spec_tile(t).y + g.spec_tile(t).height <= g.frame_height(),
{
    let cols = g.spec_columns();
    if cols == 0 {
        lemma_mul_basics(g.spec_rows());
    }
    lemma_mod_pos_bound(t, cols);
    lemma_div_pos_is_pos(t, cols);
    lemma_div_strictly_bounded_by(t, cols, g.spec_rows());
    lemma_span(g.frame_width(), g.side(), t % cols);
    lemma_span(g.frame_height(), g.side(), t / cols);
}

/// The tiles of a grid cover the frame with no gaps and no overlaps: every
/// pixel of the frame lies in exactly one tile.
pub proof fn lemma_tiles_partition_frame(g: TileGrid, px: int, py: int)
    requires
        g.wf(),
        0 <= px < g.frame_width(),
        0 <= py < g.frame_height(),
    ensures
        exists|t: int| 0 <= t < g.count() && #[trigger] g.spec_tile(t).contains(px, py),
        forall|t1: int, t2: int|
            0 <= t1 < g.count() && 0 <= t2 < g.count() && #[trigger] g.spec_tile(t1).contains(px, py)
                && #[trigger] g.spec_tile(t2).contains(px, py) ==> t1 == t2,
{
    let ts = g.side();
    let cols = g.spec_columns();
    let rows = g.spec_rows();
    lemma_locate(g.frame_width(), ts, px);
    lemma_locate(g.frame_height(), ts, py);
    let c = px / ts;
    let r = py / ts;
    let t = r * cols + c;
    lemma_fundamental_div_mod_converse(t, cols, r, c);
    assert(0 <= t < g.count()) by (nonlinear_arith)
        requires
            t == r * cols + c,
            0 <= c < cols,
            0 <= r < rows,
            g.count() == cols * rows,
    ;
    lemma_tile_placed(g, t);
    assert(g.spec_tile(t).contains(px, py));
    assert forall|t1: int, t2: int|
        0 <= t1 < g.count() && 0 <= t2 < g.count() && #[trigger] g.spec_tile(t1).contains(px, py)
            && #[trigger] g.spec_tile(t2).contains(px, py) implies t1 == t2 by {
        lemma_tile_at(g, t1, px, py);
        lemma_tile_at(g, t2, px, py);
        lemma_fundamental_div_mod(t1, cols);
        lemma_fundamental_div_mod(t2, cols);
    }
}

/// A tile that holds a pixel sits in that pixel's column and row.
proof fn lemma_tile_at(g: TileGrid, t: int, px: int, py: int)
    requires
        g.wf(),
        0 <= t < g.count(),
        g.spec_tile(t).contains(px, py),
    ensures
        t % g.spec_columns() == px / g.side(),
        t / g.spec_columns() == py / g.side(),
{
    lemma_tile_placed(g, t);
    lemma_unique(g.frame_width(), g.side(), t % g.spec_columns(), px);
    lemma_unique(g.frame_height(), g.side(), t / g.spec_columns(), py);
}

} // verus!
