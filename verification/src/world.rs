use vstd::prelude::*;
use vstd::std_specs::cmp::PartialEqSpecImpl;

verus! {

/// One cell of the world.
#[derive(Copy, Clone, Debug)]
pub struct Tile {
    pub live: bool,
    pub last_update: u64,
    pub data: u32,
}

/// Two tiles are the same when they agree on liveness and colour; the tick
/// of their last change does not count.
pub open spec fn tiles_match(a: Tile, b: Tile) -> bool {
    a.live == b.live && a.data == b.data
}

impl PartialEq for Tile {
    fn eq(&self, other: &Self) -> (r: bool) {
        self.live == other.live && self.data == other.data
    }
}

impl PartialEqSpecImpl for Tile {
    open spec fn obeys_eq_spec() -> bool {
        true
    }

    open spec fn eq_spec(&self, other: &Tile) -> bool {
        tiles_match(*self, *other)
    }
}

/// A dead tile that has never changed and has no colour.
pub open spec fn blank_tile(live: bool) -> Tile {
    Tile { live, last_update: 0, data: 0 }
}

impl Tile {
    pub fn new_empty() -> (t: Tile)
        ensures
            t == blank_tile(false),
    {
        Tile { live: false, last_update: 0, data: 0 }
    }

    pub fn new_empty_live() -> (t: Tile)
        ensures
            t == blank_tile(true),
    {
        Tile { live: true, last_update: 0, data: 0 }
    }

    pub fn new_with_state(living: bool) -> (t: Tile)
        ensures
            t == blank_tile(living),
    {
        Tile { live: living, last_update: 0, data: 0 }
    }
}

/// Index of `pos` in the row-major cell vector of a `dims`-sized grid, or
/// `None` where `pos` lies off the grid.
pub open spec fn spec_cartesean_to_index(dims: (usize, usize), pos: (usize, usize)) -> Option<int> {
    if pos.0 >= dims.0 || pos.1 >= dims.1 {
        None
    } else {
        Some(dims.0 * pos.1 + pos.0)
    }
}

/// Position of the `i`-th cell of a `dims`-sized grid, or `None` where the
/// grid has fewer cells.
pub open spec fn spec_index_to_cartesean(dims: (usize, usize), i: int) -> Option<(int, int)> {
    if i >= dims.0 * dims.1 {
        None
    } else {
        Some((i % (dims.0 as int), i / (dims.0 as int)))
    }
}

proof fn lemma_index_in_grid(w: int, h: int, x: int, y: int)
    requires
        0 <= x < w,
        0 <= y < h,
    ensures
        0 <= w * y + x < w * h,
{
    assert(0 <= w * y) by (nonlinear_arith)
        requires
            0 <= w,
            0 <= y,
    ;
    assert(w * y + x < w * h) by (nonlinear_arith)
        requires
            x < w,
            y < h,
            0 <= x,
    ;
}

proof fn lemma_index_roundtrip(w: int, x: int, y: int)
    requires
        0 <= x < w,
        0 <= y,
    ensures
        (w * y + x) % w == x,
        (w * y + x) / w == y,
{
    vstd::arithmetic::mul::lemma_mul_is_commutative(w, y);
    vstd::arithmetic::div_mod::lemma_fundamental_div_mod_converse(w * y + x, w, y, x);
}

proof fn lemma_position_in_grid(w: int, h: int, i: int)
    requires
        0 <= w,
        0 <= h,
        0 <= i < w * h,
    ensures
        w > 0,
        0 <= i % w < w,
        0 <= i / w < h,
        w * (i / w) + i % w == i,
{
    if w == 0 {
        assert(w * h == 0);
    }
    vstd::arithmetic::div_mod::lemma_fundamental_div_mod(i, w);
    vstd::arithmetic::div_mod::lemma_mod_bound(i, w);
    vstd::arithmetic::div_mod::lemma_div_pos_is_pos(i, w);
    assert(i / w < h) by (nonlinear_arith)
        requires
            w > 0,
            i < w * h,
            w * (i / w) + i % w == i,
            i % w >= 0,
    ;
}

pub fn cartesean_to_index(dims: (usize, usize), pos: (usize, usize)) -> (r: Option<usize>)
    requires
        pos.0 < dims.0 && pos.1 < dims.1 ==> dims.0 * pos.1 + pos.0 <= usize::MAX,
    ensures
        r matches Some(i) ==> spec_cartesean_to_index(dims, pos) == Some(i as int),
        r is None ==> spec_cartesean_to_index(dims, pos) is None,
{
    let (w, h) = dims;
    let (x, y) = pos;
    if x >= w || y >= h {
        None
    } else {
        proof {
            lemma_index_in_grid(w as int, h as int, x as int, y as int);
        }
        Some(w * y + x)
    }
}

pub fn index_to_cartesean(dims: (usize, usize), i: usize) -> (r: Option<(usize, usize)>)
    requires
        dims.0 * dims.1 <= usize::MAX,
    ensures
        r matches Some(p) ==> spec_index_to_cartesean(dims, i as int) == Some((p.0 as int, p.1 as int)),
        r is None ==> spec_index_to_cartesean(dims, i as int) is None,
{
    let (w, h) = dims;
    if i >= w * h {
        None
    } else {
        proof {
            lemma_position_in_grid(w as int, h as int, i as int);
        }
        let x = i % w;
        let y = i / w;
        Some((x, y))
    }
}

/// Converting a position on the grid to an index and back gives the position.
pub proof fn lemma_position_index_roundtrip(dims: (usize, usize), pos: (usize, usize))
    requires
        pos.0 < dims.0,
        pos.1 < dims.1,
    ensures
        spec_cartesean_to_index(dims, pos) matches Some(i)
            && spec_index_to_cartesean(dims, i) == Some((pos.0 as int, pos.1 as int)),
{
    lemma_index_in_grid(dims.0 as int, dims.1 as int, pos.0 as int, pos.1 as int);
    lemma_index_roundtrip(dims.0 as int, pos.0 as int, pos.1 as int);
}

/// Converting an index of the grid to a position and back gives the index.
pub proof fn lemma_index_position_roundtrip(dims: (usize, usize), i: int)
    requires
        0 <= i < dims.0 * dims.1,
    ensures
        spec_index_to_cartesean(dims, i) matches Some(p)
            && spec_cartesean_to_index(dims, (p.0 as usize, p.1 as usize)) == Some(i),
{
    lemma_position_in_grid(dims.0 as int, dims.1 as int, i);
}


/// What a world holds: its cells in row-major order, its width and height,
/// and the number of steps it has been run for.
pub struct WorldView {
    pub cells: Seq<Tile>,
    pub dims: (usize, usize),
    pub tick: u64,
}

/// Making a tile live or dead keeps the grid's shape and its tick.
pub proof fn lemma_with_liveness_keeps_shape(v: WorldView, pos: (usize, usize), live: bool)
    requires
        v.wf(),
    ensures
        v.with_liveness(pos, live).wf(),
        v.with_liveness(pos, live).dims == v.dims,
        v.with_liveness(pos, live).tick == v.tick,
{
    if pos.0 < v.dims.0 && pos.1 < v.dims.1 {
        lemma_index_in_grid(v.dims.0 as int, v.dims.1 as int, pos.0 as int, pos.1 as int);
    }
}

/// Reading a tile after setting its liveness gives the new liveness, with
/// the tile's colour and tick of last change kept; every other position
/// reads as before, and a position off the grid changes nothing.
pub proof fn lemma_liveness_read_after_write(
    v: WorldView,
    pos: (usize, usize),
    live: bool,
    other: (usize, usize),
)
    requires
        v.wf(),
    ensures
        v.tile_at(pos) matches Some(t) ==> v.with_liveness(pos, live).tile_at(pos) == Some(
            Tile { live, ..t },
        ),
        v.tile_at(pos) is None ==> v.with_liveness(pos, live) == v,
        other != pos ==> v.with_liveness(pos, live).tile_at(other) == v.tile_at(other),
{
    let (w, h) = v.dims;
    if pos.0 < w && pos.1 < h {
        lemma_index_in_grid(w as int, h as int, pos.0 as int, pos.1 as int);
        if other.0 < w && other.1 < h && other != pos {
            lemma_index_in_grid(w as int, h as int, other.0 as int, other.1 as int);
            lemma_index_roundtrip(w as int, pos.0 as int, pos.1 as int);
            lemma_index_roundtrip(w as int, other.0 as int, other.1 as int);
        }
    }
}

proof fn lemma_no_live_tiles(s: Seq<Tile>)
    requires
        forall|i: int| 0 <= i < s.len() ==> !(#[trigger] s[i]).live,
    ensures
        live_tiles(s).len() == 0,
    decreases s.len(),
{
    if s.len() > 0 {
        lemma_no_live_tiles(s.drop_last());
    }
}

proof fn lemma_neighbors_dead(v: WorldView, x: int, y: int, k: nat)
    requires
        v.wf(),
        forall|i: int| 0 <= i < v.cells.len() ==> !(#[trigger] v.cells[i]).live,
    ensures
        forall|i: int|
            0 <= i < neighbors_upto(v, x, y, k).len() ==> !(#[trigger] neighbors_upto(v, x, y, k)[i]).live,
    decreases k,
{
    if k > 0 {
        lemma_neighbors_dead(v, x, y, (k - 1) as nat);
        let nx = x + neighbor_offset(k - 1).0;
        let ny = y + neighbor_offset(k - 1).1;
        let prev = neighbors_upto(v, x, y, (k - 1) as nat);
        if 0 <= nx < v.dims.0 && 0 <= ny < v.dims.1 {
            lemma_index_in_grid(v.dims.0 as int, v.dims.1 as int, nx, ny);
            assert(!v.cells[v.dims.0 * ny + nx].live);
            assert forall|i: int| 0 <= i < neighbors_upto(v, x, y, k).len() implies !(
            #[trigger] neighbors_upto(v, x, y, k)[i]).live by {
                if i < prev.len() {
                    assert(neighbors_upto(v, x, y, k)[i] == prev[i]);
                }
            }
        }
    }
}

/// A world with no live tile has none after a step either.
pub proof fn lemma_dead_world_stays_dead(v: WorldView)
    requires
        v.wf(),
        forall|i: int| 0 <= i < v.cells.len() ==> !(#[trigger] v.cells[i]).live,
    ensures
        forall|i: int| 0 <= i < step_view(v).cells.len() ==> !(#[trigger] step_view(v).cells[i]).live,
{
    assert forall|i: int| 0 <= i < step_view(v).cells.len() implies !(
    #[trigger] step_view(v).cells[i]).live by {
        let x = i % (v.dims.0 as int);
        let y = i / (v.dims.0 as int);
        lemma_neighbors_dead(v, x, y, 8);
        lemma_no_live_tiles(neighbors(v, x, y));
    }
}

/// A step follows Conway's rules: a tile is live afterwards exactly when it
/// had three live neighbours, or two and was live itself; a tile whose
/// liveness stays the same keeps its tick of last change, and a live tile
/// that stays live keeps its colour.
pub proof fn lemma_step_follows_life_rules(v: WorldView, i: int)
    requires
        v.wf(),
        v.tick < u64::MAX,
        0 <= i < v.cells.len(),
    ensures
        ({
            let n = live_tiles(neighbors(v, i % (v.dims.0 as int), i / (v.dims.0 as int))).len();
            let before = v.cells[i];
            let after = step_view(v).cells[i];
            &&& after.live == (n == 3 || (before.live && n == 2))
            &&& after.live == before.live ==> after.last_update == before.last_update
            &&& after.live != before.live ==> after.last_update == v.tick + 1
            &&& before.live && after.live ==> after.data == before.data
            &&& !after.live ==> after.data == before.data
        }),
{
}

/// A position on the grid of a well-formed world indexes one of its cells.
proof fn lemma_grid_index_fits(v: WorldView, pos: (usize, usize))
    requires
        v.wf(),
        v.cells.len() <= usize::MAX,
    ensures
        pos.0 < v.dims.0 && pos.1 < v.dims.1 ==> 0 <= v.dims.0 * pos.1 + pos.0 < v.cells.len(),
{
    if pos.0 < v.dims.0 && pos.1 < v.dims.1 {
        lemma_index_in_grid(v.dims.0 as int, v.dims.1 as int, pos.0 as int, pos.1 as int);
    }
}

/// 1 where `(x, y)` lies on the grid and its tile is live, 0 otherwise.
pub open spec fn live_at(v: WorldView, x: int, y: int) -> int {
    if 0 <= x < v.dims.0 && 0 <= y < v.dims.1 && v.cells[v.dims.0 * y + x].live {
        1
    } else {
        0
    }
}

/// How many of the eight positions around `(x, y)` hold a live tile; the
/// grid does not wrap, so positions off it count for nothing.
pub open spec fn live_neighbor_count(v: WorldView, x: int, y: int) -> int {
    live_at(v, x - 1, y - 1) + live_at(v, x, y - 1) + live_at(v, x + 1, y - 1) + live_at(v, x - 1, y)
        + live_at(v, x + 1, y) + live_at(v, x - 1, y + 1) + live_at(v, x, y + 1) + live_at(
        v,
        x + 1,
        y + 1,
    )
}

/// How many of the first `k` positions of `neighbor_offset` around `(x, y)`
/// hold a live tile.
spec fn live_count_upto(v: WorldView, x: int, y: int, k: nat) -> int
    decreases k,
{
    if k == 0 {
        0
    } else {
        live_count_upto(v, x, y, (k - 1) as nat) + live_at(
            v,
            x + neighbor_offset(k - 1).0,
            y + neighbor_offset(k - 1).1,
        )
    }
}

proof fn lemma_live_tiles_push(s: Seq<Tile>, t: Tile)
    ensures
        live_tiles(s.push(t)).len() == live_tiles(s).len() + if t.live {
            1int
        } else {
            0int
        },
{
    assert(s.push(t).drop_last() == s);
}

proof fn lemma_live_neighbors_counted(v: WorldView, x: int, y: int, k: nat)
    requires
        k <= 8,
    ensures
        live_tiles(neighbors_upto(v, x, y, k)).len() == live_count_upto(v, x, y, k),
    decreases k,
{
    if k > 0 {
        lemma_live_neighbors_counted(v, x, y, (k - 1) as nat);
        let nx = x + neighbor_offset(k - 1).0;
        let ny = y + neighbor_offset(k - 1).1;
        let prev = neighbors_upto(v, x, y, (k - 1) as nat);
        if 0 <= nx < v.dims.0 && 0 <= ny < v.dims.1 {
            lemma_live_tiles_push(prev, v.cells[v.dims.0 * ny + nx]);
        }
    }
}

/// A step applies Conway's rules to every tile of every world, square or
/// not: tile `(x, y)` is live afterwards exactly when three of the eight
/// positions around it held a live tile, or two did and it was live itself.
pub proof fn lemma_step_counts_neighbours(v: WorldView, x: int, y: int)
    requires
        v.wf(),
        0 <= x < v.dims.0,
        0 <= y < v.dims.1,
    ensures
        ({
            let n = live_neighbor_count(v, x, y);
            step_view(v).cells[v.dims.0 * y + x].live == (n == 3 || (v.cells[v.dims.0 * y + x].live
                && n == 2))
        }),
{
    let w = v.dims.0 as int;
    lemma_index_in_grid(w, v.dims.1 as int, x, y);
    lemma_index_roundtrip(w, x, y);
    lemma_live_neighbors_counted(v, x, y, 8);
    reveal_with_fuel(live_count_upto, 9);
    assert(live_count_upto(v, x, y, 8) == live_neighbor_count(v, x, y));
}

/// One change that the library can make to a world.
pub enum WorldOp {
    /// `World::set_tile_liveness` at a position.
    SetLiveness((usize, usize), bool),
    /// A tile written through `World::cell_at_mut` at a position.
    Write((usize, usize), Tile),
    /// `World::step`.
    Step,
}

/// The world after `op`.
pub open spec fn apply_op(v: WorldView, op: WorldOp) -> WorldView {
    match op {
        WorldOp::SetLiveness(pos, live) => v.with_liveness(pos, live),
        WorldOp::Write(pos, t) => v.with_tile(pos, t),
        WorldOp::Step => step_view(v),
    }
}

/// The world after each of `ops`, in order.
pub open spec fn apply_ops(v: WorldView, ops: Seq<WorldOp>) -> WorldView
    decreases ops.len(),
{
    if ops.len() == 0 {
        v
    } else {
        apply_op(apply_ops(v, ops.drop_last()), ops.last())
    }
}

/// Whatever the library does to a world, in whatever order, it keeps the
/// world's size and one tile per position.
pub proof fn lemma_ops_keep_grid(v: WorldView, ops: Seq<WorldOp>)
    requires
        v.wf(),
    ensures
        apply_ops(v, ops).wf(),
        apply_ops(v, ops).dims == v.dims,
    decreases ops.len(),
{
    if ops.len() > 0 {
        lemma_ops_keep_grid(v, ops.drop_last());
        let u = apply_ops(v, ops.drop_last());
        match ops.last() {
            WorldOp::SetLiveness(pos, live) => {
                lemma_with_liveness_keeps_shape(u, pos, live);
            },
            WorldOp::Write(pos, t) => {
                if pos.0 < u.dims.0 && pos.1 < u.dims.1 {
                    lemma_index_in_grid(u.dims.0 as int, u.dims.1 as int, pos.0 as int, pos.1 as int);
                }
            },
            WorldOp::Step => {},
        }
    }
}

proof fn lemma_rows_text(v: WorldView, n: nat)
    requires
        v.wf(),
        n <= v.dims.1,
    ensures
        rows_text(v, n).len() == n * (v.dims.0 + 1),
        forall|y: int, x: int|
            0 <= y < n && 0 <= x < v.dims.0 ==> #[trigger] rows_text(v, n)[(v.dims.0 + 1) * y + x] == if v.cells[v.dims.0 * y + x].live {
                '#'
            } else {
                ' '
            },
        forall|y: int| 0 <= y < n ==> #[trigger] rows_text(v, n)[(v.dims.0 + 1) * y + v.dims.0] == '\n',
    decreases n,
{
    let w = v.dims.0 as int;
    if n > 0 {
        let m = (n - 1) as nat;
        lemma_rows_text(v, m);
        let pre = rows_text(v, m);
        let row = row_text(v, m as int);
        assert(rows_text(v, n) == pre + row);
        assert(row.len() == w + 1);
        assert(m * (w + 1) + (w + 1) == n * (w + 1)) by (nonlinear_arith)
            requires
                m + 1 == n,
        ;
        assert forall|y: int, x: int| 0 <= y < n && 0 <= x < w implies #[trigger] rows_text(v, n)[(w + 1) * y
            + x] == if v.cells[w * y + x].live {
            '#'
        } else {
            ' '
        } by {
            if y < m {
                assert((w + 1) * y + x < m * (w + 1)) by (nonlinear_arith)
                    requires
                        0 <= x < w,
                        0 <= y < m,
                ;
                assert((w + 1) * y + x >= 0) by (nonlinear_arith)
                    requires
                        0 <= x,
                        0 <= y,
                        0 <= w,
                ;
            } else {
                assert((w + 1) * y == m * (w + 1)) by (nonlinear_arith)
                    requires
                        y == m,
                ;
            }
        }
        assert forall|y: int| 0 <= y < n implies #[trigger] rows_text(v, n)[(w + 1) * y + w] == '\n' by {
            if y < m {
                assert((w + 1) * y + w < m * (w + 1)) by (nonlinear_arith)
                    requires
                        0 <= w,
                        0 <= y < m,
                ;
                assert((w + 1) * y + w >= 0) by (nonlinear_arith)
                    requires
                        0 <= y,
                        0 <= w,
                ;
            } else {
                assert((w + 1) * y == m * (w + 1)) by (nonlinear_arith)
                    requires
                        y == m,
                ;
            }
        }
    }
}

/// The drawing of a world `w` wide and `h` high has `h + 2` lines of `w`
/// characters: a border of `=` above and below, and in between one line per
/// row, where the character for tile `(x, y)`, at index
/// `(w + 1) * (y + 1) + x`, is `#` exactly when the tile is live and a space
/// exactly when it is dead, whatever its colour or tick of last change.
pub proof fn lemma_render_layout(v: WorldView)
    requires
        v.wf(),
    ensures
        render(v).len() == (v.dims.0 + 1) * (v.dims.1 + 2) - 1,
        forall|i: int| 0 <= i < v.dims.0 ==> #[trigger] render(v)[i] == '=',
        forall|i: int|
            0 <= i < v.dims.0 ==> #[trigger] render(v)[(v.dims.0 + 1) * (v.dims.1 + 1) + i] == '=',
        forall|y: int| 0 <= y <= v.dims.1 ==> #[trigger] render(v)[(v.dims.0 + 1) * y + v.dims.0] == '\n',
        forall|y: int, x: int|
            0 <= y < v.dims.1 && 0 <= x < v.dims.0 ==> (#[trigger] render(v)[(v.dims.0 + 1) * (y + 1) + x]
                == '#') == v.cells[v.dims.0 * y + x].live && (render(v)[(v.dims.0 + 1) * (y + 1) + x]
                == ' ') == !v.cells[v.dims.0 * y + x].live,
{
    let w = v.dims.0 as int;
    let h = v.dims.1 as nat;
    lemma_rows_text(v, h);
    let top = repeat_char('=', w as nat) + seq!['\n'];
    let rows = rows_text(v, h);
    let bottom = repeat_char('=', w as nat);
    assert(render(v) == top + rows + bottom);
    assert((w + 1) * (h + 2) - 1 == (w + 1) + h * (w + 1) + w) by (nonlinear_arith);
    assert((w + 1) * (h + 1) == (w + 1) + h * (w + 1)) by (nonlinear_arith);
    assert forall|y: int, x: int| 0 <= y < h && 0 <= x < w implies (#[trigger] render(v)[(w + 1) * (y
        + 1) + x] == '#') == v.cells[w * y + x].live && (render(v)[(w + 1) * (y + 1) + x] == ' ')
        == !v.cells[w * y + x].live by {
        assert((w + 1) * (y + 1) + x == (w + 1) + ((w + 1) * y + x)) by (nonlinear_arith);
        assert(rows[(w + 1) * y + x] == if v.cells[w * y + x].live {
            '#'
        } else {
            ' '
        });
        assert((w + 1) * y + x < h * (w + 1)) by (nonlinear_arith)
            requires
                0 <= x < w,
                0 <= y < h,
        ;
        assert((w + 1) * y + x >= 0) by (nonlinear_arith)
            requires
                0 <= x,
                0 <= y,
                0 <= w,
        ;
    }
    assert forall|y: int| 0 <= y <= h implies #[trigger] render(v)[(w + 1) * y + w] == '\n' by {
        if y == 0 {
        } else {
            assert((w + 1) * y + w == (w + 1) + ((w + 1) * (y - 1) + w)) by (nonlinear_arith);
            assert(rows[(w + 1) * (y - 1) + w] == '\n');
            assert((w + 1) * (y - 1) + w < h * (w + 1)) by (nonlinear_arith)
                requires
                    0 <= w,
                    1 <= y <= h,
            ;
            assert((w + 1) * (y - 1) + w >= 0) by (nonlinear_arith)
                requires
                    1 <= y,
                    0 <= w,
            ;
        }
    }
}

/// A rectangular grid of tiles that evolves by Conway's rules.
#[derive(Debug)]
pub struct World {
    cells: Vec<Tile>,
    dimensions: (usize, usize),
    tick: u64,
}

impl View for World {
    type V = WorldView;

    closed spec fn view(&self) -> WorldView {
        WorldView { cells: self.cells@, dims: self.dimensions, tick: self.tick }
    }
}

impl WorldView {
    /// The grid has exactly one cell per position.
    pub open spec fn wf(self) -> bool {
        self.cells.len() == self.dims.0 * self.dims.1
    }

    /// The tile at `pos`, where `pos` lies on the grid.
    pub open spec fn tile_at(self, pos: (usize, usize)) -> Option<Tile> {
        match spec_cartesean_to_index(self.dims, pos) {
            Some(i) => Some(self.cells[i]),
            None => None,
        }
    }

    /// The world after the tile at `pos`, where it lies on the grid, has been
    /// replaced by `t`; nothing else changes.
    pub open spec fn with_tile(self, pos: (usize, usize), t: Tile) -> WorldView {
        match spec_cartesean_to_index(self.dims, pos) {
            Some(i) => WorldView { cells: self.cells.update(i, t), ..self },
            None => self,
        }
    }

    /// The world after the tile at `pos`, where it lies on the grid, has been
    /// made live or dead; nothing else changes.
    pub open spec fn with_liveness(self, pos: (usize, usize), live: bool) -> WorldView {
        match spec_cartesean_to_index(self.dims, pos) {
            Some(i) => WorldView {
                cells: self.cells.update(i, Tile { live, ..self.cells[i] }),
                ..self
            },
            None => self,
        }
    }
}

impl Clone for World {
    fn clone(&self) -> (r: World)
        ensures
            r@ == self@,
    {
        proof {
            use_type_invariant(self);
        }
        World { cells: self.cells.clone(), dimensions: self.dimensions, tick: self.tick }
    }
}

/// Offset from a tile to its `k`-th neighbour; the eight neighbours are
/// visited row by row, from the row above to the row below.
pub open spec fn neighbor_offset(k: int) -> (int, int) {
    if k == 0 {
        (-1, -1)
    } else if k == 1 {
        (0, -1)
    } else if k == 2 {
        (1, -1)
    } else if k == 3 {
        (-1, 0)
    } else if k == 4 {
        (1, 0)
    } else if k == 5 {
        (-1, 1)
    } else if k == 6 {
        (0, 1)
    } else {
        (1, 1)
    }
}

/// The tiles among the first `k` neighbours of `(x, y)` that lie on the grid,
/// in the order in which they are visited.
pub open spec fn neighbors_upto(v: WorldView, x: int, y: int, k: nat) -> Seq<Tile>
    decreases k,
{
    if k == 0 {
        Seq::empty()
    } else {
        let prev = neighbors_upto(v, x, y, (k - 1) as nat);
        let nx = x + neighbor_offset(k - 1).0;
        let ny = y + neighbor_offset(k - 1).1;
        if 0 <= nx < v.dims.0 && 0 <= ny < v.dims.1 {
            prev.push(v.cells[v.dims.0 * ny + nx])
        } else {
            prev
        }
    }
}

/// All neighbours of `(x, y)` that lie on the grid; the grid does not wrap.
pub open spec fn neighbors(v: WorldView, x: int, y: int) -> Seq<Tile> {
    neighbors_upto(v, x, y, 8)
}

/// The live tiles of `s`, in order.
pub open spec fn live_tiles(s: Seq<Tile>) -> Seq<Tile>
    decreases s.len(),
{
    if s.len() == 0 {
        s
    } else {
        let rest = live_tiles(s.drop_last());
        if s.last().live {
            rest.push(s.last())
        } else {
            rest
        }
    }
}

/// The tiles behind a sequence of references.
pub open spec fn derefs(s: Seq<&Tile>) -> Seq<Tile> {
    s.map_values(|t: &Tile| *t)
}

/// The next state of `subject` given its live neighbours `adj`, at tick
/// `tick_for`: it lives with three live neighbours, or with two when it is
/// alive already. A tile that changes records the tick; a tile that comes to
/// life takes the colour of one of its three neighbours, chosen by the tick.
pub open spec fn next_tile(adj: Seq<Tile>, subject: Tile, tick_for: u64) -> Tile {
    let will_live = adj.len() == 3 || (subject.live && adj.len() == 2);
    Tile {
        live: will_live,
        last_update: if will_live != subject.live {
            tick_for
        } else {
            subject.last_update
        },
        data: if will_live {
            if subject.live {
                subject.data
            } else {
                adj[(tick_for as usize) as int % (adj.len() as int)].data
            }
        } else {
            subject.data
        },
    }
}

/// The world one step later: every tile follows `next_tile` with the live
/// neighbours it had before the step, and the tick advances by one.
pub open spec fn step_view(v: WorldView) -> WorldView {
    WorldView {
        cells: Seq::new(
            v.cells.len(),
            |i: int|
                next_tile(
                    live_tiles(neighbors(v, i % (v.dims.0 as int), i / (v.dims.0 as int))),
                    v.cells[i],
                    (v.tick + 1) as u64,
                ),
        ),
        dims: v.dims,
        tick: (v.tick + 1) as u64,
    }
}

fn neighbor_offset_at(k: usize) -> (r: (isize, isize))
    requires
        k < 8,
    ensures
        r.0 as int == neighbor_offset(k as int).0,
        r.1 as int == neighbor_offset(k as int).1,
{
    if k == 0 {
        (-1, -1)
    } else if k == 1 {
        (0, -1)
    } else if k == 2 {
        (1, -1)
    } else if k == 3 {
        (-1, 0)
    } else if k == 4 {
        (1, 0)
    } else if k == 5 {
        (-1, 1)
    } else if k == 6 {
        (0, 1)
    } else {
        (1, 1)
    }
}

/// `c` moved by `d`, or `None` where that falls below zero.
fn shift(c: usize, d: isize) -> (r: Option<usize>)
    requires
        c < usize::MAX,
        -1 <= d <= 1,
    ensures
        match r {
            Some(n) => n == c + d,
            None => c + d < 0,
        },
{
    if d < 0 {
        if c == 0 {
            None
        } else {
            Some(c - 1)
        }
    } else if d == 0 {
        Some(c)
    } else {
        Some(c + 1)
    }
}

fn compute_tile_next_step(adjacents: Vec<&Tile>, subject: &Tile, tick_for: u64) -> (r: Tile)
    ensures
        r == next_tile(derefs(adjacents@), *subject, tick_for),
{
    let will_live = adjacents.len() == 3 || (subject.live && adjacents.len() == 2);
    Tile {
        live: will_live,
        last_update: if will_live != subject.live {
            tick_for
        } else {
            subject.last_update
        },
        data: if will_live {
            if subject.live {
                subject.data
            } else {
                adjacents[tick_for as usize % adjacents.len()].data
            }
        } else {
            subject.data
        },
    }
}

/// The live tiles among `tiles`, in order.
fn live_only<'a>(tiles: Vec<&'a Tile>) -> (r: Vec<&'a Tile>)
    ensures
        derefs(r@) == live_tiles(derefs(tiles@)),
{
    let mut out: Vec<&Tile> = Vec::new();
    let n = tiles.len();
    let mut i: usize = 0;
    while i < n
        invariant
            n == tiles.len(),
            i <= n,
            derefs(out@) == live_tiles(derefs(tiles@).take(i as int)),
        decreases n - i,
    {
        let t = tiles[i];
        proof {
            assert(derefs(tiles@).take(i + 1).drop_last() == derefs(tiles@).take(i as int));
            assert(derefs(tiles@).take(i + 1).last() == *t);
        }
        if t.live {
            out.push(t);
            assert(derefs(out@) == derefs(out@.drop_last()).push(*t));
        }
        i = i + 1;
    }
    assert(derefs(tiles@).take(n as int) == derefs(tiles@));
    out
}

/// `n` copies of `c`.
pub open spec fn repeat_char(c: char, n: nat) -> Seq<char> {
    Seq::new(n, |i: int| c)
}

/// The text of row `y`: `#` for a live tile, a space for a dead one, and a
/// line break.
pub open spec fn row_text(v: WorldView, y: int) -> Seq<char> {
    Seq::new(v.dims.0 as nat, |x: int| if v.cells[v.dims.0 * y + x].live { '#' } else { ' ' }).push(
        '\n',
    )
}

/// The text of the first `n` rows.
pub open spec fn rows_text(v: WorldView, n: nat) -> Seq<char>
    decreases n,
{
    if n == 0 {
        Seq::empty()
    } else {
        rows_text(v, (n - 1) as nat) + row_text(v, n - 1)
    }
}

/// A world drawn as text: a border of `=` as wide as the grid, a line break,
/// every row, and the border again.
pub open spec fn render(v: WorldView) -> Seq<char> {
    repeat_char('=', v.dims.0 as nat) + seq!['\n'] + rows_text(v, v.dims.1 as nat) + repeat_char(
        '=',
        v.dims.0 as nat,
    )
}

impl World {
    /// Every world has exactly one tile per position of its grid.
    #[verifier::type_invariant]
    spec fn inv(&self) -> bool {
        self@.wf()
    }

    /// A world of `dims` dead, blank tiles at tick 0.
    pub fn new(dims: (usize, usize)) -> (w: World)
        requires
            dims.0 * dims.1 <= usize::MAX,
        ensures
            w@.dims == dims,
            w@.tick == 0,
            w@.cells == Seq::new((dims.0 * dims.1) as nat, |i: int| blank_tile(false)),
    {
        let (w, h) = dims;
        World { cells: vec![Tile::new_empty(); w * h], dimensions: (w, h), tick: 0 }
    }

    /// A world whose tiles are live where `tiles` holds `true`, or an error
    /// where `tiles` does not hold one value per position.
    pub fn from_bools(dims: (usize, usize), tiles: Vec<bool>) -> (r: Result<World, String>)
        requires
            dims.0 * dims.1 <= usize::MAX,
        ensures
            match r {
                Ok(w) => {
                    &&& tiles.len() == dims.0 * dims.1
                    &&& w@.dims == dims
                    &&& w@.tick == 0
                    &&& w@.cells == tiles@.map_values(|b: bool| blank_tile(b))
                },
                Err(e) => tiles.len() != dims.0 * dims.1 && e@ == "len doesn't match dims"@,
            },
    {
        let (w, h) = dims;
        if tiles.len() != w * h {
            return Err(String::from_str("len doesn't match dims"));
        }
        let mut cells: Vec<Tile> = Vec::new();
        let n = tiles.len();
        let mut i: usize = 0;
        while i < n
            invariant
                n == tiles.len(),
                i <= n,
                cells@ == tiles@.take(i as int).map_values(|b: bool| blank_tile(b)),
            decreases n - i,
        {
            cells.push(Tile::new_with_state(tiles[i]));
            i = i + 1;
            assert(tiles@.take(i as int) == tiles@.take(i - 1).push(tiles@[i - 1]));
        }
        assert(tiles@.take(n as int) == tiles@);
        Ok(World { cells, dimensions: (w, h), tick: 0 })
    }

    /// The tile at `pos`, or `None` where `pos` lies off the grid.
    pub fn cell_at(&self, pos: (usize, usize)) -> (r: Option<&Tile>)
        ensures
            match self@.tile_at(pos) {
                Some(t) => r matches Some(rt) && *rt == t,
                None => r is None,
            },
    {
        proof {
            use_type_invariant(&*self);
            assert(self.cells@.len() == self.cells.len());
            lemma_grid_index_fits(self@, pos);
        }
        match cartesean_to_index(self.dimensions, pos) {
            Some(i) => Some(&self.cells[i]),
            None => None,
        }
    }

    /// A mutable reference to the tile at `pos`, or `None` where `pos` lies
    /// off the grid; what is written through it lands in that tile alone.
    pub fn cell_at_mut(&mut self, pos: (usize, usize)) -> (r: Option<&mut Tile>)
        ensures
            match spec_cartesean_to_index(old(self)@.dims, pos) {
                Some(i) => {
                    &&& r is Some
                    &&& *r.unwrap() == old(self)@.cells[i]
                    &&& final(self)@ == old(self)@.with_tile(pos, *final(r.unwrap()))
                },
                None => r is None && final(self)@ == old(self)@,
            },
    {
        proof {
            use_type_invariant(&*self);
            assert(self.cells@.len() == self.cells.len());
            lemma_grid_index_fits(self@, pos);
        }
        match cartesean_to_index(self.dimensions, pos) {
            Some(i) => Some(&mut self.cells[i]),
            None => None,
        }
    }

    /// Makes the tile at `pos` live or dead; a `pos` off the grid changes
    /// nothing.
    pub fn set_tile_liveness(&mut self, pos: (usize, usize), live: bool)
        ensures
            final(self)@ == old(self)@.with_liveness(pos, live),
    {
        match self.cell_at_mut(pos) {
            Some(t) => t.live = live,
            None => {},
        }
    }

    /// The neighbours of `pos` that lie on the grid, in the order of
    /// `neighbor_offset`.
    fn neighbors_to(&self, pos: (usize, usize)) -> (r: Vec<&Tile>)
        requires
            pos.0 < self@.dims.0,
            pos.1 < self@.dims.1,
        ensures
            derefs(r@) == neighbors(self@, pos.0 as int, pos.1 as int),
    {
        proof {
            use_type_invariant(self);
        }
        let (x, y) = pos;
        let mut out: Vec<&Tile> = Vec::new();
        let mut k: usize = 0;
        while k < 8
            invariant
                self@.wf(),
                x < self@.dims.0,
                y < self@.dims.1,
                k <= 8,
                derefs(out@) == neighbors_upto(self@, x as int, y as int, k as nat),
            decreases 8 - k,
        {
            let (dx, dy) = neighbor_offset_at(k);
            let nx = shift(x, dx);
            let ny = shift(y, dy);
            if nx.is_some() && ny.is_some() {
                let c = self.cell_at((nx.unwrap(), ny.unwrap()));
                if c.is_some() {
                    let t = c.unwrap();
                    out.push(t);
                    assert(derefs(out@) == derefs(out@.drop_last()).push(*t));
                }
            }
            k = k + 1;
        }
        out
    }

    /// The world one step later by Conway's rules.
    pub fn step(&self) -> (r: World)
        requires
            self@.tick < u64::MAX,
        ensures
            r@ == step_view(self@),
    {
        proof {
            use_type_invariant(self);
        }
        let n = self.cells.len();
        let tick_for = self.tick + 1;
        let mut next_tiles: Vec<Tile> = Vec::new();
        let mut i: usize = 0;
        while i < n
            invariant
                self@.wf(),
                self@.tick < u64::MAX,
                tick_for == self@.tick + 1,
                n == self@.cells.len(),
                i <= n,
                next_tiles@.len() == i,
                forall|j: int| 0 <= j < i ==> #[trigger] next_tiles@[j] == step_view(self@).cells[j],
            decreases n - i,
        {
            proof {
                lemma_position_in_grid(self.dimensions.0 as int, self.dimensions.1 as int, i as int);
            }
            let p = index_to_cartesean(self.dimensions, i).unwrap();
            let adj = self.neighbors_to(p);
            let live = live_only(adj);
            let t = compute_tile_next_step(live, &self.cells[i], tick_for);
            next_tiles.push(t);
            i = i + 1;
        }
        let r = World { cells: next_tiles, dimensions: self.dimensions, tick: tick_for };
        assert(r@.cells == step_view(self@).cells);
        r
    }

    /// The world drawn as text, as `render` describes.
    pub fn to_string(&self) -> (s: String)
        ensures
            s@ == render(self@),
    {
        proof {
            use_type_invariant(self);
            reveal_strlit("=");
            reveal_strlit("\n");
            reveal_strlit("#");
            reveal_strlit(" ");
        }
        let (w, h) = self.dimensions;
        let mut border = String::new();
        let mut i: usize = 0;
        while i < w
            invariant
                i <= w,
                border@ == repeat_char('=', i as nat),
            decreases w - i,
        {
            proof {
                reveal_strlit("=");
            }
            border.append("=");
            i = i + 1;
            assert(border@ =~= repeat_char('=', i as nat));
        }
        let mut out = String::new();
        out.append(border.as_str());
        out.append("\n");
        let mut l: usize = 0;
        while l < h
            invariant
                self@.wf(),
                (w, h) == self@.dims,
                l <= h,
                border@ == repeat_char('=', w as nat),
                out@ == repeat_char('=', w as nat) + seq!['\n'] + rows_text(self@, l as nat),
            decreases h - l,
        {
            let mut line = String::new();
            let mut c: usize = 0;
            while c < w
                invariant
                    self@.wf(),
                    (w, h) == self@.dims,
                    l < h,
                    c <= w,
                    line@ == row_text(self@, l as int).take(c as int),
                decreases w - c,
            {
                proof {
                    reveal_strlit("#");
                    reveal_strlit(" ");
                    lemma_index_in_grid(w as int, h as int, c as int, l as int);
                }
                match self.cell_at((c, l)) {
                    Some(t) => {
                        if t.live {
                            line.append("#");
                        } else {
                            line.append(" ");
                        }
                    },
                    None => {
                        return out;
                    },
                }
                c = c + 1;
                assert(line@ =~= row_text(self@, l as int).take(c as int));
            }
            proof {
                reveal_strlit("\n");
            }
            line.append("\n");
            assert(line@ =~= row_text(self@, l as int));
            out.append(line.as_str());
            l = l + 1;
            assert(out@ == repeat_char('=', w as nat) + seq!['\n'] + rows_text(self@, l as nat));
        }
        out.append(border.as_str());
        out
    }

    /// A world made of `cells` in row-major order, or `None` where their
    /// number is not one per position of `dims`.
    pub fn from_parts(dims: (usize, usize), cells: Vec<Tile>, tick: u64) -> (r: Option<World>)
        ensures
            match r {
                Some(w) => cells@.len() == dims.0 * dims.1 && w@ == (WorldView {
                    cells: cells@,
                    dims,
                    tick,
                }),
                None => cells@.len() != dims.0 * dims.1,
            },
    {
        match dims.0.checked_mul(dims.1) {
            Some(n) => {
                if cells.len() == n {
                    Some(World { cells, dimensions: dims, tick })
                } else {
                    None
                }
            },
            None => {
                assert(cells@.len() == cells.len());
                None
            },
        }
    }

    pub fn tick(&self) -> (r: u64)
        ensures
            r == self@.tick,
    {
        self.tick
    }

    /// The tiles in row-major order; there is always one per position.
    pub fn cells(&self) -> (r: &Vec<Tile>)
        ensures
            r@ == self@.cells,
            r@.len() == self@.dims.0 * self@.dims.1,
    {
        proof {
            use_type_invariant(self);
        }
        &self.cells
    }

    pub fn dims(&self) -> (r: (usize, usize))
        ensures
            r == self@.dims,
    {
        self.dimensions
    }
}

} // verus!
