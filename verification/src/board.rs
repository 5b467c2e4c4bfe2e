//! Where the tiles stand on the screen grid: the integer part of laying out
//! the board. Scaling to pixels is left to the program that draws.
use vstd::prelude::*;

use crate::game_core::state::{GameState, Tile};

verus! {

broadcast use vstd::seq_lib::group_to_multiset_ensures;

/// The grid cell of a tile on the board: its layer, row and column, counted
/// from the top-left tile, and its number.
#[derive(Debug, Clone, Copy, PartialEq, Eq, Structural)]
pub struct BoardCell {
    pub tile_id: usize,
    pub z: i32,
    pub row: i32,
    pub col: i32,
}

/// The board's grid: how many columns and rows and the top layer (at least
/// 0), and the cells of the tiles on the board, back to front.
pub struct BoardLayout {
    pub n_cols: i64,
    pub n_rows: i64,
    pub max_z: i32,
    pub cells: Vec<BoardCell>,
}

/// The tiles that lie on the board, in order.
pub open spec fn on_board(tiles: Seq<Tile>) -> Seq<Tile> {
    tiles.filter(|t: Tile| t.active)
}

/// The smallest `x` of the tiles (`i32::MAX` for none).
pub open spec fn least_x(ts: Seq<Tile>) -> int
    decreases ts.len(),
{
    if ts.len() == 0 {
        i32::MAX as int
    } else {
        vstd::math::min(least_x(ts.drop_last()), ts.last().position.x as int)
    }
}

/// The largest `x` of the tiles (`i32::MIN` for none).
pub open spec fn greatest_x(ts: Seq<Tile>) -> int
    decreases ts.len(),
{
    if ts.len() == 0 {
        i32::MIN as int
    } else {
        vstd::math::max(greatest_x(ts.drop_last()), ts.last().position.x as int)
    }
}

/// The smallest `y` of the tiles (`i32::MAX` for none).
pub open spec fn least_y(ts: Seq<Tile>) -> int
    decreases ts.len(),
{
    if ts.len() == 0 {
        i32::MAX as int
    } else {
        vstd::math::min(least_y(ts.drop_last()), ts.last().position.y as int)
    }
}

/// The largest `y` of the tiles (`i32::MIN` for none).
pub open spec fn greatest_y(ts: Seq<Tile>) -> int
    decreases ts.len(),
{
    if ts.len() == 0 {
        i32::MIN as int
    } else {
        vstd::math::max(greatest_y(ts.drop_last()), ts.last().position.y as int)
    }
}

/// The top layer of the tiles, and at least 0.
pub open spec fn top_layer(ts: Seq<Tile>) -> int
    decreases ts.len(),
{
    if ts.len() == 0 {
        0
    } else {
        vstd::math::max(top_layer(ts.drop_last()), ts.last().position.z as int)
    }
}

/// The cell of tile `t` on a board whose leftmost tile is at `min_x` and
/// topmost at `min_y`: tiles of one row or column are two units apart.
pub open spec fn cell_of(t: Tile, min_x: int, min_y: int) -> BoardCell {
    BoardCell {
        tile_id: t.id,
        z: t.position.z,
        row: ((t.position.y - min_y) / 2) as i32,
        col: ((t.position.x - min_x) / 2) as i32,
    }
}

/// Back-to-front order: by layer, then row, then column, then number.
pub open spec fn cell_le(a: BoardCell, b: BoardCell) -> bool {
    ||| a.z < b.z
    ||| a.z == b.z && a.row < b.row
    ||| a.z == b.z && a.row == b.row && a.col < b.col
    ||| a.z == b.z && a.row == b.row && a.col == b.col && a.tile_id <= b.tile_id
}

/// The cells are in back-to-front order.
pub open spec fn back_to_front(s: Seq<BoardCell>) -> bool {
    forall|i: int, j: int| 0 <= i < j < s.len() ==> cell_le(#[trigger] s[i], #[trigger] s[j])
}

/// The grid of the board in state `tiles`, if any tile lies on it: columns
/// and rows spanned (at least one each), the top layer, and the cells of the
/// tiles on the board in back-to-front order.
pub open spec fn laid_out(tiles: Seq<Tile>, b: BoardLayout) -> bool {
    let ts = on_board(tiles);
    let min_x = least_x(ts);
    let min_y = least_y(ts);
    &&& b.n_cols == vstd::math::max((greatest_x(ts) - min_x) / 2 + 1, 1)
    &&& b.n_rows == vstd::math::max((greatest_y(ts) - min_y) / 2 + 1, 1)
    &&& b.max_z == top_layer(ts)
    &&& back_to_front(b.cells@)
    &&& b.cells@.to_multiset() == ts.map_values(|t: Tile| cell_of(t, min_x, min_y)).to_multiset()
}

fn cell_le_exec(a: &BoardCell, b: &BoardCell) -> (r: bool)
    ensures
        r == cell_le(*a, *b),
{
    if a.z != b.z {
        a.z < b.z
    } else if a.row != b.row {
        a.row < b.row
    } else if a.col != b.col {
        a.col < b.col
    } else {
        a.tile_id <= b.tile_id
    }
}

proof fn lemma_insert_multiset(s: Seq<BoardCell>, p: int, c: BoardCell)
    requires
        0 <= p <= s.len(),
    ensures
        s.insert(p, c).to_multiset() == s.to_multiset().insert(c),
{
    let a = s.subrange(0, p);
    let b = s.subrange(p, s.len() as int);
    assert(s =~= a + b);
    assert(s.insert(p, c) =~= a.push(c) + b);
    vstd::seq_lib::lemma_multiset_commutative(a.push(c), b);
    vstd::seq_lib::lemma_multiset_commutative(a, b);
    assert(a.push(c).to_multiset() =~= a.to_multiset().insert(c));
    assert(a.to_multiset().insert(c).add(b.to_multiset()) =~= a.to_multiset().add(
        b.to_multiset(),
    ).insert(c));
}

/// The cells in back-to-front order (stable insertion sort).
fn sort_back_to_front(cells: &Vec<BoardCell>) -> (r: Vec<BoardCell>)
    ensures
        back_to_front(r@),
        r@.to_multiset() == cells@.to_multiset(),
{
    let mut out: Vec<BoardCell> = Vec::new();
    assert(cells@.take(0) =~= Seq::<BoardCell>::empty());
    for i in 0..cells.len()
        invariant
            back_to_front(out@),
            out@.to_multiset() == cells@.take(i as int).to_multiset(),
    {
        let c = cells[i];
        let mut p: usize = 0;
        while p < out.len() && cell_le_exec(&out[p], &c)
            invariant
                p <= out@.len(),
                forall|k: int| 0 <= k < p ==> cell_le(#[trigger] out@[k], c),
            decreases out@.len() - p,
        {
            p = p + 1;
        }
        let ghost old_out = out@;
        proof {
            lemma_insert_multiset(old_out, p as int, c);
            old_out.insert_ensures(p as int, c);
            assert(cells@.take(i + 1) =~= cells@.take(i as int).push(c));
        }
        out.insert(p, c);
        assert forall|a: int, b: int| 0 <= a < b < out@.len() implies cell_le(
            #[trigger] out@[a],
            #[trigger] out@[b],
        ) by {
            if b < p {
                assert(out@[a] == old_out[a] && out@[b] == old_out[b]);
            } else if a > p {
                assert(out@[a] == old_out[a - 1] && out@[b] == old_out[b - 1]);
            } else if a < p && b > p {
                assert(out@[a] == old_out[a] && out@[b] == old_out[b - 1]);
                assert(!cell_le(old_out[p as int], c));
                assert(cell_le(old_out[a], old_out[p as int]));
                if p as int != b - 1 {
                    assert(cell_le(old_out[p as int], old_out[b - 1]));
                }
            } else if a == p {
                assert(out@[b] == old_out[b - 1]);
                assert(!cell_le(old_out[p as int], c));
                if p as int != b - 1 {
                    assert(cell_le(old_out[p as int], old_out[b - 1]));
                }
            } else {
                assert(out@[a] == old_out[a]);
            }
        }
    }
    assert(cells@.take(cells@.len() as int) =~= cells@);
    out
}

proof fn lemma_bounds(ts: Seq<Tile>, i: int)
    requires
        0 <= i < ts.len(),
    ensures
        least_x(ts) <= ts[i].position.x <= greatest_x(ts),
        least_y(ts) <= ts[i].position.y <= greatest_y(ts),
        ts[i].position.z <= top_layer(ts),
        i32::MIN <= least_x(ts) && greatest_x(ts) <= i32::MAX,
        i32::MIN <= least_y(ts) && greatest_y(ts) <= i32::MAX,
        0 <= top_layer(ts) <= i32::MAX,
    decreases ts.len(),
{
    lemma_ranges(ts);
    if i < ts.len() - 1 {
        lemma_bounds(ts.drop_last(), i);
        assert(ts.drop_last()[i] == ts[i]);
    }
}

proof fn lemma_ranges(ts: Seq<Tile>)
    ensures
        i32::MIN <= least_x(ts) <= i32::MAX,
        i32::MIN <= greatest_x(ts) <= i32::MAX,
        i32::MIN <= least_y(ts) <= i32::MAX,
        i32::MIN <= greatest_y(ts) <= i32::MAX,
        0 <= top_layer(ts) <= i32::MAX,
    decreases ts.len(),
{
    if ts.len() > 0 {
        lemma_ranges(ts.drop_last());
    }
}

/// The board's grid (see `laid_out`), or `None` when no tile lies on the
/// board.
pub fn board_layout(state: &GameState) -> (r: Option<BoardLayout>)
    ensures
        match r {
            None => on_board(state.tiles@).len() == 0,
            Some(b) => on_board(state.tiles@).len() > 0 && laid_out(state.tiles@, b),
        },
{
    let ghost tiles = state.tiles@;
    // The tiles on the board, and their extent.
    let mut active: Vec<Tile> = Vec::new();
    let mut min_x: i32 = i32::MAX;
    let mut max_x: i32 = i32::MIN;
    let mut min_y: i32 = i32::MAX;
    let mut max_y: i32 = i32::MIN;
    let mut max_z: i32 = 0;
    assert(tiles.take(0) =~= Seq::<Tile>::empty());
    for i in 0..state.tiles.len()
        invariant
            tiles == state.tiles@,
            active@ == on_board(tiles.take(i as int)),
            min_x == least_x(active@),
            max_x == greatest_x(active@),
            min_y == least_y(active@),
            max_y == greatest_y(active@),
            max_z == top_layer(active@),
    {
        proof {
            reveal_with_fuel(Seq::filter, 1);
            assert(tiles.take(i + 1).drop_last() =~= tiles.take(i as int));
        }
        let t = state.tiles[i];
        if t.active {
            let ghost before = active@;
            active.push(t);
            assert(active@.drop_last() =~= before);
            if t.position.x < min_x {
                min_x = t.position.x;
            }
            if t.position.x > max_x {
                max_x = t.position.x;
            }
            if t.position.y < min_y {
                min_y = t.position.y;
            }
            if t.position.y > max_y {
                max_y = t.position.y;
            }
            if t.position.z > max_z {
                max_z = t.position.z;
            }
        }
    }
    assert(tiles.take(tiles.len() as int) =~= tiles);
    let ghost ts = active@;
    if active.len() == 0 {
        return None;
    }
    proof {
        lemma_bounds(ts, 0);
    }
    let n_cols_raw: i64 = (max_x as i64 - min_x as i64) / 2 + 1;
    let n_rows_raw: i64 = (max_y as i64 - min_y as i64) / 2 + 1;
    let n_cols: i64 = if n_cols_raw < 1 {
        1
    } else {
        n_cols_raw
    };
    let n_rows: i64 = if n_rows_raw < 1 {
        1
    } else {
        n_rows_raw
    };
    // Each tile's cell, in the order of the tiles.
    let mut cells: Vec<BoardCell> = Vec::new();
    let ghost f = |t: Tile| cell_of(t, min_x as int, min_y as int);
    for k in 0..active.len()
        invariant
            ts == active@,
            ts.len() > 0,
            min_x == least_x(ts),
            min_y == least_y(ts),
            f == (|t: Tile| cell_of(t, min_x as int, min_y as int)),
            cells@ == ts.take(k as int).map_values(f),
    {
        let t = active[k];
        proof {
            lemma_bounds(ts, k as int);
        }
        let col: i32 = ((t.position.x as i64 - min_x as i64) / 2) as i32;
        let row: i32 = ((t.position.y as i64 - min_y as i64) / 2) as i32;
        cells.push(BoardCell { tile_id: t.id, z: t.position.z, row, col });
        assert(cells@ =~= ts.take(k + 1).map_values(f));
    }
    assert(ts.take(ts.len() as int) =~= ts);
    let sorted = sort_back_to_front(&cells);
    let b = BoardLayout { n_cols, n_rows, max_z, cells: sorted };
    Some(b)
}

proof fn lemma_on_board_elements(tiles: Seq<Tile>)
    ensures
        forall|k: int|
            0 <= k < on_board(tiles).len() ==> (#[trigger] on_board(tiles)[k]).active && exists|i: int|
                0 <= i < tiles.len() && tiles[i] == on_board(tiles)[k],
        forall|i: int|
            0 <= i < tiles.len() && (#[trigger] tiles[i]).active ==> on_board(tiles).contains(tiles[i]),
    decreases tiles.len(),
{
    reveal_with_fuel(Seq::filter, 1);
    #[allow(deprecated)]
    tiles.filter_lemma(|t: Tile| t.active);
    if tiles.len() > 0 {
        let d = tiles.drop_last();
        lemma_on_board_elements(d);
        let ts = on_board(tiles);
        let ds = on_board(d);
        assert forall|k: int| 0 <= k < ts.len() implies exists|i: int|
            0 <= i < tiles.len() && tiles[i] == #[trigger] ts[k] by {
            if k < ds.len() {
                assert(ts[k] == ds[k]);
                let i = choose|i: int| 0 <= i < d.len() && d[i] == ds[k];
                assert(tiles[i] == d[i]);
            } else {
                assert(ts[k] == tiles[tiles.len() - 1]);
            }
        }
    }
}

proof fn lemma_extremes_attained(ts: Seq<Tile>)
    requires
        ts.len() > 0,
    ensures
        exists|k: int| 0 <= k < ts.len() && (#[trigger] ts[k]).position.x == least_x(ts),
        exists|k: int| 0 <= k < ts.len() && (#[trigger] ts[k]).position.x == greatest_x(ts),
        exists|k: int| 0 <= k < ts.len() && (#[trigger] ts[k]).position.y == least_y(ts),
        exists|k: int| 0 <= k < ts.len() && (#[trigger] ts[k]).position.y == greatest_y(ts),
        top_layer(ts) == 0 || exists|k: int| 0 <= k < ts.len() && (#[trigger] ts[k]).position.z
            == top_layer(ts),
    decreases ts.len(),
{
    let d = ts.drop_last();
    let l = ts.len() - 1;
    assert(ts[l] == ts.last());
    if d.len() > 0 {
        lemma_extremes_attained(d);
        assert forall|k: int| 0 <= k < d.len() implies d[k] == ts[k] by {}
        lemma_ranges(d);
        let a1 = choose|k: int| 0 <= k < d.len() && (#[trigger] d[k]).position.x == least_x(d);
        let a2 = choose|k: int| 0 <= k < d.len() && (#[trigger] d[k]).position.x == greatest_x(d);
        let a3 = choose|k: int| 0 <= k < d.len() && (#[trigger] d[k]).position.y == least_y(d);
        let a4 = choose|k: int| 0 <= k < d.len() && (#[trigger] d[k]).position.y == greatest_y(d);
        assert(ts[a1] == d[a1] && ts[a2] == d[a2] && ts[a3] == d[a3] && ts[a4] == d[a4]);
        assert(least_x(ts) == vstd::math::min(least_x(d), ts.last().position.x as int));
        if least_x(d) <= ts[l].position.x {
            assert(ts[a1].position.x == least_x(ts));
        } else {
            assert(ts[l].position.x == least_x(ts));
        }
        assert(greatest_x(ts) == vstd::math::max(greatest_x(d), ts.last().position.x as int));
        if greatest_x(d) >= ts[l].position.x {
            assert(ts[a2].position.x == greatest_x(ts));
        } else {
            assert(ts[l].position.x == greatest_x(ts));
        }
        assert(least_y(ts) == vstd::math::min(least_y(d), ts.last().position.y as int));
        if least_y(d) <= ts[l].position.y {
            assert(ts[a3].position.y == least_y(ts));
        } else {
            assert(ts[l].position.y == least_y(ts));
        }
        assert(greatest_y(ts) == vstd::math::max(greatest_y(d), ts.last().position.y as int));
        if greatest_y(d) >= ts[l].position.y {
            assert(ts[a4].position.y == greatest_y(ts));
        } else {
            assert(ts[l].position.y == greatest_y(ts));
        }
        assert(top_layer(ts) == vstd::math::max(top_layer(d), ts.last().position.z as int));
        if top_layer(d) >= ts[l].position.z {
            if top_layer(d) != 0 {
                let a5 = choose|k: int| 0 <= k < d.len() && (#[trigger] d[k]).position.z == top_layer(d);
                assert(ts[a5] == d[a5]);
                assert(ts[a5].position.z == top_layer(ts));
            }
        } else {
            assert(ts[l].position.z == top_layer(ts));
        }
    } else {
        assert(least_x(ts) == ts[l].position.x);
        assert(greatest_x(ts) == ts[l].position.x);
        assert(least_y(ts) == ts[l].position.y);
        assert(greatest_y(ts) == ts[l].position.y);
    }
}

/// The board's grid, stated from the tiles on the board: with `lo_x`/`hi_x`
/// the least and greatest `x` and `lo_y`/`hi_y` the least and greatest `y`
/// of the tiles on the board, there are `(hi_x - lo_x) / 2 + 1` columns and
/// `(hi_y - lo_y) / 2 + 1` rows (at least one each); the top layer is the
/// highest layer of a tile on the board, or 0; and every cell is that of a
/// tile on the board, with its number and layer, its row `(y - lo_y) / 2`
/// and its column `(x - lo_x) / 2`.
pub proof fn law_board_grid_spans_the_tiles(
    tiles: Seq<Tile>,
    b: BoardLayout,
    lo_x: int,
    hi_x: int,
    lo_y: int,
    hi_y: int,
)
    requires
        on_board(tiles).len() > 0,
        laid_out(tiles, b),
        exists|i: int| 0 <= i < tiles.len() && (#[trigger] tiles[i]).active && tiles[i].position.x == lo_x,
        exists|i: int| 0 <= i < tiles.len() && (#[trigger] tiles[i]).active && tiles[i].position.x == hi_x,
        exists|i: int| 0 <= i < tiles.len() && (#[trigger] tiles[i]).active && tiles[i].position.y == lo_y,
        exists|i: int| 0 <= i < tiles.len() && (#[trigger] tiles[i]).active && tiles[i].position.y == hi_y,
        forall|i: int|
            0 <= i < tiles.len() && (#[trigger] tiles[i]).active ==> lo_x <= tiles[i].position.x <= hi_x
                && lo_y <= tiles[i].position.y <= hi_y,
    ensures
        b.n_cols == vstd::math::max((hi_x - lo_x) / 2 + 1, 1),
        b.n_rows == vstd::math::max((hi_y - lo_y) / 2 + 1, 1),
        b.max_z >= 0,
        forall|i: int| 0 <= i < tiles.len() && (#[trigger] tiles[i]).active ==> tiles[i].position.z <= b.max_z,
        b.max_z == 0 || exists|i: int|
            0 <= i < tiles.len() && (#[trigger] tiles[i]).active && tiles[i].position.z == b.max_z,
        forall|c: BoardCell|
            #[trigger] b.cells@.contains(c) ==> exists|i: int|
                0 <= i < tiles.len() && (#[trigger] tiles[i]).active && c.tile_id == tiles[i].id && c.z
                    == tiles[i].position.z && c.row == (tiles[i].position.y - lo_y) / 2 && c.col == (
                tiles[i].position.x - lo_x) / 2,
{
    let ts = on_board(tiles);
    lemma_on_board_elements(tiles);
    lemma_extremes_attained(ts);
    lemma_ranges(ts);
    // The extremes over the tiles on the board are the given ones.
    let k1 = choose|k: int| 0 <= k < ts.len() && (#[trigger] ts[k]).position.x == least_x(ts);
    let k2 = choose|k: int| 0 <= k < ts.len() && (#[trigger] ts[k]).position.x == greatest_x(ts);
    let k3 = choose|k: int| 0 <= k < ts.len() && (#[trigger] ts[k]).position.y == least_y(ts);
    let k4 = choose|k: int| 0 <= k < ts.len() && (#[trigger] ts[k]).position.y == greatest_y(ts);
    let i1 = choose|i: int| 0 <= i < tiles.len() && tiles[i] == ts[k1];
    let i2 = choose|i: int| 0 <= i < tiles.len() && tiles[i] == ts[k2];
    let i3 = choose|i: int| 0 <= i < tiles.len() && tiles[i] == ts[k3];
    let i4 = choose|i: int| 0 <= i < tiles.len() && tiles[i] == ts[k4];
    assert(tiles[i1].active && tiles[i2].active && tiles[i3].active && tiles[i4].active);
    let w1 = choose|i: int| 0 <= i < tiles.len() && (#[trigger] tiles[i]).active && tiles[i].position.x == lo_x;
    let w2 = choose|i: int| 0 <= i < tiles.len() && (#[trigger] tiles[i]).active && tiles[i].position.x == hi_x;
    let w3 = choose|i: int| 0 <= i < tiles.len() && (#[trigger] tiles[i]).active && tiles[i].position.y == lo_y;
    let w4 = choose|i: int| 0 <= i < tiles.len() && (#[trigger] tiles[i]).active && tiles[i].position.y == hi_y;
    assert(ts.contains(tiles[w1]) && ts.contains(tiles[w2]) && ts.contains(tiles[w3]) && ts.contains(tiles[w4]));
    let m1 = choose|k: int| 0 <= k < ts.len() && ts[k] == tiles[w1];
    let m2 = choose|k: int| 0 <= k < ts.len() && ts[k] == tiles[w2];
    let m3 = choose|k: int| 0 <= k < ts.len() && ts[k] == tiles[w3];
    let m4 = choose|k: int| 0 <= k < ts.len() && ts[k] == tiles[w4];
    lemma_bounds(ts, m1);
    lemma_bounds(ts, m2);
    lemma_bounds(ts, m3);
    lemma_bounds(ts, m4);
    assert(least_x(ts) == lo_x);
    assert(greatest_x(ts) == hi_x);
    assert(least_y(ts) == lo_y);
    assert(greatest_y(ts) == hi_y);
    // The top layer.
    assert forall|i: int| 0 <= i < tiles.len() && (#[trigger] tiles[i]).active implies tiles[i].position.z
        <= b.max_z by {
        let m = choose|k: int| 0 <= k < ts.len() && ts[k] == tiles[i];
        lemma_bounds(ts, m);
    }
    if b.max_z != 0 {
        let k = choose|k: int| 0 <= k < ts.len() && (#[trigger] ts[k]).position.z == top_layer(ts);
        let i = choose|i: int| 0 <= i < tiles.len() && tiles[i] == ts[k];
        assert(tiles[i].active);
    }
    // Every cell is that of a tile on the board.
    let f = |t: Tile| cell_of(t, lo_x, lo_y);
    let mapped = ts.map_values(f);
    assert forall|c: BoardCell| #[trigger] b.cells@.contains(c) implies exists|i: int|
        0 <= i < tiles.len() && (#[trigger] tiles[i]).active && c.tile_id == tiles[i].id && c.z
            == tiles[i].position.z && c.row == (tiles[i].position.y - lo_y) / 2 && c.col == (
        tiles[i].position.x - lo_x) / 2 by {
        assert(b.cells@.to_multiset().count(c) > 0);
        assert(mapped.to_multiset().count(c) > 0);
        assert(mapped.contains(c));
        let k = choose|k: int| 0 <= k < mapped.len() && mapped[k] == c;
        let i = choose|i: int| 0 <= i < tiles.len() && tiles[i] == ts[k];
        lemma_bounds(ts, k);
        assert(tiles[i].active);
        assert(c == cell_of(ts[k], lo_x, lo_y));
        assert(lo_y <= tiles[i].position.y <= hi_y);
        assert(0 <= (tiles[i].position.y - lo_y) / 2 <= i32::MAX) by (nonlinear_arith)
            requires
                lo_y <= tiles[i].position.y <= hi_y,
                hi_y - lo_y <= 0xFFFF_FFFF,
        ;
        assert(0 <= (tiles[i].position.x - lo_x) / 2 <= i32::MAX) by (nonlinear_arith)
            requires
                lo_x <= tiles[i].position.x <= hi_x,
                hi_x - lo_x <= 0xFFFF_FFFF,
        ;
    }
}

/// The cells come back to front: a cell comes before every cell of a higher
/// layer, within a layer before every cell of a lower row, within a row
/// before every cell further right, and among cells of one place by tile
/// number.
pub proof fn law_cells_back_to_front(tiles: Seq<Tile>, b: BoardLayout)
    requires
        laid_out(tiles, b),
    ensures
        forall|i: int, j: int|
            0 <= i < j < b.cells@.len() ==> {
                let p = #[trigger] b.cells@[i];
                let q = #[trigger] b.cells@[j];
                ||| p.z < q.z
                ||| p.z == q.z && p.row < q.row
                ||| p.z == q.z && p.row == q.row && p.col < q.col
                ||| p.z == q.z && p.row == q.row && p.col == q.col && p.tile_id <= q.tile_id
            },
{
}

} // verus!
