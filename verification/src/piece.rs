//! A falling piece: a square grid of cells placed at a position on the board.

use vstd::prelude::*;
use crate::block::Block;
use crate::grid::{Grid, is_rect};
use crate::input::Rotation;

verus! {

/// A piece: its shape, and the board position of the shape's top-left cell.
pub struct Piece {
    pub matrix: Grid,
    pub x: i16,
    pub y: i16,
}

/// What a piece is, for contracts: its cells and its position.
pub struct PieceModel {
    pub cells: Seq<Seq<Block>>,
    pub x: int,
    pub y: int,
}

impl View for Piece {
    type V = PieceModel;

    open spec fn view(&self) -> PieceModel {
        PieceModel { cells: self.matrix@, x: self.x as int, y: self.y as int }
    }
}

/// Some cell of `m` is filled.
pub open spec fn has_block(m: Seq<Seq<Block>>) -> bool {
    exists|r: int, c: int| 0 <= r < m.len() && 0 <= c < m[r].len() && #[trigger] m[r][c] != Block::Void
}

/// The shape of a piece in play: a square of side two to four with a filled cell.
pub open spec fn piece_ok(m: Seq<Seq<Block>>) -> bool {
    turnable(m) && has_block(m)
}

/// The side of the square a new piece of kind `b` is drawn in.
pub open spec fn shape_size(b: Block) -> int {
    match b {
        Block::LightBlue => 4,
        Block::Yellow => 2,
        _ => 3,
    }
}

/// Whether the cell in row `r`, column `c` of a new piece of kind `b` is filled.
pub open spec fn in_shape(b: Block, r: int, c: int) -> bool {
    match b {
        Block::LightBlue => r == 1,
        Block::DarkBlue => (r == 0 && c == 0) || r == 1,
        Block::Orange => (r == 0 && c == 2) || r == 1,
        Block::Yellow => true,
        Block::Green => (r == 0 && (c == 1 || c == 2)) || (r == 1 && (c == 0 || c == 1)),
        Block::Magenta => (r == 0 && c == 1) || r == 1,
        Block::Red => (r == 0 && (c == 0 || c == 1)) || (r == 1 && (c == 1 || c == 2)),
        Block::Void => false,
    }
}

/// The cells of a new piece of kind `b`.
pub open spec fn shape(b: Block) -> Seq<Seq<Block>> {
    let n = shape_size(b);
    Seq::new(
        n as nat,
        |r: int| Seq::new(n as nat, |c: int| if in_shape(b, r, c) { b } else { Block::Void }),
    )
}

/// `m` turned a quarter: clockwise for `Clockwise`, counterclockwise otherwise. A
/// two-by-two shape is left as it is.
pub open spec fn rotated(m: Seq<Seq<Block>>, dir: Rotation) -> Seq<Seq<Block>> {
    let n = m.len() as int;
    if n == 2 {
        m
    } else if dir == Rotation::Clockwise {
        Seq::new(n as nat, |i: int| Seq::new(n as nat, |j: int| m[n - 1 - j][i]))
    } else {
        Seq::new(n as nat, |i: int| Seq::new(n as nat, |j: int| m[j][n - 1 - i]))
    }
}

/// The turn that undoes `dir`.
pub open spec fn opposite(dir: Rotation) -> Rotation {
    if dir == Rotation::Clockwise {
        Rotation::Counterclockwise
    } else {
        Rotation::Clockwise
    }
}

/// A shape that can be turned: a square of side two, three or four.
pub open spec fn turnable(m: Seq<Seq<Block>>) -> bool {
    &&& 2 <= m.len() <= 4
    &&& is_rect(m, m.len() as int, m.len() as int)
}

/// The number of cells of kind `b` among the first `k` cells of `row`.
pub open spec fn row_count(row: Seq<Block>, b: Block, k: int) -> nat
    decreases k,
{
    if k <= 0 {
        0
    } else {
        row_count(row, b, k - 1) + if row[k - 1] == b { 1nat } else { 0nat }
    }
}

/// The number of cells of kind `b` in the first `k` rows of `m`.
pub open spec fn grid_count(m: Seq<Seq<Block>>, b: Block, k: int) -> nat
    decreases k,
{
    if k <= 0 {
        0
    } else {
        grid_count(m, b, k - 1) + row_count(m[k - 1], b, m[k - 1].len() as int)
    }
}

/// The number of cells of kind `b` in `m`.
pub open spec fn count_cells(m: Seq<Seq<Block>>, b: Block) -> nat {
    grid_count(m, b, m.len() as int)
}

/// One if `x` is of kind `b`, else zero.
#[verifier::opaque]
pub open spec fn is_kind(x: Block, b: Block) -> nat {
    if x == b {
        1
    } else {
        0
    }
}

proof fn lemma_row_count3(row: Seq<Block>, b: Block)
    requires
        row.len() == 3,
    ensures
        row_count(row, b, 3) == is_kind(row[0], b) + is_kind(row[1], b) + is_kind(row[2], b),
{
    reveal(is_kind);
    reveal_with_fuel(row_count, 4);
}

proof fn lemma_row_count4(row: Seq<Block>, b: Block)
    requires
        row.len() == 4,
    ensures
        row_count(row, b, 4) == is_kind(row[0], b) + is_kind(row[1], b) + is_kind(row[2], b) + is_kind(row[3], b),
{
    reveal(is_kind);
    reveal_with_fuel(row_count, 5);
}

proof fn lemma_count3(m: Seq<Seq<Block>>, b: Block)
    requires
        is_rect(m, 3, 3),
    ensures
        count_cells(m, b) == is_kind(m[0][0], b) + is_kind(m[0][1], b) + is_kind(m[0][2], b) + is_kind(m[1][0], b)
            + is_kind(m[1][1], b) + is_kind(m[1][2], b) + is_kind(m[2][0], b) + is_kind(m[2][1], b) + is_kind(
            m[2][2],
            b,
        ),
{
    reveal_with_fuel(grid_count, 4);
    assert(m[0].len() == 3 && m[1].len() == 3 && m[2].len() == 3);
    lemma_row_count3(m[0], b);
    lemma_row_count3(m[1], b);
    lemma_row_count3(m[2], b);
}

/// The number of cells of kind `b` in row `r` of a four-by-four shape.
#[verifier::opaque]
pub open spec fn sum4(m: Seq<Seq<Block>>, b: Block, r: int) -> nat {
    is_kind(m[r][0], b) + is_kind(m[r][1], b) + is_kind(m[r][2], b) + is_kind(m[r][3], b)
}

/// The number of cells of kind `b` in column `c` of a four-by-four shape.
#[verifier::opaque]
pub open spec fn col4(m: Seq<Seq<Block>>, b: Block, c: int) -> nat {
    is_kind(m[0][c], b) + is_kind(m[1][c], b) + is_kind(m[2][c], b) + is_kind(m[3][c], b)
}

proof fn lemma_count4(m: Seq<Seq<Block>>, b: Block)
    requires
        is_rect(m, 4, 4),
    ensures
        count_cells(m, b) == sum4(m, b, 0) + sum4(m, b, 1) + sum4(m, b, 2) + sum4(m, b, 3),
        count_cells(m, b) == col4(m, b, 0) + col4(m, b, 1) + col4(m, b, 2) + col4(m, b, 3),
{
    reveal(sum4);
    reveal(col4);
    reveal_with_fuel(grid_count, 5);
    assert(m[0].len() == 4 && m[1].len() == 4 && m[2].len() == 4 && m[3].len() == 4);
    lemma_row_count4(m[0], b);
    lemma_row_count4(m[1], b);
    lemma_row_count4(m[2], b);
    lemma_row_count4(m[3], b);
}

/// A turn keeps how many cells of each kind a shape holds.
pub proof fn lemma_rotation_keeps_counts(m: Seq<Seq<Block>>, dir: Rotation, b: Block)
    requires
        turnable(m),
    ensures
        count_cells(rotated(m, dir), b) == count_cells(m, b),
{
    lemma_rotated_turnable(m, dir);
    if m.len() == 3 {
        lemma_turn_counts3(m, dir, b);
    } else if m.len() == 4 {
        lemma_turn_counts4(m, dir, b);
    }
}

proof fn lemma_turn_counts3(m: Seq<Seq<Block>>, dir: Rotation, b: Block)
    requires
        turnable(m),
        m.len() == 3,
    ensures
        count_cells(rotated(m, dir), b) == count_cells(m, b),
{
    let t = rotated(m, dir);
    lemma_rotated_turnable(m, dir);
    lemma_count3(m, b);
    lemma_count3(t, b);
    if dir == Rotation::Clockwise {
        assert(t[0][0] == m[2][0] && t[0][1] == m[1][0] && t[0][2] == m[0][0]);
        assert(t[1][0] == m[2][1] && t[1][1] == m[1][1] && t[1][2] == m[0][1]);
        assert(t[2][0] == m[2][2] && t[2][1] == m[1][2] && t[2][2] == m[0][2]);
    } else {
        assert(t[0][0] == m[0][2] && t[0][1] == m[1][2] && t[0][2] == m[2][2]);
        assert(t[1][0] == m[0][1] && t[1][1] == m[1][1] && t[1][2] == m[2][1]);
        assert(t[2][0] == m[0][0] && t[2][1] == m[1][0] && t[2][2] == m[2][0]);
    }
}

proof fn lemma_turn_counts4(m: Seq<Seq<Block>>, dir: Rotation, b: Block)
    requires
        turnable(m),
        m.len() == 4,
    ensures
        count_cells(rotated(m, dir), b) == count_cells(m, b),
{
    let t = rotated(m, dir);
    lemma_rotated_turnable(m, dir);
    lemma_count4(m, b);
    lemma_count4(t, b);
    if dir == Rotation::Clockwise {
        assert(sum4(t, b, 0) == col4(m, b, 0)) by { reveal(sum4); reveal(col4); }
        assert(sum4(t, b, 1) == col4(m, b, 1)) by { reveal(sum4); reveal(col4); }
        assert(sum4(t, b, 2) == col4(m, b, 2)) by { reveal(sum4); reveal(col4); }
        assert(sum4(t, b, 3) == col4(m, b, 3)) by { reveal(sum4); reveal(col4); }
    } else {
        assert(sum4(t, b, 0) == col4(m, b, 3)) by { reveal(sum4); reveal(col4); }
        assert(sum4(t, b, 1) == col4(m, b, 2)) by { reveal(sum4); reveal(col4); }
        assert(sum4(t, b, 2) == col4(m, b, 1)) by { reveal(sum4); reveal(col4); }
        assert(sum4(t, b, 3) == col4(m, b, 0)) by { reveal(sum4); reveal(col4); }
    }
}

/// Turning a square shape one way and then back gives the shape again.
pub proof fn lemma_rotate_back(m: Seq<Seq<Block>>, dir: Rotation)
    requires
        turnable(m),
    ensures
        rotated(rotated(m, dir), opposite(dir)) == m,
{
    let r = rotated(rotated(m, dir), opposite(dir));
    assert(r =~~= m);
}

/// Four clockwise turns give a square shape back.
pub proof fn lemma_four_turns(m: Seq<Seq<Block>>)
    requires
        turnable(m),
    ensures
        rotated(rotated(rotated(rotated(m, Rotation::Clockwise), Rotation::Clockwise), Rotation::Clockwise), Rotation::Clockwise) == m,
{
    let cw = Rotation::Clockwise;
    let a = rotated(m, cw);
    let b = rotated(a, cw);
    let c = rotated(b, cw);
    let d = rotated(c, cw);
    assert(d =~~= m);
}

/// A turned shape is again a square of the same side.
pub proof fn lemma_rotated_turnable(m: Seq<Seq<Block>>, dir: Rotation)
    requires
        turnable(m),
    ensures
        turnable(rotated(m, dir)),
        rotated(m, dir).len() == m.len(),
{
}

/// The last valid index along a side of `n` cells, as the game computes it:
/// `n - 1` converted to `i16`.
pub open spec fn last_index(n: int) -> int {
    ((n - 1) as i16) as int
}

/// A board the game can check pieces against: at least one row and one column,
/// every row as long as the first.
pub open spec fn board_ok(f: Seq<Seq<Block>>) -> bool {
    &&& f.len() >= 1
    &&& f[0].len() >= 1
    &&& is_rect(f, f.len() as int, f[0].len() as int)
}

/// The cell in row `r`, column `c` of shape `m`, placed with its top-left cell at
/// (`x`, `y`), fits the board `f`: it is empty, or it lies on the board on an
/// empty board cell.
pub open spec fn cell_fits(f: Seq<Seq<Block>>, m: Seq<Seq<Block>>, x: int, y: int, r: int, c: int) -> bool {
    m[r][c] == Block::Void || {
        let fy = y + r;
        let fx = x + c;
        &&& fy <= last_index(f.len() as int)
        &&& fx <= last_index(f[0].len() as int)
        &&& fx >= 0
        &&& fy >= 0
        &&& f[fy][fx] == Block::Void
    }
}

/// Every cell of shape `m` at (`x`, `y`) fits the board `f`.
pub open spec fn fits(f: Seq<Seq<Block>>, m: Seq<Seq<Block>>, x: int, y: int) -> bool {
    forall|r: int, c: int| 0 <= r < m.len() && 0 <= c < m[r].len() ==> #[trigger] cell_fits(f, m, x, y, r, c)
}

/// The number of cells among the first `k` of row `r` of `m` that do not fit.
pub open spec fn row_fails(f: Seq<Seq<Block>>, m: Seq<Seq<Block>>, x: int, y: int, r: int, k: int) -> nat
    decreases k,
{
    if k <= 0 {
        0
    } else {
        row_fails(f, m, x, y, r, k - 1) + if cell_fits(f, m, x, y, r, k - 1) { 0nat } else { 1nat }
    }
}

/// The number of cells in the first `rows` rows of `m` that do not fit.
pub open spec fn fails_before(f: Seq<Seq<Block>>, m: Seq<Seq<Block>>, x: int, y: int, rows: int) -> nat
    decreases rows,
{
    if rows <= 0 {
        0
    } else {
        fails_before(f, m, x, y, rows - 1) + row_fails(f, m, x, y, rows - 1, m[rows - 1].len() as int)
    }
}

/// The number of cells of `m` at (`x`, `y`) that do not fit the board `f`.
pub open spec fn fail_total(f: Seq<Seq<Block>>, m: Seq<Seq<Block>>, x: int, y: int) -> nat {
    fails_before(f, m, x, y, m.len() as int)
}

/// The board coordinates of every filled cell of `m` at (`x`, `y`) can be computed
/// in `i16` without overflow.
pub open spec fn no_overflow(m: Seq<Seq<Block>>, x: int, y: int) -> bool {
    forall|r: int, c: int|
        0 <= r < m.len() && 0 <= c < m[r].len() && #[trigger] m[r][c] != Block::Void ==> {
            &&& r <= i16::MAX
            &&& c <= i16::MAX
            &&& y + r <= i16::MAX
            &&& x + c <= i16::MAX
        }
}

/// The result of counting misfits with a limit: stop, with `false`, as soon as the
/// count reaches the limit (at least one); else `true` and the full count.
pub open spec fn limited_count(total: nat, limit: nat) -> (bool, nat) {
    let lim = if limit == 0 { 1nat } else { limit };
    if total >= lim {
        (false, lim)
    } else {
        (true, total)
    }
}

proof fn lemma_row_fails_bounds(f: Seq<Seq<Block>>, m: Seq<Seq<Block>>, x: int, y: int, r: int, k: int)
    requires
        k >= 0,
    ensures
        row_fails(f, m, x, y, r, k) <= k,
        row_fails(f, m, x, y, r, k) == 0 <==> (forall|c: int| 0 <= c < k ==> #[trigger] cell_fits(f, m, x, y, r, c)),
        forall|j: int| 0 <= j <= k ==> row_fails(f, m, x, y, r, j) <= #[trigger] row_fails(f, m, x, y, r, k),
    decreases k,
{
    if k > 0 {
        lemma_row_fails_bounds(f, m, x, y, r, k - 1);
    }
}

proof fn lemma_fails_before_bounds(f: Seq<Seq<Block>>, m: Seq<Seq<Block>>, x: int, y: int, rows: int, width: int)
    requires
        0 <= rows <= m.len(),
        width >= 0,
        forall|i: int| 0 <= i < m.len() ==> #[trigger] m[i].len() == width,
    ensures
        fails_before(f, m, x, y, rows) <= rows * width,
        fails_before(f, m, x, y, rows) == 0 <==> (forall|r: int, c: int|
            0 <= r < rows && 0 <= c < m[r].len() ==> #[trigger] cell_fits(f, m, x, y, r, c)),
        forall|j: int| 0 <= j <= rows ==> fails_before(f, m, x, y, j) <= #[trigger] fails_before(f, m, x, y, rows),
    decreases rows,
{
    if rows > 0 {
        lemma_fails_before_bounds(f, m, x, y, rows - 1, width);
        lemma_row_fails_bounds(f, m, x, y, rows - 1, width);
        assert((rows - 1) * width + width == rows * width) by (nonlinear_arith);
        if fails_before(f, m, x, y, rows) == 0 {
            assert forall|r: int, c: int| 0 <= r < rows && 0 <= c < m[r].len() implies #[trigger] cell_fits(f, m, x, y, r, c) by {
                if r < rows - 1 {
                } else {
                }
            }
        }
    }
}

/// A shape fits the board exactly when none of its cells fails to fit.
pub proof fn lemma_fits_iff_no_fails(f: Seq<Seq<Block>>, m: Seq<Seq<Block>>, x: int, y: int, width: int)
    requires
        width >= 0,
        is_rect(m, m.len() as int, width),
    ensures
        fits(f, m, x, y) <==> fail_total(f, m, x, y) == 0,
        fail_total(f, m, x, y) <= m.len() * width,
{
    lemma_fails_before_bounds(f, m, x, y, m.len() as int, width);
}

/// The board cell in row `i`, column `j` is under a filled cell of shape `m` placed
/// at (`x`, `y`).
pub open spec fn covers(m: Seq<Seq<Block>>, x: int, y: int, i: int, j: int) -> bool {
    &&& 0 <= i - y < m.len()
    &&& 0 <= j - x < m[i - y].len()
    &&& m[i - y][j - x] != Block::Void
}

/// The board `f` with the filled cells of `m` at (`x`, `y`) written onto it.
pub open spec fn placed(f: Seq<Seq<Block>>, m: Seq<Seq<Block>>, x: int, y: int) -> Seq<Seq<Block>> {
    Seq::new(
        f.len(),
        |i: int| Seq::new(f[i].len(), |j: int| if covers(m, x, y, i, j) { m[i - y][j - x] } else { f[i][j] }),
    )
}

/// The board `f` with the cells under the filled cells of `m` at (`x`, `y`) emptied.
pub open spec fn lifted(f: Seq<Seq<Block>>, m: Seq<Seq<Block>>, x: int, y: int) -> Seq<Seq<Block>> {
    Seq::new(
        f.len(),
        |i: int| Seq::new(f[i].len(), |j: int| if covers(m, x, y, i, j) { Block::Void } else { f[i][j] }),
    )
}

/// Every filled cell of `m` at (`x`, `y`) lies on the board `f`.
pub open spec fn on_board(f: Seq<Seq<Block>>, m: Seq<Seq<Block>>, x: int, y: int) -> bool {
    forall|r: int, c: int|
        0 <= r < m.len() && 0 <= c < m[r].len() && #[trigger] m[r][c] != Block::Void ==> {
            &&& 0 <= y + r < f.len()
            &&& 0 <= x + c < f[y + r].len()
        }
}

/// Every filled cell of `m` at (`x`, `y`) lies on the board `f` on a filled board cell.
pub open spec fn holds(f: Seq<Seq<Block>>, m: Seq<Seq<Block>>, x: int, y: int) -> bool {
    &&& on_board(f, m, x, y)
    &&& forall|r: int, c: int|
        0 <= r < m.len() && 0 <= c < m[r].len() && #[trigger] m[r][c] != Block::Void ==> f[y + r][x + c] != Block::Void
}

/// A shape that fits a board lies on it.
pub proof fn lemma_fits_on_board(f: Seq<Seq<Block>>, m: Seq<Seq<Block>>, x: int, y: int)
    requires
        board_ok(f),
        fits(f, m, x, y),
    ensures
        on_board(f, m, x, y),
{
    lemma_last_index(f.len() as int);
    lemma_last_index(f[0].len() as int);
    assert forall|r: int, c: int|
        0 <= r < m.len() && 0 <= c < m[r].len() && #[trigger] m[r][c] != Block::Void implies {
            &&& 0 <= y + r < f.len()
            &&& 0 <= x + c < f[y + r].len()
        } by {
        assert(cell_fits(f, m, x, y, r, c));
    }
}

/// Once a piece is written onto a board, the board holds it.
pub proof fn lemma_placed_holds(f: Seq<Seq<Block>>, m: Seq<Seq<Block>>, x: int, y: int)
    requires
        on_board(f, m, x, y),
    ensures
        holds(placed(f, m, x, y), m, x, y),
{
    let p = placed(f, m, x, y);
    assert forall|r: int, c: int|
        0 <= r < m.len() && 0 <= c < m[r].len() && #[trigger] m[r][c] != Block::Void implies {
            &&& 0 <= y + r < p.len()
            &&& 0 <= x + c < p[y + r].len()
        } by {
    }
    assert forall|r: int, c: int|
        0 <= r < m.len() && 0 <= c < m[r].len() && #[trigger] m[r][c] != Block::Void implies p[y + r][x + c] != Block::Void by {
        assert(covers(m, x, y, y + r, x + c));
    }
}

/// Lifting a piece off a board it was written onto gives the board it was written
/// onto, with the piece's cells emptied; when the piece fit that board, this is
/// that board itself.
pub proof fn lemma_lift_undoes_place(f: Seq<Seq<Block>>, m: Seq<Seq<Block>>, x: int, y: int)
    requires
        board_ok(f),
    ensures
        lifted(placed(f, m, x, y), m, x, y) == lifted(f, m, x, y),
        fits(f, m, x, y) ==> lifted(placed(f, m, x, y), m, x, y) == f,
{
    assert(lifted(placed(f, m, x, y), m, x, y) =~~= lifted(f, m, x, y));
    if fits(f, m, x, y) {
        assert forall|i: int, j: int| 0 <= i < f.len() && 0 <= j < f[i].len() && covers(m, x, y, i, j)
            implies f[i][j] == Block::Void by {
            assert(cell_fits(f, m, x, y, i - y, j - x));
        }
        assert(lifted(f, m, x, y) =~~= f);
    }
}

/// The horizontal step of the `d`-th wall kick direction: up, down, right, left.
pub open spec fn kick_dx(d: int) -> int {
    if d == 2 {
        1
    } else if d == 3 {
        -1
    } else {
        0
    }
}

/// The vertical step of the `d`-th wall kick direction: up, down, right, left.
pub open spec fn kick_dy(d: int) -> int {
    if d == 0 {
        -1
    } else if d == 1 {
        1
    } else {
        0
    }
}

/// Pushing shape `m` from (`x`, `y`) one step at a time by (`dx`, `dy`) while
/// `fails` cells still do not fit: each step must lower the number of misfits,
/// else the push is given up and the shape goes back to (`ox`, `oy`). Gives the
/// final position and the last misfit count.
pub open spec fn kick_along(
    f: Seq<Seq<Block>>,
    m: Seq<Seq<Block>>,
    ox: int,
    oy: int,
    x: int,
    y: int,
    dx: int,
    dy: int,
    fails: nat,
) -> (int, int, nat)
    decreases fails,
{
    if fails == 0 {
        (x, y, 0)
    } else {
        let t = fail_total(f, m, x + dx, y + dy);
        if t >= fails {
            (ox, oy, fails)
        } else {
            kick_along(f, m, ox, oy, x + dx, y + dy, dx, dy, t)
        }
    }
}

/// The wall kicks in the first `d` directions, starting at (`ox`, `oy`) with
/// `fails` misfits.
pub open spec fn kicks(f: Seq<Seq<Block>>, m: Seq<Seq<Block>>, ox: int, oy: int, fails: nat, d: int) -> (int, int, nat)
    decreases d,
{
    if d <= 0 {
        (ox, oy, fails)
    } else {
        let p = kicks(f, m, ox, oy, fails, d - 1);
        kick_along(f, m, ox, oy, p.0, p.1, kick_dx(d - 1), kick_dy(d - 1), p.2)
    }
}

/// What turning shape `m` at (`x`, `y`) on board `f` in direction `dir` leaves: the
/// shape, its position, and whether the turn was made. No turn is asked for with
/// `Not`. Else the shape is turned and, if some cells then do not fit, kicked up,
/// down, right and left in turn; the turn is kept when the turned shape fits where
/// the kicks left it, else the old shape comes back.
pub open spec fn rotation_outcome(f: Seq<Seq<Block>>, m: Seq<Seq<Block>>, x: int, y: int, dir: Rotation) -> (
    Seq<Seq<Block>>,
    int,
    int,
    bool,
) {
    if dir == Rotation::Not {
        (m, x, y, false)
    } else {
        let rm = rotated(m, dir);
        let k = kicks(f, rm, x, y, fail_total(f, rm, x, y), 4);
        let ok = fits(f, rm, k.0, k.1);
        (if ok { rm } else { m }, k.0, k.1, ok)
    }
}

proof fn lemma_kick_along(
    f: Seq<Seq<Block>>,
    m: Seq<Seq<Block>>,
    ox: int,
    oy: int,
    x: int,
    y: int,
    dx: int,
    dy: int,
    fails: nat,
    width: int,
)
    requires
        width >= 0,
        is_rect(m, m.len() as int, width),
    ensures
        ({
            let k = kick_along(f, m, ox, oy, x, y, dx, dy, fails);
            &&& fails == 0 ==> k == (x, y, 0nat)
            &&& fails > 0 && k.2 > 0 ==> k.0 == ox && k.1 == oy
            &&& fails > 0 && k.2 == 0 ==> fits(f, m, k.0, k.1)
            &&& k.2 <= fails
        }),
    decreases fails,
{
    if fails > 0 {
        let t = fail_total(f, m, x + dx, y + dy);
        lemma_fits_iff_no_fails(f, m, x + dx, y + dy, width);
        if t < fails {
            lemma_kick_along(f, m, ox, oy, x + dx, y + dy, dx, dy, t, width);
        }
    }
}

proof fn lemma_kicks(f: Seq<Seq<Block>>, m: Seq<Seq<Block>>, ox: int, oy: int, d: int, width: int)
    requires
        width >= 0,
        is_rect(m, m.len() as int, width),
        0 <= d,
    ensures
        ({
            let init = fail_total(f, m, ox, oy);
            let k = kicks(f, m, ox, oy, init, d);
            &&& k.2 > 0 ==> k.0 == ox && k.1 == oy
            &&& k.2 == 0 ==> fits(f, m, k.0, k.1)
            &&& k.2 <= init
        }),
    decreases d,
{
    let init = fail_total(f, m, ox, oy);
    lemma_fits_iff_no_fails(f, m, ox, oy, width);
    if d > 0 {
        lemma_kicks(f, m, ox, oy, d - 1, width);
        let p = kicks(f, m, ox, oy, init, d - 1);
        lemma_kick_along(f, m, ox, oy, p.0, p.1, kick_dx(d - 1), kick_dy(d - 1), p.2, width);
    }
}

proof fn lemma_kicks_from_fit(f: Seq<Seq<Block>>, m: Seq<Seq<Block>>, ox: int, oy: int, d: int)
    requires
        0 <= d,
    ensures
        kicks(f, m, ox, oy, 0, d) == (ox, oy, 0nat),
    decreases d,
{
    if d > 0 {
        lemma_kicks_from_fit(f, m, ox, oy, d - 1);
    }
}

/// A turn that is refused leaves the piece as it was, a turn that is made leaves
/// the piece fitting the board, and a turned shape that fits where it is stays
/// there, without kicks.
pub proof fn lemma_rotation_outcome(f: Seq<Seq<Block>>, m: Seq<Seq<Block>>, x: int, y: int, dir: Rotation)
    requires
        turnable(m),
    ensures
        ({
            let o = rotation_outcome(f, m, x, y, dir);
            &&& !o.3 ==> o.0 == m && o.1 == x && o.2 == y
            &&& o.3 ==> fits(f, o.0, o.1, o.2) && o.0 == rotated(m, dir)
            &&& dir != Rotation::Not && fits(f, rotated(m, dir), x, y) ==> o == (rotated(m, dir), x, y, true)
        }),
{
    if dir != Rotation::Not {
        let rm = rotated(m, dir);
        lemma_rotated_turnable(m, dir);
        lemma_kicks(f, rm, x, y, 4, m.len() as int);
        lemma_fits_iff_no_fails(f, rm, x, y, m.len() as int);
        if fits(f, rm, x, y) {
            lemma_kicks_from_fit(f, rm, x, y, 4);
        }
    }
}

/// The wall kicks try single steps up, down, right and left, in that order. When
/// the turned shape does not fit in place: if it fits one row up, the piece turns
/// and moves up; else, if a step up does not lower the number of cells that fail
/// to fit and the shape fits one row down, it turns and moves down; likewise one
/// column right, then one column left. When none of the four steps lowers that
/// number, the turn is refused and the piece stays as it was.
pub proof fn lemma_wall_kicks(f: Seq<Seq<Block>>, m: Seq<Seq<Block>>, x: int, y: int, dir: Rotation)
    requires
        turnable(m),
        dir != Rotation::Not,
        !fits(f, rotated(m, dir), x, y),
    ensures
        ({
            let rm = rotated(m, dir);
            let n = fail_total(f, rm, x, y);
            let o = rotation_outcome(f, m, x, y, dir);
            let up = fail_total(f, rm, x, y - 1) >= n;
            let down = fail_total(f, rm, x, y + 1) >= n;
            let right = fail_total(f, rm, x + 1, y) >= n;
            let left = fail_total(f, rm, x - 1, y) >= n;
            &&& fits(f, rm, x, y - 1) ==> o == (rm, x, y - 1, true)
            &&& up && fits(f, rm, x, y + 1) ==> o == (rm, x, y + 1, true)
            &&& up && down && fits(f, rm, x + 1, y) ==> o == (rm, x + 1, y, true)
            &&& up && down && right && fits(f, rm, x - 1, y) ==> o == (rm, x - 1, y, true)
            &&& up && down && right && left ==> o == (m, x, y, false)
        }),
{
    let rm = rotated(m, dir);
    let w = m.len() as int;
    lemma_rotated_turnable(m, dir);
    let n = fail_total(f, rm, x, y);
    lemma_fits_iff_no_fails(f, rm, x, y, w);
    lemma_fits_iff_no_fails(f, rm, x, y - 1, w);
    lemma_fits_iff_no_fails(f, rm, x, y + 1, w);
    lemma_fits_iff_no_fails(f, rm, x + 1, y, w);
    lemma_fits_iff_no_fails(f, rm, x - 1, y, w);
    assert(n > 0);
    reveal_with_fuel(kicks, 5);
    reveal_with_fuel(kick_along, 3);
    let k1 = kicks(f, rm, x, y, n, 1);
    let k2 = kicks(f, rm, x, y, n, 2);
    let k3 = kicks(f, rm, x, y, n, 3);
    let k4 = kicks(f, rm, x, y, n, 4);
    assert(k1 == kick_along(f, rm, x, y, x, y, 0, -1, n));
    assert(k2 == kick_along(f, rm, x, y, k1.0, k1.1, 0, 1, k1.2));
    assert(k3 == kick_along(f, rm, x, y, k2.0, k2.1, 1, 0, k2.2));
    assert(k4 == kick_along(f, rm, x, y, k3.0, k3.1, -1, 0, k3.2));
    if fits(f, rm, x, y - 1) {
        assert(k1 == (x, y - 1, 0nat));
        assert(k2 == (x, y - 1, 0nat));
        assert(k3 == (x, y - 1, 0nat));
        assert(k4 == (x, y - 1, 0nat));
    } else if fail_total(f, rm, x, y - 1) >= n {
        assert(k1 == (x, y, n));
        if fits(f, rm, x, y + 1) {
            assert(k2 == (x, y + 1, 0nat));
            assert(k3 == (x, y + 1, 0nat));
            assert(k4 == (x, y + 1, 0nat));
        } else if fail_total(f, rm, x, y + 1) >= n {
            assert(k2 == (x, y, n));
            if fits(f, rm, x + 1, y) {
                assert(k3 == (x + 1, y, 0nat));
                assert(k4 == (x + 1, y, 0nat));
            } else if fail_total(f, rm, x + 1, y) >= n {
                assert(k3 == (x, y, n));
                if fits(f, rm, x - 1, y) {
                    assert(k4 == (x - 1, y, 0nat));
                } else if fail_total(f, rm, x - 1, y) >= n {
                    assert(k4 == (x, y, n));
                }
            }
        }
    }
}

proof fn lemma_last_index(n: int)
    requires
        n >= 1,
    ensures
        last_index(n) <= n - 1,
        n - 1 <= i16::MAX ==> last_index(n) == n - 1,
{
}

/// The last row index and the last column index of a board, as `i16`.
fn board_limits(field: &Grid) -> (l: (i16, i16))
    requires
        board_ok(field@),
    ensures
        l.0 == last_index(field@.len() as int),
        l.1 == last_index(field@[0].len() as int),
        l.0 <= field@.len() - 1,
        l.1 <= field@[0].len() - 1,
{
    let (my, mx) = field.dim();
    assert(field@[0].len() == mx);
    proof {
        lemma_last_index(my as int);
        lemma_last_index(mx as int);
    }
    (((my - 1) as i16), ((mx - 1) as i16))
}

/// The cells of a turnable shape never overflow `i16` when the shape's position
/// leaves three cells of room below `i16::MAX`.
pub proof fn lemma_small_no_overflow(m: Seq<Seq<Block>>, x: int, y: int)
    requires
        turnable(m),
        i16::MIN <= x <= i16::MAX - 3,
        i16::MIN <= y <= i16::MAX - 3,
    ensures
        no_overflow(m, x, y),
{
}

/// The rows a piece at row `y` with `rows` rows of shape spans, as the game
/// computes it: both converted to `u8`, the second added to the first.
pub open spec fn span_spec(y: i16, rows: usize) -> (u8, u8) {
    (y as u8, ((y as u8) + (rows as u8)) as u8)
}

/// The span of rows of a piece at row `y` whose shape has `rows` rows: `y` and
/// `y + rows`, both as `u8`. The sum must fit a `u8` (the game would panic).
pub fn span_of(y: i16, rows: usize) -> (s: (u8, u8))
    requires
        (y as u8) + (rows as u8) <= u8::MAX,
    ensures
        s == span_spec(y, rows),
{
    (y as u8, ((y as u8) + (rows as u8)) as u8)
}

/// The span of rows of a piece at row `y` whose shape has `rows` rows, when their
/// `u8` sum fits a `u8`; none when it does not (where the game would panic).
pub fn span_checked(y: i16, rows: usize) -> (s: Option<(u8, u8)>)
    ensures
        s == if (y as u8) + (rows as u8) <= u8::MAX {
            Some(span_spec(y, rows))
        } else {
            None::<(u8, u8)>
        },
{
    let top = y as u8;
    let height = rows as u8;
    if height <= u8::MAX - top {
        Some(span_of(y, rows))
    } else {
        None
    }
}

/// A new piece's shape is a square of side two to four with a filled cell.
pub proof fn lemma_shape_ok(b: Block)
    requires
        b != Block::Void,
    ensures
        piece_ok(shape(b)),
{
    let m = shape(b);
    assert(m[1][1] == b);
}

/// A turned shape keeps a filled cell.
pub proof fn lemma_rotated_ok(m: Seq<Seq<Block>>, dir: Rotation)
    requires
        piece_ok(m),
    ensures
        piece_ok(rotated(m, dir)),
{
    let (r, c) = choose|r: int, c: int| 0 <= r < m.len() && 0 <= c < m[r].len() && #[trigger] m[r][c] != Block::Void;
    let n = m.len() as int;
    let t = rotated(m, dir);
    if n == 2 {
    } else if dir == Rotation::Clockwise {
        assert(t[c][n - 1 - r] == m[r][c]);
    } else {
        assert(t[n - 1 - c][r] == m[r][c]);
    }
}

/// A piece in play lying on a board is at most three cells off its edges.
pub proof fn lemma_on_board_bounds(f: Seq<Seq<Block>>, m: Seq<Seq<Block>>, x: int, y: int, w: int)
    requires
        piece_ok(m),
        is_rect(f, f.len() as int, w),
        on_board(f, m, x, y),
    ensures
        -3 <= y < f.len(),
        -3 <= x < w,
{
    let (r, c) = choose|r: int, c: int| 0 <= r < m.len() && 0 <= c < m[r].len() && #[trigger] m[r][c] != Block::Void;
    assert(f[y + r].len() == w);
}

impl Piece {
    /// A new piece of kind `block_type` with its top-left cell at (`x`, `y`).
    pub fn new(block_type: Block, x: i16, y: i16) -> (p: Piece)
        requires
            block_type != Block::Void,
        ensures
            p.matrix@ == shape(block_type),
            p.x == x,
            p.y == y,
    {
        let b = block_type;
        let mut matrix = match b {
            Block::LightBlue => Grid::new(4, 4, Block::Void),
            Block::Yellow => {
                let m = Grid::new(2, 2, Block::Yellow);
                assert(m@ =~~= shape(b));
                return Piece { matrix: m, x, y };
            },
            _ => Grid::new(3, 3, Block::Void),
        };
        match b {
            Block::LightBlue => {
                matrix.set(1, 0, b);
                matrix.set(1, 1, b);
                matrix.set(1, 2, b);
                matrix.set(1, 3, b);
            },
            Block::DarkBlue => {
                matrix.set(0, 0, b);
                matrix.set(1, 0, b);
                matrix.set(1, 1, b);
                matrix.set(1, 2, b);
            },
            Block::Orange => {
                matrix.set(0, 2, b);
                matrix.set(1, 0, b);
                matrix.set(1, 1, b);
                matrix.set(1, 2, b);
            },
            Block::Green => {
                matrix.set(0, 1, b);
                matrix.set(0, 2, b);
                matrix.set(1, 0, b);
                matrix.set(1, 1, b);
            },
            Block::Magenta => {
                matrix.set(0, 1, b);
                matrix.set(1, 0, b);
                matrix.set(1, 1, b);
                matrix.set(1, 2, b);
            },
            Block::Red => {
                matrix.set(0, 0, b);
                matrix.set(0, 1, b);
                matrix.set(1, 1, b);
                matrix.set(1, 2, b);
            },
            _ => {},
        }
        assert(matrix@ =~~= shape(b));
        Piece { matrix, x, y }
    }

    /// The shape turned a quarter in `direction` (any direction but `Clockwise`
    /// turns counterclockwise); a two-by-two shape comes back unchanged.
    pub fn matrix_rotated(&self, direction: Rotation) -> (r: Grid)
        requires
            turnable(self.matrix@),
        ensures
            r@ == rotated(self.matrix@, direction),
    {
        let (my, mx) = self.matrix.dim();
        let ghost m = self.matrix@;
        let n = my;
        assert(m[0].len() == mx);
        if n == 2 {
            return self.matrix.duplicate();
        }
        let clockwise = direction == Rotation::Clockwise;
        assert(n * mx <= 16) by (nonlinear_arith)
            requires
                n <= 4,
                mx <= 4,
        ;
        let mut out = Grid::new(n, mx, Block::Void);
        let ghost target = rotated(m, direction);
        let mut i: usize = 0;
        while i < n
            invariant
                n == m.len(),
                mx == n,
                3 <= n <= 4,
                turnable(m),
                m == self.matrix@,
                target == rotated(m, direction),
                clockwise == (direction == Rotation::Clockwise),
                i <= n,
                is_rect(out@, n as int, n as int),
                forall|a: int, b: int| 0 <= a < i && 0 <= b < n ==> out@[a][b] == #[trigger] target[a][b],
            decreases n - i,
        {
            let mut j: usize = 0;
            while j < n
                invariant
                    n == m.len(),
                    mx == n,
                    3 <= n <= 4,
                    turnable(m),
                    m == self.matrix@,
                    target == rotated(m, direction),
                    clockwise == (direction == Rotation::Clockwise),
                    i < n,
                    j <= n,
                    is_rect(out@, n as int, n as int),
                    forall|a: int, b: int| 0 <= a < i && 0 <= b < n ==> out@[a][b] == #[trigger] target[a][b],
                    forall|b: int| 0 <= b < j ==> out@[i as int][b] == #[trigger] target[i as int][b],
                decreases n - j,
            {
                let v = if clockwise {
                    self.matrix.get(n - 1 - j, i)
                } else {
                    self.matrix.get(j, n - 1 - i)
                };
                out.set(i, j, v);
                j = j + 1;
            }
            i = i + 1;
        }
        assert(out@ =~~= target);
        out
    }

    /// Whether the cell in row `r`, column `c` of the shape fits the board, given the
    /// board's last row and column index.
    fn block_fits(&self, field: &Grid, max_y: i16, max_x: i16, r: usize, c: usize) -> (ok: bool)
        requires
            board_ok(field@),
            max_y == last_index(field@.len() as int),
            max_x == last_index(field@[0].len() as int),
            max_y <= field@.len() - 1,
            max_x <= field@[0].len() - 1,
            r < self.matrix@.len(),
            c < self.matrix@[r as int].len(),
            no_overflow(self.matrix@, self.x as int, self.y as int),
        ensures
            ok == cell_fits(field@, self.matrix@, self.x as int, self.y as int, r as int, c as int),
    {
        let b = self.matrix.get(r, c);
        if b == Block::Void {
            return true;
        }
        assert(self.matrix@[r as int][c as int] != Block::Void);
        let y: i16 = self.y + (r as i16);
        let x: i16 = (c as i16) + self.x;
        if y <= max_y && x <= max_x && x >= 0 && y >= 0 {
            assert(field@[y as int].len() == field@[0].len());
            field.get(y as usize, x as usize) == Block::Void
        } else {
            false
        }
    }

    /// Counts the cells that do not fit the board, and stops with `false` as soon as
    /// the count reaches `limit` (or one, when `limit` is zero); else gives `true` and
    /// the full count.
    fn fits_fail_limit(&self, field: &Grid, limit: usize) -> (res: (bool, usize))
        requires
            board_ok(field@),
            no_overflow(self.matrix@, self.x as int, self.y as int),
        ensures
            (res.0, res.1 as nat) == limited_count(
                fail_total(field@, self.matrix@, self.x as int, self.y as int),
                limit as nat,
            ),
    {
        let ghost f = field@;
        let ghost m = self.matrix@;
        let ghost x = self.x as int;
        let ghost y = self.y as int;
        let (max_y, max_x) = board_limits(field);
        let (rows, cols) = self.matrix.dim();
        let ghost lim: nat = if limit == 0 { 1nat } else { limit as nat };
        proof {
            lemma_fails_before_bounds(f, m, x, y, rows as int, cols as int);
        }
        let mut fails: usize = 0;
        let mut r: usize = 0;
        while r < rows
            invariant
                f == field@,
                m == self.matrix@,
                x == self.x,
                y == self.y,
                board_ok(f),
                no_overflow(m, x, y),
                max_y == last_index(f.len() as int),
                max_x == last_index(f[0].len() as int),
                max_y <= f.len() - 1,
                max_x <= f[0].len() - 1,
                is_rect(m, rows as int, cols as int),
                lim == (if limit == 0 { 1nat } else { limit as nat }),
                r <= rows,
                fails == fails_before(f, m, x, y, r as int),
                fails < lim,
                forall|j: int| 0 <= j <= rows ==> fails_before(f, m, x, y, j) <= #[trigger] fails_before(f, m, x, y, rows as int),
            decreases rows - r,
        {
            proof {
                lemma_row_fails_bounds(f, m, x, y, r as int, cols as int);
            }
            let mut c: usize = 0;
            while c < cols
                invariant
                    f == field@,
                    m == self.matrix@,
                    x == self.x,
                    y == self.y,
                    board_ok(f),
                    no_overflow(m, x, y),
                    max_y == last_index(f.len() as int),
                    max_x == last_index(f[0].len() as int),
                    max_y <= f.len() - 1,
                    max_x <= f[0].len() - 1,
                    is_rect(m, rows as int, cols as int),
                    lim == (if limit == 0 { 1nat } else { limit as nat }),
                    r < rows,
                    c <= cols,
                    fails == fails_before(f, m, x, y, r as int) + row_fails(f, m, x, y, r as int, c as int),
                    fails < lim,
                    forall|j: int| 0 <= j <= rows ==> fails_before(f, m, x, y, j) <= #[trigger] fails_before(f, m, x, y, rows as int),
                    forall|j: int| 0 <= j <= cols ==> row_fails(f, m, x, y, r as int, j) <= #[trigger] row_fails(f, m, x, y, r as int, cols as int),
                decreases cols - c,
            {
                if !self.block_fits(field, max_y, max_x, r, c) {
                    fails = fails + 1;
                    if fails >= limit {
                        proof {
                            assert(m[r as int].len() == cols);
                            assert(row_fails(f, m, x, y, r as int, c as int + 1) == row_fails(f, m, x, y, r as int, c as int) + 1);
                            assert(row_fails(f, m, x, y, r as int, c as int + 1) <= row_fails(f, m, x, y, r as int, cols as int));
                            assert(fails_before(f, m, x, y, r as int + 1) == fails_before(f, m, x, y, r as int)
                                + row_fails(f, m, x, y, r as int, cols as int));
                            assert(fails_before(f, m, x, y, r as int + 1) <= fails_before(f, m, x, y, rows as int));
                        }
                        return (false, fails);
                    }
                }
                c = c + 1;
            }
            r = r + 1;
        }
        (true, fails)
    }

    /// The number of cells of the shape that do not fit the board.
    fn fail_count(&self, field: &Grid) -> (n: usize)
        requires
            board_ok(field@),
            no_overflow(self.matrix@, self.x as int, self.y as int),
        ensures
            n == fail_total(field@, self.matrix@, self.x as int, self.y as int),
    {
        let (rows, cols) = self.matrix.dim();
        proof {
            lemma_fits_iff_no_fails(field@, self.matrix@, self.x as int, self.y as int, cols as int);
        }
        let (_, n) = self.fits_fail_limit(field, usize::MAX);
        n
    }

    /// Whether every cell of the piece fits the board: each is empty, or lies on the
    /// board on an empty cell.
    pub fn is_valid(&self, field: &Grid) -> (ok: bool)
        requires
            board_ok(field@),
            no_overflow(self.matrix@, self.x as int, self.y as int),
        ensures
            ok == fits(field@, self.matrix@, self.x as int, self.y as int),
    {
        let (max_y, max_x) = board_limits(field);
        let (rows, cols) = self.matrix.dim();
        let mut r: usize = 0;
        while r < rows
            invariant
                board_ok(field@),
                no_overflow(self.matrix@, self.x as int, self.y as int),
                max_y == last_index(field@.len() as int),
                max_x == last_index(field@[0].len() as int),
                max_y <= field@.len() - 1,
                max_x <= field@[0].len() - 1,
                is_rect(self.matrix@, rows as int, cols as int),
                r <= rows,
                forall|i: int, j: int| 0 <= i < r && 0 <= j < self.matrix@[i].len() ==>
                    #[trigger] cell_fits(field@, self.matrix@, self.x as int, self.y as int, i, j),
            decreases rows - r,
        {
            let mut c: usize = 0;
            while c < cols
                invariant
                    board_ok(field@),
                    no_overflow(self.matrix@, self.x as int, self.y as int),
                    max_y == last_index(field@.len() as int),
                    max_x == last_index(field@[0].len() as int),
                    max_y <= field@.len() - 1,
                    max_x <= field@[0].len() - 1,
                    is_rect(self.matrix@, rows as int, cols as int),
                    r < rows,
                    c <= cols,
                    forall|i: int, j: int| 0 <= i < r && 0 <= j < self.matrix@[i].len() ==>
                        #[trigger] cell_fits(field@, self.matrix@, self.x as int, self.y as int, i, j),
                    forall|j: int| 0 <= j < c ==>
                        #[trigger] cell_fits(field@, self.matrix@, self.x as int, self.y as int, r as int, j),
                decreases cols - c,
            {
                if !self.block_fits(field, max_y, max_x, r, c) {
                    return false;
                }
                c = c + 1;
            }
            r = r + 1;
        }
        true
    }

    /// Moves the piece by (`x`, `y`).
    pub fn move_by(&mut self, x: i16, y: i16)
        requires
            i16::MIN <= old(self).x + x <= i16::MAX,
            i16::MIN <= old(self).y + y <= i16::MAX,
        ensures
            final(self).x == old(self).x + x,
            final(self).y == old(self).y + y,
            final(self).matrix == old(self).matrix,
    {
        self.x = self.x + x;
        self.y = self.y + y;
    }

    /// The first and the last board row the piece's shape spans, as `u8`.
    pub fn get_span(&self) -> (s: (u8, u8))
        requires
            (self.y as u8) + (self.matrix@.len() as usize as u8) <= u8::MAX,
        ensures
            s == span_spec(self.y, self.matrix@.len() as usize),
    {
        let (rows, _) = self.matrix.dim();
        span_of(self.y, rows)
    }

    /// Writes the piece's filled cells onto the board.
    pub fn add_to_field(&self, field: &mut Grid)
        requires
            on_board(old(field)@, self.matrix@, self.x as int, self.y as int),
            no_overflow(self.matrix@, self.x as int, self.y as int),
        ensures
            final(field)@ == placed(old(field)@, self.matrix@, self.x as int, self.y as int),
            final(field).width() == old(field).width(),
    {
        let ghost f0 = field@;
        let ghost w0 = field.width();
        let ghost m = self.matrix@;
        let ghost x = self.x as int;
        let ghost y = self.y as int;
        let (rows, cols) = self.matrix.dim();
        let mut r: usize = 0;
        while r < rows
            invariant
                m == self.matrix@,
                x == self.x,
                y == self.y,
                is_rect(m, rows as int, cols as int),
                on_board(f0, m, x, y),
                no_overflow(m, x, y),
                r <= rows,
                field@.len() == f0.len(),
                field.width() == w0,
                forall|i: int| 0 <= i < f0.len() ==> #[trigger] field@[i].len() == f0[i].len(),
                forall|i: int, j: int| 0 <= i < f0.len() && 0 <= j < f0[i].len() ==> #[trigger] field@[i][j] == (
                    if covers(m, x, y, i, j) && i - y < r { m[i - y][j - x] } else { f0[i][j] }),
            decreases rows - r,
        {
            let mut c: usize = 0;
            while c < cols
                invariant
                    m == self.matrix@,
                    x == self.x,
                    y == self.y,
                    is_rect(m, rows as int, cols as int),
                    on_board(f0, m, x, y),
                    no_overflow(m, x, y),
                    r < rows,
                    c <= cols,
                    field@.len() == f0.len(),
                    field.width() == w0,
                field.width() == w0,
                    forall|i: int| 0 <= i < f0.len() ==> #[trigger] field@[i].len() == f0[i].len(),
                    forall|i: int, j: int| 0 <= i < f0.len() && 0 <= j < f0[i].len() ==> #[trigger] field@[i][j] == (
                        if covers(m, x, y, i, j) && (i - y < r || (i - y == r && j - x < c)) { m[i - y][j - x] } else { f0[i][j] }),
                decreases cols - c,
            {
                let b = self.matrix.get(r, c);
                if b != Block::Void {
                    assert(m[r as int][c as int] != Block::Void);
                    let fy = ((r as i16) + self.y) as usize;
                    let fx = ((c as i16) + self.x) as usize;
                    field.set(fy, fx, b);
                }
                c = c + 1;
            }
            r = r + 1;
        }
        assert(field@ =~~= placed(f0, m, x, y));
    }

    /// Empties the board cells under the piece's filled cells. Each of them must
    /// hold a filled cell (the game asserts it).
    pub fn remove_from_field(&self, field: &mut Grid)
        requires
            holds(old(field)@, self.matrix@, self.x as int, self.y as int),
            no_overflow(self.matrix@, self.x as int, self.y as int),
        ensures
            final(field)@ == lifted(old(field)@, self.matrix@, self.x as int, self.y as int),
            final(field).width() == old(field).width(),
    {
        let ghost f0 = field@;
        let ghost w0 = field.width();
        let ghost m = self.matrix@;
        let ghost x = self.x as int;
        let ghost y = self.y as int;
        let (sy, sx) = self.matrix.dim();
        let mut r: usize = 0;
        while r < sy
            invariant
                m == self.matrix@,
                x == self.x,
                y == self.y,
                is_rect(m, sy as int, sx as int),
                holds(f0, m, x, y),
                no_overflow(m, x, y),
                r <= sy,
                field@.len() == f0.len(),
                field.width() == w0,
                forall|i: int| 0 <= i < f0.len() ==> #[trigger] field@[i].len() == f0[i].len(),
                forall|i: int, j: int| 0 <= i < f0.len() && 0 <= j < f0[i].len() ==> #[trigger] field@[i][j] == (
                    if covers(m, x, y, i, j) && i - y < r { Block::Void } else { f0[i][j] }),
            decreases sy - r,
        {
            let mut c: usize = 0;
            while c < sx
                invariant
                    m == self.matrix@,
                    x == self.x,
                    y == self.y,
                    is_rect(m, sy as int, sx as int),
                    holds(f0, m, x, y),
                    no_overflow(m, x, y),
                    r < sy,
                    c <= sx,
                    field@.len() == f0.len(),
                    field.width() == w0,
                field.width() == w0,
                    forall|i: int| 0 <= i < f0.len() ==> #[trigger] field@[i].len() == f0[i].len(),
                    forall|i: int, j: int| 0 <= i < f0.len() && 0 <= j < f0[i].len() ==> #[trigger] field@[i][j] == (
                        if covers(m, x, y, i, j) && (i - y < r || (i - y == r && j - x < c)) { Block::Void } else { f0[i][j] }),
                decreases sx - c,
            {
                if self.matrix.get(r, c) != Block::Void {
                    assert(m[r as int][c as int] != Block::Void);
                    let fy = ((r as i16) + self.y) as usize;
                    let fx = ((c as i16) + self.x) as usize;
                    assert(field@[fy as int][fx as int] == f0[fy as int][fx as int]);
                    field.set(fy, fx, Block::Void);
                }
                c = c + 1;
            }
            r = r + 1;
        }
        assert(field@ =~~= lifted(f0, m, x, y));
    }

    /// Turns the piece in direction `rotate`, with wall kicks, on the board `field`.
    /// Gives whether the turn was made; a refused turn leaves the piece as it was.
    /// With `Not` nothing is asked and nothing happens. A turn needs a square shape
    /// of side two to four and a non-empty board (else the game panics), and room in
    /// `i16` for the kicks: at most sixteen cells each way, plus the shape.
    pub fn perform_rotation(&mut self, field: &Grid, rotate: Rotation) -> (turned: bool)
        requires
            rotate != Rotation::Not ==> {
                &&& board_ok(field@)
                &&& turnable(old(self).matrix@)
                &&& i16::MIN + 16 <= old(self).x <= i16::MAX - 19
                &&& i16::MIN + 16 <= old(self).y <= i16::MAX - 19
            },
        ensures
            ({
                let o = rotation_outcome(field@, old(self).matrix@, old(self).x as int, old(self).y as int, rotate);
                &&& final(self).matrix@ == o.0
                &&& final(self).x == o.1
                &&& final(self).y == o.2
                &&& turned == o.3
            }),
            !turned ==> final(self).matrix@ == old(self).matrix@ && final(self).x == old(self).x && final(self).y == old(self).y,
            turned ==> fits(field@, final(self).matrix@, final(self).x as int, final(self).y as int),
            turnable(old(self).matrix@) ==> turnable(final(self).matrix@),
    {
        if rotate == Rotation::Not {
            return false;
        }
        proof {
            lemma_rotation_outcome(field@, self.matrix@, self.x as int, self.y as int, rotate);
        }
        let ghost f = field@;
        let ghost m0 = self.matrix@;
        let rotated = self.matrix_rotated(rotate);
        let old_matrix = self.matrix.duplicate();
        self.matrix = rotated;
        let ghost rm = self.matrix@;
        proof {
            lemma_rotated_turnable(m0, rotate);
            lemma_small_no_overflow(rm, self.x as int, self.y as int);
            lemma_fits_iff_no_fails(f, rm, self.x as int, self.y as int, rm.len() as int);
        }
        let init_fails = self.fail_count(field);
        let old_x = self.x;
        let old_y = self.y;
        let ghost ox = old_x as int;
        let ghost oy = old_y as int;
        assert(init_fails <= 16) by (nonlinear_arith)
            requires
                init_fails <= rm.len() * rm.len(),
                rm.len() <= 4,
        ;

        if init_fails > 0 {
            let adds: [(i16, i16); 4] = [(0, -1), (0, 1), (1, 0), (-1, 0)];
            let mut fails = init_fails;
            let mut d: usize = 0;
            while d < 4
                invariant
                    f == field@,
                    board_ok(f),
                    turnable(rm),
                    self.matrix@ == rm,
                    adds@ == seq![(0i16, -1i16), (0i16, 1i16), (1i16, 0i16), (-1i16, 0i16)],
                    i16::MIN + 16 <= ox <= i16::MAX - 19,
                    i16::MIN + 16 <= oy <= i16::MAX - 19,
                    ox == old_x,
                    oy == old_y,
                    init_fails == fail_total(f, rm, ox, oy),
                    init_fails <= 16,
                    d <= 4,
                    (self.x as int, self.y as int, fails as nat) == kicks(f, rm, ox, oy, init_fails as nat, d as int),
                    fails <= init_fails,
                    (if self.x >= ox { self.x - ox } else { ox - self.x }) + (if self.y >= oy { self.y - oy } else { oy - self.y })
                        <= init_fails - fails,
                decreases 4 - d,
            {
                let add = adds[d];
                let ghost sx = self.x as int;
                let ghost sy = self.y as int;
                let ghost sf = fails as nat;
                let ghost target = kick_along(f, rm, ox, oy, sx, sy, kick_dx(d as int), kick_dy(d as int), sf);
                while fails > 0
                    invariant_except_break
                        kick_along(f, rm, ox, oy, self.x as int, self.y as int, add.0 as int, add.1 as int, fails as nat) == target,
                    invariant
                        f == field@,
                        board_ok(f),
                        turnable(rm),
                        self.matrix@ == rm,
                        add.0 == kick_dx(d as int),
                        add.1 == kick_dy(d as int),
                        i16::MIN + 16 <= ox <= i16::MAX - 19,
                        i16::MIN + 16 <= oy <= i16::MAX - 19,
                        ox == old_x,
                        oy == old_y,
                        init_fails <= 16,
                        fails <= init_fails,
                        (if self.x >= ox { self.x - ox } else { ox - self.x }) + (if self.y >= oy { self.y - oy } else { oy - self.y })
                            <= init_fails - fails,
                    ensures
                        (self.x as int, self.y as int, fails as nat) == target,
                    decreases fails,
                {
                    let ghost px = self.x as int;
                    let ghost py = self.y as int;
                    let ghost pf = fails as nat;
                    self.move_by(add.0, add.1);
                    proof {
                        lemma_small_no_overflow(rm, self.x as int, self.y as int);
                    }
                    let (ok, f2) = self.fits_fail_limit(field, fails);
                    proof {
                        let t = fail_total(f, rm, px + add.0, py + add.1);
                        assert(self.x == px + add.0 && self.y == py + add.1);
                        assert(ok == (t < pf));
                        assert(!ok ==> f2 == pf);
                        assert(ok ==> f2 == t);
                        assert(kick_along(f, rm, ox, oy, px, py, add.0 as int, add.1 as int, pf) == (
                            if t >= pf { (ox, oy, pf) } else { kick_along(f, rm, ox, oy, px + add.0, py + add.1, add.0 as int, add.1 as int, t) }));
                    }
                    fails = f2;
                    if !ok {
                        self.x = old_x;
                        self.y = old_y;
                        break;
                    }
                }
                d = d + 1;
            }
        } else {
            assert forall|dd: int| 0 <= dd <= 4 implies #[trigger] kicks(f, rm, ox, oy, 0, dd) == (ox, oy, 0nat) by {
                lemma_kicks_from_fit(f, rm, ox, oy, dd);
            }
        }
        proof {
            lemma_small_no_overflow(rm, self.x as int, self.y as int);
        }
        if !self.is_valid(field) {
            self.matrix = old_matrix;
            return false;
        }
        true
    }
}

} // verus!
