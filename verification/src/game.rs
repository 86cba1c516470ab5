//! The rules of a game: the bag pieces are drawn from, and what one frame does
//! with the player's input.

use vstd::prelude::*;
use crate::block::Block;
use crate::board::{
    after_clear, full_rows, handle_line_clears, line_score, no_full_row, row_full, same_outside, board_width,
    lemma_clear_leaves_no_full_row, lemma_few_full_rows,
};
use crate::grid::{Grid, is_rect, filled};
use crate::input::{InputPackage, Rotation};
use crate::piece::{
    Piece, PieceModel, board_ok, fits, holds, lifted, on_board, piece_ok, placed, rotation_outcome, shape,
    turnable, lemma_fits_on_board, lemma_placed_holds, lemma_lift_undoes_place, lemma_on_board_bounds,
    lemma_small_no_overflow, lemma_rotated_ok, lemma_shape_ok,
};

verus! {

/// The number of columns of the board.
pub const FIELD_SIZE_X: u8 = 10;
/// The number of rows of the board.
pub const FIELD_SIZE_Y: u8 = 40;
/// The number of board rows shown on screen.
pub const RENDER_LINES: u8 = 22;
/// The number of screen lines above the board.
pub const HEADER_SIZE: u8 = 2;
/// The board row drawn on the first screen line.
pub const RENDER_OFFSET: u8 = (FIELD_SIZE_Y - RENDER_LINES) - HEADER_SIZE;
/// The screen line just below the board.
pub const RENDER_END: u8 = RENDER_LINES + HEADER_SIZE;
/// The width of the board on screen, borders included.
pub const RENDER_SIZE_X: u8 = FIELD_SIZE_X * 2 + 2;
/// The space between the two piece views below the board.
pub const GAP: u8 = RENDER_SIZE_X - (2 + 4 * 2) * 2;
/// The column a new piece starts in.
pub const SPAWN_X: u8 = 3;
/// The row a new piece starts in.
pub const SPAWN_Y: u8 = 20;

/// The seven piece kinds, in the order of `Block::VALUES`.
pub open spec fn all_kinds() -> Seq<Block> {
    seq![
        Block::LightBlue,
        Block::DarkBlue,
        Block::Orange,
        Block::Yellow,
        Block::Green,
        Block::Red,
        Block::Magenta,
    ]
}

/// A bag holds piece kinds only, never an empty cell.
pub open spec fn bag_ok(bag: Seq<Block>) -> bool {
    forall|i: int| 0 <= i < bag.len() ==> #[trigger] bag[i] != Block::Void
}

/// The bag a piece is drawn from: the bag itself, or a full set of the seven kinds
/// when it is empty.
pub open spec fn refilled(bag: Seq<Block>) -> Seq<Block> {
    if bag.len() == 0 {
        all_kinds()
    } else {
        bag
    }
}

/// The number of positions a piece is drawn from: all but the last one of the
/// bag, or the single one of a bag of one.
pub open spec fn draw_range(n: nat) -> nat {
    if n > 1 {
        (n - 1) as nat
    } else {
        1
    }
}

/// The kinds drawn from `bag` at the positions `idx`, one draw after the other, the
/// bag refilled with the seven kinds whenever it is empty; and the bag left after.
pub open spec fn draws(bag: Seq<Block>, idx: Seq<int>) -> (Seq<Block>, Seq<Block>)
    decreases idx.len(),
{
    if idx.len() == 0 {
        (seq![], bag)
    } else {
        let b = refilled(bag);
        let rest = draws(b.remove(idx[0]), idx.drop_first());
        (seq![b[idx[0]]] + rest.0, rest.1)
    }
}

/// Every position in `idx` is within the bag it is drawn from.
pub open spec fn draws_valid(bag: Seq<Block>, idx: Seq<int>) -> bool
    decreases idx.len(),
{
    idx.len() == 0 || (0 <= idx[0] < refilled(bag).len() && draws_valid(refilled(bag).remove(idx[0]), idx.drop_first()))
}

proof fn lemma_draws_empty_the_bag(bag: Seq<Block>, idx: Seq<int>)
    requires
        bag.len() >= 1,
        idx.len() == bag.len(),
        draws_valid(bag, idx),
    ensures
        draws(bag, idx).0.to_multiset() == bag.to_multiset(),
        draws(bag, idx).1 == Seq::<Block>::empty(),
    decreases idx.len(),
{
    broadcast use vstd::seq_lib::group_to_multiset_ensures, vstd::seq_lib::lemma_multiset_commutative, vstd::multiset::group_multiset_axioms;

    let i = idx[0];
    let d = bag[i];
    let rest_bag = bag.remove(i);
    let rest = draws(rest_bag, idx.drop_first());
    if bag.len() == 1 {
        assert(rest_bag =~= Seq::<Block>::empty());
        assert(rest.0 =~= Seq::<Block>::empty());
    } else {
        lemma_draws_empty_the_bag(rest_bag, idx.drop_first());
    }
    assert(rest_bag.to_multiset() == bag.to_multiset().remove(d));
    assert(bag.to_multiset().count(d) > 0);
    assert(seq![d].to_multiset() =~= vstd::multiset::Multiset::<Block>::empty().insert(d)) by {
        assert(Seq::<Block>::empty().push(d) =~= seq![d]);
    }
    assert((seq![d] + rest.0).to_multiset() =~= bag.to_multiset());
}

/// Drawing seven times from an empty bag gives each of the seven kinds once (the
/// draws are a permutation of `Block::VALUES`) and leaves the bag empty again, so
/// every further seven draws do the same.
pub proof fn lemma_bag_round(idx: Seq<int>)
    requires
        idx.len() == 7,
        draws_valid(Seq::<Block>::empty(), idx),
    ensures
        draws(Seq::<Block>::empty(), idx).0.to_multiset() == all_kinds().to_multiset(),
        draws(Seq::<Block>::empty(), idx).1 == Seq::<Block>::empty(),
{
    assert(refilled(Seq::<Block>::empty()) == all_kinds());
    assert(draws(Seq::<Block>::empty(), idx) == draws(all_kinds(), idx));
    assert(draws_valid(all_kinds(), idx));
    lemma_draws_empty_the_bag(all_kinds(), idx);
}

/// `rand::random_range` over `0..hi`: some index below `hi`, chosen at random by
/// the thread-local generator, so nothing more is claimed. An empty range panics,
/// which `requires` leaves out.
#[verifier::external_body]
fn random_below(hi: usize) -> (r: usize)
    requires
        hi > 0,
    ensures
        r < hi,
{
    rand::random_range(0..hi)
}

/// Takes the piece kind at `index` out of the bag (refilled first when empty) and
/// makes a new piece of that kind at (`x`, `y`).
pub fn take_from_bag(bag: &mut Vec<Block>, index: usize, x: u8, y: u8) -> (p: Piece)
    requires
        bag_ok(old(bag)@),
        index < refilled(old(bag)@).len(),
    ensures
        final(bag)@ == refilled(old(bag)@).remove(index as int),
        bag_ok(final(bag)@),
        p.matrix@ == shape(refilled(old(bag)@)[index as int]),
        p.x == x,
        p.y == y,
{
    if bag.is_empty() {
        *bag = vstd::slice::slice_to_vec(&Block::VALUES);
        assert(bag@ =~= all_kinds());
    }
    let kind = bag.remove(index);
    Piece::new(kind, x as i16, y as i16)
}

/// Draws a piece at (`x`, `y`) from the bag: refills the bag with the seven kinds
/// when it is empty, then takes out a kind at a random position other than the last
/// (the only one, in a bag of one).
fn pull_piece(bag: &mut Vec<Block>, x: u8, y: u8) -> (p: Piece)
    requires
        bag_ok(old(bag)@),
    ensures
        exists|k: int|
            0 <= k < draw_range(refilled(old(bag)@).len()) && final(bag)@ == refilled(old(bag)@).remove(k) && p.matrix@
                == shape(#[trigger] refilled(old(bag)@)[k]),
        bag_ok(final(bag)@),
        p.x == x,
        p.y == y,
{
    let n = if bag.is_empty() { 7 } else { bag.len() };
    let random = if n > 1 {
        random_below(n - 1)
    } else {
        0
    };
    take_from_bag(bag, random, x, y)
}

/// How far a piece falls: from row `y`, one row at a time, at most `k` rows, while
/// the shape `m` at column `x` fits one row lower. Gives the row it stops in and
/// whether it came to rest, that is found the row below blocked.
pub open spec fn fall(f: Seq<Seq<Block>>, m: Seq<Seq<Block>>, x: int, y: int, k: nat) -> (int, bool)
    decreases k,
{
    if k == 0 {
        (y, false)
    } else if !fits(f, m, x, y + 1) {
        (y, true)
    } else {
        fall(f, m, x, y + 1, (k - 1) as nat)
    }
}

/// Lets the piece fall at most `grav` rows, one at a time, while it still fits the
/// board one row lower. Gives whether it came to rest.
fn drop_by(p: &mut Piece, field: &Grid, grav: u8) -> (dropped: bool)
    requires
        board_ok(field@),
        piece_ok(old(p).matrix@),
        -30000 <= old(p).x <= 30000,
        -30000 <= old(p).y <= 30000,
    ensures
        (final(p).y as int, dropped) == fall(field@, old(p).matrix@, old(p).x as int, old(p).y as int, grav as nat),
        final(p).x == old(p).x,
        final(p).matrix@ == old(p).matrix@,
{
    let ghost target = fall(field@, p.matrix@, p.x as int, p.y as int, grav as nat);
    let ghost y0 = p.y as int;
    let mut k: u8 = 0;
    while k < grav
        invariant
            fall(field@, p.matrix@, p.x as int, p.y as int, (grav - k) as nat) == target,
            board_ok(field@),
            piece_ok(p.matrix@),
            -30000 <= p.x <= 30000,
            k <= grav,
            p.y == y0 + k,
            y0 == old(p).y,
            target == fall(field@, old(p).matrix@, old(p).x as int, old(p).y as int, grav as nat),
            -30000 <= y0 <= 30000,
            p.x == old(p).x,
            p.matrix@ == old(p).matrix@,
        decreases grav - k,
    {
        p.y = p.y + 1;
        proof {
            crate::piece::lemma_small_no_overflow(p.matrix@, p.x as int, p.y as int);
        }
        if !p.is_valid(field) {
            p.y = p.y - 1;
            return true;
        }
        k = k + 1;
    }
    false
}

/// A fall of at most `k` rows from row `y` ends at a row between `y` and `y + k`,
/// every row it passes into fits the shape, and it comes to rest exactly when it
/// stopped short of `k` rows, which it does only where the shape does not fit one
/// row lower. In particular, with `k` at least one, a shape that does not fit one
/// row lower comes to rest where it is.
pub proof fn lemma_fall_lands(f: Seq<Seq<Block>>, m: Seq<Seq<Block>>, x: int, y: int, k: nat)
    ensures
        ({
            let r = fall(f, m, x, y, k);
            &&& y <= r.0 <= y + k
            &&& forall|i: int| y < i <= r.0 ==> #[trigger] fits(f, m, x, i)
            &&& r.1 <==> r.0 < y + k
            &&& r.1 ==> !fits(f, m, x, r.0 + 1)
            &&& k >= 1 && !fits(f, m, x, y + 1) ==> r == (y, true)
        }),
    decreases k,
{
    if k > 0 && fits(f, m, x, y + 1) {
        lemma_fall_lands(f, m, x, y + 1, (k - 1) as nat);
    }
}

/// Any square shape of side at most four lies on the board at the spawn position.
pub proof fn lemma_spawn_on_board(f: Seq<Seq<Block>>, m: Seq<Seq<Block>>)
    requires
        is_rect(f, FIELD_SIZE_Y as int, FIELD_SIZE_X as int),
        turnable(m),
    ensures
        on_board(f, m, SPAWN_X as int, SPAWN_Y as int),
{
}

/// A piece lying on the board still does after falling.
pub proof fn lemma_fall_on_board(f: Seq<Seq<Block>>, m: Seq<Seq<Block>>, x: int, y: int, k: nat)
    requires
        board_ok(f),
        on_board(f, m, x, y),
    ensures
        on_board(f, m, x, fall(f, m, x, y, k).0),
    decreases k,
{
    if k > 0 && fits(f, m, x, y + 1) {
        lemma_fits_on_board(f, m, x, y + 1);
        lemma_fall_on_board(f, m, x, y + 1, (k - 1) as nat);
    }
}

/// Emptying cells never makes a row full.
pub proof fn lemma_lift_keeps_no_full_row(f: Seq<Seq<Block>>, m: Seq<Seq<Block>>, x: int, y: int)
    requires
        no_full_row(f),
    ensures
        no_full_row(lifted(f, m, x, y)),
{
    let l = lifted(f, m, x, y);
    assert forall|i: int| 0 <= i < l.len() implies !row_full(#[trigger] l[i]) by {
        assert(!row_full(f[i]));
        let j = choose|j: int| 0 <= j < f[i].len() && !(#[trigger] f[i][j] != Block::Void);
        assert(l[i][j] == Block::Void);
    }
}

/// Writing a piece of at most four rows at row `y` onto a board changes only rows
/// `y` to `y + 3`, and keeps the board's size.
pub proof fn lemma_placed_same_outside(f: Seq<Seq<Block>>, m: Seq<Seq<Block>>, x: int, y: int, w: int)
    requires
        m.len() <= 4,
        is_rect(f, f.len() as int, w),
    ensures
        same_outside(placed(f, m, x, y), f, y, y + 4),
        is_rect(placed(f, m, x, y), f.len() as int, w),
{
    let p = placed(f, m, x, y);
    assert forall|i: int| 0 <= i < p.len() && !(y <= i < y + 4) implies #[trigger] p[i] == f[i] by {
        assert(p[i] =~= f[i]);
    }
}

/// A game in progress.
pub struct Game {
    /// The piece kinds still to be drawn before the bag is refilled.
    pub bag: Vec<Block>,
    /// The piece that comes into play next, at the spawn position.
    pub next: Piece,
    /// The piece in play; none between its landing and the next piece's arrival.
    pub piece: Option<Piece>,
    /// The board: forty rows of ten cells.
    pub field: Grid,
    /// Whether a piece was stored since the last piece landed.
    pub just_stored: bool,
    /// The piece put aside, if any.
    pub stored: Option<Piece>,
    pub score: u128,
    /// Rows cleared towards the next level.
    pub cleared_lines: u32,
    pub lvl: u128,
    /// Frames between two one-row falls of the piece.
    pub ticks_per_grav_update: u16,
    /// Frame ticks since the piece last fell.
    pub ticks_since_grav_update: u16,
    /// Whether the rows around the piece must be drawn again.
    pub redraw: bool,
}

/// What the screen needs after one frame's update.
#[derive(Copy, Clone, Debug, PartialEq, Eq)]
pub struct Frame {
    /// The stored piece changed: draw the next and stored views again.
    pub views_changed: bool,
    /// Rows were cleared: draw the stats and the whole board again.
    pub full_render: bool,
    /// Draw the rows of the piece's old and new position again.
    pub redraw: bool,
    /// The row and the shape height of the piece after it moved, if a piece was in play.
    pub active: Option<(i16, usize)>,
}

/// What the end of a frame did.
#[derive(Copy, Clone, Debug, PartialEq, Eq, Structural)]
pub enum Settle {
    /// The piece in play was taken off the board again, to be moved next frame.
    Lifted,
    /// The next piece came into play; the piece views must be drawn again.
    Spawned,
    /// The next piece does not fit at the spawn position: the game is over.
    GameOver,
}

/// What a game is, for contracts (the bag and the next piece aside).
pub struct GameModel {
    pub field: Seq<Seq<Block>>,
    pub piece: Option<PieceModel>,
    pub stored: Option<PieceModel>,
    pub just_stored: bool,
    pub score: int,
    pub cleared_lines: int,
    pub lvl: int,
    pub per: int,
    pub since: int,
    pub redraw: bool,
}

/// The model of an optional piece.
pub open spec fn model_of(p: Option<Piece>) -> Option<PieceModel> {
    match p {
        Some(q) => Some(q@),
        None => None,
    }
}

/// An optional piece moved to the spawn position.
pub open spec fn at_spawn(p: Option<PieceModel>) -> Option<PieceModel> {
    match p {
        Some(q) => Some(PieceModel { cells: q.cells, x: SPAWN_X as int, y: SPAWN_Y as int }),
        None => None,
    }
}

/// `a - b`, or zero when `b` is larger.
pub open spec fn sat_sub(a: int, b: int) -> int {
    if a >= b {
        a - b
    } else {
        0
    }
}

/// Whether this frame lets the piece fall: on a hard drop, or when enough ticks
/// have passed.
pub open spec fn falls(s: GameModel, pkg: InputPackage) -> bool {
    pkg.hard_drop || s.since >= s.per
}

/// The tick counter after this frame's fall: the ticks of one fall are spent, then
/// four ticks pass on a soft drop and one otherwise.
pub open spec fn next_since(s: GameModel, pkg: InputPackage) -> int {
    (if falls(s, pkg) { sat_sub(s.since, s.per) } else { s.since }) + if pkg.soft_drop { 4int } else { 1int }
}

/// The game after the store request of this frame: when storing is asked for, no
/// piece was stored since the last landing, and a piece is in play, the piece in
/// play is put aside and the one aside (if any) comes into play at the spawn
/// position.
pub open spec fn after_store(s: GameModel, pkg: InputPackage) -> GameModel {
    if pkg.store && !s.just_stored && s.piece is Some {
        GameModel {
            field: s.field,
            piece: at_spawn(s.stored),
            stored: s.piece,
            just_stored: true,
            score: s.score,
            cleared_lines: s.cleared_lines,
            lvl: s.lvl,
            per: s.per,
            since: s.since,
            redraw: true,
        }
    } else {
        s
    }
}

/// A piece turned (with wall kicks) as asked, then moved sideways by the asked
/// number of columns if it fits there. Gives the piece and whether it turned or
/// moved.
pub open spec fn steered(f: Seq<Seq<Block>>, p: PieceModel, pkg: InputPackage) -> (PieceModel, bool) {
    let r = rotation_outcome(f, p.cells, p.x, p.y, pkg.rotate);
    let moved = pkg.move_x != 0 && fits(f, r.0, r.1 + pkg.move_x, r.2);
    (PieceModel { cells: r.0, x: if moved { r.1 + pkg.move_x } else { r.1 }, y: r.2 }, r.3 || moved)
}

/// Steering without a turn moves the piece `move_x` columns exactly when it fits
/// there, and otherwise leaves it; the shape and the row never change.
pub proof fn lemma_sideways_move(f: Seq<Seq<Block>>, p: PieceModel, pkg: InputPackage)
    requires
        pkg.rotate == Rotation::Not,
    ensures
        ({
            let st = steered(f, p, pkg);
            let go = pkg.move_x != 0 && fits(f, p.cells, p.x + pkg.move_x, p.y);
            &&& st.0.cells == p.cells
            &&& st.0.y == p.y
            &&& st.0.x == if go { p.x + pkg.move_x } else { p.x }
            &&& st.1 == go
        }),
{
}

/// Turning and moving sideways in one frame is the turn (with its kicks) followed by
/// the sideways move from wherever the turn left the piece, whether or not the turn
/// was made: the move never depends on the turn's success. The frame counts as a
/// change when the turn was made or the piece moved.
pub proof fn lemma_turn_then_move(f: Seq<Seq<Block>>, p: PieceModel, pkg: InputPackage)
    ensures
        ({
            let r = rotation_outcome(f, p.cells, p.x, p.y, pkg.rotate);
            let turned = PieceModel { cells: r.0, x: r.1, y: r.2 };
            let move_only = InputPackage { rotate: Rotation::Not, ..pkg };
            &&& steered(f, p, pkg).0 == steered(f, turned, move_only).0
            &&& steered(f, p, pkg).1 == (r.3 || steered(f, turned, move_only).1)
        }),
{
    let r = rotation_outcome(f, p.cells, p.x, p.y, pkg.rotate);
    let turned = PieceModel { cells: r.0, x: r.1, y: r.2 };
    let move_only = InputPackage { rotate: Rotation::Not, ..pkg };
    lemma_sideways_move(f, turned, move_only);
}

/// The lines towards the next level, the level, and the frames per fall after `n`
/// rows were cleared: every ten rows make a level, and every second level the
/// piece falls one frame sooner (never below zero frames).
pub open spec fn level_after(cleared: int, lvl: int, per: int, n: nat) -> (int, int, int) {
    let c = cleared + n;
    let up = n > 0 && c >= 10;
    let l = if up { lvl + 1 } else { lvl };
    (if up { c - 10 } else { c }, l, if up && l % 2 == 0 { sat_sub(per, 1) } else { per })
}

/// One frame's update of the game, before drawing: storing, turning, moving
/// sideways, falling, writing the piece onto the board, and, when it came to rest,
/// clearing rows, scoring and levelling up. Also gives what must be drawn.
pub open spec fn frame_result(s: GameModel, pkg: InputPackage) -> (GameModel, Frame) {
    let storing = pkg.store && !s.just_stored && s.piece is Some;
    let s1 = after_store(s, pkg);
    match s1.piece {
        None => (
            GameModel {
                field: s1.field,
                piece: None,
                stored: s1.stored,
                just_stored: s1.just_stored,
                score: s1.score,
                cleared_lines: s1.cleared_lines,
                lvl: s1.lvl,
                per: s1.per,
                since: s1.since,
                redraw: false,
            },
            Frame { views_changed: storing, full_render: false, redraw: s1.redraw, active: None },
        ),
        Some(p) => piece_frame(s1, p, pkg, storing),
    }
}

/// The rest of a frame's update when piece `p` is in play after storing (`s1` is
/// the game then, `storing` whether a piece was stored this frame).
pub open spec fn piece_frame(s1: GameModel, p: PieceModel, pkg: InputPackage, storing: bool) -> (GameModel, Frame) {
    let mv = moved(s1, p, pkg);
    let q = mv.0;
    let redraw = s1.redraw || mv.2;
    let field1 = placed(s1.field, q.cells, q.x, q.y);
    let active = Some((q.y as i16, q.cells.len() as usize));
    if mv.1 {
        let n = full_rows(field1);
        let lv = level_after(s1.cleared_lines, s1.lvl, s1.per, n);
        (
            GameModel {
                field: after_clear(field1, FIELD_SIZE_X as int),
                piece: None,
                stored: s1.stored,
                just_stored: false,
                score: s1.score + line_score(n),
                cleared_lines: lv.0,
                lvl: lv.1,
                per: lv.2,
                since: next_since(s1, pkg),
                redraw: false,
            },
            Frame { views_changed: storing, full_render: n > 0, redraw: redraw && n == 0, active },
        )
    } else {
        (
            GameModel {
                field: field1,
                piece: Some(q),
                stored: s1.stored,
                just_stored: s1.just_stored,
                score: s1.score,
                cleared_lines: s1.cleared_lines,
                lvl: s1.lvl,
                per: s1.per,
                since: next_since(s1, pkg),
                redraw: false,
            },
            Frame { views_changed: storing, full_render: false, redraw, active },
        )
    }
}

/// The piece `p` moved for this frame of game `s1`: turned and moved sideways as
/// asked, then, when the frame lets it fall, fallen (all the way on a hard drop,
/// else one row). Gives the piece, whether it came to rest, and whether it turned,
/// moved or was due to fall.
pub open spec fn moved(s1: GameModel, p: PieceModel, pkg: InputPackage) -> (PieceModel, bool, bool) {
    let st = steered(s1.field, p, pkg);
    let q = st.0;
    let falling = falls(s1, pkg);
    let fl = if falling {
        fall(s1.field, q.cells, q.x, q.y, if pkg.hard_drop { FIELD_SIZE_Y as nat } else { 1nat })
    } else {
        (q.y, false)
    };
    (PieceModel { cells: q.cells, x: q.x, y: fl.0 }, fl.1, st.1 || falling)
}

/// The number of rows a frame clears: the full rows once the piece came to rest,
/// none otherwise.
pub open spec fn frame_lines(s: GameModel, pkg: InputPackage) -> nat {
    let s1 = after_store(s, pkg);
    match s1.piece {
        None => 0,
        Some(p) => {
            let mv = moved(s1, p, pkg);
            if mv.1 {
                full_rows(placed(s1.field, mv.0.cells, mv.0.x, mv.0.y))
            } else {
                0
            }
        },
    }
}

/// In a frame, ten times the level plus the rows counted towards the next level
/// grows by exactly the rows cleared, and fewer than ten rows stay counted.
pub proof fn lemma_frame_lines(s: GameModel, pkg: InputPackage)
    requires
        0 <= s.cleared_lines < 10,
        frame_lines(s, pkg) <= 4,
    ensures
        10 * frame_result(s, pkg).0.lvl + frame_result(s, pkg).0.cleared_lines == 10 * s.lvl + s.cleared_lines
            + frame_lines(s, pkg),
        0 <= frame_result(s, pkg).0.cleared_lines < 10,
{
}

/// The sum of `lines`.
pub open spec fn total(lines: Seq<nat>) -> nat
    decreases lines.len(),
{
    if lines.len() == 0 {
        0
    } else {
        total(lines.drop_last()) + lines.last()
    }
}

/// Over a whole game the level is the number of rows cleared divided by ten.
/// `states` are the game before each frame and after the last one, `pkgs` the
/// requests of the frames; each frame starts from the level and row count the
/// previous one left (the end of a frame changes neither), and clears at most four
/// rows, as every frame in play does.
pub proof fn lemma_level_is_lines_over_ten(states: Seq<GameModel>, pkgs: Seq<InputPackage>)
    requires
        states.len() == pkgs.len() + 1,
        states[0].lvl == 0,
        states[0].cleared_lines == 0,
        forall|j: int| 0 <= j < pkgs.len() ==> #[trigger] frame_lines(states[j], pkgs[j]) <= 4,
        forall|j: int|
            0 <= j < pkgs.len() ==> states[j + 1].lvl == #[trigger] frame_result(states[j], pkgs[j]).0.lvl
                && states[j + 1].cleared_lines == frame_result(states[j], pkgs[j]).0.cleared_lines,
    ensures
        states.last().lvl == total(Seq::new(pkgs.len(), |j: int| frame_lines(states[j], pkgs[j]))) / 10,
    decreases pkgs.len(),
{
    lemma_lines_invariant(states, pkgs);
    let t = total(Seq::new(pkgs.len(), |j: int| frame_lines(states[j], pkgs[j])));
    let l = states.last();
    vstd::arithmetic::div_mod::lemma_fundamental_div_mod_converse(t as int, 10, l.lvl, l.cleared_lines);
}

#[verifier::spinoff_prover]
proof fn lemma_lines_invariant(states: Seq<GameModel>, pkgs: Seq<InputPackage>)
    requires
        states.len() == pkgs.len() + 1,
        states[0].lvl == 0,
        states[0].cleared_lines == 0,
        forall|j: int| 0 <= j < pkgs.len() ==> #[trigger] frame_lines(states[j], pkgs[j]) <= 4,
        forall|j: int|
            0 <= j < pkgs.len() ==> states[j + 1].lvl == #[trigger] frame_result(states[j], pkgs[j]).0.lvl
                && states[j + 1].cleared_lines == frame_result(states[j], pkgs[j]).0.cleared_lines,
    ensures
        10 * states.last().lvl + states.last().cleared_lines == total(
            Seq::new(pkgs.len(), |j: int| frame_lines(states[j], pkgs[j])),
        ),
        0 <= states.last().cleared_lines < 10,
    decreases pkgs.len(),
{
    let lines = Seq::new(pkgs.len(), |j: int| frame_lines(states[j], pkgs[j]));
    if pkgs.len() > 0 {
        let k = pkgs.len() - 1;
        let sp = states.drop_last();
        let pp = pkgs.drop_last();
        assert forall|j: int| 0 <= j < pp.len() implies #[trigger] frame_lines(sp[j], pp[j]) <= 4 by {
            assert(frame_lines(states[j], pkgs[j]) <= 4);
        }
        assert forall|j: int| 0 <= j < pp.len() implies sp[j + 1].lvl == #[trigger] frame_result(sp[j], pp[j]).0.lvl
            && sp[j + 1].cleared_lines == frame_result(sp[j], pp[j]).0.cleared_lines by {
            assert(sp[j] == states[j] && pp[j] == pkgs[j] && sp[j + 1] == states[j + 1]);
            assert(frame_result(states[j], pkgs[j]).0.lvl == states[j + 1].lvl);
            assert(frame_result(states[j], pkgs[j]).0.cleared_lines == states[j + 1].cleared_lines);
        }
        lemma_lines_invariant(sp, pp);
        assert(Seq::new(pp.len(), |j: int| frame_lines(sp[j], pp[j])) =~= lines.drop_last());
        assert(frame_lines(states[k], pkgs[k]) <= 4);
        assert(frame_result(states[k], pkgs[k]).0.lvl == states[k + 1].lvl);
        lemma_frame_lines(states[k], pkgs[k]);
    }
}

/// The store rule of a frame: the piece in play and the one aside swap exactly when
/// storing is asked, a piece is in play, and nothing was stored since the last
/// landing (the piece coming out restarts at the spawn position); storing stays
/// barred until the next piece comes to rest. With `just_stored` false at the start
/// of a game, it records whether a piece was stored since the last landing.
pub proof fn lemma_store_rule(s: GameModel, pkg: InputPackage)
    ensures
        ({
            let swap = swaps(s, pkg);
            let s1 = after_store(s, pkg);
            let landed = lands(s, pkg);
            &&& s1.stored == if swap { s.piece } else { s.stored }
            &&& s1.piece == if swap { at_spawn(s.stored) } else { s.piece }
            &&& frame_result(s, pkg).0.stored == s1.stored
            &&& frame_result(s, pkg).0.just_stored == (!landed && (s.just_stored || swap))
            &&& frame_result(s, pkg).1.views_changed == swap
        }),
{
}

/// In a frame where the piece is due to fall (a hard drop, or gravity's turn) but,
/// after turning and moving sideways, does not fit one row lower, it comes to rest:
/// it is written onto the board where it is and no piece is in play afterwards.
pub proof fn lemma_blocked_piece_lands(s: GameModel, pkg: InputPackage)
    requires
        after_store(s, pkg).piece is Some,
        falls(after_store(s, pkg), pkg),
        ({
            let s1 = after_store(s, pkg);
            let q = steered(s1.field, s1.piece->0, pkg).0;
            !fits(s1.field, q.cells, q.x, q.y + 1)
        }),
    ensures
        ({
            let s1 = after_store(s, pkg);
            let q = steered(s1.field, s1.piece->0, pkg).0;
            &&& frame_result(s, pkg).0.piece is None
            &&& frame_result(s, pkg).1.active == Some((q.y as i16, q.cells.len() as usize))
            &&& frame_lines(s, pkg) == full_rows(placed(s1.field, q.cells, q.x, q.y))
        }),
{
    let s1 = after_store(s, pkg);
    let q = steered(s1.field, s1.piece->0, pkg).0;
    let k: nat = if pkg.hard_drop { FIELD_SIZE_Y as nat } else { 1nat };
    lemma_fall_lands(s1.field, q.cells, q.x, q.y, k);
}

/// The falling speed of a frame: a frame that raises the level to an even level
/// makes the piece fall one frame sooner (never below zero frames per fall); any
/// other frame leaves the frames per fall as they were.
pub proof fn lemma_frame_speed(s: GameModel, pkg: InputPackage)
    ensures
        ({
            let t = frame_result(s, pkg).0;
            t.per == if t.lvl > s.lvl && t.lvl % 2 == 0 {
                if s.per > 0 {
                    s.per - 1
                } else {
                    0
                }
            } else {
                s.per
            }
        }),
{
}

/// The frames per fall of a game at level `lvl` that started at level zero with ten
/// frames per fall: one fewer for every second level, never below zero.
pub open spec fn frames_per_fall(lvl: int) -> int {
    if lvl / 2 >= 10 {
        0
    } else {
        10 - lvl / 2
    }
}

/// Over a whole game that starts at level zero with ten frames per fall, the frames
/// per fall are always ten less one for every second level reached, never below
/// zero. `states` are the game before each frame and after the last one, `pkgs` the
/// requests of the frames; the end of a frame changes neither the level nor the
/// speed.
#[verifier::spinoff_prover]
pub proof fn lemma_speed_follows_level(states: Seq<GameModel>, pkgs: Seq<InputPackage>)
    requires
        states.len() == pkgs.len() + 1,
        states[0].lvl == 0,
        states[0].per == 10,
        forall|j: int|
            0 <= j < pkgs.len() ==> states[j + 1].lvl == #[trigger] frame_result(states[j], pkgs[j]).0.lvl
                && states[j + 1].per == frame_result(states[j], pkgs[j]).0.per,
    ensures
        forall|j: int| 0 <= j < states.len() ==> #[trigger] states[j].per == frames_per_fall(states[j].lvl),
    decreases pkgs.len(),
{
    if pkgs.len() > 0 {
        let k = pkgs.len() - 1;
        let sp = states.drop_last();
        let pp = pkgs.drop_last();
        assert forall|j: int| 0 <= j < pp.len() implies sp[j + 1].lvl == #[trigger] frame_result(sp[j], pp[j]).0.lvl
            && sp[j + 1].per == frame_result(sp[j], pp[j]).0.per by {
            assert(frame_result(states[j], pkgs[j]).0.lvl == states[j + 1].lvl);
        }
        lemma_speed_follows_level(sp, pp);
        assert(sp[k] == states[k]);
        assert(states[k].per == frames_per_fall(states[k].lvl));
        assert(frame_result(states[k], pkgs[k]).0.lvl == states[k + 1].lvl);
        lemma_frame_level(states[k], pkgs[k]);
        lemma_frame_speed(states[k], pkgs[k]);
        assert forall|j: int| 0 <= j < states.len() implies #[trigger] states[j].per == frames_per_fall(states[j].lvl) by {
            if j < states.len() - 1 {
                assert(sp[j] == states[j]);
            }
        }
    }
}

/// Whether a frame swaps the piece in play with the piece aside.
pub open spec fn swaps(s: GameModel, pkg: InputPackage) -> bool {
    pkg.store && !s.just_stored && s.piece is Some
}

/// Whether the piece in play (after storing) comes to rest in a frame.
pub open spec fn lands(s: GameModel, pkg: InputPackage) -> bool {
    let s1 = after_store(s, pkg);
    s1.piece is Some && moved(s1, s1.piece->0, pkg).1
}

/// Whether, before frame `j` of a game, some frame swapped pieces and no piece came
/// to rest from that frame on.
pub open spec fn swapped_since_landing(states: Seq<GameModel>, pkgs: Seq<InputPackage>, j: int) -> bool {
    exists|k: int|
        0 <= k < j && #[trigger] swaps(states[k], pkgs[k]) && forall|m: int|
            k <= m < j ==> !#[trigger] lands(states[m], pkgs[m])
}

/// The store rule over a whole game that starts with nothing stored: frame `j`
/// swaps the piece in play with the one aside exactly when storing is asked, a piece
/// is in play, and no frame swapped pieces since the last piece came to rest.
/// `states` are the game before each frame and after the last one, `pkgs` the
/// requests of the frames; the end of a frame keeps what the frame recorded of
/// storing.
pub proof fn lemma_store_rule_over_game(states: Seq<GameModel>, pkgs: Seq<InputPackage>)
    requires
        states.len() == pkgs.len() + 1,
        !states[0].just_stored,
        forall|j: int|
            0 <= j < pkgs.len() ==> states[j + 1].just_stored == #[trigger] frame_result(
                states[j],
                pkgs[j],
            ).0.just_stored,
    ensures
        forall|j: int|
            0 <= j < pkgs.len() ==> #[trigger] swaps(states[j], pkgs[j]) == (pkgs[j].store && states[j].piece is Some
                && !swapped_since_landing(states, pkgs, j)),
{
    assert forall|j: int| 0 <= j < pkgs.len() implies #[trigger] swaps(states[j], pkgs[j]) == (pkgs[j].store
        && states[j].piece is Some && !swapped_since_landing(states, pkgs, j)) by {
        lemma_stored_history(states, pkgs, j);
    }
}

#[verifier::spinoff_prover]
proof fn lemma_stored_history(states: Seq<GameModel>, pkgs: Seq<InputPackage>, j: int)
    requires
        states.len() == pkgs.len() + 1,
        !states[0].just_stored,
        forall|j: int|
            0 <= j < pkgs.len() ==> states[j + 1].just_stored == #[trigger] frame_result(
                states[j],
                pkgs[j],
            ).0.just_stored,
        0 <= j <= pkgs.len(),
    ensures
        states[j].just_stored == swapped_since_landing(states, pkgs, j),
    decreases j,
{
    if j > 0 {
        let i = j - 1;
        lemma_stored_history(states, pkgs, i);
        lemma_store_rule(states[i], pkgs[i]);
        assert(states[j].just_stored == frame_result(states[i], pkgs[i]).0.just_stored);
        let now = !lands(states[i], pkgs[i]) && (states[i].just_stored || swaps(states[i], pkgs[i]));
        assert(states[j].just_stored == now);
        if swapped_since_landing(states, pkgs, j) {
            let k = choose|k: int|
                0 <= k < j && #[trigger] swaps(states[k], pkgs[k]) && forall|m: int|
                    k <= m < j ==> !#[trigger] lands(states[m], pkgs[m]);
            assert(!lands(states[i], pkgs[i]));
            if k < i {
                assert(swapped_since_landing(states, pkgs, i));
            }
            assert(now);
        }
        if now {
            if swaps(states[i], pkgs[i]) {
                assert forall|m: int| i <= m < j implies !#[trigger] lands(states[m], pkgs[m]) by {
                    assert(m == i);
                }
            } else {
                let k = choose|k: int|
                    0 <= k < i && #[trigger] swaps(states[k], pkgs[k]) && forall|m: int|
                        k <= m < i ==> !#[trigger] lands(states[m], pkgs[m]);
                assert forall|m: int| k <= m < j implies !#[trigger] lands(states[m], pkgs[m]) by {
                    if m == i {
                    }
                }
            }
            assert(swapped_since_landing(states, pkgs, j));
        }
    }
}

/// The score never goes down in a frame: it goes up by 40, 100, 300 or 1200 points
/// in a frame that clears one, two, three or four rows (and so redraws the whole
/// board), and stays as it was otherwise.
pub proof fn lemma_frame_score(s: GameModel, pkg: InputPackage)
    ensures
        frame_result(s, pkg).0.score == s.score + line_score(frame_lines(s, pkg)),
        frame_result(s, pkg).0.score >= s.score,
        frame_result(s, pkg).0.score > s.score ==> frame_result(s, pkg).1.full_render,
{
}

/// A frame never takes the level back, and raises it by at most one.
pub proof fn lemma_frame_level(s: GameModel, pkg: InputPackage)
    ensures
        s.lvl <= frame_result(s, pkg).0.lvl <= s.lvl + 1,
{
}

impl Game {
    /// The game, for contracts.
    pub open spec fn model(&self) -> GameModel {
        GameModel {
            field: self.field@,
            piece: model_of(self.piece),
            stored: model_of(self.stored),
            just_stored: self.just_stored,
            score: self.score as int,
            cleared_lines: self.cleared_lines as int,
            lvl: self.lvl as int,
            per: self.ticks_per_grav_update as int,
            since: self.ticks_since_grav_update as int,
            redraw: self.redraw,
        }
    }

    /// What holds of a game at every moment: a forty by ten board, a bag of piece
    /// kinds, a next piece at the spawn position, well-formed pieces, and counters
    /// in range.
    pub open spec fn common_ok(&self) -> bool {
        &&& is_rect(self.field@, FIELD_SIZE_Y as int, FIELD_SIZE_X as int)
        &&& bag_ok(self.bag@)
        &&& piece_ok(self.next.matrix@)
        &&& self.next.x == SPAWN_X
        &&& self.next.y == SPAWN_Y
        &&& (self.stored matches Some(q) ==> piece_ok(q.matrix@))
        &&& self.ticks_per_grav_update <= 10
        &&& self.cleared_lines <= 9
    }

    /// A game between frames: a piece is in play and lies on the board, and the board
    /// (without the piece) has no full row.
    pub open spec fn ready(&self) -> bool {
        &&& self.common_ok()
        &&& no_full_row(self.field@)
        &&& self.piece matches Some(p) && piece_ok(p.matrix@) && on_board(self.field@, p.matrix@, p.x as int, p.y as int)
    }

    /// A game in the middle of a frame: a piece in play is written onto the board, and
    /// the board without it has no full row.
    pub open spec fn drawn(&self) -> bool {
        &&& self.common_ok()
        &&& match self.piece {
            Some(p) => {
                &&& piece_ok(p.matrix@)
                &&& holds(self.field@, p.matrix@, p.x as int, p.y as int)
                &&& no_full_row(lifted(self.field@, p.matrix@, p.x as int, p.y as int))
            },
            None => no_full_row(self.field@),
        }
    }

    /// Handles the store request: when storing is asked for, nothing was stored since
    /// the last landing, and a piece is in play, the piece in play is put aside and the
    /// one aside (if any) comes into play at the spawn position. Gives whether it
    /// happened.
    fn apply_store(&mut self, package: &InputPackage) -> (storing: bool)
        requires
            old(self).ready(),
        ensures
            storing == (package.store && !old(self).just_stored && old(self).piece is Some),
            final(self).model() == after_store(old(self).model(), *package),
            final(self).common_ok(),
            no_full_row(final(self).field@),
            final(self).piece matches Some(p) ==> piece_ok(p.matrix@) && on_board(
                final(self).field@,
                p.matrix@,
                p.x as int,
                p.y as int,
            ),
            final(self).bag@ == old(self).bag@,
            final(self).next@ == old(self).next@,
    {
        if package.store && !self.just_stored && self.piece.is_some() {
            let stored = self.stored.take();
            let current = self.piece.take();
            self.stored = current;
            self.piece = match stored {
                Some(q) => {
                    let mut q = q;
                    q.x = SPAWN_X as i16;
                    q.y = SPAWN_Y as i16;
                    proof {
                        lemma_spawn_on_board(self.field@, q.matrix@);
                    }
                    Some(q)
                },
                None => None,
            };
            self.just_stored = true;
            self.redraw = true;
            true
        } else {
            false
        }
    }

    /// Clears full rows, adds their score, and levels up every ten rows (every second
    /// level the piece falls one frame sooner). Gives whether rows were cleared.
    fn clear_and_level(&mut self) -> (cleared: bool)
        requires
            is_rect(old(self).field@, FIELD_SIZE_Y as int, FIELD_SIZE_X as int),
            full_rows(old(self).field@) <= 4,
            old(self).score + line_score(full_rows(old(self).field@)) <= u128::MAX,
            level_after(
                old(self).cleared_lines as int,
                old(self).lvl as int,
                old(self).ticks_per_grav_update as int,
                full_rows(old(self).field@),
            ).1 <= u128::MAX,
            old(self).cleared_lines <= 9,
            old(self).ticks_per_grav_update <= 10,
        ensures
            cleared == (full_rows(old(self).field@) > 0),
            final(self).field@ == after_clear(old(self).field@, FIELD_SIZE_X as int),
            final(self).score == old(self).score + line_score(full_rows(old(self).field@)),
            (final(self).cleared_lines as int, final(self).lvl as int, final(self).ticks_per_grav_update as int)
                == level_after(
                old(self).cleared_lines as int,
                old(self).lvl as int,
                old(self).ticks_per_grav_update as int,
                full_rows(old(self).field@),
            ),
            final(self).cleared_lines <= 9,
            final(self).ticks_per_grav_update <= 10,
            final(self).bag == old(self).bag,
            final(self).next == old(self).next,
            final(self).piece == old(self).piece,
            final(self).stored == old(self).stored,
            final(self).just_stored == old(self).just_stored,
            final(self).ticks_since_grav_update == old(self).ticks_since_grav_update,
            final(self).redraw == old(self).redraw,
    {
        proof {
            assert(board_width(self.field@) == FIELD_SIZE_X) by {
                assert(self.field@[0].len() == FIELD_SIZE_X);
            }
        }
        if handle_line_clears(&mut self.field, &mut self.score, &mut self.cleared_lines) {
            if self.cleared_lines >= 10 {
                self.cleared_lines = self.cleared_lines - 10;
                self.lvl = self.lvl + 1;
                if self.lvl % 2 == 0 {
                    self.ticks_per_grav_update = if self.ticks_per_grav_update >= 1 {
                        self.ticks_per_grav_update - 1
                    } else {
                        0
                    };
                }
            }
            true
        } else {
            false
        }
    }

    /// Moves the piece for this frame: turning and sideways moving as asked, then,
    /// on a hard drop or when enough ticks have passed, falling (all the way or one
    /// row). Updates the tick counter. Gives whether the piece turned, moved or was
    /// due to fall, and whether it came to rest.
    fn move_piece(&mut self, p: &mut Piece, package: &InputPackage) -> (res: (bool, bool))
        requires
            old(self).common_ok(),
            piece_ok(old(p).matrix@),
            on_board(old(self).field@, old(p).matrix@, old(p).x as int, old(p).y as int),
            next_since(old(self).model(), *package) <= u16::MAX,
            i16::MIN + 3 <= package.move_x <= i16::MAX - 12,
        ensures
            ({
                let mv = moved(old(self).model(), old(p)@, *package);
                &&& final(p)@ == mv.0
                &&& res == (mv.2, mv.1)
            }),
            final(self).ticks_since_grav_update == next_since(old(self).model(), *package),
            *final(self) == (Game { ticks_since_grav_update: final(self).ticks_since_grav_update, ..*old(self) }),
            piece_ok(final(p).matrix@),
            on_board(old(self).field@, final(p).matrix@, final(p).x as int, final(p).y as int),
    {
        let ghost f = self.field@;
        proof {
            assert(board_ok(f)) by {
                assert(f[0].len() == FIELD_SIZE_X);
            }
        }
        let changed = steer(p, &self.field, package);
        let ghost q = p@;
        let falling = package.hard_drop || self.ticks_since_grav_update >= self.ticks_per_grav_update;
        let mut dropped = false;
        if falling {
            self.ticks_since_grav_update = if self.ticks_since_grav_update >= self.ticks_per_grav_update {
                self.ticks_since_grav_update - self.ticks_per_grav_update
            } else {
                0
            };
            let grav: u8 = if package.hard_drop { FIELD_SIZE_Y } else { 1 };
            proof {
                lemma_on_board_bounds(f, p.matrix@, p.x as int, p.y as int, FIELD_SIZE_X as int);
            }
            dropped = drop_by(p, &self.field, grav);
            proof {
                lemma_fall_on_board(f, q.cells, q.x, q.y, grav as nat);
            }
        }
        self.ticks_since_grav_update = self.ticks_since_grav_update + if package.soft_drop { 4 } else { 1 };
        (changed || falling, dropped)
    }

    /// Writes the moved piece onto the board. When it came to rest (`dropped`) it
    /// leaves play: storing is allowed again, full rows are cleared and scored, and
    /// the level may rise. Else it stays in play. Gives whether rows were cleared.
    fn place_piece(&mut self, p: Piece, dropped: bool) -> (cleared: bool)
        requires
            old(self).piece is None,
            old(self).common_ok(),
            no_full_row(old(self).field@),
            piece_ok(p.matrix@),
            on_board(old(self).field@, p.matrix@, p.x as int, p.y as int),
            dropped ==> old(self).score + line_score(full_rows(placed(old(self).field@, p.matrix@, p.x as int, p.y as int)))
                <= u128::MAX,
            dropped ==> level_after(
                old(self).cleared_lines as int,
                old(self).lvl as int,
                old(self).ticks_per_grav_update as int,
                full_rows(placed(old(self).field@, p.matrix@, p.x as int, p.y as int)),
            ).1 <= u128::MAX,
        ensures
            final(self).drawn(),
            ({
                let field1 = placed(old(self).field@, p.matrix@, p.x as int, p.y as int);
                let n = full_rows(field1);
                let lv = level_after(old(self).cleared_lines as int, old(self).lvl as int, old(self).ticks_per_grav_update as int, n);
                if dropped {
                    &&& final(self).field@ == after_clear(field1, FIELD_SIZE_X as int)
                    &&& final(self).piece is None
                    &&& !final(self).just_stored
                    &&& final(self).score == old(self).score + line_score(n)
                    &&& (final(self).cleared_lines as int, final(self).lvl as int, final(self).ticks_per_grav_update as int) == lv
                    &&& cleared == (n > 0)
                } else {
                    &&& final(self).field@ == field1
                    &&& final(self).piece == Some(p)
                    &&& final(self).just_stored == old(self).just_stored
                    &&& final(self).score == old(self).score
                    &&& final(self).cleared_lines == old(self).cleared_lines
                    &&& final(self).lvl == old(self).lvl
                    &&& final(self).ticks_per_grav_update == old(self).ticks_per_grav_update
                    &&& !cleared
                }
            }),
            final(self).bag == old(self).bag,
            final(self).next == old(self).next,
            final(self).stored == old(self).stored,
            final(self).ticks_since_grav_update == old(self).ticks_since_grav_update,
            final(self).redraw == old(self).redraw,
            dropped ==> full_rows(placed(old(self).field@, p.matrix@, p.x as int, p.y as int)) <= 4,
    {
        let ghost f = self.field@;
        proof {
            lemma_on_board_bounds(f, p.matrix@, p.x as int, p.y as int, FIELD_SIZE_X as int);
            lemma_small_no_overflow(p.matrix@, p.x as int, p.y as int);
            lemma_placed_same_outside(f, p.matrix@, p.x as int, p.y as int, FIELD_SIZE_X as int);
            lemma_placed_holds(f, p.matrix@, p.x as int, p.y as int);
            assert(board_ok(f)) by {
                assert(f[0].len() == FIELD_SIZE_X);
            }
            lemma_lift_undoes_place(f, p.matrix@, p.x as int, p.y as int);
            lemma_lift_keeps_no_full_row(f, p.matrix@, p.x as int, p.y as int);
        }
        p.add_to_field(&mut self.field);
        if dropped {
            self.just_stored = false;
            proof {
                lemma_few_full_rows(f, self.field@, p.y as int, p.y as int + 4);
                lemma_clear_leaves_no_full_row(self.field@, FIELD_SIZE_X as int);
            }
            self.clear_and_level()
        } else {
            self.piece = Some(p);
            false
        }
    }

    /// The rest of a frame's update once `p` is taken out of play to be moved: turning,
    /// moving sideways, falling, writing it onto the board, and, when it came to rest,
    /// clearing rows, scoring and levelling up.
    fn advance(&mut self, p: Piece, package: &InputPackage, storing: bool, Ghost(s1): Ghost<GameModel>) -> (frame: Frame)
        requires
            old(self).piece is None,
            s1 == (GameModel { piece: Some(p@), ..old(self).model() }),
            old(self).common_ok(),
            no_full_row(old(self).field@),
            piece_ok(p.matrix@),
            on_board(old(self).field@, p.matrix@, p.x as int, p.y as int),
            piece_frame(s1, p@, *package, storing).0.score <= u128::MAX,
            piece_frame(s1, p@, *package, storing).0.lvl <= u128::MAX,
            next_since(s1, *package) <= u16::MAX,
            i16::MIN + 3 <= package.move_x <= i16::MAX - 12,
        ensures
            final(self).drawn(),
            (final(self).model(), frame) == piece_frame(s1, p@, *package, storing),
            ({
                let mv = moved(s1, p@, *package);
                mv.1 ==> full_rows(placed(s1.field, mv.0.cells, mv.0.x, mv.0.y)) <= 4
            }),
            final(self).bag@ == old(self).bag@,
            final(self).next@ == old(self).next@,
    {
        let mut p = p;
        let redraw0 = self.redraw;
        let (changed, dropped) = self.move_piece(&mut p, package);
        let rows = p.matrix.dim().0;
        let active = Some((p.y, rows));
        let cleared = self.place_piece(p, dropped);
        self.redraw = false;
        Frame { views_changed: storing, full_render: cleared, redraw: (redraw0 || changed) && !cleared, active }
    }

    /// One frame's update, before drawing, following the player's `package`:
    /// storing, turning, moving sideways, falling, writing the piece onto the
    /// board, and, when the piece came to rest, clearing rows, scoring and
    /// levelling up. Gives what must be drawn.
    pub fn update(&mut self, package: &InputPackage) -> (frame: Frame)
        requires
            old(self).ready(),
            frame_result(old(self).model(), *package).0.score <= u128::MAX,
            frame_result(old(self).model(), *package).0.lvl <= u128::MAX,
            next_since(old(self).model(), *package) <= u16::MAX,
            i16::MIN + 3 <= package.move_x <= i16::MAX - 12,
        ensures
            final(self).drawn(),
            (final(self).model(), frame) == frame_result(old(self).model(), *package),
            frame_lines(old(self).model(), *package) <= 4,
            final(self).bag@ == old(self).bag@,
            final(self).next@ == old(self).next@,
    {
        let storing = self.apply_store(package);
        let ghost s1 = self.model();
        let current = self.piece.take();
        match current {
            Some(p) => self.advance(p, package, storing, Ghost(s1)),
            None => {
                let redraw = self.redraw;
                self.redraw = false;
                Frame { views_changed: storing, full_render: false, redraw, active: None }
            },
        }
    }

    /// Whether the counters of this game have room for a frame with `package`: the
    /// tick counter after the frame fits a `u16`, the sideways move lies in the range
    /// the position arithmetic is proved for, and the score and the level have room
    /// for the most one frame adds (1200 points and one level). When it holds,
    /// `update` can take the frame.
    pub fn frame_allowed(&self, package: &InputPackage) -> (ok: bool)
        ensures
            ok == (next_since(self.model(), *package) <= u16::MAX && i16::MIN + 3 <= package.move_x <= i16::MAX - 12
                && self.score <= u128::MAX - 1200 && self.lvl < u128::MAX),
            ok ==> frame_result(self.model(), *package).0.score <= u128::MAX,
            ok ==> frame_result(self.model(), *package).0.lvl <= u128::MAX,
    {
        proof {
            lemma_frame_level(self.model(), *package);
        }
        let since = self.ticks_since_grav_update as u32;
        let per = self.ticks_per_grav_update as u32;
        let base: u32 = if package.hard_drop || since >= per {
            if since >= per {
                since - per
            } else {
                0
            }
        } else {
            since
        };
        let step: u32 = if package.soft_drop {
            4
        } else {
            1
        };
        base + step <= u16::MAX as u32 && i16::MIN + 3 <= package.move_x && package.move_x <= i16::MAX - 12
            && self.score <= u128::MAX - 1200 && self.lvl < u128::MAX
    }

    /// The end of a frame, after drawing. A piece in play is taken off the board again.
    /// Else the next piece comes into play and a new next piece is drawn from the bag;
    /// when the piece coming into play does not fit the board, the game is over.
    pub fn settle(&mut self) -> (outcome: Settle)
        requires
            old(self).drawn(),
        ensures
            match old(self).piece {
                Some(p) => {
                    &&& outcome == Settle::Lifted
                    &&& final(self).field@ == lifted(old(self).field@, p.matrix@, p.x as int, p.y as int)
                    &&& final(self).model() == (GameModel { field: final(self).field@, ..old(self).model() })
                    &&& final(self).bag@ == old(self).bag@
                    &&& final(self).next@ == old(self).next@
                    &&& final(self).ready()
                },
                None => {
                    &&& exists|k: int|
                        0 <= k < draw_range(refilled(old(self).bag@).len()) && final(self).bag@ == refilled(
                            old(self).bag@,
                        ).remove(k) && final(self).next.matrix@ == shape(#[trigger] refilled(old(self).bag@)[k])
                    &&& final(self).next.x == SPAWN_X
                    &&& final(self).next.y == SPAWN_Y
                    &&& if fits(old(self).field@, old(self).next.matrix@, SPAWN_X as int, SPAWN_Y as int) {
                        &&& outcome == Settle::Spawned
                        &&& final(self).model() == (GameModel { piece: Some(old(self).next@), ..old(self).model() })
                        &&& final(self).ready()
                    } else {
                        &&& outcome == Settle::GameOver
                        &&& final(self).model() == old(self).model()
                    }
                },
            },
    {
        match self.piece.take() {
            Some(p) => {
                proof {
                    lemma_on_board_bounds(self.field@, p.matrix@, p.x as int, p.y as int, FIELD_SIZE_X as int);
                    lemma_small_no_overflow(p.matrix@, p.x as int, p.y as int);
                }
                p.remove_from_field(&mut self.field);
                self.piece = Some(p);
                Settle::Lifted
            },
            None => {
                let mut p = pull_piece(&mut self.bag, SPAWN_X, SPAWN_Y);
                std::mem::swap(&mut p, &mut self.next);
                proof {
                    let k = choose|k: int|
                        0 <= k < draw_range(refilled(old(self).bag@).len()) && self.bag@ == refilled(
                            old(self).bag@,
                        ).remove(k) && self.next.matrix@ == shape(#[trigger] refilled(old(self).bag@)[k]);
                    lemma_shape_ok(refilled(old(self).bag@)[k]);
                    lemma_small_no_overflow(p.matrix@, p.x as int, p.y as int);
                    assert(board_ok(self.field@)) by {
                        assert(self.field@[0].len() == FIELD_SIZE_X);
                    }
                }
                if !p.is_valid(&self.field) {
                    return Settle::GameOver;
                }
                proof {
                    lemma_fits_on_board(self.field@, p.matrix@, p.x as int, p.y as int);
                }
                self.piece = Some(p);
                Settle::Spawned
            },
        }
    }

    /// A new game: an empty board, the first two pieces drawn from a full bag (the
    /// next one, then the one in play, both at the spawn position), nothing stored,
    /// no score, level zero, a fall every ten frames.
    pub fn new() -> (g: Game)
        ensures
            g.ready(),
            g.field@ == filled(FIELD_SIZE_Y as int, FIELD_SIZE_X as int, Block::Void),
            g.stored is None,
            !g.just_stored,
            g.score == 0,
            g.cleared_lines == 0,
            g.lvl == 0,
            g.ticks_per_grav_update == 10,
            g.ticks_since_grav_update == 0,
            g.redraw,
            exists|k1: int, k2: int|
                0 <= k1 < 6 && 0 <= k2 < 5 && g.next.matrix@ == shape(#[trigger] all_kinds()[k1]) && g.piece
                    == Some(Piece { matrix: g.piece.unwrap().matrix, x: SPAWN_X as i16, y: SPAWN_Y as i16 })
                    && g.piece.unwrap().matrix@ == shape(#[trigger] all_kinds().remove(k1)[k2]) && g.bag@
                    == all_kinds().remove(k1).remove(k2),
    {
        let mut bag: Vec<Block> = Vec::new();
        let next = pull_piece(&mut bag, SPAWN_X, SPAWN_Y);
        let ghost bag1 = bag@;
        let piece = pull_piece(&mut bag, SPAWN_X, SPAWN_Y);
        let field = Grid::new(FIELD_SIZE_Y as usize, FIELD_SIZE_X as usize, Block::Void);
        let g = Game {
            bag,
            next,
            piece: Some(piece),
            field,
            just_stored: false,
            stored: None,
            score: 0,
            cleared_lines: 0,
            lvl: 0,
            ticks_per_grav_update: 10,
            ticks_since_grav_update: 0,
            redraw: true,
        };
        proof {
            let k1 = choose|k: int|
                0 <= k < draw_range(refilled(Seq::<Block>::empty()).len()) && bag1 == refilled(Seq::<Block>::empty()).remove(k)
                    && next.matrix@ == shape(#[trigger] refilled(Seq::<Block>::empty())[k]);
            assert(refilled(Seq::<Block>::empty()) == all_kinds());
            assert(bag1.len() == 6);
            let k2 = choose|k: int|
                0 <= k < draw_range(refilled(bag1).len()) && g.bag@ == refilled(bag1).remove(k) && piece.matrix@ == shape(
                    #[trigger] refilled(bag1)[k],
                );
            assert(refilled(bag1) == bag1);
            lemma_shape_ok(all_kinds()[k1]);
            lemma_shape_ok(bag1[k2]);
            lemma_spawn_on_board(g.field@, piece.matrix@);
            assert forall|i: int| 0 <= i < g.field@.len() implies !crate::board::row_full(#[trigger] g.field@[i]) by {
                assert(g.field@[i][0] == Block::Void);
            }
        }
        g
    }
}

/// Turns the piece as asked (with wall kicks), then moves it sideways by the asked
/// number of columns if it fits there. Gives whether it turned or moved.
fn steer(p: &mut Piece, field: &Grid, package: &InputPackage) -> (changed: bool)
    requires
        board_ok(field@),
        is_rect(field@, FIELD_SIZE_Y as int, FIELD_SIZE_X as int),
        piece_ok(old(p).matrix@),
        on_board(field@, old(p).matrix@, old(p).x as int, old(p).y as int),
        i16::MIN + 3 <= package.move_x <= i16::MAX - 12,
    ensures
        (final(p)@, changed) == steered(field@, old(p)@, *package),
        piece_ok(final(p).matrix@),
        on_board(field@, final(p).matrix@, final(p).x as int, final(p).y as int),
{
    let ghost f = field@;
    proof {
        lemma_on_board_bounds(f, p.matrix@, p.x as int, p.y as int, FIELD_SIZE_X as int);
        crate::piece::lemma_rotation_outcome(f, p.matrix@, p.x as int, p.y as int, package.rotate);
        lemma_rotated_ok(p.matrix@, package.rotate);
    }
    let turned = p.perform_rotation(field, package.rotate);
    proof {
        if turned {
            lemma_fits_on_board(f, p.matrix@, p.x as int, p.y as int);
        }
        lemma_on_board_bounds(f, p.matrix@, p.x as int, p.y as int, FIELD_SIZE_X as int);
    }
    let mut moved = false;
    if package.move_x != 0 {
        p.move_by(package.move_x, 0);
        proof {
            lemma_small_no_overflow(p.matrix@, p.x as int, p.y as int);
        }
        if !p.is_valid(field) {
            p.move_by(-package.move_x, 0);
        } else {
            moved = true;
            proof {
                lemma_fits_on_board(f, p.matrix@, p.x as int, p.y as int);
            }
        }
    }
    turned || moved
}

} // verus!
