//! The text of the screen: board rows, the next and stored piece views, the score
//! line and the fixed borders.

use vstd::prelude::*;
use crate::block::{Block, colored_rep, plain_rep};
use crate::grid::Grid;
use crate::piece::Piece;
use crate::game::{FIELD_SIZE_X, FIELD_SIZE_Y, RENDER_OFFSET, RENDER_END, RENDER_SIZE_X, GAP};

verus! {

/// The texts of `parts`, one after the other.
pub open spec fn concat(parts: Seq<Seq<char>>) -> Seq<char>
    decreases parts.len(),
{
    if parts.len() == 0 {
        seq![]
    } else {
        concat(parts.drop_last()) + parts.last()
    }
}

/// `n` copies of `s`, one after the other.
pub open spec fn repeat(s: Seq<char>, n: nat) -> Seq<char>
    decreases n,
{
    if n == 0 {
        seq![]
    } else {
        repeat(s, (n - 1) as nat) + s
    }
}

/// `n` copies of `s` are `n` times as long as `s`.
pub proof fn lemma_repeat_len(s: Seq<char>, n: nat)
    ensures
        repeat(s, n).len() == n * s.len(),
    decreases n,
{
    if n > 0 {
        lemma_repeat_len(s, (n - 1) as nat);
        assert((n - 1) * s.len() + s.len() == n * s.len()) by (nonlinear_arith);
    } else {
        assert(0 * s.len() == 0) by (nonlinear_arith);
    }
}

/// `n` copies of `s`.
pub fn repeat_str(s: &str, n: usize) -> (out: String)
    ensures
        out@ == repeat(s@, n as nat),
{
    let mut out = String::new();
    let mut i: usize = 0;
    while i < n
        invariant
            i <= n,
            out@ == repeat(s@, i as nat),
        decreases n - i,
    {
        out.append(s);
        i = i + 1;
    }
    out
}

/// `parts[i]` is a way cell `cells[i]` may be drawn in colour, for every `i`.
pub open spec fn drawn_cells(cells: Seq<Block>, parts: Seq<Seq<char>>) -> bool {
    &&& parts.len() == cells.len()
    &&& forall|i: int| 0 <= i < cells.len() ==> colored_rep(cells[i], #[trigger] parts[i])
}

/// `out` is a way the cells may be drawn in colour, one after the other.
pub open spec fn cells_text(cells: Seq<Block>, out: Seq<char>) -> bool {
    exists|parts: Seq<Seq<char>>| drawn_cells(cells, parts) && out == concat(parts)
}

/// `out` is `n` copies of a way an empty cell may be drawn in colour.
pub open spec fn voids_text(n: nat, out: Seq<char>) -> bool {
    exists|r: Seq<char>| colored_rep(Block::Void, r) && out == repeat(r, n)
}

/// `out` is a way row `y` of the piece shape `m` may be drawn in a four-cell view:
/// the row's cells followed by empty cells up to four, or four empty cells below
/// the shape. The shape's side is taken as a `u8`.
pub open spec fn piece_row_text(m: Seq<Seq<Block>>, y: int, out: Seq<char>) -> bool {
    let size = (m.len() as u8) as int;
    if y >= size {
        voids_text(4, out)
    } else {
        exists|a: Seq<char>, b: Seq<char>|
            cells_text(m[y].subrange(0, size), a) && voids_text(if size < 4 { (4 - size) as nat } else { 0 }, b) && out
                == a + b
    }
}

/// Draws the first `to` cells of row `row` of the grid in colour, one after the other.
fn draw_cells(g: &Grid, row: usize, to: usize) -> (out: String)
    requires
        row < g@.len(),
        to <= g@[row as int].len(),
    ensures
        cells_text(g@[row as int].subrange(0, to as int), out@),
{
    let mut out = String::new();
    let ghost mut parts: Seq<Seq<char>> = seq![];
    let mut x: usize = 0;
    while x < to
        invariant
            row < g@.len(),
            to <= g@[row as int].len(),
            x <= to,
            drawn_cells(g@[row as int].subrange(0, x as int), parts),
            out@ == concat(parts),
        decreases to - x,
    {
        let part = g.get(row, x).get_string_rep(true);
        out.append(part.as_str());
        proof {
            let old_parts = parts;
            parts = parts.push(part@);
            assert(parts.drop_last() =~= old_parts);
            assert(drawn_cells(g@[row as int].subrange(0, x as int + 1), parts)) by {
                assert forall|i: int| 0 <= i < x + 1 implies colored_rep(
                    g@[row as int].subrange(0, x as int + 1)[i],
                    #[trigger] parts[i],
                ) by {
                    if i < x {
                        assert(g@[row as int].subrange(0, x as int)[i] == g@[row as int].subrange(0, x as int + 1)[i]);
                    }
                }
            }
        }
        x = x + 1;
    }
    proof {
        assert(cells_text(g@[row as int].subrange(0, to as int), out@));
    }
    out
}

/// `n` copies of a colour drawing of an empty cell.
fn draw_voids(n: usize) -> (out: String)
    ensures
        voids_text(n as nat, out@),
{
    let r = Block::Void.get_string_rep(true);
    let out = repeat_str(r.as_str(), n);
    assert(colored_rep(Block::Void, r@));
    out
}

impl Piece {
    /// Row `y` of the piece drawn in colour for a four-cell view: the row's cells
    /// followed by empty cells up to four, or four empty cells below the shape.
    pub fn get_row_string(&self, y: u8) -> (out: String)
        requires
            forall|i: int| 0 <= i < self.matrix@.len() ==> #[trigger] self.matrix@[i].len() >= self.matrix@.len(),
        ensures
            piece_row_text(self.matrix@, y as int, out@),
    {
        let (rows, _) = self.matrix.dim();
        let size = rows as u8;
        if y >= size {
            draw_voids(4)
        } else {
            assert(self.matrix@[y as int].len() >= rows);
            let mut s = draw_cells(&self.matrix, y as usize, size as usize);
            let ghost a = s@;
            if size < 4 {
                let pad = draw_voids((4 - size) as usize);
                s.append(pad.as_str());
            } else {
                proof {
                    assert(colored_rep(Block::Void, plain_rep(Block::Void)));
                    assert(repeat(plain_rep(Block::Void), 0) == Seq::<char>::empty());
                    assert(s@ == a + repeat(plain_rep(Block::Void), 0));
                }
            }
            proof {
                assert(piece_row_text(self.matrix@, y as int, s@));
            }
            s
        }
    }
}

/// The screen line of board row `y` and its text: the row's cells drawn in colour
/// between two bars. Nothing for a row below the board. Rows above the shown part
/// of the board cannot be drawn (the game panics).
pub fn row_render(field: &Grid, y: u8) -> (r: Option<(u16, String)>)
    requires
        y < FIELD_SIZE_Y ==> y < field@.len() && y >= RENDER_OFFSET,
    ensures
        y >= FIELD_SIZE_Y ==> r is None,
        y < FIELD_SIZE_Y ==> (r matches Some((line, text)) && line == y - RENDER_OFFSET && exists|a: Seq<char>|
            cells_text(field@[y as int], a) && text@ == "|"@ + a + "|"@),
{
    if y >= FIELD_SIZE_Y {
        return None;
    }
    let (_, width) = field.dim();
    assert(field@[y as int].len() == width);
    let mut text = String::from_str("|");
    let cells = draw_cells(field, y as usize, width);
    let ghost a = cells@;
    text.append(cells.as_str());
    text.append("|");
    proof {
        assert(field@[y as int].subrange(0, width as int) =~= field@[y as int]);
    }
    Some(((y - RENDER_OFFSET) as u16, text))
}

/// The rows `lo` through `hi` in increasing order, leaving out those that lie within
/// the span `skip` when one is given.
pub open spec fn rows_between(lo: int, hi: int, skip: Option<(u8, u8)>) -> Seq<u8>
    decreases hi - lo + 1,
{
    if hi < lo {
        Seq::empty()
    } else {
        let earlier = rows_between(lo, hi - 1, skip);
        if skip matches Some(s) && s.0 <= hi <= s.1 {
            earlier
        } else {
            earlier.push(hi as u8)
        }
    }
}

/// The board rows to draw again after a piece moved from the span `old` to the span
/// `new`: every row of the old span, then the rows of the new span outside the old one.
pub open spec fn redraw_rows(old: (u8, u8), new: Option<(u8, u8)>) -> Seq<u8> {
    rows_between(old.0 as int, old.1 as int, None) + match new {
        Some(n) => rows_between(n.0 as int, n.1 as int, Some(old)),
        None => Seq::empty(),
    }
}

/// Appends the rows `lo` through `hi` outside `skip` to `rows`.
fn push_rows(rows: &mut Vec<u8>, lo: u8, hi: u8, skip: Option<(u8, u8)>)
    ensures
        final(rows)@ == old(rows)@ + rows_between(lo as int, hi as int, skip),
{
    let ghost start = rows@;
    let mut y: u16 = lo as u16;
    while y <= hi as u16
        invariant
            lo <= y,
            y <= hi + 1 || y == lo,
            rows@ == start + rows_between(lo as int, y - 1, skip),
        decreases hi + 1 - y,
    {
        let row = y as u8;
        let inside = match skip {
            Some(s) => s.0 <= row && row <= s.1,
            None => false,
        };
        if !inside {
            rows.push(row);
        }
        proof {
            assert(rows@ == start + rows_between(lo as int, y as int, skip));
        }
        y = y + 1;
    }
    proof {
        assert(rows_between(lo as int, y - 1, skip) == rows_between(lo as int, hi as int, skip));
    }
}

/// The board rows to draw again after a piece moved from the rows `old` to the rows
/// `new` (none when no piece is in play any more): the old rows, then the new rows
/// that were not among them.
pub fn rows_to_redraw(old: (u8, u8), new: Option<(u8, u8)>) -> (rows: Vec<u8>)
    ensures
        rows@ == redraw_rows(old, new),
{
    let mut rows: Vec<u8> = Vec::new();
    push_rows(&mut rows, old.0, old.1, None);
    match new {
        Some(n) => push_rows(&mut rows, n.0, n.1, Some(old)),
        None => {},
    }
    proof {
        assert(rows@ =~= redraw_rows(old, new));
    }
    rows
}

/// `out` is a way the stored piece's row `y` may be drawn: the piece's row, or four
/// empty cells without a stored piece.
pub open spec fn stored_row_text(stored: Option<Piece>, y: int, out: Seq<char>) -> bool {
    match stored {
        Some(p) => piece_row_text(p.matrix@, y, out),
        None => voids_text(4, out),
    }
}

/// The screen line of line `y` (zero to three) of the piece views and its text: the
/// next piece's row and the stored piece's row, each between bars, two spaces apart.
pub fn views_render(next: &Piece, stored: &Option<Piece>, y: u8) -> (r: (u16, String))
    requires
        y < 4,
        forall|i: int| 0 <= i < next.matrix@.len() ==> #[trigger] next.matrix@[i].len() >= next.matrix@.len(),
        stored matches Some(p) ==> forall|i: int| 0 <= i < p.matrix@.len() ==> #[trigger] p.matrix@[i].len() >= p.matrix@.len(),
    ensures
        r.0 == RENDER_END + 4 + y,
        exists|a: Seq<char>, b: Seq<char>|
            piece_row_text(next.matrix@, y as int, a) && stored_row_text(*stored, y as int, b) && r.1@ == "|"@ + a
                + "|"@ + "  "@ + "|"@ + b + "|"@,
{
    let next_string = next.get_row_string(y);
    let stored_string = match stored {
        Some(p) => p.get_row_string(y),
        None => draw_voids(4),
    };
    let mut text = String::from_str("|");
    text.append(next_string.as_str());
    text.append("|");
    let gap = repeat_str("  ", 1);
    proof {
        assert(repeat("  "@, 1) =~= "  "@) by {
            assert(repeat("  "@, 0) =~= Seq::<char>::empty());
        }
    }
    text.append(gap.as_str());
    text.append("|");
    text.append(stored_string.as_str());
    text.append("|");
    ((RENDER_END + 4 + y) as u16, text)
}

/// The character of a decimal digit.
pub open spec fn digit_char(d: int) -> char {
    if d == 0 {
        '0'
    } else if d == 1 {
        '1'
    } else if d == 2 {
        '2'
    } else if d == 3 {
        '3'
    } else if d == 4 {
        '4'
    } else if d == 5 {
        '5'
    } else if d == 6 {
        '6'
    } else if d == 7 {
        '7'
    } else if d == 8 {
        '8'
    } else {
        '9'
    }
}

/// The decimal digits of `n`, most significant first, without leading zeros
/// (zero is "0").
pub open spec fn decimal(n: nat) -> Seq<char>
    decreases n,
{
    if n < 10 {
        seq![digit_char(n as int)]
    } else {
        decimal(n / 10).push(digit_char((n % 10) as int))
    }
}

/// The one-character text of a digit.
fn digit_str(d: u8) -> (s: &'static str)
    requires
        d < 10,
    ensures
        s@ == seq![digit_char(d as int)],
{
    proof {
        reveal_strlit("0");
        reveal_strlit("1");
        reveal_strlit("2");
        reveal_strlit("3");
        reveal_strlit("4");
        reveal_strlit("5");
        reveal_strlit("6");
        reveal_strlit("7");
        reveal_strlit("8");
        reveal_strlit("9");
    }
    match d {
        0 => "0",
        1 => "1",
        2 => "2",
        3 => "3",
        4 => "4",
        5 => "5",
        6 => "6",
        7 => "7",
        8 => "8",
        _ => "9",
    }
}

/// The decimal text of `n`.
pub fn decimal_string(n: u128) -> (s: String)
    ensures
        s@ == decimal(n as nat),
{
    // Digits, least significant first.
    let mut digits: Vec<u8> = Vec::new();
    let mut m = n;
    while m >= 10
        invariant
            decimal(n as nat) == decimal(m as nat) + Seq::new(digits@.len(), |i: int| digit_char(digits@[digits@.len() - 1 - i] as int)),
            forall|i: int| 0 <= i < digits@.len() ==> #[trigger] digits@[i] < 10,
        decreases m,
    {
        let ghost old_digits = digits@;
        digits.push((m % 10) as u8);
        proof {
            assert(Seq::new(digits@.len(), |i: int| digit_char(digits@[digits@.len() - 1 - i] as int)) =~= seq![
                digit_char((m % 10) as int),
            ] + Seq::new(old_digits.len(), |i: int| digit_char(old_digits[old_digits.len() - 1 - i] as int)));
            assert(decimal(m as nat) == decimal((m / 10) as nat).push(digit_char((m % 10) as int)));
            assert(decimal(m as nat) =~= decimal((m / 10) as nat) + seq![digit_char((m % 10) as int)]);
        }
        m = m / 10;
    }
    digits.push(m as u8);
    let ghost all = Seq::new(digits@.len(), |i: int| digit_char(digits@[digits@.len() - 1 - i] as int));
    proof {
        assert(decimal(m as nat) == seq![digit_char(m as int)]);
        assert(decimal(n as nat) =~= all);
    }
    let mut s = String::new();
    let mut k: usize = digits.len();
    while k > 0
        invariant
            k <= digits@.len(),
            all == Seq::new(digits@.len(), |i: int| digit_char(digits@[digits@.len() - 1 - i] as int)),
            forall|i: int| 0 <= i < digits@.len() ==> #[trigger] digits@[i] < 10,
            s@ == all.subrange(0, digits@.len() - k),
        decreases k,
    {
        k = k - 1;
        s.append(digit_str(digits[k]));
        proof {
            assert(s@ =~= all.subrange(0, digits@.len() - k));
        }
    }
    proof {
        assert(all.subrange(0, digits@.len() as int) =~= all);
    }
    s
}

/// The width of the score line.
pub open spec fn stats_width() -> int {
    (FIELD_SIZE_X as int + 1) * 2
}

/// The score line: "Score: " and the score on the left, "Lvl: " and the level on
/// the right, at least one space between them, padded to the board's width.
pub open spec fn stats_text(score: nat, lvl: nat) -> Seq<char> {
    let a = "Score: "@ + decimal(score);
    let b = "Lvl: "@ + decimal(lvl);
    let pad = stats_width() - (a.len() + b.len());
    a + repeat(" "@, if pad > 1 { pad as nat } else { 1nat }) + b
}

/// The score line for `score` and level `lvl`. Both texts together may not be wider
/// than the line (the game panics).
pub fn stats_line(score: u128, lvl: u128) -> (s: String)
    requires
        ("Score: "@ + decimal(score as nat)).len() + ("Lvl: "@ + decimal(lvl as nat)).len() <= stats_width(),
    ensures
        s@ == stats_text(score as nat, lvl as nat),
{
    let mut left = String::from_str("Score: ");
    let digits = decimal_string(score);
    left.append(digits.as_str());
    let mut right = String::from_str("Lvl: ");
    let digits = decimal_string(lvl);
    right.append(digits.as_str());
    let wish_width: usize = ((FIELD_SIZE_X + 1) * 2) as usize;
    let used = left.as_str().unicode_len() + right.as_str().unicode_len();
    let gap = wish_width - used;
    let spaces = repeat_str(" ", if gap > 1 { gap } else { 1 });
    let mut line = left;
    line.append(spaces.as_str());
    line.append(right.as_str());
    line
}

/// The border above and below the board: a dash for each column of the board on
/// screen, between two plus signs.
pub open spec fn board_border() -> Seq<char> {
    "+"@ + repeat("-"@, (RENDER_SIZE_X - 2) as nat) + "+"@
}

/// The border of one piece view: eight dashes between two plus signs.
pub open spec fn view_border() -> Seq<char> {
    "+"@ + repeat("-"@, 8) + "+"@
}

/// The titles above the piece views: "Next" above the first, "Stored" above the
/// second.
pub open spec fn views_title() -> Seq<char> {
    "Next"@ + repeat(" "@, (view_border().len() - "Next"@.len() + GAP) as nat) + "Stored"@
}

/// The borders of both piece views, side by side.
pub open spec fn views_border() -> Seq<char> {
    view_border() + repeat(" "@, GAP as nat) + view_border()
}

/// The fixed parts of the screen, each with its screen line: the borders above and
/// below the board, the titles of the piece views, and the borders above and below
/// the piece views.
pub fn static_lines() -> (lines: Vec<(u16, String)>)
    ensures
        lines@.len() == 5,
        lines@[0].0 == 1 && lines@[0].1@ == board_border(),
        lines@[1].0 == RENDER_END && lines@[1].1@ == board_border(),
        lines@[2].0 == RENDER_END + 2 && lines@[2].1@ == views_title(),
        lines@[3].0 == RENDER_END + 3 && lines@[3].1@ == views_border(),
        lines@[4].0 == RENDER_END + 3 + 5 && lines@[4].1@ == views_border(),
{
    proof {
        reveal_strlit("Next");
        reveal_strlit("-");
        reveal_strlit("+");
        lemma_repeat_len("-"@, 8);
    }
    let mut lines: Vec<(u16, String)> = Vec::new();
    let mut dash = String::from_str("+");
    let dashes = repeat_str("-", (RENDER_SIZE_X - 2) as usize);
    dash.append(dashes.as_str());
    dash.append("+");
    let dash_copy = String::from_str(dash.as_str());
    lines.push((1, dash));
    lines.push((RENDER_END as u16, dash_copy));

    let y: u8 = RENDER_END + 3;
    let mut view_dash = String::from_str("+");
    let dashes = repeat_str("-", 4 * 2);
    view_dash.append(dashes.as_str());
    view_dash.append("+");
    let word1 = "Next";
    let word2 = "Stored";
    let width = view_dash.as_str().unicode_len();
    let mut text = String::from_str(word1);
    let spaces = repeat_str(" ", width - word1.unicode_len() + GAP as usize);
    text.append(spaces.as_str());
    text.append(word2);
    lines.push(((y - 1) as u16, text));

    let mut both = String::from_str(view_dash.as_str());
    let spaces = repeat_str(" ", GAP as usize);
    both.append(spaces.as_str());
    both.append(view_dash.as_str());
    let both_copy = String::from_str(both.as_str());
    lines.push((y as u16, both));
    lines.push((y as u16 + 5, both_copy));
    lines
}

} // verus!
