use tetris::block::Block;
use tetris::grid::Grid;
use tetris::piece::{span_checked, span_of, Piece};
use tetris::render::{decimal_string, repeat_str, row_render, rows_to_redraw, static_lines, stats_line, views_render};

#[test]
fn decimal_texts() {
    assert_eq!(decimal_string(0), "0");
    assert_eq!(decimal_string(7), "7");
    assert_eq!(decimal_string(40), "40");
    assert_eq!(decimal_string(1234567890), "1234567890");
    assert_eq!(decimal_string(u128::MAX), u128::MAX.to_string());
}

#[test]
fn repeated_text() {
    assert_eq!(repeat_str("ab", 3), "ababab");
    assert_eq!(repeat_str("x", 0), "");
}

#[test]
fn the_score_line() {
    assert_eq!(stats_line(0, 0), "Score: 0        Lvl: 0");
    assert_eq!(stats_line(1200, 3), "Score: 1200     Lvl: 3");
    // When the texts fill the line, one space still parts them.
    assert_eq!(stats_line(12345678, 12), "Score: 12345678 Lvl: 12");
    assert_eq!(stats_line(1234567, 12), "Score: 1234567 Lvl: 12");
}

#[test]
fn the_fixed_lines() {
    let lines = static_lines();
    let border = format!("+{}+", "-".repeat(20));
    let view = format!("+{}+", "-".repeat(8));
    assert_eq!(lines.len(), 5);
    assert_eq!(lines[0], (1, border.clone()));
    assert_eq!(lines[1], (24, border));
    assert_eq!(lines[2], (26, format!("Next{}Stored", " ".repeat(8))));
    assert_eq!(lines[3], (27, format!("{}  {}", view, view)));
    assert_eq!(lines[4], (32, format!("{}  {}", view, view)));
}

#[test]
fn board_rows() {
    let mut f = Grid::new(40, 10, Block::Void);
    f.set(20, 0, Block::Red);
    assert!(row_render(&f, 40).is_none());
    assert!(row_render(&f, 200).is_none());
    let (line, text) = row_render(&f, 20).unwrap();
    assert_eq!(line, 4);
    let expected = format!(
        "|{}{}|",
        Block::Red.get_string_rep(true),
        Block::Void.get_string_rep(true).repeat(9)
    );
    assert_eq!(text, expected);
    let (line, _) = row_render(&f, 39).unwrap();
    assert_eq!(line, 23);
}

#[test]
fn piece_views() {
    let next = Piece::new(Block::LightBlue, 3, 20);
    let stored = Some(Piece::new(Block::Yellow, 3, 20));
    let e = Block::Void.get_string_rep(true);
    let i = Block::LightBlue.get_string_rep(true);
    let o = Block::Yellow.get_string_rep(true);
    let (line, text) = views_render(&next, &stored, 1);
    assert_eq!(line, 29);
    assert_eq!(text, format!("|{}|  |{}{}{}{}|", i.repeat(4), o, o, e, e));
    let (line, text) = views_render(&next, &None, 3);
    assert_eq!(line, 31);
    assert_eq!(text, format!("|{}|  |{}|", e.repeat(4), e.repeat(4)));
}

#[test]
fn spans() {
    assert_eq!(span_of(20, 3), (20, 23));
    assert_eq!(span_of(0, 4), (0, 4));
}

#[test]
fn checked_spans() {
    assert_eq!(span_checked(20, 3), Some((20, 23)));
    assert_eq!(span_checked(-1, 3), None);
    assert_eq!(span_checked(250, 4), Some((250, 254)));
    assert_eq!(span_checked(252, 4), None);
    assert_eq!(span_checked(0, 255), Some((0, 255)));
}

#[test]
fn rows_drawn_again_after_a_move() {
    // Fallen by one row: the old rows, then the one new row below them.
    assert_eq!(rows_to_redraw((20, 23), Some((21, 24))), vec![20, 21, 22, 23, 24]);
    // Moved sideways only: the old rows alone.
    assert_eq!(rows_to_redraw((20, 23), Some((20, 23))), vec![20, 21, 22, 23]);
    // Dropped far: both spans in full.
    assert_eq!(rows_to_redraw((20, 22), Some((36, 38))), vec![20, 21, 22, 36, 37, 38]);
    // Kicked up by one row.
    assert_eq!(rows_to_redraw((20, 23), Some((19, 22))), vec![20, 21, 22, 23, 19]);
    // No piece in play any more.
    assert_eq!(rows_to_redraw((30, 32), None), vec![30, 31, 32]);
    // The top rows of the board.
    assert_eq!(rows_to_redraw((252, 255), Some((253, 255))), vec![252, 253, 254, 255]);
}
