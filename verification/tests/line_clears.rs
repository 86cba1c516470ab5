use tetris::block::Block;
use tetris::board::handle_line_clears;
use tetris::grid::Grid;

fn board() -> Grid {
    Grid::new(40, 10, Block::Void)
}

fn fill_row(g: &mut Grid, r: usize, b: Block) {
    for c in 0..10 {
        g.set(r, c, b);
    }
}

fn count_filled(g: &Grid) -> usize {
    let mut n = 0;
    for r in 0..40 {
        for c in 0..10 {
            if g.get(r, c) != Block::Void {
                n += 1;
            }
        }
    }
    n
}

#[test]
fn nothing_to_clear() {
    let mut f = board();
    f.set(39, 0, Block::Red);
    f.set(37, 5, Block::Green);
    let (mut score, mut lines) = (7u128, 3u32);
    assert!(!handle_line_clears(&mut f, &mut score, &mut lines));
    assert_eq!((score, lines), (7, 3));
    // Without a clear, even a gap between rows stays.
    assert_eq!(f.get(39, 0), Block::Red);
    assert_eq!(f.get(37, 5), Block::Green);
    assert_eq!(count_filled(&f), 2);
}

#[test]
fn one_row_scores_forty() {
    let mut f = board();
    fill_row(&mut f, 39, Block::Red);
    f.set(38, 0, Block::Green);
    let (mut score, mut lines) = (0u128, 0u32);
    assert!(handle_line_clears(&mut f, &mut score, &mut lines));
    assert_eq!((score, lines), (40, 1));
    assert_eq!(f.get(39, 0), Block::Green);
    assert_eq!(count_filled(&f), 1);
}

#[test]
fn rows_sink_past_empty_rows() {
    let mut f = board();
    fill_row(&mut f, 39, Block::Red);
    f.set(36, 2, Block::Orange);
    f.set(35, 3, Block::Yellow);
    let (mut score, mut lines) = (0u128, 0u32);
    assert!(handle_line_clears(&mut f, &mut score, &mut lines));
    // Rows 36 and 35 land on the bottom, keeping their order; the empty rows close up.
    assert_eq!(f.get(39, 2), Block::Orange);
    assert_eq!(f.get(38, 3), Block::Yellow);
    assert_eq!(count_filled(&f), 2);
}

#[test]
fn scores_for_two_three_and_four_rows() {
    for (n, expected) in [(2usize, 100u128), (3, 300), (4, 1200)] {
        let mut f = board();
        for k in 0..n {
            fill_row(&mut f, 39 - k, Block::Magenta);
        }
        f.set(39 - n, 9, Block::Red);
        let (mut score, mut lines) = (1000u128, 5u32);
        assert!(handle_line_clears(&mut f, &mut score, &mut lines));
        assert_eq!(score, 1000 + expected);
        assert_eq!(lines, 5 + n as u32);
        assert_eq!(f.get(39, 9), Block::Red);
        assert_eq!(count_filled(&f), 1);
    }
}

#[test]
fn non_adjacent_full_rows() {
    let mut f = board();
    fill_row(&mut f, 39, Block::Red);
    f.set(38, 1, Block::Green);
    fill_row(&mut f, 37, Block::Red);
    f.set(36, 4, Block::Orange);
    let (mut score, mut lines) = (0u128, 0u32);
    assert!(handle_line_clears(&mut f, &mut score, &mut lines));
    assert_eq!((score, lines), (100, 2));
    assert_eq!(f.get(39, 1), Block::Green);
    assert_eq!(f.get(38, 4), Block::Orange);
    assert_eq!(count_filled(&f), 2);
}
