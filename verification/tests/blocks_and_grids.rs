use tetris::block::Block;
use tetris::grid::Grid;

#[test]
fn plain_reps() {
    assert_eq!(Block::Void.get_string_rep(false), "  ");
    for b in Block::VALUES {
        assert_eq!(b.get_string_rep(false), "[]");
    }
}

#[test]
fn coloured_rep_is_plain_or_framed() {
    let cases = [
        (Block::LightBlue, "36", "[]"),
        (Block::DarkBlue, "34", "[]"),
        (Block::Orange, "33", "[]"),
        (Block::Yellow, "93", "[]"),
        (Block::Green, "32", "[]"),
        (Block::Red, "31", "[]"),
        (Block::Magenta, "35", "[]"),
        (Block::Void, "30", "  "),
    ];
    for (b, code, text) in cases {
        let out = b.get_string_rep(true);
        let framed = format!("\x1B[{}m{}\x1B[0m", code, text);
        assert!(out == text || out == framed, "unexpected rendering {:?}", out);
    }
}

#[test]
fn block_names() {
    assert_eq!(Block::LightBlue.to_string(), "LightBlue");
    assert_eq!(Block::Magenta.to_string(), "Magenta");
    assert_eq!(Block::Void.to_string(), "None");
}

#[test]
fn values_are_the_seven_kinds() {
    assert_eq!(Block::VALUES.len(), 7);
    assert!(!Block::VALUES.contains(&Block::Void));
    assert_eq!(Block::VALUES[0], Block::LightBlue);
    assert_eq!(Block::VALUES[6], Block::Magenta);
}

#[test]
fn grid_get_set_dim() {
    let mut g = Grid::new(3, 5, Block::Void);
    assert_eq!(g.dim(), (3, 5));
    assert_eq!(g.get(2, 4), Block::Void);
    g.set(2, 4, Block::Red);
    assert_eq!(g.get(2, 4), Block::Red);
    assert_eq!(g.get(2, 3), Block::Void);
    assert_eq!(g.get(1, 4), Block::Void);
    let c = g.duplicate();
    assert_eq!(c.get(2, 4), Block::Red);
    assert_eq!(c.dim(), (3, 5));
}

#[test]
fn grid_filled_with_a_block() {
    let g = Grid::new(2, 2, Block::Yellow);
    for r in 0..2 {
        for c in 0..2 {
            assert_eq!(g.get(r, c), Block::Yellow);
        }
    }
}

#[test]
fn coloured_rep_when_colours_are_forced() {
    colored::control::set_override(true);
    assert_eq!(Block::LightBlue.get_string_rep(true), "\x1B[36m[]\x1B[0m");
    assert_eq!(Block::Yellow.get_string_rep(true), "\x1B[93m[]\x1B[0m");
    assert_eq!(Block::Void.get_string_rep(true), "\x1B[30m  \x1B[0m");
    assert_eq!(Block::Red.get_string_rep(false), "[]");
    colored::control::unset_override();
}

#[test]
fn a_grid_without_rows_keeps_its_width() {
    let g = Grid::new(0, 5, Block::Void);
    assert_eq!(g.dim(), (0, 5));
    assert_eq!(g.duplicate().dim(), (0, 5));
}
