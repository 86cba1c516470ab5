use tetris::block::Block;
use tetris::grid::Grid;
use tetris::input::Rotation;
use tetris::piece::Piece;

const V: Block = Block::Void;

fn cells(g: &Grid) -> Vec<Vec<Block>> {
    let (h, w) = g.dim();
    (0..h).map(|r| (0..w).map(|c| g.get(r, c)).collect()).collect()
}

fn board() -> Grid {
    Grid::new(40, 10, Block::Void)
}

#[test]
fn new_t_piece() {
    let m = Block::Magenta;
    let p = Piece::new(m, 3, 20);
    assert_eq!((p.x, p.y), (3, 20));
    assert_eq!(cells(&p.matrix), vec![vec![V, m, V], vec![m, m, m], vec![V, V, V]]);
}

#[test]
fn new_shapes() {
    let b = Block::LightBlue;
    assert_eq!(
        cells(&Piece::new(b, 0, 0).matrix),
        vec![vec![V, V, V, V], vec![b, b, b, b], vec![V, V, V, V], vec![V, V, V, V]]
    );
    let b = Block::Yellow;
    assert_eq!(cells(&Piece::new(b, 0, 0).matrix), vec![vec![b, b], vec![b, b]]);
    let b = Block::DarkBlue;
    assert_eq!(cells(&Piece::new(b, 0, 0).matrix), vec![vec![b, V, V], vec![b, b, b], vec![V, V, V]]);
    let b = Block::Orange;
    assert_eq!(cells(&Piece::new(b, 0, 0).matrix), vec![vec![V, V, b], vec![b, b, b], vec![V, V, V]]);
    let b = Block::Green;
    assert_eq!(cells(&Piece::new(b, 0, 0).matrix), vec![vec![V, b, b], vec![b, b, V], vec![V, V, V]]);
    let b = Block::Red;
    assert_eq!(cells(&Piece::new(b, 0, 0).matrix), vec![vec![b, b, V], vec![V, b, b], vec![V, V, V]]);
}

#[test]
fn rotate_t_both_ways() {
    let m = Block::Magenta;
    let p = Piece::new(m, 0, 0);
    assert_eq!(
        cells(&p.matrix_rotated(Rotation::Clockwise)),
        vec![vec![V, m, V], vec![V, m, m], vec![V, m, V]]
    );
    assert_eq!(
        cells(&p.matrix_rotated(Rotation::Counterclockwise)),
        vec![vec![V, m, V], vec![m, m, V], vec![V, m, V]]
    );
    // `Not` turns counterclockwise.
    assert_eq!(cells(&p.matrix_rotated(Rotation::Not)), cells(&p.matrix_rotated(Rotation::Counterclockwise)));
}

#[test]
fn rotate_i_piece() {
    let b = Block::LightBlue;
    let p = Piece::new(b, 0, 0);
    assert_eq!(
        cells(&p.matrix_rotated(Rotation::Clockwise)),
        vec![vec![V, V, b, V], vec![V, V, b, V], vec![V, V, b, V], vec![V, V, b, V]]
    );
}

#[test]
fn square_never_turns() {
    let p = Piece::new(Block::Yellow, 0, 0);
    assert_eq!(cells(&p.matrix_rotated(Rotation::Clockwise)), cells(&p.matrix));
}

#[test]
fn four_turns_give_the_shape_back() {
    let mut p = Piece::new(Block::Green, 0, 0);
    let start = cells(&p.matrix);
    for _ in 0..4 {
        p.matrix = p.matrix_rotated(Rotation::Clockwise);
    }
    assert_eq!(cells(&p.matrix), start);
}

#[test]
fn turn_and_turn_back() {
    let mut p = Piece::new(Block::Orange, 0, 0);
    let start = cells(&p.matrix);
    p.matrix = p.matrix_rotated(Rotation::Clockwise);
    assert_ne!(cells(&p.matrix), start);
    p.matrix = p.matrix_rotated(Rotation::Counterclockwise);
    assert_eq!(cells(&p.matrix), start);
}

#[test]
fn validity_on_an_empty_board() {
    let f = board();
    assert!(Piece::new(Block::Magenta, 3, 20).is_valid(&f));
    // The empty top row of the shape may stick out above the board.
    assert!(!Piece::new(Block::Magenta, 3, -1).is_valid(&f));
    assert!(Piece::new(Block::LightBlue, 3, -1).is_valid(&f));
    assert!(!Piece::new(Block::Magenta, -1, 20).is_valid(&f));
    assert!(!Piece::new(Block::Magenta, 8, 20).is_valid(&f));
    assert!(Piece::new(Block::Magenta, 7, 38).is_valid(&f));
    assert!(!Piece::new(Block::Magenta, 7, 39).is_valid(&f));
}

#[test]
fn validity_against_blocks() {
    let mut f = board();
    f.set(21, 4, Block::Red);
    assert!(!Piece::new(Block::Magenta, 3, 20).is_valid(&f));
    assert!(Piece::new(Block::Magenta, 3, 18).is_valid(&f));
}

#[test]
fn add_and_remove() {
    let mut f = board();
    let p = Piece::new(Block::Magenta, 3, 20);
    p.add_to_field(&mut f);
    assert_eq!(f.get(20, 4), Block::Magenta);
    assert_eq!(f.get(21, 3), Block::Magenta);
    assert_eq!(f.get(21, 4), Block::Magenta);
    assert_eq!(f.get(21, 5), Block::Magenta);
    assert_eq!(f.get(20, 3), Block::Void);
    assert_eq!(f.get(22, 4), Block::Void);
    p.remove_from_field(&mut f);
    assert_eq!(cells(&f), cells(&board()));
}

#[test]
fn move_and_span() {
    let mut p = Piece::new(Block::LightBlue, 3, 20);
    p.move_by(-1, 2);
    assert_eq!((p.x, p.y), (2, 22));
    assert_eq!(p.get_span(), (22, 26));
    assert_eq!(Piece::new(Block::Yellow, 0, 5).get_span(), (5, 7));
}

#[test]
fn no_rotation_asked() {
    let f = board();
    let mut p = Piece::new(Block::Magenta, 3, 20);
    assert!(!p.perform_rotation(&f, Rotation::Not));
    assert_eq!(cells(&p.matrix), cells(&Piece::new(Block::Magenta, 0, 0).matrix));
    assert_eq!((p.x, p.y), (3, 20));
}

#[test]
fn free_rotation() {
    let f = board();
    let mut p = Piece::new(Block::Magenta, 3, 20);
    let turned = p.matrix_rotated(Rotation::Clockwise);
    assert!(p.perform_rotation(&f, Rotation::Clockwise));
    assert_eq!(cells(&p.matrix), cells(&turned));
    assert_eq!((p.x, p.y), (3, 20));
}

#[test]
fn wall_kick_to_the_right() {
    let m = Block::Magenta;
    let f = board();
    let mut p = Piece::new(m, 0, 10);
    assert!(p.perform_rotation(&f, Rotation::Clockwise));
    p.move_by(-1, 0);
    assert!(p.is_valid(&f));
    // Pointing down, the shape's middle row would reach column -1: it is kicked right.
    assert!(p.perform_rotation(&f, Rotation::Clockwise));
    assert_eq!((p.x, p.y), (0, 10));
    assert_eq!(cells(&p.matrix), vec![vec![V, V, V], vec![m, m, m], vec![V, m, V]]);
}

#[test]
fn blocked_rotation_is_refused() {
    let b = Block::LightBlue;
    let mut f = board();
    // A vertical bar in a one-wide shaft cannot turn flat.
    for r in 0..40 {
        for c in 0..10 {
            if c != 5 {
                f.set(r, c, Block::Red);
            }
        }
    }
    let mut p = Piece::new(b, 0, 20);
    p.matrix = p.matrix_rotated(Rotation::Clockwise);
    p.x = 3;
    assert!(p.is_valid(&f));
    let before = cells(&p.matrix);
    assert!(!p.perform_rotation(&f, Rotation::Clockwise));
    assert_eq!(cells(&p.matrix), before);
    assert_eq!((p.x, p.y), (3, 20));
}

#[test]
fn kick_up_off_the_floor() {
    let m = Block::Magenta;
    let f = board();
    // Turned counterclockwise the shape spans rows 38 to 40: pushed up one row.
    let mut p = Piece::new(m, 3, 38);
    assert!(p.is_valid(&f));
    assert!(p.perform_rotation(&f, Rotation::Counterclockwise));
    assert_eq!((p.x, p.y), (3, 37));
    assert_eq!(cells(&p.matrix), vec![vec![V, m, V], vec![m, m, V], vec![V, m, V]]);
}

#[test]
fn row_strings() {
    let p = Piece::new(Block::Magenta, 0, 0);
    let filled = Block::Magenta.get_string_rep(true);
    let empty = Block::Void.get_string_rep(true);
    assert_eq!(p.get_row_string(0), format!("{}{}{}{}", empty, filled, empty, empty));
    assert_eq!(p.get_row_string(1), format!("{}{}{}{}", filled, filled, filled, empty));
    assert_eq!(p.get_row_string(3), empty.repeat(4));
    let i = Piece::new(Block::LightBlue, 0, 0);
    assert_eq!(i.get_row_string(1), Block::LightBlue.get_string_rep(true).repeat(4));
}
