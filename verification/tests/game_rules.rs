use tetris::block::Block;
use tetris::game::{take_from_bag, Game, Settle, SPAWN_X, SPAWN_Y};
use tetris::piece::Piece;
use tetris::input::{InputPackage, Rotation};

fn filled_cells(g: &Game) -> usize {
    let (h, w) = g.field.dim();
    let mut n = 0;
    for r in 0..h {
        for c in 0..w {
            if g.field.get(r, c) != Block::Void {
                n += 1;
            }
        }
    }
    n
}

#[test]
fn a_new_game() {
    let g = Game::new();
    assert_eq!(g.field.dim(), (40, 10));
    assert_eq!(filled_cells(&g), 0);
    assert_eq!(g.bag.len(), 5);
    assert!(!g.bag.contains(&Block::Void));
    let p = g.piece.as_ref().unwrap();
    assert_eq!((p.x, p.y), (SPAWN_X as i16, SPAWN_Y as i16));
    assert_eq!((g.next.x, g.next.y), (SPAWN_X as i16, SPAWN_Y as i16));
    assert!(g.stored.is_none());
    assert_eq!((g.score, g.lvl, g.cleared_lines), (0, 0, 0));
    assert_eq!((g.ticks_per_grav_update, g.ticks_since_grav_update), (10, 0));
    assert!(g.redraw);
}

#[test]
fn an_idle_frame() {
    let mut g = Game::new();
    let frame = g.update(&InputPackage::new());
    assert!(frame.redraw);
    assert!(!frame.views_changed && !frame.full_render);
    assert_eq!(frame.active, Some((SPAWN_Y as i16, g.piece.as_ref().unwrap().matrix.dim().0)));
    assert_eq!(filled_cells(&g), 4);
    assert_eq!(g.ticks_since_grav_update, 1);
    assert_eq!(g.settle(), Settle::Lifted);
    assert_eq!(filled_cells(&g), 0);
    assert!(!g.redraw);
    // Nothing moved: the next frame draws nothing.
    let frame = g.update(&InputPackage::new());
    assert!(!frame.redraw);
    assert_eq!(g.settle(), Settle::Lifted);
}

#[test]
fn gravity_after_ten_frames() {
    let mut g = Game::new();
    for _ in 0..10 {
        g.update(&InputPackage::new());
        g.settle();
    }
    assert_eq!(g.piece.as_ref().unwrap().y, SPAWN_Y as i16);
    assert_eq!(g.ticks_since_grav_update, 10);
    let frame = g.update(&InputPackage::new());
    assert!(frame.redraw);
    g.settle();
    assert_eq!(g.piece.as_ref().unwrap().y, SPAWN_Y as i16 + 1);
    assert_eq!(g.ticks_since_grav_update, 1);
}

#[test]
fn hard_drop_lands_the_piece() {
    let mut g = Game::new();
    let next_kind = g.next.matrix.dim();
    let mut pkg = InputPackage::new();
    pkg.hard_drop = true;
    let frame = g.update(&pkg);
    assert!(g.piece.is_none());
    assert!(frame.redraw && !frame.full_render);
    let (y, rows) = frame.active.unwrap();
    assert_eq!(y, 38);
    assert!(rows >= 2);
    assert_eq!(filled_cells(&g), 4);
    assert_eq!(g.settle(), Settle::Spawned);
    let p = g.piece.as_ref().unwrap();
    assert_eq!(p.matrix.dim(), next_kind);
    assert_eq!((p.x, p.y), (SPAWN_X as i16, SPAWN_Y as i16));
    assert_eq!(g.bag.len(), 4);
    assert_eq!(filled_cells(&g), 4);
}

#[test]
fn storing_and_swapping_back() {
    let mut g = Game::new();
    let first = g.piece.as_ref().unwrap().matrix.dim();
    let mut pkg = InputPackage::new();
    pkg.store = true;
    let frame = g.update(&pkg);
    assert!(frame.views_changed);
    assert_eq!(frame.active, None);
    assert!(g.piece.is_none());
    assert_eq!(g.stored.as_ref().unwrap().matrix.dim(), first);
    assert!(g.just_stored);
    assert_eq!(g.settle(), Settle::Spawned);
    // A second store before landing is ignored.
    let frame = g.update(&pkg);
    assert!(!frame.views_changed);
    assert!(g.piece.is_some());
    g.settle();
}

#[test]
fn moving_sideways_stops_at_the_wall() {
    let mut g = Game::new();
    let mut pkg = InputPackage::new();
    pkg.move_x = -1;
    for _ in 0..8 {
        g.update(&pkg);
        g.settle();
    }
    let p = g.piece.as_ref().unwrap();
    assert_eq!(p.x, 0);
    assert!(p.is_valid(&g.field));
}

#[test]
fn turning_in_the_open() {
    let mut g = Game::new();
    let before = g.piece.as_ref().unwrap().matrix_rotated(Rotation::Clockwise);
    let mut pkg = InputPackage::new();
    pkg.rotate = Rotation::Clockwise;
    let frame = g.update(&pkg);
    assert!(frame.redraw);
    g.settle();
    let p = g.piece.as_ref().unwrap();
    let (h, w) = p.matrix.dim();
    for r in 0..h {
        for c in 0..w {
            assert_eq!(p.matrix.get(r, c), before.get(r, c));
        }
    }
}

#[test]
fn drawing_from_the_bag() {
    let mut bag = Vec::new();
    let p = take_from_bag(&mut bag, 0, 3, 20);
    assert_eq!(p.matrix.dim(), (4, 4));
    assert_eq!(p.matrix.get(1, 0), Block::LightBlue);
    assert_eq!(bag, vec![Block::DarkBlue, Block::Orange, Block::Yellow, Block::Green, Block::Red, Block::Magenta]);
    let p = take_from_bag(&mut bag, 2, 0, 0);
    assert_eq!(p.matrix.get(0, 0), Block::Yellow);
    assert_eq!(bag.len(), 5);
}

#[test]
fn game_over_when_the_spawn_is_blocked() {
    let mut g = Game::new();
    for c in 0..10 {
        g.field.set(21, c, Block::Red);
        g.field.set(22, c, Block::Red);
    }
    for c in 0..9 {
        g.field.set(20, c, Block::Red);
    }
    // No row may be full between frames.
    g.field.set(21, 9, Block::Void);
    g.field.set(22, 9, Block::Void);
    g.piece = None;
    assert_eq!(g.settle(), Settle::GameOver);
    assert!(g.piece.is_none());
}

fn game_with_a_gap_for_a_bar(lvl: u128, cleared_lines: u32) -> Game {
    let mut g = Game::new();
    for c in 0..10 {
        if c < 3 || c > 6 {
            g.field.set(39, c, Block::Red);
        }
    }
    g.piece = Some(Piece::new(Block::LightBlue, SPAWN_X as i16, SPAWN_Y as i16));
    g.lvl = lvl;
    g.cleared_lines = cleared_lines;
    g
}

#[test]
fn clearing_a_row_scores_and_counts() {
    let mut g = game_with_a_gap_for_a_bar(0, 0);
    let mut pkg = InputPackage::new();
    pkg.hard_drop = true;
    let frame = g.update(&pkg);
    assert!(frame.full_render);
    assert!(!frame.redraw);
    assert_eq!(frame.active, Some((38, 4)));
    assert_eq!(g.score, 40);
    assert_eq!(g.cleared_lines, 1);
    assert_eq!(g.lvl, 0);
    assert_eq!(filled_cells(&g), 0);
}

#[test]
fn ten_rows_make_a_level() {
    let mut g = game_with_a_gap_for_a_bar(0, 9);
    let mut pkg = InputPackage::new();
    pkg.hard_drop = true;
    g.update(&pkg);
    assert_eq!((g.cleared_lines, g.lvl, g.ticks_per_grav_update), (0, 1, 10));

    // Every second level the piece falls one frame sooner.
    let mut g = game_with_a_gap_for_a_bar(1, 9);
    g.update(&pkg);
    assert_eq!((g.cleared_lines, g.lvl, g.ticks_per_grav_update), (0, 2, 9));
}

#[test]
fn frames_the_counters_have_room_for() {
    let mut g = Game::new();
    let mut pkg = InputPackage::new();
    assert!(g.frame_allowed(&pkg));
    pkg.move_x = i16::MAX - 12;
    assert!(g.frame_allowed(&pkg));
    pkg.move_x = i16::MAX - 11;
    assert!(!g.frame_allowed(&pkg));
    pkg.move_x = i16::MIN + 3;
    assert!(g.frame_allowed(&pkg));
    pkg.move_x = i16::MIN + 2;
    assert!(!g.frame_allowed(&pkg));
    pkg.move_x = 0;

    // The tick counter must stay within u16.
    g.ticks_since_grav_update = u16::MAX - 4;
    g.ticks_per_grav_update = u16::MAX;
    pkg.soft_drop = true;
    assert!(g.frame_allowed(&pkg));
    g.ticks_since_grav_update = u16::MAX - 3;
    assert!(!g.frame_allowed(&pkg));
    // A frame that falls spends the ticks of one fall first.
    pkg.hard_drop = true;
    assert!(g.frame_allowed(&pkg));
    pkg.hard_drop = false;
    pkg.soft_drop = false;
    g.ticks_per_grav_update = 10;
    g.ticks_since_grav_update = 0;

    // Room for a four-row clear and a level.
    g.score = u128::MAX - 1200;
    assert!(g.frame_allowed(&pkg));
    g.score = u128::MAX - 1199;
    assert!(!g.frame_allowed(&pkg));
    g.score = 0;
    g.lvl = u128::MAX - 1;
    assert!(g.frame_allowed(&pkg));
    g.lvl = u128::MAX;
    assert!(!g.frame_allowed(&pkg));
}

#[test]
fn storing_is_allowed_again_after_a_landing() {
    let mut g = Game::new();
    let mut store = InputPackage::new();
    store.store = true;
    assert!(g.update(&store).views_changed);
    assert_eq!(g.settle(), Settle::Spawned);
    // Barred until a piece comes to rest.
    assert!(!g.update(&store).views_changed);
    g.settle();
    let mut drop = InputPackage::new();
    drop.hard_drop = true;
    g.update(&drop);
    assert!(!g.just_stored);
    assert_eq!(g.settle(), Settle::Spawned);
    // The piece aside comes back at the spawn position.
    let aside = g.stored.as_ref().unwrap().matrix.dim();
    assert!(g.update(&store).views_changed);
    g.settle();
    let p = g.piece.as_ref().unwrap();
    assert_eq!(p.matrix.dim(), aside);
    assert_eq!((p.x, p.y), (SPAWN_X as i16, SPAWN_Y as i16));
}
