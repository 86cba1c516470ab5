# tetris

A falling-block puzzle game for the terminal, written in Verus. The rules of the
game live in a verified library; a thin program around it reads the keyboard and
draws on the terminal.

## Layout

- `src/block.rs`: the cell kinds and how a cell is drawn (colours come from the
  `colored` crate).
- `src/grid.rs`: rectangular grids of cells, held in `ndarray` arrays.
- `src/piece.rs`: pieces, their shapes, quarter turns with wall kicks, and
  placing a piece on the board.
- `src/board.rs`: clearing full rows and scoring.
- `src/game.rs`: the piece bag and the frame-by-frame rules of a game.
- `src/input.rs`: the player's request for a frame, and how held keys become one.
- `src/render.rs`: the text of every line of the screen.
- `app/`: the program: the keyboard thread (`device_query`), the frame loop, and
  the terminal output (`crossterm`).
- `tests/`: tests of the library.

Each public function of the library carries a contract that Verus checks
against its body.
