use crate::board::{cells_written, grid_with, Gameboard, SIZE};
use vstd::prelude::*;

verus! {

/// A button that input can press.
pub enum Button {
    /// The primary (left) mouse button.
    MouseLeft,
    /// Any other mouse button.
    MouseOther,
    /// A keyboard key, by its key code (`0x31` to `0x39` are the digits
    /// `1` to `9`).
    Keyboard(u32),
    /// A button of another device.
    Other,
}

/// One input event, in the coordinate space of the board's on-screen
/// rectangle.
pub enum Input {
    /// The pointer moved to this position.
    CursorMoved([i64; 2]),
    /// A button was pressed.
    Press(Button),
    /// Any other event; it changes nothing.
    Other,
}

/// The digit that a key code stands for, if it is one of the keys `1` to `9`.
pub open spec fn digit_of_key(code: u32) -> Option<u8> {
    if 0x31 <= code <= 0x39 {
        Some((code - 0x30) as u8)
    } else {
        None
    }
}

/// The cell index along one axis for an offset `rel` into a board of
/// `size`: `floor(rel / size * 9)`.
pub open spec fn cell_index(rel: int, size: int) -> int {
    if size > 0 {
        rel * 9 / size
    } else {
        0
    }
}

/// The cell `(col, row)` that a click at `cursor` selects on a board whose
/// top-left corner is `origin` and whose side is `size`: none where the
/// click falls outside `[origin, origin + size]` on either axis.
pub open spec fn click_cell(cursor: (int, int), origin: (int, int), size: int) -> Option<(int, int)> {
    let x = cursor.0 - origin.0;
    let y = cursor.1 - origin.1;
    if 0 <= x <= size && 0 <= y <= size {
        Some((cell_index(x, size), cell_index(y, size)))
    } else {
        None
    }
}

pub struct GameboardController {
    /// The board that input edits.
    pub gameboard: Gameboard,
    /// The selected cell as `[col, row]`, if any.
    pub selected_cell: Option<[usize; 2]>,
    /// The last pointer position seen, for hit-testing clicks.
    pub cursor_pos: [i64; 2],
}

impl GameboardController {
    /// The selected cell as `(col, row)`, if any.
    pub open spec fn selection(&self) -> Option<(int, int)> {
        match self.selected_cell {
            Some(c) => Some((c[0] as int, c[1] as int)),
            None => None,
        }
    }

    /// The last pointer position seen.
    pub open spec fn cursor(&self) -> (int, int) {
        (self.cursor_pos[0] as int, self.cursor_pos[1] as int)
    }

    /// The rows of the board after a digit key `d` on this controller: the
    /// selected cell holds `d` where a cell on the board is selected.
    pub open spec fn after_digit(&self, d: u8) -> Seq<Seq<u8>> {
        match self.selection() {
            Some((c, r)) => if c < 9 && r < 9 {
                grid_with(self.gameboard@, c, r, d)
            } else {
                self.gameboard@
            },
            None => self.gameboard@,
        }
    }

    /// The cells after a digit key `d`, as `after` against the cells now:
    /// the selected cell holds `d` where a cell on the board is selected,
    /// and all cells are kept otherwise.
    pub open spec fn digit_written(&self, after: [[u8; SIZE]; SIZE], d: u8) -> bool {
        match self.selection() {
            Some((c, r)) => if c < 9 && r < 9 {
                cells_written(self.gameboard.cells, after, c, r, d)
            } else {
                after == self.gameboard.cells
            },
            None => after == self.gameboard.cells,
        }
    }

    /// A controller over `gameboard`, with nothing selected and the pointer
    /// at the origin.
    pub fn new(gameboard: Gameboard) -> (r: GameboardController)
        ensures
            r.gameboard == gameboard,
            r.selected_cell is None,
            r.cursor() == (0int, 0int),
    {
        GameboardController { gameboard, selected_cell: None, cursor_pos: [0i64; 2] }
    }

    /// Records the pointer position.
    pub fn handle_pointer_move(&mut self, pos: [i64; 2])
        ensures
            final(self).cursor() == (pos[0] as int, pos[1] as int),
            final(self).selected_cell == old(self).selected_cell,
            final(self).gameboard == old(self).gameboard,
    {
        self.cursor_pos = pos;
    }

    /// A primary click at the recorded pointer position on a board at `pos`
    /// of side `size`: selects the cell under the pointer, and leaves the
    /// selection as it was where the pointer is outside the board.
    pub fn handle_primary_click(&mut self, pos: [i64; 2], size: i64)
        ensures
            final(self).selection() == match click_cell(
                old(self).cursor(),
                (pos[0] as int, pos[1] as int),
                size as int,
            ) {
                Some(c) => Some(c),
                None => old(self).selection(),
            },
            final(self).cursor() == old(self).cursor(),
            final(self).gameboard == old(self).gameboard,
    {
        // Coordinates relative to the board's upper left corner.
        let x: i128 = self.cursor_pos[0] as i128 - pos[0] as i128;
        let y: i128 = self.cursor_pos[1] as i128 - pos[1] as i128;
        let size_wide: i128 = size as i128;
        if x >= 0 && x <= size_wide && y >= 0 && y <= size_wide {
            let cell_x: usize = if size_wide > 0 {
                assert(0 <= (x as int) * 9 / (size_wide as int) <= 9) by (nonlinear_arith)
                    requires
                        0 <= x <= size_wide,
                        0 < size_wide,
                ;
                (x * 9 / size_wide) as usize
            } else {
                0
            };
            let cell_y: usize = if size_wide > 0 {
                assert(0 <= (y as int) * 9 / (size_wide as int) <= 9) by (nonlinear_arith)
                    requires
                        0 <= y <= size_wide,
                        0 < size_wide,
                ;
                (y * 9 / size_wide) as usize
            } else {
                0
            };
            self.selected_cell = Some([cell_x, cell_y]);
        }
    }

    /// A digit key `digit`: writes it into the selected cell. Nothing
    /// changes where no cell is selected, or where the selection lies on the
    /// board's far edge, outside the grid.
    pub fn handle_digit_key(&mut self, digit: u8)
        requires
            1 <= digit <= 9,
        ensures
            final(self).gameboard@ == old(self).after_digit(digit),
            old(self).digit_written(final(self).gameboard.cells, digit),
            old(self).gameboard.wf() ==> final(self).gameboard.wf(),
            final(self).selected_cell == old(self).selected_cell,
            final(self).cursor() == old(self).cursor(),
    {
        if let Some(ind) = self.selected_cell {
            if ind[0] < 9 && ind[1] < 9 {
                self.gameboard.set(ind, digit);
            }
        }
    }

    /// Handles one input event for a board drawn at `pos` with side `size`:
    /// a pointer move is recorded, a left click selects, and a digit key
    /// writes into the selected cell; anything else is ignored.
    pub fn event(&mut self, pos: [i64; 2], size: i64, e: &Input)
        ensures
            old(self).gameboard.wf() ==> final(self).gameboard.wf(),
            match *e {
                Input::CursorMoved(p) => {
                    &&& final(self).cursor() == (p[0] as int, p[1] as int)
                    &&& final(self).selected_cell == old(self).selected_cell
                    &&& final(self).gameboard == old(self).gameboard
                },
                Input::Press(Button::MouseLeft) => {
                    &&& final(self).selection() == match click_cell(
                        old(self).cursor(),
                        (pos[0] as int, pos[1] as int),
                        size as int,
                    ) {
                        Some(c) => Some(c),
                        None => old(self).selection(),
                    }
                    &&& final(self).cursor() == old(self).cursor()
                    &&& final(self).gameboard == old(self).gameboard
                },
                Input::Press(Button::Keyboard(code)) => {
                    &&& final(self).gameboard@ == match digit_of_key(code) {
                        Some(d) => old(self).after_digit(d),
                        None => old(self).gameboard@,
                    }
                    &&& match digit_of_key(code) {
                        Some(d) => old(self).digit_written(final(self).gameboard.cells, d),
                        None => final(self).gameboard == old(self).gameboard,
                    }
                    &&& final(self).selected_cell == old(self).selected_cell
                    &&& final(self).cursor() == old(self).cursor()
                },
                _ => *final(self) == *old(self),
            },
    {
        match e {
            Input::CursorMoved(p) => self.handle_pointer_move(*p),
            Input::Press(Button::MouseLeft) => self.handle_primary_click(pos, size),
            Input::Press(Button::Keyboard(code)) => {
                if 0x31 <= *code && *code <= 0x39 {
                    self.handle_digit_key((*code - 0x30) as u8);
                }
            },
            _ => {},
        }
    }
}

} // verus!
