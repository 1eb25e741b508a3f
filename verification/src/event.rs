//! Key transition events and the coordinate spaces they live in.

use vstd::prelude::*;

verus! {

/// Number of switch rows on each half of the keyboard.
pub const NUM_ROWS: usize = 5;

/// Number of switch columns on each half. In the unified coordinate space
/// the right half's columns are offset by this amount.
pub const COLS_PER_BOARD: u8 = 9;

/// Which physical half of the keyboard this firmware instance drives.
#[derive(Clone, Copy, Debug, PartialEq, Eq, Structural)]
pub enum BoardType {
    Left,
    Right,
}

/// A discrete key transition at a `(row, column)` position.
///
/// Events produced by the scanner carry a half's local matrix coordinates;
/// after translation the column lives in the unified space spanning both
/// halves. An event is immutable once created.
#[derive(Clone, Copy, Debug, PartialEq, Eq, Structural)]
pub enum Event {
    Press(u8, u8),
    Release(u8, u8),
}

impl Event {
    /// Row of the coordinate the event carries.
    pub open spec fn spec_row(self) -> u8 {
        match self {
            Event::Press(r, _) => r,
            Event::Release(r, _) => r,
        }
    }

    /// Column of the coordinate the event carries.
    pub open spec fn spec_col(self) -> u8 {
        match self {
            Event::Press(_, c) => c,
            Event::Release(_, c) => c,
        }
    }

    /// Whether the event is a press (as opposed to a release).
    pub open spec fn spec_is_press(self) -> bool {
        match self {
            Event::Press(_, _) => true,
            Event::Release(_, _) => false,
        }
    }

    pub fn row(self) -> (r: u8)
        ensures
            r == self.spec_row(),
    {
        match self {
            Event::Press(r, _) => r,
            Event::Release(r, _) => r,
        }
    }

    pub fn col(self) -> (c: u8)
        ensures
            c == self.spec_col(),
    {
        match self {
            Event::Press(_, c) => c,
            Event::Release(_, c) => c,
        }
    }

    pub fn is_press(self) -> (b: bool)
        ensures
            b == self.spec_is_press(),
    {
        match self {
            Event::Press(_, _) => true,
            Event::Release(_, _) => false,
        }
    }
}

/// What `translate` yields: the identity on the left half; on the right
/// half the column is shifted by `COLS_PER_BOARD` and the row is kept.
pub open spec fn spec_translate(board: BoardType, e: Event) -> Event {
    match board {
        BoardType::Left => e,
        BoardType::Right => match e {
            Event::Press(r, c) => Event::Press(r, (c + COLS_PER_BOARD) as u8),
            Event::Release(r, c) => Event::Release(r, (c + COLS_PER_BOARD) as u8),
        },
    }
}

/// Maps an event from a half's local matrix coordinates into the unified
/// coordinate space. Local columns are below `COLS_PER_BOARD`, so the
/// shift applied on the right half cannot overflow.
pub fn translate(board: BoardType, e: Event) -> (t: Event)
    requires
        board == BoardType::Right ==> e.spec_col() < COLS_PER_BOARD,
    ensures
        t == spec_translate(board, e),
{
    match board {
        BoardType::Left => e,
        BoardType::Right => match e {
            Event::Press(r, c) => Event::Press(r, c + COLS_PER_BOARD),
            Event::Release(r, c) => Event::Release(r, c + COLS_PER_BOARD),
        },
    }
}

/// Translation is the identity for the half designated "left".
pub proof fn lemma_translate_left_identity(e: Event)
    ensures
        spec_translate(BoardType::Left, e) == e,
{
}

/// On the half designated "right", translation keeps the row and the
/// press/release tag and increases the column by exactly the per-board
/// column count.
pub proof fn lemma_translate_right_shift(e: Event)
    requires
        e.spec_col() + COLS_PER_BOARD <= u8::MAX,
    ensures
        spec_translate(BoardType::Right, e).spec_row() == e.spec_row(),
        spec_translate(BoardType::Right, e).spec_col() == e.spec_col() + COLS_PER_BOARD,
        spec_translate(BoardType::Right, e).spec_is_press() == e.spec_is_press(),
{
}

} // verus!
