//! A board that a person plays on: what clicks and the bot's moves do, and what is drawn.

use vstd::prelude::*;
use vstd::string::*;
use crate::bb::{start_board, Bitboard};
use crate::text::{decimal, decimal_text, push_right, right_aligned};

verus! {

/// What is drawn at a cell.
#[derive(Copy, Clone, Debug, PartialEq, Eq, Structural)]
pub enum Shape {
    /// Half of the outline of a hexagon.
    Edge,
    /// The outline of a hexagon.
    Cell,
    /// A filled hexagon.
    Piece,
}

/// The color of what is drawn.
#[derive(Copy, Clone, Debug, PartialEq, Eq, Structural)]
pub enum Ink {
    Grid,
    Sente,
    Gote,
}

/// Something to draw.
#[derive(Copy, Clone, Debug, PartialEq, Eq, Structural)]
pub struct Drawing {
    pub shape: Shape,
    pub row: usize,
    pub col: usize,
    pub ink: Ink,
    /// How many sixths of a turn it is turned by.
    pub sixths: i8,
}

/// The color of a player.
pub open spec fn ink_of(sente: bool) -> Ink {
    if sente {
        Ink::Sente
    } else {
        Ink::Gote
    }
}

/// The color of a player.
fn player_ink(sente: bool) -> (ink: Ink)
    ensures
        ink == ink_of(sente),
{
    match sente {
        true => Ink::Sente,
        false => Ink::Gote,
    }
}

/// What is drawn for the first `n` cells: the stone, if there is one, and the outline over it.
pub open spec fn cells_drawn(board: Bitboard, n: nat) -> Seq<Drawing>
    decreases n,
{
    if n == 0 {
        Seq::empty()
    } else {
        let before = cells_drawn(board, (n - 1) as nat);
        let row = ((n - 1) / 11) as usize;
        let col = ((n - 1) % 11) as usize;
        let outline = Drawing { shape: Shape::Cell, row, col, ink: Ink::Grid, sixths: 0 };
        match board.stone(n - 1) {
            Some(sente) => before.push(
                Drawing { shape: Shape::Piece, row, col, ink: ink_of(sente), sixths: 0 },
            ).push(outline),
            None => before.push(outline),
        }
    }
}

/// What is drawn along the left and right edges, for the first `n` rows: they are sente's.
pub open spec fn sides_drawn(n: nat) -> Seq<Drawing>
    decreases n,
{
    if n == 0 {
        Seq::empty()
    } else {
        let row = (n - 1) as usize;
        sides_drawn((n - 1) as nat).push(
            Drawing { shape: Shape::Edge, row, col: 0, ink: Ink::Sente, sixths: (-1) as i8 },
        ).push(Drawing { shape: Shape::Edge, row, col: 10, ink: Ink::Sente, sixths: 2 })
    }
}

/// What is drawn along the top and bottom edges, for the first `n` columns: they are gote's.
pub open spec fn ends_drawn(n: nat) -> Seq<Drawing>
    decreases n,
{
    if n == 0 {
        Seq::empty()
    } else {
        let col = (n - 1) as usize;
        ends_drawn((n - 1) as nat).push(
            Drawing { shape: Shape::Edge, row: 0, col, ink: Ink::Gote, sixths: 1 },
        ).push(Drawing { shape: Shape::Edge, row: 10, col, ink: Ink::Gote, sixths: (-2) as i8 })
    }
}

/// What is drawn at the cell under the cursor: its outline in the color of the player to move.
pub open spec fn cursor_drawn(board: Bitboard, cursor: Option<(usize, usize)>) -> Seq<Drawing> {
    match cursor {
        Some((row, col)) => seq![
            Drawing {
                shape: Shape::Cell,
                row,
                col,
                ink: ink_of(board.black_next()),
                sixths: 0,
            },
        ],
        None => Seq::empty(),
    }
}

/// The cell in this row and column, if there is one.
pub fn cell_at(row: isize, col: isize) -> (cell: Option<(usize, usize)>)
    ensures
        cell is Some <==> 0 <= row < 11 && 0 <= col < 11,
        cell matches Some((r, c)) ==> r == row && c == col,
{
    match 0 <= row && row < 11 && 0 <= col && col < 11 {
        true => Some((row as usize, col as usize)),
        false => None,
    }
}

/// What is to be done after an update.
#[derive(Copy, Clone, Debug)]
pub struct Update {
    /// Let the bot think about this board, after so many moves.
    pub think: Option<(Bitboard, usize)>,
    /// Show this board: the game is over.
    pub finished: Option<Bitboard>,
    /// Tell the bot to stop thinking.
    pub abort: bool,
}

/// The board, whether the bot is thinking about it, and where the cursor is and was pressed.
#[derive(Copy, Clone, Debug)]
pub struct MainState {
    pub thinking: bool,
    pub cursor: Option<(usize, usize)>,
    pub cursor_down: Option<(usize, usize)>,
    pub turn: usize,
    pub board: Bitboard,
}

/// Whether the place is a cell.
pub open spec fn on_board(cell: Option<(usize, usize)>) -> bool {
    cell matches Some((r, c)) ==> r < 11 && c < 11
}

impl MainState {
    /// A game that has not begun.
    pub fn new() -> (state: MainState)
        ensures
            state == (MainState {
                thinking: false,
                cursor: None,
                cursor_down: None,
                turn: 0,
                board: start_board(),
            }),
    {
        MainState {
            thinking: false,
            cursor: None,
            cursor_down: None,
            turn: 0,
            board: Bitboard::new(),
        }
    }

    /// The board after the bot's move, if it was thinking and has made one.
    pub open spec fn board_after(self, result: Option<Bitboard>) -> Bitboard {
        match result {
            Some(next) if self.thinking => next,
            _ => self.board,
        }
    }

    /// Take in the bot's move, if it has made one. The bot thinks whenever it is gote's turn. Once
    /// the game is over, another one begins.
    pub fn update(&mut self, result: Option<Bitboard>) -> (update: Update)
        requires
            old(self).turn < usize::MAX,
        ensures
            ({
                let board = old(self).board_after(result);
                let moved = old(self).thinking && result is Some;
                let starts = !old(self).thinking && !board.black_next() && board.winner() is None;
                let over = board.winner() is Some;
                &&& final(self).cursor == old(self).cursor
                &&& final(self).cursor_down == old(self).cursor_down
                &&& final(self).board == if over {
                    start_board()
                } else {
                    board
                }
                &&& final(self).turn == if over {
                    0
                } else if moved {
                    old(self).turn + 1
                } else {
                    old(self).turn as int
                }
                &&& final(self).thinking == (!over && (starts || (old(self).thinking && !moved)))
                &&& update.think == (if starts {
                    Some((board, old(self).turn))
                } else {
                    None
                })
                &&& update.finished == (if over {
                    Some(board)
                } else {
                    None
                })
                &&& update.abort == (over && old(self).thinking && !moved)
            }),
    {
        let mut update = Update { think: None, finished: None, abort: false };
        if self.thinking {
            if let Some(next) = result {
                self.board = next;
                self.turn = self.turn + 1;
                self.thinking = false;
            }
        } else if !self.board.sente() && self.board.win().is_none() {
            update.think = Some((self.board, self.turn));
            self.thinking = true;
        }
        if self.board.win().is_some() {
            update.finished = Some(self.board);
            self.board = Bitboard::new();
            self.turn = 0;
            update.abort = self.thinking;
            self.thinking = false;
        }
        update
    }

    /// What is said of the bot: what it says itself while it is thinking.
    pub fn bot_message(&self, message: Option<&str>) -> (text: String)
        ensures
            text@ == (if !self.thinking {
                "Idle"@
            } else {
                match message {
                    Some(message) => message@,
                    None => "Thinking..."@,
                }
            }),
    {
        if self.thinking {
            match message {
                Some(message) => message.to_owned(),
                None => "Thinking...".to_owned(),
            }
        } else {
            "Idle".to_owned()
        }
    }

    /// The line below the board.
    pub fn status_line(&self, bot_message: &str) -> (text: String)
        ensures
            text@ == "TURN:"@ + right_aligned(decimal(self.turn as nat), ' ', 3) + " BOT:"@
                + bot_message@,
    {
        let mut text = String::new();
        text.append("TURN:");
        let turn = decimal_text(self.turn as u64);
        push_right(&mut text, turn.as_str(), ' ', 3);
        text.append(" BOT:");
        text.append(bot_message);
        text
    }

    /// The mouse button went down over a cell, or beside the board.
    pub fn mouse_down(&mut self, cell: Option<(usize, usize)>)
        ensures
            *final(self) == (MainState { cursor_down: cell, ..*old(self) }),
    {
        self.cursor_down = cell;
    }

    /// The mouse button went up. Where it went down over the same cell, and that is empty, the
    /// player to move moves there.
    pub fn mouse_up(&mut self, cell: Option<(usize, usize)>)
        requires
            old(self).turn < usize::MAX,
            on_board(cell),
        ensures
            *final(self) == (match cell {
                Some((r, c)) if cell == old(self).cursor_down && old(self).board.stone(
                    11 * r + c,
                ) is None => MainState {
                    board: old(self).board.played(11 * r + c),
                    turn: (old(self).turn + 1) as usize,
                    ..*old(self)
                },
                _ => *old(self),
            }),
    {
        if let Some((r, c)) = cell {
            if let Some((r0, c0)) = self.cursor_down {
                if r == r0 && c == c0 && self.board.rc(r, c).is_none() {
                    self.board = self.board.with_move(r, c);
                    self.turn = self.turn + 1;
                }
            }
        }
    }

    /// The mouse is over a cell, or beside the board.
    pub fn mouse_motion(&mut self, cell: Option<(usize, usize)>)
        ensures
            *final(self) == (MainState { cursor: cell, ..*old(self) }),
    {
        self.cursor = cell;
    }

    /// What is drawn, in this order: the cells, the edges of the board in the colors of the
    /// players whose they are, and the cell under the cursor.
    pub fn draw(&self) -> (drawings: Vec<Drawing>)
        ensures
            drawings@ == cells_drawn(self.board, 121) + sides_drawn(11) + ends_drawn(11)
                + cursor_drawn(self.board, self.cursor),
    {
        let mut out: Vec<Drawing> = Vec::new();
        let mut n: usize = 0;
        while n < 121
            invariant
                n <= 121,
                out@ == cells_drawn(self.board, n as nat),
            decreases 121 - n,
        {
            let row: usize = n / 11;
            let col: usize = n % 11;
            if let Some(sente) = self.board.rc(row, col) {
                out.push(
                    Drawing { shape: Shape::Piece, row, col, ink: player_ink(sente), sixths: 0 },
                );
            }
            out.push(Drawing { shape: Shape::Cell, row, col, ink: Ink::Grid, sixths: 0 });
            n = n + 1;
        }
        let ghost cells = out@;
        let mut row: usize = 0;
        while row < 11
            invariant
                row <= 11,
                out@ == cells + sides_drawn(row as nat),
            decreases 11 - row,
        {
            out.push(Drawing { shape: Shape::Edge, row, col: 0, ink: Ink::Sente, sixths: -1 });
            out.push(Drawing { shape: Shape::Edge, row, col: 10, ink: Ink::Sente, sixths: 2 });
            assert(out@ =~= cells + sides_drawn((row + 1) as nat));
            row = row + 1;
        }
        let ghost sides = out@;
        let mut col: usize = 0;
        while col < 11
            invariant
                col <= 11,
                out@ == sides + ends_drawn(col as nat),
            decreases 11 - col,
        {
            out.push(Drawing { shape: Shape::Edge, row: 0, col, ink: Ink::Gote, sixths: 1 });
            out.push(Drawing { shape: Shape::Edge, row: 10, col, ink: Ink::Gote, sixths: -2 });
            assert(out@ =~= sides + ends_drawn((col + 1) as nat));
            col = col + 1;
        }
        if let Some((row, col)) = self.cursor {
            let ink = player_ink(self.board.sente());
            out.push(Drawing { shape: Shape::Cell, row, col, ink, sixths: 0 });
        }
        assert(out@ =~= cells_drawn(self.board, 121) + sides_drawn(11) + ends_drawn(11)
            + cursor_drawn(self.board, self.cursor));
        out
    }
}

} // verus!
