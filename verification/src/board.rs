//! The grid, its cells, and the two sides.

use vstd::prelude::*;

verus! {

/// Number of ranks of the grid.
pub const ROWS: usize = 4;

/// Number of files of the grid.
pub const COLUMNS: usize = 4;

/// What stands on a cell.
#[derive(Clone, Copy, PartialEq, Eq, Structural, Debug)]
pub enum Cell {
    Empty,
    BlackPawn,
    WhitePawn,
}

/// White pawns move towards rank 0, black pawns towards the last rank.
#[derive(Clone, Copy, PartialEq, Eq, Structural, Debug)]
pub enum Side {
    White,
    Black,
}

impl Side {
    /// The opposing side.
    pub open spec fn other(self) -> Side {
        match self {
            Side::White => Side::Black,
            Side::Black => Side::White,
        }
    }

    /// The pawn that this side moves.
    pub open spec fn pawn(self) -> Cell {
        match self {
            Side::White => Cell::WhitePawn,
            Side::Black => Cell::BlackPawn,
        }
    }

    /// The rank on which this side's pawns start.
    pub open spec fn home_row(self) -> int {
        match self {
            Side::White => ROWS - 1,
            Side::Black => 0,
        }
    }

    /// The rank that a pawn of this side on rank `row` moves to.
    pub open spec fn ahead(self, row: int) -> int {
        match self {
            Side::White => row - 1,
            Side::Black => row + 1,
        }
    }

    /// The side that moves next.
    pub fn switch(self) -> (opponent: Self)
        ensures
            opponent == self.other(),
    {
        match self {
            Side::White => Side::Black,
            Side::Black => Side::White,
        }
    }
}

/// The mathematical model of a board: `ROWS` rows of `COLUMNS` cells.
pub type Grid = Seq<Seq<Cell>>;

/// A grid has the dimensions of the board.
pub open spec fn grid_wf(g: Grid) -> bool {
    &&& g.len() == ROWS
    &&& forall|r: int| 0 <= r < ROWS ==> (#[trigger] g[r]).len() == COLUMNS
}

/// The starting layout: black pawns fill rank 0, white pawns the last rank.
pub open spec fn initial_grid() -> Grid {
    Seq::new(
        ROWS as nat,
        |r: int|
            Seq::new(
                COLUMNS as nat,
                |c: int|
                    if r == 0 {
                        Cell::BlackPawn
                    } else if r == ROWS - 1 {
                        Cell::WhitePawn
                    } else {
                        Cell::Empty
                    },
            ),
    )
}

/// The grid with the cell at (`row`, `column`) replaced.
pub open spec fn placed(g: Grid, row: int, column: int, cell: Cell) -> Grid {
    g.update(row, g[row].update(column, cell))
}

/// An opposing pawn stands on the home rank of `side`.
pub open spec fn breached(g: Grid, side: Side) -> bool {
    exists|c: int| 0 <= c < COLUMNS && #[trigger] g[side.home_row()][c] == side.other().pawn()
}

/// A position: `ROWS` ranks of `COLUMNS` cells, rank 0 first. A board is a
/// plain value; copies are independent.
#[derive(Clone, Copy, PartialEq, Eq, Debug)]
pub struct Board(pub [[Cell; COLUMNS]; ROWS]);

impl View for Board {
    type V = Grid;

    open spec fn view(&self) -> Grid {
        Seq::new(ROWS as nat, |r: int| self.0[r]@)
    }
}

impl Board {
    /// The model of a board has the dimensions of the board.
    pub proof fn lemma_view_wf(self)
        ensures
            grid_wf(self@),
    {
    }

    /// Boards are equal if all their cells are: the model says everything
    /// about a board.
    pub proof fn lemma_view_determines_board(self, other: Board)
        requires
            self@ == other@,
        ensures
            self == other,
    {
        assert forall|r: int| 0 <= r < ROWS implies self.0[r] == other.0[r] by {
            assert(self@[r] == other@[r]);
            assert(self.0[r]@ == other.0[r]@);
            assert(self.0[r] =~= other.0[r]);
        }
        assert(self.0 =~= other.0);
    }

    /// The board at the start of a game.
    pub fn new_initial_board() -> (board: Self)
        ensures
            board@ == initial_grid(),
    {
        let mut cells: [[Cell; COLUMNS]; ROWS] = [[Cell::Empty; COLUMNS]; ROWS];
        let mut c: usize = 0;
        while c < COLUMNS
            invariant
                c <= COLUMNS,
                forall|r: int, k: int|
                    0 <= r < ROWS && 0 <= k < COLUMNS ==> #[trigger] cells[r][k] == if k >= c {
                        Cell::Empty
                    } else {
                        initial_grid()[r][k]
                    },
            decreases COLUMNS - c,
        {
            cells[0][c] = Cell::BlackPawn;
            cells[ROWS - 1][c] = Cell::WhitePawn;
            c += 1;
        }
        let board = Board(cells);
        assert(board@ =~~= initial_grid());
        board
    }

    /// The cell on (`row`, `column`).
    pub fn get_cell(&self, row: usize, column: usize) -> (cell: Cell)
        requires
            row < ROWS,
            column < COLUMNS,
        ensures
            cell == self@[row as int][column as int],
    {
        self.0[row][column]
    }

    /// Puts `cell_type` on (`row`, `column`).
    pub fn set_cell(&mut self, row: usize, column: usize, cell_type: Cell)
        requires
            row < ROWS,
            column < COLUMNS,
        ensures
            final(self)@ == placed(old(self)@, row as int, column as int, cell_type),
    {
        self.0[row][column] = cell_type;
        assert(self@ =~~= placed(old(self)@, row as int, column as int, cell_type));
    }

    /// Whether a pawn of the other side stands on the home rank of `side`.
    pub fn opponent_pawn_on_last_line(&self, side: Side) -> (found: bool)
        ensures
            found == breached(self@, side),
    {
        let row: usize = match side {
            Side::White => ROWS - 1,
            Side::Black => 0,
        };
        let intruder: Cell = match side {
            Side::White => Cell::BlackPawn,
            Side::Black => Cell::WhitePawn,
        };
        let mut c: usize = 0;
        while c < COLUMNS
            invariant
                c <= COLUMNS,
                row == side.home_row(),
                intruder == side.other().pawn(),
                forall|k: int| 0 <= k < c ==> #[trigger] self@[row as int][k] != intruder,
            decreases COLUMNS - c,
        {
            if self.0[row][c] == intruder {
                return true;
            }
            c += 1;
        }
        false
    }
}

} // verus!
