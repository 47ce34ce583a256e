//! The connect-four board: a grid of spots, gravity drops, and the scoring
//! rules that the minimax player evaluates positions with.

use vstd::prelude::*;

verus! {

/// A board position: row from the bottom, column from the left.
#[derive(Debug, Clone, Copy, PartialEq, Eq, Structural)]
pub struct Vec2 {
    pub row: isize,
    pub col: isize,
}

/// An inclusive rectangle of board positions.
#[derive(Debug, Clone, Copy, PartialEq, Eq, Structural)]
pub struct Area {
    pub min: Vec2,
    pub max: Vec2,
}

/// One cell of the board: empty, or holding one player's piece.
#[derive(Clone, Copy, PartialEq, Eq, Structural, Debug)]
pub enum Spot {
    Empty,
    O,
    X,
}

impl Default for Spot {
    /// A fresh cell is empty.
    fn default() -> (r: Spot)
        ensures
            r == Spot::Empty,
    {
        Spot::Empty
    }
}

/// A rectangular grid of copyable cells, indexed row first.
pub struct Grid<T: Clone + Copy + Default> {
    pub dim: Vec2,
    pub grid: Vec<Vec<T>>,
}

impl<T: Clone + Copy + Default> Grid<T> {
    /// Well-formed: the cell rows match the stated dimensions.
    pub open spec fn wf(self) -> bool {
        &&& self.dim.row >= 1 && self.dim.col >= 1
        &&& self.grid@.len() == self.dim.row
        &&& forall|r: int| 0 <= r < self.dim.row ==> (#[trigger] self.grid@[r])@.len()
            == self.dim.col
    }

    /// The cell at a position; positions off the grid hold nothing.
    pub open spec fn at_spec(self, loc: Vec2) -> Option<T> {
        if 0 <= loc.row < self.dim.row && 0 <= loc.col < self.dim.col {
            Some(self.grid@[loc.row as int]@[loc.col as int])
        } else {
            None
        }
    }

    /// A grid of the given dimensions with every cell set to `fill`; nothing
    /// when a dimension is not positive.
    pub fn new_filled(dim: &Vec2, fill: T) -> (r: Option<Grid<T>>)
        ensures
            r is Some <==> dim.row >= 1 && dim.col >= 1,
            r matches Some(g) ==> {
                &&& g.wf()
                &&& g.dim == *dim
                &&& forall|i: int, j: int|
                    #![trigger g.grid@[i]@[j]]
                    0 <= i < dim.row && 0 <= j < dim.col ==> g.grid@[i]@[j] == fill
            },
    {
        if dim.row >= 1 && dim.col >= 1 {
            let rows: usize = dim.row as usize;
            let cols: usize = dim.col as usize;
            let mut grid: Vec<Vec<T>> = Vec::new();
            let mut i: usize = 0;
            while i < rows
                invariant
                    i <= rows,
                    grid@.len() == i,
                    forall|a: int| 0 <= a < i ==> (#[trigger] grid@[a])@.len() == cols,
                    forall|a: int, b: int|
                        #![trigger grid@[a]@[b]]
                        0 <= a < i && 0 <= b < cols ==> grid@[a]@[b] == fill,
                decreases rows - i,
            {
                let mut row: Vec<T> = Vec::new();
                let mut j: usize = 0;
                while j < cols
                    invariant
                        j <= cols,
                        row@.len() == j,
                        forall|b: int| 0 <= b < j ==> row@[b] == fill,
                    decreases cols - j,
                {
                    row.push(fill);
                    j += 1;
                }
                grid.push(row);
                i += 1;
            }
            Some(Grid { dim: *dim, grid })
        } else {
            None
        }
    }

    /// A grid of the given dimensions with every cell set to the default
    /// value of the cell type; nothing when a dimension is not positive.
    pub fn new(dim: &Vec2) -> (r: Option<Grid<T>>)
        ensures
            r is Some <==> dim.row >= 1 && dim.col >= 1,
            r matches Some(g) ==> {
                &&& g.wf()
                &&& g.dim == *dim
                &&& forall|i: int, j: int, i2: int, j2: int|
                    #![trigger g.grid@[i]@[j], g.grid@[i2]@[j2]]
                    0 <= i < dim.row && 0 <= j < dim.col && 0 <= i2 < dim.row && 0 <= j2 < dim.col
                        ==> g.grid@[i]@[j] == g.grid@[i2]@[j2]
            },
    {
        let fill = T::default();
        Self::new_filled(dim, fill)
    }

    /// Read the cell at a position, if it is on the grid.
    pub fn at(&self, loc: &Vec2) -> (r: Option<T>)
        requires
            self.wf(),
        ensures
            r == self.at_spec(*loc),
    {
        if loc.row >= 0 && loc.col >= 0 && loc.row < self.dim.row && loc.col < self.dim.col {
            return Some(self.grid[loc.row as usize][loc.col as usize]);
        }
        None
    }

    /// Overwrite the cell at a position. On the grid, the cell is replaced
    /// and true comes back; off it, nothing changes and false comes back.
    pub fn at_mut(&mut self, loc: &Vec2, value: T) -> (r: bool)
        requires
            old(self).wf(),
        ensures
            final(self).wf(),
            final(self).dim == old(self).dim,
            r == (0 <= loc.row < old(self).dim.row && 0 <= loc.col < old(self).dim.col),
            final(self).grid@.len() == old(self).grid@.len(),
            r ==> {
                &&& forall|a: int|
                    0 <= a < old(self).grid@.len() && a != loc.row ==> final(self).grid@[a] == old(
                        self,
                    ).grid@[a]
                &&& final(self).grid@[loc.row as int]@ =~= old(self).grid@[loc.row as int]@.update(
                    loc.col as int,
                    value,
                )
            },
            !r ==> final(self).grid@ == old(self).grid@,
    {
        if loc.row >= 0 && loc.col >= 0 && loc.row < self.dim.row && loc.col < self.dim.col {
            let row = &mut self.grid[loc.row as usize];
            row.set(loc.col as usize, value);
            return true;
        }
        false
    }
}

/// Which way a window of four cells runs.
#[derive(Debug, Clone, Copy, PartialEq, Eq, Structural)]
pub enum CheckDir {
    N,
    E,
    NE,
    SE,
}

/// How a position stands: still in play with a heuristic value, or won.
#[derive(Debug, PartialEq, Eq, Structural, Clone, Copy)]
pub enum Score {
    InProgress(isize),
    O,
    X,
}

impl Score {
    /// Whether a winning score belongs to the given player's piece.
    pub open spec fn matches_spot_spec(self, s: Spot) -> bool {
        match self {
            Score::InProgress(_) => s == Spot::Empty,
            Score::O => s == Spot::O,
            Score::X => s == Spot::X,
        }
    }

    /// Whether this score stands for the given spot: a win for the piece
    /// that won it, an in-progress score for the empty spot.
    pub fn matches_spot(&self, s: Spot) -> (r: bool)
        ensures
            r == self.matches_spot_spec(s),
    {
        match self {
            Score::InProgress(_) => s == Spot::Empty,
            Score::O => s == Spot::O,
            Score::X => s == Spot::X,
        }
    }
}

/// The heuristic value of one window of four cells, read in order. `line`
/// holds the four cells, `under` whether each cell rests on support, and
/// `spot` whose point of view is scored: patterns of the scored player count
/// positively, the opponent's negatively. Four in a row is an outright win.
#[verifier::opaque]
pub open spec fn score_line_spec(line: Seq<Spot>, under: Seq<bool>, spot: Spot) -> Score {
    let a = line[0];
    let b = line[1];
    let c = line[2];
    let d = line[3];
    if a == Spot::O && a == b && b == c && c == d {
        Score::O
    } else if a == Spot::X && a == b && b == c && c == d {
        Score::X
    } else if a != Spot::Empty && a == b && b == c && c != d && d == Spot::Empty && under[3] {
        Score::InProgress((16 * sign(a, spot)) as isize)
    } else if a != Spot::Empty && a == b && c == Spot::Empty && c == d && under[2] && under[3] {
        Score::InProgress((8 * sign(a, spot)) as isize)
    } else if a != Spot::Empty && a == b && c == Spot::Empty && a == d && under[2] {
        Score::InProgress((16 * sign(a, spot)) as isize)
    } else if a != Spot::Empty && a == b && c == Spot::Empty && a != d && under[2] {
        Score::InProgress((4 * sign(a, spot)) as isize)
    } else if a == Spot::Empty && b != Spot::Empty && b == c && d == Spot::Empty && under[0]
        && under[3] {
        Score::InProgress((4 * sign(b, spot)) as isize)
    } else if b != Spot::Empty && b == c && (a == Spot::Empty && under[0] && d != b) && (d
        == Spot::Empty && under[3] && a != b) {
        Score::InProgress((2 * sign(b, spot)) as isize)
    } else if a != Spot::Empty && b == Spot::Empty && b == c && c == d && under[1] && under[2]
        && under[3] {
        Score::InProgress((4 * sign(a, spot)) as isize)
    } else if a != Spot::Empty && b == Spot::Empty && b == c && a == d && under[1] && under[2] {
        Score::InProgress((4 * sign(a, spot)) as isize)
    } else if a != Spot::Empty && b == Spot::Empty && c == Spot::Empty && under[1] && under[2] {
        Score::InProgress((2 * sign(a, spot)) as isize)
    } else {
        Score::InProgress(0)
    }
}

/// Plus one for the scored player's own piece, minus one for the opponent's.
pub open spec fn sign(s: Spot, spot: Spot) -> isize {
    if s == spot {
        1isize
    } else {
        -1isize
    }
}

/// The board a game is played on.
pub struct GameBoard {
    pub grid: Grid<Spot>,
}

/// Where a drop lands never leaves the column: between the floor and `from`.
pub proof fn lemma_top_filled_range(g: GameBoard, col: int, from: int)
    requires
        from >= -1,
    ensures
        -1 <= g.top_filled(col, from) <= from,
    decreases from + 1,
{
    if from >= 0 {
        lemma_top_filled_range(g, col, from - 1);
    }
}

/// Two boards with equal cells agree on where a dropped piece lands.
pub proof fn lemma_top_filled_congruent(a: GameBoard, b: GameBoard, col: int, from: int)
    requires
        a.grid.dim == b.grid.dim,
        forall|r: int, c: int|
            0 <= r < a.rows() && 0 <= c < a.cols() ==> a.cell(r, c) == #[trigger] b.cell(r, c),
        0 <= col < a.cols(),
        from < a.rows(),
    ensures
        a.top_filled(col, from) == b.top_filled(col, from),
    decreases from + 1,
{
    if from >= 0 {
        lemma_top_filled_congruent(a, b, col, from - 1);
    }
}

impl GameBoard {
    /// Well-formed: the grid is, and the board is at least four by four, so
    /// that every window of four fits.
    pub open spec fn wf(self) -> bool {
        &&& self.grid.wf()
        &&& self.grid.dim.row >= 4 && self.grid.dim.col >= 4
    }

    /// The cell at a row and column known to be on the board.
    pub open spec fn cell(self, r: int, c: int) -> Spot {
        self.grid.grid@[r]@[c]
    }

    /// The number of rows.
    pub open spec fn rows(self) -> int {
        self.grid.dim.row as int
    }

    /// The number of columns.
    pub open spec fn cols(self) -> int {
        self.grid.dim.col as int
    }

    /// A fresh board of the given dimensions, every cell empty. The board
    /// must have more than three rows and more than three columns.
    pub fn new(dim: &Vec2) -> (r: GameBoard)
        requires
            dim.row > 3,
            dim.col > 3,
        ensures
            r.wf(),
            r.grid.dim == *dim,
            forall|i: int, j: int|
                0 <= i < dim.row && 0 <= j < dim.col ==> r.cell(i, j) == Spot::Empty,
    {
        let grid = match Grid::<Spot>::new_filled(dim, Spot::Empty) {
            Some(g) => g,
            None => {
                proof {
                    assert(false);
                }
                vstd::pervasive::unreached()
            },
        };
        GameBoard { grid }
    }

    /// Whether any column still has room: some cell of the top row is empty.
    pub fn open_spot(&self) -> (r: bool)
        requires
            self.wf(),
        ensures
            r == exists|c: int|
                0 <= c < self.cols() && #[trigger] self.cell(self.rows() - 1, c) == Spot::Empty,
    {
        let top: usize = (self.grid.dim.row - 1) as usize;
        let cols: usize = self.grid.dim.col as usize;
        let mut c: usize = 0;
        while c < cols
            invariant
                self.wf(),
                top == self.rows() - 1,
                cols == self.cols(),
                c <= cols,
                forall|b: int| 0 <= b < c ==> self.cell(top as int, b) != Spot::Empty,
            decreases cols - c,
        {
            let s = self.grid.grid[top][c];
            if s == Spot::Empty {
                proof {
                    assert(self.cell(self.rows() - 1, c as int) == Spot::Empty);
                }
                return true;
            }
            c += 1;
        }
        false
    }

    /// The highest filled row of a column, looking downward from `from`;
    /// minus one when the column is empty down from there.
    pub open spec fn top_filled(self, col: int, from: int) -> int
        decreases from + 1,
    {
        if from < 0 {
            -1
        } else if self.cell(from, col) != Spot::Empty {
            from
        } else {
            self.top_filled(col, from - 1)
        }
    }

    /// Drop a piece into a column: it comes to rest one row above the
    /// column's highest filled cell. True when the piece was placed; false,
    /// with the board unchanged, when the column is full or not on the board.
    pub fn drop_piece(&mut self, spot: Spot, col: isize) -> (r: bool)
        requires
            old(self).wf(),
            spot != Spot::Empty,
        ensures
            final(self).wf(),
            final(self).grid.dim == old(self).grid.dim,
            !(0 <= col < old(self).cols()) ==> !r && final(self).grid.grid@ == old(
                self,
            ).grid.grid@,
            0 <= col < old(self).cols() ==> {
                let land = old(self).top_filled(col as int, old(self).rows() - 1) + 1;
                &&& r == (land < old(self).rows())
                &&& r ==> {
                    &&& forall|a: int|
                        0 <= a < old(self).rows() && a != land ==> final(self).grid.grid@[a] == old(
                            self,
                        ).grid.grid@[a]
                    &&& final(self).grid.grid@[land]@ =~= old(self).grid.grid@[land]@.update(
                        col as int,
                        spot,
                    )
                }
                &&& !r ==> final(self).grid.grid@ == old(self).grid.grid@
            },
    {
        let mut row: isize = self.grid.dim.row - 1;
        let ghost top = self.rows() - 1;
        let mut stop = false;
        while !stop
            invariant
                self.wf(),
                self == old(self),
                -1 <= row <= self.rows() - 1,
                !stop ==> self.top_filled(col as int, top) == self.top_filled(col as int, row as int),
                !stop ==> forall|a: int|
                    row < a < self.rows() && 0 <= col < self.cols() ==> self.cell(a, col as int)
                        == Spot::Empty,
                stop ==> row as int == self.top_filled(col as int, top) || !(0 <= col
                    < self.cols()),
                !(0 <= col < self.cols()) ==> row as int == top,
                stop && !(0 <= col < self.cols()) ==> row as int == top,
            decreases (if stop {
                0int
            } else {
                1int
            }), row + 1,
        {
            let loc = Vec2 { row, col };
            match self.grid.at(&loc) {
                Some(s) => {
                    if s == Spot::Empty {
                        row -= 1;
                    } else {
                        stop = true;
                    }
                },
                None => {
                    stop = true;
                    proof {
                        if 0 <= col < self.cols() {
                            assert(row == -1);
                        }
                    }
                },
            }
        }
        row += 1;
        let loc = Vec2 { row, col };
        self.grid.at_mut(&loc, spot)
    }

    /// Drop a piece on a copy of the board, leaving this board unchanged:
    /// the new board when the drop lands, nothing when it cannot.
    pub fn drop_piece_new_board(&self, spot: Spot, col: isize) -> (r: Option<Box<GameBoard>>)
        requires
            self.wf(),
            spot != Spot::Empty,
        ensures
            r is Some <==> (0 <= col < self.cols() && self.top_filled(col as int, self.rows() - 1)
                + 1 < self.rows()),
            r matches Some(b) ==> {
                let land = self.top_filled(col as int, self.rows() - 1) + 1;
                &&& b.wf()
                &&& b.grid.dim == self.grid.dim
                &&& forall|a: int|
                    0 <= a < self.rows() && a != land ==> (#[trigger] b.grid.grid@[a])@
                        =~= self.grid.grid@[a]@
                &&& b.grid.grid@[land]@ =~= self.grid.grid@[land]@.update(col as int, spot)
            },
    {
        let copy = self.copy_board();
        proof {
            assert forall|r: int, c: int|
                0 <= r < self.rows() && 0 <= c < self.cols() implies self.cell(r, c)
                == #[trigger] copy.cell(r, c) by {
                assert(copy.grid.grid@[r]@ =~= self.grid.grid@[r]@);
            }
            if 0 <= col < self.cols() {
                lemma_top_filled_congruent(*self, copy, col as int, self.rows() - 1);
            }
        }
        let mut gb = Box::new(copy);
        let ok = gb.drop_piece(spot, col);
        if ok {
            proof {
                lemma_top_filled_range(*self, col as int, self.rows() - 1);
                let land = self.top_filled(col as int, self.rows() - 1) + 1;
                assert(copy.grid.grid@[land]@ =~= self.grid.grid@[land]@);
                assert(gb.grid.grid@[land]@ =~= self.grid.grid@[land]@.update(col as int, spot));
                assert forall|a: int|
                    0 <= a < self.rows() && a != land implies (#[trigger] gb.grid.grid@[a])@
                    =~= self.grid.grid@[a]@ by {
                    assert(gb.grid.grid@[a] == copy.grid.grid@[a]);
                    assert(copy.grid.grid@[a]@ =~= self.grid.grid@[a]@);
                }
            }
            Some(gb)
        } else {
            None
        }
    }

    /// An explicit cell-by-cell copy of the board.
    fn copy_board(&self) -> (r: GameBoard)
        requires
            self.wf(),
        ensures
            r.wf(),
            r.grid.dim == self.grid.dim,
            forall|a: int| 0 <= a < self.rows() ==> r.grid.grid@[a]@ =~= self.grid.grid@[a]@,
    {
        let rows: usize = self.grid.dim.row as usize;
        let mut grid: Vec<Vec<Spot>> = Vec::new();
        let mut i: usize = 0;
        while i < rows
            invariant
                self.wf(),
                rows == self.rows(),
                i <= rows,
                grid@.len() == i,
                forall|a: int| 0 <= a < i ==> (#[trigger] grid@[a])@ =~= self.grid.grid@[a]@,
            decreases rows - i,
        {
            let src = &self.grid.grid[i];
            let mut row: Vec<Spot> = Vec::new();
            let mut j: usize = 0;
            while j < src.len()
                invariant
                    j <= src@.len(),
                    row@.len() == j,
                    forall|b: int| 0 <= b < j ==> row@[b] == src@[b],
                decreases src@.len() - j,
            {
                row.push(src[j]);
                j += 1;
            }
            proof {
                assert(row@ =~= src@);
            }
            grid.push(row);
            i += 1;
        }
        GameBoard { grid: Grid { dim: self.grid.dim, grid } }
    }

    /// Score one window of four cells read forward and backward, as the
    /// scoring rules describe, summing the two readings while the game is in
    /// progress and reporting a win outright.
    pub fn score_line(&self, line: &[Spot], under: &[bool], spot: &Spot) -> (r: Score)
        requires
            line@.len() == 4,
            under@.len() == 4,
        ensures
            r == score_line_spec(line@, under@, *spot),
    {
        proof {
            reveal(score_line_spec);
        }
        let a = line[0];
        let b = line[1];
        let c = line[2];
        let d = line[3];
        if a == Spot::O && a == b && b == c && c == d {
            Score::O
        } else if a == Spot::X && a == b && b == c && c == d {
            Score::X
        } else if a != Spot::Empty && a == b && b == c && c != d && d == Spot::Empty && under[3] {
            Score::InProgress(16 * Self::sign_of(a, *spot))
        } else if a != Spot::Empty && a == b && c == Spot::Empty && c == d && under[2]
            && under[3] {
            Score::InProgress(8 * Self::sign_of(a, *spot))
        } else if a != Spot::Empty && a == b && c == Spot::Empty && a == d && under[2] {
            Score::InProgress(16 * Self::sign_of(a, *spot))
        } else if a != Spot::Empty && a == b && c == Spot::Empty && a != d && under[2] {
            Score::InProgress(4 * Self::sign_of(a, *spot))
        } else if a == Spot::Empty && b != Spot::Empty && b == c && d == Spot::Empty && under[0]
            && under[3] {
            Score::InProgress(4 * Self::sign_of(b, *spot))
        } else if b != Spot::Empty && b == c && (a == Spot::Empty && under[0] && d != b) && (d
            == Spot::Empty && under[3] && a != b) {
            Score::InProgress(2 * Self::sign_of(b, *spot))
        } else if a != Spot::Empty && b == Spot::Empty && b == c && c == d && under[1] && under[2]
            && under[3] {
            Score::InProgress(4 * Self::sign_of(a, *spot))
        } else if a != Spot::Empty && b == Spot::Empty && b == c && a == d && under[1]
            && under[2] {
            Score::InProgress(4 * Self::sign_of(a, *spot))
        } else if a != Spot::Empty && b == Spot::Empty && c == Spot::Empty && under[1]
            && under[2] {
            Score::InProgress(2 * Self::sign_of(a, *spot))
        } else {
            Score::InProgress(0)
        }
    }

    /// Plus one for the scored player's piece, minus one for the opponent's.
    fn sign_of(s: Spot, spot: Spot) -> (r: isize)
        ensures
            r == sign(s, spot),
    {
        if s == spot {
            1
        } else {
            -1
        }
    }

    /// Whether a cell gives support to the cell above it: any cell off the
    /// board or filled does; an empty cell on the board does not.
    pub open spec fn under_cell(self, r: int, c: int) -> bool {
        !(0 <= r < self.rows() && 0 <= c < self.cols() && self.cell(r, c) == Spot::Empty)
    }

    /// The window of four cells at `loc` running in direction `dir` fits on
    /// the board.
    pub open spec fn window_ok(self, r: int, c: int, dir: CheckDir) -> bool {
        match dir {
            CheckDir::N => 0 <= r && r + 3 < self.rows() && 0 <= c < self.cols(),
            CheckDir::E => 0 <= r < self.rows() && 0 <= c && c + 3 < self.cols(),
            CheckDir::NE => 0 <= r && r + 3 < self.rows() && 0 <= c && c + 3 < self.cols(),
            CheckDir::SE => 3 <= r < self.rows() && 0 <= c && c + 3 < self.cols(),
        }
    }

    /// The four cells of the window at `loc` running in direction `dir`.
    pub open spec fn line_spec(self, r: int, c: int, dir: CheckDir) -> Seq<Spot> {
        match dir {
            CheckDir::N => seq![
                self.cell(r, c),
                self.cell(r + 1, c),
                self.cell(r + 2, c),
                self.cell(r + 3, c),
            ],
            CheckDir::E => seq![
                self.cell(r, c),
                self.cell(r, c + 1),
                self.cell(r, c + 2),
                self.cell(r, c + 3),
            ],
            CheckDir::NE => seq![
                self.cell(r, c),
                self.cell(r + 1, c + 1),
                self.cell(r + 2, c + 2),
                self.cell(r + 3, c + 3),
            ],
            CheckDir::SE => seq![
                self.cell(r, c),
                self.cell(r - 1, c + 1),
                self.cell(r - 2, c + 2),
                self.cell(r - 3, c + 3),
            ],
        }
    }

    /// Which cells of the window rest on support. Upward windows are always
    /// supported; the others look at the cell below each window cell.
    pub open spec fn under_spec(self, r: int, c: int, dir: CheckDir) -> Seq<bool> {
        match dir {
            CheckDir::N => seq![true, true, true, true],
            CheckDir::E => seq![
                self.under_cell(r - 1, c),
                self.under_cell(r - 1, c + 1),
                self.under_cell(r - 1, c + 2),
                self.under_cell(r - 1, c + 3),
            ],
            CheckDir::NE => seq![
                self.under_cell(r - 1, c),
                self.under_cell(r, c + 1),
                self.under_cell(r + 1, c + 2),
                self.under_cell(r + 2, c + 3),
            ],
            CheckDir::SE => seq![
                self.under_cell(r - 2, c),
                self.under_cell(r - 3, c + 1),
                self.under_cell(r - 4, c + 2),
                self.under_cell(r - 5, c + 3),
            ],
        }
    }

    /// The value of the window at one position: the window read forward and
    /// backward, the two readings summed while in progress, a win reported
    /// outright.
    pub open spec fn score_pos_spec(self, r: int, c: int, dir: CheckDir, spot: Spot) -> Score {
        let line = self.line_spec(r, c, dir);
        let under = self.under_spec(r, c, dir);
        let rline = seq![line[3], line[2], line[1], line[0]];
        let runder = seq![under[3], under[2], under[1], under[0]];
        combine_score(
            score_line_spec(line, under, spot),
            score_line_spec(rline, runder, spot),
        )
    }

    /// The summed window values of one row strip of an area, with a win
    /// cutting the sweep short.
    pub open spec fn score_cols_spec(
        self,
        row: int,
        c: int,
        cmax: int,
        dir: CheckDir,
        spot: Spot,
    ) -> Score
        decreases cmax - c + 1,
    {
        if c > cmax {
            Score::InProgress(0)
        } else {
            match self.score_pos_spec(row, c, dir, spot) {
                Score::InProgress(v) => match self.score_cols_spec(row, c + 1, cmax, dir, spot) {
                    Score::InProgress(rest) => Score::InProgress(((v + rest)) as isize),
                    w => w,
                },
                w => w,
            }
        }
    }

    /// The summed window values of a whole area, row strip by row strip,
    /// with a win cutting the sweep short.
    pub open spec fn score_rows_spec(
        self,
        r: int,
        rmax: int,
        cmin: int,
        cmax: int,
        dir: CheckDir,
        spot: Spot,
    ) -> Score
        decreases rmax - r + 1,
    {
        if r > rmax {
            Score::InProgress(0)
        } else {
            match self.score_cols_spec(r, cmin, cmax, dir, spot) {
                Score::InProgress(v) => match self.score_rows_spec(
                    r + 1,
                    rmax,
                    cmin,
                    cmax,
                    dir,
                    spot,
                ) {
                    Score::InProgress(rest) => Score::InProgress(((v + rest)) as isize),
                    w => w,
                },
                w => w,
            }
        }
    }

    /// The board's value for a player: the four window directions summed
    /// over their areas, a win in any of them reported outright.
    pub open spec fn score_spec(self, spot: Spot) -> Score {
        let n = self.score_rows_spec(0, self.rows() - 4, 0, self.cols() - 1, CheckDir::N, spot);
        let e = self.score_rows_spec(0, self.rows() - 1, 0, self.cols() - 4, CheckDir::E, spot);
        let ne = self.score_rows_spec(0, self.rows() - 4, 0, self.cols() - 4, CheckDir::NE, spot);
        let se = self.score_rows_spec(3, self.rows() - 1, 0, self.cols() - 4, CheckDir::SE, spot);
        match n {
            Score::InProgress(a) => match e {
                Score::InProgress(b) => match ne {
                    Score::InProgress(cc) => match se {
                        Score::InProgress(d) => Score::InProgress(((a + b + cc + d)) as isize),
                        w => w,
                    },
                    w => w,
                },
                w => w,
            },
            w => w,
        }
    }
}

/// The two readings of one window, summed while both are in progress; a win
/// in either reading is the window's value, the forward one first.
pub open spec fn combine_score(f: Score, r: Score) -> Score {
    match (f, r) {
        (Score::InProgress(a), Score::InProgress(b)) => Score::InProgress(((a + b)) as isize),
        (Score::InProgress(_), w) => w,
        (w, _) => w,
    }
}

/// A window reading is worth at most sixteen points either way.
pub proof fn lemma_score_line_bound(line: Seq<Spot>, under: Seq<bool>, spot: Spot)
    ensures
        score_line_spec(line, under, spot) matches Score::InProgress(v) ==> -16 <= v <= 16,
{
    reveal(score_line_spec);
}

/// One window is worth at most thirty-two points either way.
pub proof fn lemma_score_pos_bound(g: GameBoard, r: int, c: int, dir: CheckDir, spot: Spot)
    ensures
        g.score_pos_spec(r, c, dir, spot) matches Score::InProgress(v) ==> -32 <= v <= 32,
{
    let line = g.line_spec(r, c, dir);
    let under = g.under_spec(r, c, dir);
    lemma_score_line_bound(line, under, spot);
    lemma_score_line_bound(
        seq![line[3], line[2], line[1], line[0]],
        seq![under[3], under[2], under[1], under[0]],
        spot,
    );
}

/// A row strip of windows is worth at most thirty-two points per window
/// either way.
pub proof fn lemma_score_cols_bound(
    g: GameBoard,
    row: int,
    c: int,
    cmax: int,
    dir: CheckDir,
    spot: Spot,
)
    requires
        32 * (cmax - c + 1) <= isize::MAX,
    ensures
        ({
            let w = if c > cmax {
                0int
            } else {
                cmax - c + 1
            };
            g.score_cols_spec(row, c, cmax, dir, spot) matches Score::InProgress(v) ==> -32 * w
                <= v <= 32 * w
        }),
    decreases cmax - c + 1,
{
    if c <= cmax {
        lemma_score_pos_bound(g, row, c, dir, spot);
        lemma_score_cols_bound(g, row, c + 1, cmax, dir, spot);
    }
}

/// An area of windows is worth at most thirty-two points per window either
/// way.
pub proof fn lemma_score_rows_bound(
    g: GameBoard,
    r: int,
    rmax: int,
    cmin: int,
    cmax: int,
    dir: CheckDir,
    spot: Spot,
)
    requires
        32 * (cmax - cmin + 2) * (rmax - r + 2) <= isize::MAX,
        cmax - cmin + 2 >= 1,
        rmax - r + 2 >= 1,
    ensures
        ({
            let h = if r > rmax {
                0int
            } else {
                rmax - r + 1
            };
            let w = if cmin > cmax {
                0int
            } else {
                cmax - cmin + 1
            };
            g.score_rows_spec(r, rmax, cmin, cmax, dir, spot) matches Score::InProgress(v) ==> -(
            32 * w * h) <= v <= 32 * w * h
        }),
    decreases rmax - r + 1,
{
    let h = if r > rmax {
        0int
    } else {
        rmax - r + 1
    };
    let w = if cmin > cmax {
        0int
    } else {
        cmax - cmin + 1
    };
    if r > rmax {
        assert(g.score_rows_spec(r, rmax, cmin, cmax, dir, spot) == Score::InProgress(0isize));
        let cap = 32 * w * h;
        assert(cap == 0) by (nonlinear_arith)
            requires
                cap == 32 * w * h,
                h == 0,
        ;
        assert(g.score_rows_spec(r, rmax, cmin, cmax, dir, spot) matches Score::InProgress(v)
            ==> -(32 * w * h) <= v <= 32 * w * h);
    } else {
        assert(32 * (cmax - cmin + 1) <= isize::MAX) by (nonlinear_arith)
            requires
                32 * (cmax - cmin + 2) * (rmax - r + 2) <= isize::MAX,
                cmax - cmin + 2 >= 1,
                rmax - r + 2 >= 2,
        ;
        lemma_score_cols_bound(g, r, cmin, cmax, dir, spot);
        assert(32 * (cmax - cmin + 2) * (rmax - (r + 1) + 2) <= isize::MAX) by (nonlinear_arith)
            requires
                32 * (cmax - cmin + 2) * (rmax - r + 2) <= isize::MAX,
                cmax - cmin + 2 >= 1,
                rmax - r + 2 >= 2,
        ;
        lemma_score_rows_bound(g, r + 1, rmax, cmin, cmax, dir, spot);
        let h2 = if r + 1 > rmax {
            0int
        } else {
            rmax - r
        };
        match g.score_rows_spec(r, rmax, cmin, cmax, dir, spot) {
            Score::InProgress(v) => {
                let sc = g.score_cols_spec(r, cmin, cmax, dir, spot);
                let sr = g.score_rows_spec(r + 1, rmax, cmin, cmax, dir, spot);
                assert(sc is InProgress && sr is InProgress);
                let a = sc->InProgress_0;
                let b = sr->InProgress_0;
                assert(-32 * w <= a <= 32 * w);
                assert(-(32 * w * h2) <= b <= 32 * w * h2);
                let cap = 32 * w * h;
                assert(-cap <= a + b <= cap && cap <= isize::MAX) by (nonlinear_arith)
                    requires
                        cap == 32 * w * h,
                        -32 * w <= a <= 32 * w,
                        -(32 * w * h2) <= b <= 32 * w * h2,
                        h2 == h - 1,
                        h >= 1,
                        w >= 0,
                        w <= cmax - cmin + 1,
                        h <= rmax - r + 1,
                        32 * (cmax - cmin + 2) * (rmax - r + 2) <= isize::MAX,
                ;
                assert(v == ((a + b)) as isize);
                assert(isize::MIN <= a + b <= isize::MAX);
                assert(((a + b)) as isize == a + b);
                assert(-cap <= v <= cap);
            },
            _ => {},
        }
    }
}

/// One move the player could make: the column, the board after it, and its
/// minimax value.
pub struct Move {
    pub col: isize,
    pub board: Box<GameBoard>,
    pub score: isize,
}

impl GameBoard {
    /// Read one cell known to be on the board.
    fn cell_at(&self, r: isize, c: isize) -> (s: Spot)
        requires
            self.wf(),
            0 <= r < self.rows(),
            0 <= c < self.cols(),
        ensures
            s == self.cell(r as int, c as int),
    {
        self.grid.grid[r as usize][c as usize]
    }

    /// Whether the cell at a position would support a piece above it: any
    /// position off the board or holding a piece does.
    fn under_at(&self, r: isize, c: isize) -> (b: bool)
        requires
            self.wf(),
        ensures
            b == self.under_cell(r as int, c as int),
    {
        if r >= 0 && r < self.grid.dim.row && c >= 0 && c < self.grid.dim.col {
            let s = self.grid.grid[r as usize][c as usize];
            s != Spot::Empty
        } else {
            true
        }
    }

    /// Score the window at one position, read both ways.
    #[verifier::rlimit(100)]
    #[verifier::spinoff_prover]
    pub fn score_pos(&self, loc: Vec2, dir: &CheckDir, spot: &Spot) -> (r: Score)
        requires
            self.wf(),
            self.window_ok(loc.row as int, loc.col as int, *dir),
        ensures
            r == self.score_pos_spec(loc.row as int, loc.col as int, *dir, *spot),
            (r matches Score::InProgress(v) ==> -32 <= v <= 32),
    {
        let r0 = loc.row;
        let c0 = loc.col;
        let mut line: Vec<Spot> = Vec::new();
        let mut under: Vec<bool> = Vec::new();
        match dir {
            CheckDir::N => {
                line.push(self.cell_at(r0, c0));
                line.push(self.cell_at(r0 + 1, c0));
                line.push(self.cell_at(r0 + 2, c0));
                line.push(self.cell_at(r0 + 3, c0));
                under.push(true);
                under.push(true);
                under.push(true);
                under.push(true);
            },
            CheckDir::E => {
                line.push(self.cell_at(r0, c0));
                line.push(self.cell_at(r0, c0 + 1));
                line.push(self.cell_at(r0, c0 + 2));
                line.push(self.cell_at(r0, c0 + 3));
                under.push(self.under_at(r0 - 1, c0));
                under.push(self.under_at(r0 - 1, c0 + 1));
                under.push(self.under_at(r0 - 1, c0 + 2));
                under.push(self.under_at(r0 - 1, c0 + 3));
            },
            CheckDir::NE => {
                line.push(self.cell_at(r0, c0));
                line.push(self.cell_at(r0 + 1, c0 + 1));
                line.push(self.cell_at(r0 + 2, c0 + 2));
                line.push(self.cell_at(r0 + 3, c0 + 3));
                under.push(self.under_at(r0 - 1, c0));
                under.push(self.under_at(r0, c0 + 1));
                under.push(self.under_at(r0 + 1, c0 + 2));
                under.push(self.under_at(r0 + 2, c0 + 3));
            },
            CheckDir::SE => {
                line.push(self.cell_at(r0, c0));
                line.push(self.cell_at(r0 - 1, c0 + 1));
                line.push(self.cell_at(r0 - 2, c0 + 2));
                line.push(self.cell_at(r0 - 3, c0 + 3));
                under.push(self.under_at(r0 - 2, c0));
                under.push(self.under_at(r0 - 3, c0 + 1));
                under.push(self.under_at(r0 - 4, c0 + 2));
                under.push(self.under_at(r0 - 5, c0 + 3));
            },
        }
        proof {
            assert(line@ =~= self.line_spec(r0 as int, c0 as int, *dir));
            assert(under@ =~= self.under_spec(r0 as int, c0 as int, *dir));
        }
        let mut rline: Vec<Spot> = Vec::new();
        let mut runder: Vec<bool> = Vec::new();
        rline.push(line[3]);
        rline.push(line[2]);
        rline.push(line[1]);
        rline.push(line[0]);
        runder.push(under[3]);
        runder.push(under[2]);
        runder.push(under[1]);
        runder.push(under[0]);
        let fwd = self.score_line(line.as_slice(), under.as_slice(), spot);
        let bwd = self.score_line(rline.as_slice(), runder.as_slice(), spot);
        proof {
            lemma_score_line_bound(line@, under@, *spot);
            lemma_score_line_bound(rline@, runder@, *spot);
            assert(rline@ =~= (seq![line@[3], line@[2], line@[1], line@[0]]));
            assert(runder@ =~= (seq![under@[3], under@[2], under@[1], under@[0]]));
        }
        match (fwd, bwd) {
            (Score::InProgress(a), Score::InProgress(b)) => Score::InProgress(a + b),
            (Score::InProgress(_), w) => w,
            (w, _) => w,
        }
    }

    /// Score one row strip of an area, stopping at a win.
    fn score_cols(&self, row: isize, c: isize, cmax: isize, dir: &CheckDir, spot: &Spot) -> (r:
        Score)
        requires
            self.wf(),
            cmax < self.cols(),
            forall|cc: int| c <= cc <= cmax ==> self.window_ok(row as int, cc, *dir),
            32 * (cmax - c + 1) <= isize::MAX,
        ensures
            r == self.score_cols_spec(row as int, c as int, cmax as int, *dir, *spot),
        decreases cmax as int - c as int + 1,
    {
        if c > cmax {
            return Score::InProgress(0);
        }
        let s = self.score_pos(Vec2 { row, col: c }, dir, spot);
        match s {
            Score::InProgress(v) => {
                let rest = self.score_cols(row, c + 1, cmax, dir, spot);
                match rest {
                    Score::InProgress(b) => {
                        proof {
                            lemma_score_cols_bound(
                                *self,
                                row as int,
                                c as int + 1,
                                cmax as int,
                                *dir,
                                *spot,
                            );
                        }
                        Score::InProgress(v + b)
                    },
                    w => w,
                }
            },
            w => w,
        }
    }

    /// Score a whole area of windows, row strip by row strip, stopping at a
    /// win. `rmax` and `cmax` are inclusive.
    fn score_rows(
        &self,
        r: isize,
        rmax: isize,
        cmin: isize,
        cmax: isize,
        dir: &CheckDir,
        spot: &Spot,
    ) -> (res: Score)
        requires
            self.wf(),
            cmax < self.cols(),
            rmax < self.rows(),
            cmin <= cmax + 1,
            r <= rmax + 1,
            forall|rr: int, cc: int|
                r <= rr <= rmax && cmin <= cc <= cmax ==> self.window_ok(rr, cc, *dir),
            32 * (cmax - cmin + 2) * (rmax - r + 2) <= isize::MAX,
        ensures
            res == self.score_rows_spec(
                r as int,
                rmax as int,
                cmin as int,
                cmax as int,
                *dir,
                *spot,
            ),
        decreases rmax as int - r as int + 1,
    {
        if r > rmax {
            return Score::InProgress(0);
        }
        proof {
            assert(32 * (cmax - cmin + 1) <= isize::MAX) by (nonlinear_arith)
                requires
                    32 * (cmax - cmin + 2) * (rmax - r + 2) <= isize::MAX,
                    cmax - cmin + 2 >= 1,
                    rmax - r + 2 >= 2,
            ;
        }
        let s = self.score_cols(r, cmin, cmax, dir, spot);
        match s {
            Score::InProgress(v) => {
                proof {
                    assert(32 * (cmax - cmin + 2) * (rmax - (r + 1) + 2) <= isize::MAX)
                        by (nonlinear_arith)
                        requires
                            32 * (cmax - cmin + 2) * (rmax - r + 2) <= isize::MAX,
                            cmax - cmin + 2 >= 1,
                            rmax - r + 2 >= 2,
                    ;
                }
                let rest = self.score_rows(r + 1, rmax, cmin, cmax, dir, spot);
                match rest {
                    Score::InProgress(b) => {
                        proof {
                            lemma_score_cols_bound(
                                *self,
                                r as int,
                                cmin as int,
                                cmax as int,
                                *dir,
                                *spot,
                            );
                            lemma_score_rows_bound(
                                *self,
                                r as int + 1,
                                rmax as int,
                                cmin as int,
                                cmax as int,
                                *dir,
                                *spot,
                            );
                            let w = if cmin > cmax {
                                0int
                            } else {
                                cmax as int - cmin as int + 1
                            };
                            let h2 = if r + 1 > rmax {
                                0int
                            } else {
                                rmax as int - r as int
                            };
                            assert(isize::MIN <= v + b <= isize::MAX) by (nonlinear_arith)
                                requires
                                    -32 * w <= v <= 32 * w,
                                    -(32 * w * h2) <= b <= 32 * w * h2,
                                    w >= 0,
                                    h2 >= 0,
                                    w <= cmax - cmin + 1,
                                    h2 <= rmax - r,
                                    32 * (cmax - cmin + 2) * (rmax - r + 2) <= isize::MAX,
                            ;
                        }
                        Score::InProgress(v + b)
                    },
                    w => w,
                }
            },
            w => w,
        }
    }

    /// Score every window of an area that runs in one direction: their
    /// values summed while the game is in progress, a win in any window
    /// reported outright.
    pub fn score_area(&self, area: Area, dir: CheckDir, spot: Spot) -> (r: Score)
        requires
            self.wf(),
            area.max.col < self.cols(),
            area.max.row < self.rows(),
            area.min.col <= area.max.col + 1,
            area.min.row <= area.max.row + 1,
            forall|rr: int, cc: int|
                area.min.row <= rr <= area.max.row && area.min.col <= cc <= area.max.col
                    ==> self.window_ok(rr, cc, dir),
            32 * (area.max.col - area.min.col + 2) * (area.max.row - area.min.row + 2)
                <= isize::MAX,
        ensures
            r == self.score_rows_spec(
                area.min.row as int,
                area.max.row as int,
                area.min.col as int,
                area.max.col as int,
                dir,
                spot,
            ),
    {
        self.score_rows(area.min.row, area.max.row, area.min.col, area.max.col, &dir, &spot)
    }

    /// The board's value for a player: every window in all four directions,
    /// summed while the game is in progress, a win reported outright.
    pub fn score(&self, spot: Spot) -> (r: Score)
        requires
            self.wf(),
            spot != Spot::Empty,
            4 * (32 * ((self.cols() + 1) * (self.rows() + 1))) <= isize::MAX,
        ensures
            r == self.score_spec(spot),
            (r matches Score::InProgress(v) ==> -isize::MAX <= v <= isize::MAX),
    {
        let rows = self.grid.dim.row;
        let cols = self.grid.dim.col;
        let ghost q = 32 * ((self.cols() + 1) * (self.rows() + 1));
        proof {
            lemma_area_req(*self, 0, self.rows() - 4, 0, self.cols() - 1);
            lemma_area_req(*self, 0, self.rows() - 1, 0, self.cols() - 4);
            lemma_area_req(*self, 0, self.rows() - 4, 0, self.cols() - 4);
            lemma_area_req(*self, 3, self.rows() - 1, 0, self.cols() - 4);
        }
        let n = self.score_area(
            Area { min: Vec2 { row: 0, col: 0 }, max: Vec2 { row: rows - 4, col: cols - 1 } },
            CheckDir::N,
            spot,
        );
        let sn = match n {
            Score::InProgress(v) => v,
            w => {
                return w;
            },
        };
        let e = self.score_area(
            Area { min: Vec2 { row: 0, col: 0 }, max: Vec2 { row: rows - 1, col: cols - 4 } },
            CheckDir::E,
            spot,
        );
        let se_ = match e {
            Score::InProgress(v) => v,
            w => {
                return w;
            },
        };
        let ne = self.score_area(
            Area { min: Vec2 { row: 0, col: 0 }, max: Vec2 { row: rows - 4, col: cols - 4 } },
            CheckDir::NE,
            spot,
        );
        let sne = match ne {
            Score::InProgress(v) => v,
            w => {
                return w;
            },
        };
        let sse = self.score_area(
            Area { min: Vec2 { row: 3, col: 0 }, max: Vec2 { row: rows - 1, col: cols - 4 } },
            CheckDir::SE,
            spot,
        );
        let sd = match sse {
            Score::InProgress(v) => v,
            w => {
                return w;
            },
        };
        proof {
            lemma_area_value_bound(*self, 0, self.rows() - 4, 0, self.cols() - 1, CheckDir::N, spot);
            lemma_area_value_bound(*self, 0, self.rows() - 1, 0, self.cols() - 4, CheckDir::E, spot);
            lemma_area_value_bound(
                *self,
                0,
                self.rows() - 4,
                0,
                self.cols() - 4,
                CheckDir::NE,
                spot,
            );
            lemma_area_value_bound(
                *self,
                3,
                self.rows() - 1,
                0,
                self.cols() - 4,
                CheckDir::SE,
                spot,
            );
        }
        Score::InProgress(sn + se_ + sne + sd)
    }

    /// Search the columns for the move the depth-bounded minimax sweep
    /// prefers: there is some move exactly when some column still has room,
    /// the returned board is this board with the piece dropped in the
    /// returned column, and the returned value stays in negation range. The
    /// minimax value of the chosen move is not stated in the contract.
    pub fn best_move(&self, spot: Spot, depth: usize) -> (r: Option<Move>)
        requires
            self.wf(),
            spot != Spot::Empty,
            4 * (32 * ((self.cols() + 1) * (self.rows() + 1))) <= isize::MAX,
        ensures
            r is Some <==> exists|c: int|
                0 <= c < self.cols() && #[trigger] self.top_filled(c, self.rows() - 1) + 1
                    < self.rows(),
            r matches Some(m) ==> {
                let land = self.top_filled(m.col as int, self.rows() - 1) + 1;
                &&& 0 <= m.col < self.cols()
                &&& land < self.rows()
                &&& m.board.wf()
                &&& m.board.grid.dim == self.grid.dim
                &&& forall|a: int|
                    0 <= a < self.rows() && a != land ==> (#[trigger] m.board.grid.grid@[a])@
                        =~= self.grid.grid@[a]@
                &&& m.board.grid.grid@[land]@ =~= self.grid.grid@[land]@.update(m.col as int, spot)
                &&& -isize::MAX <= m.score <= isize::MAX
            },
        decreases depth,
    {
        let mut best: Option<Move> = None;
        let mut col: isize = 0;
        while col < self.grid.dim.col
            invariant
                self.wf(),
                spot != Spot::Empty,
                4 * (32 * ((self.cols() + 1) * (self.rows() + 1))) <= isize::MAX,
                0 <= col <= self.cols(),
                (best is Some <==> exists|c: int|
                    0 <= c < col && #[trigger] self.top_filled(c, self.rows() - 1) + 1
                        < self.rows()),
                best matches Some(m) ==> {
                    let land = self.top_filled(m.col as int, self.rows() - 1) + 1;
                    &&& 0 <= m.col < self.cols()
                    &&& land < self.rows()
                    &&& m.board.wf()
                    &&& m.board.grid.dim == self.grid.dim
                    &&& forall|a: int|
                        0 <= a < self.rows() && a != land ==> (#[trigger] m.board.grid.grid@[a])@
                            =~= self.grid.grid@[a]@
                    &&& m.board.grid.grid@[land]@ =~= self.grid.grid@[land]@.update(
                        m.col as int,
                        spot,
                    )
                    &&& -isize::MAX <= m.score <= isize::MAX
                },
            decreases self.cols() - col,
        {
            match self.drop_piece_new_board(spot, col) {
                Some(new_board) => {
                    let sc = new_board.score(spot);
                    let val: isize = match sc {
                        Score::InProgress(s) => {
                            if depth == 0 {
                                s
                            } else {
                                let opospot = if spot == Spot::O {
                                    Spot::X
                                } else {
                                    Spot::O
                                };
                                match new_board.best_move(opospot, depth - 1) {
                                    Some(m) => -m.score,
                                    None => s,
                                }
                            }
                        },
                        s => {
                            if s.matches_spot(spot) {
                                isize::MAX
                            } else {
                                -isize::MAX
                            }
                        },
                    };
                    let take = match &best {
                        None => true,
                        Some(m) => val >= m.score,
                    };
                    if take {
                        best = Some(Move { col, board: new_board, score: val });
                    }
                },
                None => {},
            }
            col += 1;
        }
        best
    }
}

/// The requirement of one sweep area follows from the board-wide one.
proof fn lemma_area_req(g: GameBoard, rmin: int, rmax: int, cmin: int, cmax: int)
    requires
        g.wf(),
        0 <= rmin,
        rmin <= rmax + 1,
        0 <= cmin,
        cmin <= cmax + 1,
        rmax < g.rows(),
        cmax < g.cols(),
        4 * (32 * ((g.cols() + 1) * (g.rows() + 1))) <= isize::MAX,
    ensures
        32 * (cmax - cmin + 2) * (rmax - rmin + 2) <= isize::MAX,
{
    let q = 32 * ((g.cols() + 1) * (g.rows() + 1));
    assert(32 * (cmax - cmin + 2) * (rmax - rmin + 2) <= q && q >= 0) by (nonlinear_arith)
        requires
            q == 32 * ((g.cols() + 1) * (g.rows() + 1)),
            1 <= cmax - cmin + 2 <= g.cols() + 1,
            1 <= rmax - rmin + 2 <= g.rows() + 1,
    ;
}

/// The value of one sweep area stays within the board-wide cap.
proof fn lemma_area_value_bound(
    g: GameBoard,
    rmin: int,
    rmax: int,
    cmin: int,
    cmax: int,
    dir: CheckDir,
    spot: Spot,
)
    requires
        g.wf(),
        0 <= rmin,
        rmin <= rmax + 1,
        0 <= cmin,
        cmin <= cmax + 1,
        rmax < g.rows(),
        cmax < g.cols(),
        4 * (32 * ((g.cols() + 1) * (g.rows() + 1))) <= isize::MAX,
    ensures
        ({
            let q = 32 * ((g.cols() + 1) * (g.rows() + 1));
            g.score_rows_spec(rmin, rmax, cmin, cmax, dir, spot) matches Score::InProgress(v)
                ==> -q <= v <= q
        }),
{
    let q = 32 * ((g.cols() + 1) * (g.rows() + 1));
    lemma_area_req(g, rmin, rmax, cmin, cmax);
    lemma_score_rows_bound(g, rmin, rmax, cmin, cmax, dir, spot);
    let h = if rmin > rmax {
        0int
    } else {
        rmax - rmin + 1
    };
    let w = if cmin > cmax {
        0int
    } else {
        cmax - cmin + 1
    };
    match g.score_rows_spec(rmin, rmax, cmin, cmax, dir, spot) {
        Score::InProgress(v) => {
            assert(-q <= v <= q) by (nonlinear_arith)
                requires
                    -(32 * w * h) <= v <= 32 * w * h,
                    0 <= w <= g.cols(),
                    0 <= h <= g.rows(),
                    q == 32 * ((g.cols() + 1) * (g.rows() + 1)),
                    g.cols() >= 1,
                    g.rows() >= 1,
            ;
        },
        _ => {},
    }
}

} // verus!
