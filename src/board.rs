//! The board: a fixed-capacity row-major grid of pieces.
use vstd::prelude::*;

verus! {

/// Number of cells a board can hold.
pub const MAX_BOARD_SIZE: usize = 36;

#[derive(Clone, Copy, PartialEq, Eq, Structural, Hash, Debug)]
pub enum Piece {
    Cow,
    Person,
    House,
    Barn,
    /// A permanently impassable cell.
    Empty,
    /// An empty, traversable cell.
    Blank,
}

/// Neighbourhood used by the move engines: four neighbours on a rectangular
/// grid, or six on a hexagonal grid in offset coordinates (odd rows shifted
/// right).
#[derive(Clone, Copy, PartialEq, Eq, Structural, Hash, Debug)]
pub enum Geometry {
    Rectangular,
    Hexagonal,
}

#[derive(Clone, Copy, PartialEq, Eq, Hash, Debug)]
pub struct Board {
    pub width: u8,
    pub height: u8,
    pub pieces: [Piece; 36],
}

/// Mathematical model of a board.
pub ghost struct BoardView {
    pub width: int,
    pub height: int,
    pub cells: Seq<Piece>,
}

impl View for Board {
    type V = BoardView;

    open spec fn view(&self) -> BoardView {
        BoardView { width: self.width as int, height: self.height as int, cells: self.pieces@ }
    }
}

pub open spec fn is_mover(p: Piece) -> bool {
    p == Piece::Cow || p == Piece::Person
}

pub open spec fn is_goal(p: Piece) -> bool {
    p == Piece::House || p == Piece::Barn
}

/// Number of occurrences of `p` in `s`.
pub open spec fn count_in(s: Seq<Piece>, p: Piece) -> nat
    decreases s.len(),
{
    if s.len() == 0 {
        0
    } else {
        count_in(s.drop_last(), p) + if s.last() == p {
            1nat
        } else {
            0nat
        }
    }
}

impl BoardView {
    /// Dimensions are positive and fit the capacity; cells past the grid are blank.
    pub open spec fn wf(self) -> bool {
        &&& 1 <= self.width
        &&& 1 <= self.height
        &&& self.width * self.height <= MAX_BOARD_SIZE
        &&& self.cells.len() == MAX_BOARD_SIZE
        &&& forall|i: int|
            self.width * self.height <= i < MAX_BOARD_SIZE ==> #[trigger] self.cells[i]
                == Piece::Blank
    }

    pub open spec fn size(self) -> int {
        self.width * self.height
    }

    pub open spec fn index_of(self, x: int, y: int) -> int {
        y * self.width + x
    }

    pub open spec fn count(self, p: Piece) -> nat {
        count_in(self.cells, p)
    }

    /// No person can still meet a house and no cow can still meet a barn.
    pub open spec fn solved(self) -> bool {
        self.count(Piece::Person) * self.count(Piece::House) + self.count(Piece::Cow)
            * self.count(Piece::Barn) == 0
    }

    pub open spec fn with_cell(self, i: int, p: Piece) -> BoardView {
        BoardView { cells: self.cells.update(i, p), ..self }
    }
}

/// Overwriting a cell with another piece never adds an occurrence of `q`.
pub proof fn lemma_count_update(s: Seq<Piece>, i: int, p: Piece, q: Piece)
    requires
        0 <= i < s.len(),
        p != q,
    ensures
        count_in(s.update(i, p), q) <= count_in(s, q),
    decreases s.len(),
{
    let t = s.update(i, p);
    if i < s.len() - 1 {
        lemma_count_update(s.drop_last(), i, p, q);
        assert(t.drop_last() =~= s.drop_last().update(i, p));
    } else {
        assert(t.drop_last() =~= s.drop_last());
    }
}

/// Cells of a fresh board of capacity `MAX_BOARD_SIZE`, all blank.
pub open spec fn blank_cells() -> Seq<Piece> {
    Seq::new(MAX_BOARD_SIZE as nat, |i: int| Piece::Blank)
}

impl Board {
    /// A board of the given dimensions with every cell blank.
    pub fn new(width: u8, height: u8) -> (r: Board)
        requires
            1 <= width,
            1 <= height,
            width * height <= MAX_BOARD_SIZE,
        ensures
            r@.wf(),
            r.width == width,
            r.height == height,
            r@.cells == blank_cells(),
    {
        let r = Board { width, height, pieces: [Piece::Blank; 36] };
        assert(r@.cells =~= blank_cells());
        r
    }

    /// The piece at column `x`, row `y`.
    pub fn get(&self, x: u8, y: u8) -> (r: Piece)
        requires
            self@.wf(),
            x < self.width,
            y < self.height,
        ensures
            r == self@.cells[self@.index_of(x as int, y as int)],
    {
        proof { lemma_index_in_grid(self@, x as int, y as int); }
        self.pieces[(y * self.width + x) as usize]
    }

    /// Puts `piece` at column `x`, row `y`.
    pub fn set(&mut self, x: u8, y: u8, piece: Piece)
        requires
            old(self)@.wf(),
            x < old(self).width,
            y < old(self).height,
        ensures
            final(self)@ == old(self)@.with_cell(old(self)@.index_of(x as int, y as int), piece),
            final(self)@.wf(),
    {
        proof { lemma_index_in_grid(self@, x as int, y as int); }
        self.pieces[(y * self.width + x) as usize] = piece;
    }

    /// Puts `piece` at linear index `index`.
    pub fn set_index(&mut self, index: usize, piece: Piece)
        requires
            old(self)@.wf(),
            index < old(self)@.size(),
        ensures
            final(self)@ == old(self)@.with_cell(index as int, piece),
            final(self)@.wf(),
    {
        self.pieces[index] = piece;
    }

    /// Number of cells holding `piece`.
    pub fn count_piece(&self, piece: Piece) -> (r: u8)
        ensures
            r == self@.count(piece),
            r <= MAX_BOARD_SIZE,
    {
        let mut n: u8 = 0;
        let mut i: usize = 0;
        while i < MAX_BOARD_SIZE
            invariant
                i <= MAX_BOARD_SIZE,
                n == count_in(self@.cells.take(i as int), piece),
                n <= i,
            decreases MAX_BOARD_SIZE - i,
        {
            proof {
                assert(self@.cells.take(i + 1).drop_last() =~= self@.cells.take(i as int));
            }
            if self.pieces[i] == piece {
                n = n + 1;
            }
            i = i + 1;
        }
        assert(self@.cells.take(MAX_BOARD_SIZE as int) =~= self@.cells);
        n
    }

    /// The count rule: solved iff persons * houses + cows * barns == 0.
    pub fn is_solved(&self) -> (r: bool)
        ensures
            r == self@.solved(),
    {
        let person_count = self.count_piece(Piece::Person);
        let cow_count = self.count_piece(Piece::Cow);
        let house_count = self.count_piece(Piece::House);
        let barn_count = self.count_piece(Piece::Barn);
        assert(person_count as u32 * house_count as u32 <= 1296) by (nonlinear_arith)
            requires person_count <= 36, house_count <= 36;
        assert(cow_count as u32 * barn_count as u32 <= 1296) by (nonlinear_arith)
            requires cow_count <= 36, barn_count <= 36;
        person_count as u32 * house_count as u32 + cow_count as u32 * barn_count as u32 == 0
    }
}

pub proof fn lemma_index_in_grid(v: BoardView, x: int, y: int)
    requires
        v.wf(),
        0 <= x < v.width,
        0 <= y < v.height,
    ensures
        0 <= v.index_of(x, y) < v.size(),
        v.size() <= MAX_BOARD_SIZE,
        v.width <= MAX_BOARD_SIZE,
        v.height <= MAX_BOARD_SIZE,
{
    assert(0 <= y * v.width + x < v.width * v.height) by (nonlinear_arith)
        requires
            0 <= x < v.width,
            0 <= y < v.height,
    ;
    assert(v.width <= v.width * v.height) by (nonlinear_arith)
        requires
            1 <= v.height,
            1 <= v.width,
    ;
    assert(v.height <= v.width * v.height) by (nonlinear_arith)
        requires
            1 <= v.height,
            1 <= v.width,
    ;
}

} // verus!
