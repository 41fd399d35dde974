//! Geometric and role symmetries of rectangular boards, used to skip
//! equivalent boards during enumeration.
use vstd::prelude::*;
use vstd::arithmetic::div_mod::lemma_fundamental_div_mod_converse;
use crate::board::{Board, BoardView, Piece, MAX_BOARD_SIZE, count_in, lemma_index_in_grid};

verus! {

/// Column and row of index `j` on a grid `w` wide.
pub proof fn lemma_coords(w: int, h: int, j: int)
    requires
        1 <= w,
        1 <= h,
        0 <= j < w * h,
    ensures
        0 <= j % w < w,
        0 <= j / w < h,
        (j / w) * w + j % w == j,
{
    assert(0 <= j / w < h) by (nonlinear_arith)
        requires
            0 <= j < w * h,
            1 <= w,
    ;
    assert(j == (j / w) * w + j % w) by (nonlinear_arith)
        requires
            1 <= w,
    ;
}

/// The index of (x, y) on a grid `w` wide decomposes back into x and y.
pub proof fn lemma_index_coords(w: int, h: int, x: int, y: int)
    requires
        0 <= x < w,
        0 <= y < h,
    ensures
        (y * w + x) % w == x,
        (y * w + x) / w == y,
        0 <= y * w + x < w * h,
{
    lemma_fundamental_div_mod_converse(y * w + x, w, y, x);
    assert(0 <= y * w + x < w * h) by (nonlinear_arith)
        requires
            0 <= x < w,
            0 <= y < h,
    ;
}

/// The board turned a quarter turn clockwise: it becomes `height` wide and
/// `width` high, and cell (x, y) of the result is cell (y, height - 1 - x)
/// of the board before the turn.
pub open spec fn rotated(v: BoardView) -> BoardView {
    BoardView {
        width: v.height,
        height: v.width,
        cells: Seq::new(
            MAX_BOARD_SIZE as nat,
            |j: int|
                if j < v.size() {
                    v.cells[v.index_of(j / v.height, v.height - 1 - j % v.height)]
                } else {
                    Piece::Blank
                },
        ),
    }
}

/// The board mirrored left to right.
pub open spec fn flipped(v: BoardView) -> BoardView {
    BoardView {
        cells: Seq::new(
            MAX_BOARD_SIZE as nat,
            |j: int|
                if j < v.size() {
                    v.cells[v.index_of(v.width - 1 - j % v.width, j / v.width)]
                } else {
                    Piece::Blank
                },
        ),
        ..v
    }
}

/// The other role of a piece: cows and persons trade places, and so do barns
/// and houses.
pub open spec fn swap_role(p: Piece) -> Piece {
    match p {
        Piece::Cow => Piece::Person,
        Piece::Person => Piece::Cow,
        Piece::House => Piece::Barn,
        Piece::Barn => Piece::House,
        _ => p,
    }
}

pub open spec fn role_swapped(v: BoardView) -> BoardView {
    BoardView { cells: v.cells.map_values(|p: Piece| swap_role(p)), ..v }
}

/// The board turned half a turn.
pub open spec fn half_turned(v: BoardView) -> BoardView {
    BoardView {
        cells: Seq::new(
            MAX_BOARD_SIZE as nat,
            |j: int|
                if j < v.size() {
                    v.cells[v.index_of(v.width - 1 - j % v.width, v.height - 1 - j / v.width)]
                } else {
                    Piece::Blank
                },
        ),
        ..v
    }
}

/// The eight geometric variants in enumeration order: four rotations of the
/// board, then four rotations of its mirror image.
pub open spec fn geometric_variants(v: BoardView) -> Seq<BoardView> {
    let r1 = rotated(v);
    let r2 = rotated(r1);
    let r3 = rotated(r2);
    let f = flipped(r3);
    let f1 = rotated(f);
    let f2 = rotated(f1);
    let f3 = rotated(f2);
    seq![v, r1, r2, r3, f, f1, f2, f3]
}

/// The sixteen variants: the eight geometric ones, then each of them with
/// roles swapped.
pub open spec fn symmetric_variants(v: BoardView) -> Seq<BoardView> {
    let g = geometric_variants(v);
    g + g.map_values(|u: BoardView| role_swapped(u))
}

pub open spec fn boards_view(s: Seq<Board>) -> Seq<BoardView> {
    s.map_values(|b: Board| b@)
}

pub proof fn lemma_rotated_wf(v: BoardView)
    requires
        v.wf(),
    ensures
        rotated(v).wf(),
{
    assert(v.height * v.width == v.width * v.height) by (nonlinear_arith);
}

pub proof fn lemma_flipped_wf(v: BoardView)
    requires
        v.wf(),
    ensures
        flipped(v).wf(),
{
}

pub proof fn lemma_role_swapped_wf(v: BoardView)
    requires
        v.wf(),
    ensures
        role_swapped(v).wf(),
{
}

proof fn lemma_rotated_twice(v: BoardView)
    requires
        v.wf(),
    ensures
        rotated(rotated(v)) == half_turned(v),
{
    let w = v.width;
    let h = v.height;
    let r1 = rotated(v);
    let r2 = rotated(r1);
    let ht = half_turned(v);
    lemma_rotated_wf(v);
    assert(h * w == w * h) by (nonlinear_arith);
    assert forall|j: int| 0 <= j < MAX_BOARD_SIZE implies r2.cells[j] == ht.cells[j] by {
        if j < w * h {
            lemma_coords(w, h, j);
            let x = j % w;
            let y = j / w;
            // r2 at j reads r1 at k = (w - 1 - x) * h + y
            let k = (w - 1 - x) * h + y;
            lemma_index_coords(h, w, y, w - 1 - x);
            assert(r2.cells[j] == r1.cells[k]);
            lemma_index_coords(w, h, w - 1 - x, h - 1 - y);
            assert(r1.cells[k] == v.cells[v.index_of(w - 1 - x, h - 1 - y)]);
        }
    }
    assert(r2.cells =~= ht.cells);
}

proof fn lemma_half_turned_twice(v: BoardView)
    requires
        v.wf(),
    ensures
        half_turned(half_turned(v)) == v,
        half_turned(v).wf(),
{
    let w = v.width;
    let h = v.height;
    let ht = half_turned(v);
    let hh = half_turned(ht);
    assert forall|j: int| 0 <= j < MAX_BOARD_SIZE implies hh.cells[j] == v.cells[j] by {
        if j < w * h {
            lemma_coords(w, h, j);
            let x = j % w;
            let y = j / w;
            lemma_index_coords(w, h, w - 1 - x, h - 1 - y);
            assert(hh.cells[j] == ht.cells[(h - 1 - y) * w + (w - 1 - x)]);
        }
    }
    assert(hh.cells =~= v.cells);
}

/// Four quarter turns give back the same board, dimensions included.
pub proof fn lemma_four_rotations(v: BoardView)
    requires
        v.wf(),
    ensures
        rotated(rotated(rotated(rotated(v)))) == v,
{
    lemma_rotated_twice(v);
    lemma_half_turned_twice(v);
    lemma_rotated_wf(v);
    lemma_rotated_wf(rotated(v));
    lemma_rotated_twice(rotated(rotated(v)));
}

proof fn lemma_count_swapped(s: Seq<Piece>, p: Piece)
    ensures
        count_in(s.map_values(|q: Piece| swap_role(q)), p) == count_in(s, swap_role(p)),
    decreases s.len(),
{
    if s.len() > 0 {
        lemma_count_swapped(s.drop_last(), p);
        assert(s.map_values(|q: Piece| swap_role(q)).drop_last() =~= s.drop_last().map_values(|q: Piece| swap_role(q)));
    }
}

/// Swapping roles keeps a board solved or unsolved, and keeps its numbers
/// of obstacles and blank cells.
pub proof fn lemma_role_swap_keeps_counts(v: BoardView)
    ensures
        role_swapped(v).solved() == v.solved(),
        role_swapped(v).count(Piece::Empty) == v.count(Piece::Empty),
        role_swapped(v).count(Piece::Blank) == v.count(Piece::Blank),
        role_swapped(v).count(Piece::Cow) == v.count(Piece::Person),
        role_swapped(v).count(Piece::Barn) == v.count(Piece::House),
{
    lemma_count_swapped(v.cells, Piece::Cow);
    lemma_count_swapped(v.cells, Piece::Person);
    lemma_count_swapped(v.cells, Piece::House);
    lemma_count_swapped(v.cells, Piece::Barn);
    lemma_count_swapped(v.cells, Piece::Empty);
    lemma_count_swapped(v.cells, Piece::Blank);
    let p = v.count(Piece::Person);
    let h = v.count(Piece::House);
    let c = v.count(Piece::Cow);
    let b = v.count(Piece::Barn);
    assert(c * b + p * h == p * h + c * b);
}

impl Board {
    /// Turns the board a quarter turn clockwise; width and height trade places.
    pub fn rotate(&mut self)
        requires
            old(self)@.wf(),
        ensures
            final(self)@ == rotated(old(self)@),
            final(self)@.wf(),
    {
        let ghost v = self@;
        proof {
            lemma_index_in_grid(v, 0, 0);
            lemma_rotated_wf(v);
        }
        let w = self.width;
        let h = self.height;
        let size = w * h;
        let mut new_pieces = [Piece::Blank; 36];
        let mut j: u8 = 0;
        while j < size
            invariant
                v == self@,
                v.wf(),
                w == v.width,
                h == v.height,
                size == v.size(),
                j <= size,
                forall|k: int| 0 <= k < j ==> new_pieces@[k] == rotated(v).cells[k],
                forall|k: int| j <= k < MAX_BOARD_SIZE ==> new_pieces@[k] == Piece::Blank,
            decreases size - j,
        {
            proof {
                assert(h * w == w * h) by (nonlinear_arith);
                lemma_coords(h as int, w as int, j as int);
            }
            new_pieces[j as usize] = self.get(j / h, h - 1 - j % h);
            j = j + 1;
        }
        self.width = h;
        self.height = w;
        self.pieces = new_pieces;
        assert(self@.cells =~= rotated(v).cells);
    }

    /// Mirrors the board left to right.
    pub fn flip_horizontal(&mut self)
        requires
            old(self)@.wf(),
        ensures
            final(self)@ == flipped(old(self)@),
            final(self)@.wf(),
    {
        let ghost v = self@;
        proof { lemma_index_in_grid(v, 0, 0); }
        let w = self.width;
        let h = self.height;
        let size = w * h;
        let mut new_pieces = [Piece::Blank; 36];
        let mut j: u8 = 0;
        while j < size
            invariant
                v == self@,
                v.wf(),
                w == v.width,
                h == v.height,
                size == v.size(),
                j <= size,
                forall|k: int| 0 <= k < j ==> new_pieces@[k] == flipped(v).cells[k],
                forall|k: int| j <= k < MAX_BOARD_SIZE ==> new_pieces@[k] == Piece::Blank,
            decreases size - j,
        {
            proof { lemma_coords(w as int, h as int, j as int); }
            new_pieces[j as usize] = self.get(w - 1 - j % w, j / w);
            j = j + 1;
        }
        self.pieces = new_pieces;
        assert(self@.cells =~= flipped(v).cells);
    }

    /// Swaps roles: cows and persons trade places, and so do barns and houses.
    pub fn switch_cow_person(&mut self)
        requires
            old(self)@.wf(),
        ensures
            final(self)@ == role_swapped(old(self)@),
            final(self)@.wf(),
    {
        let ghost v = self@;
        let mut i: usize = 0;
        while i < MAX_BOARD_SIZE
            invariant
                self.width == v.width,
                self.height == v.height,
                self@.cells.len() == MAX_BOARD_SIZE,
                i <= MAX_BOARD_SIZE,
                forall|k: int| 0 <= k < i ==> self@.cells[k] == swap_role(v.cells[k]),
                forall|k: int| i <= k < MAX_BOARD_SIZE ==> self@.cells[k] == v.cells[k],
            decreases MAX_BOARD_SIZE - i,
        {
            let piece = self.pieces[i];
            match piece {
                Piece::Cow => self.pieces[i] = Piece::Person,
                Piece::Person => self.pieces[i] = Piece::Cow,
                Piece::House => self.pieces[i] = Piece::Barn,
                Piece::Barn => self.pieces[i] = Piece::House,
                _ => {},
            }
            i = i + 1;
        }
        assert(self@.cells =~= role_swapped(v).cells);
    }

    /// The sixteen symmetric variants of a rectangular board: four
    /// rotations, four rotations of the mirror image, then those eight with
    /// roles swapped. Symmetric boards give repeated members.
    pub fn get_symmetric_variants(&self) -> (r: Vec<Board>)
        requires
            self@.wf(),
        ensures
            boards_view(r@) == symmetric_variants(self@),
            r@.len() == 16,
            forall|k: int| 0 <= k < r@.len() ==> (#[trigger] r@[k])@.wf(),
    {
        let ghost v = self@;
        let mut variants: Vec<Board> = Vec::new();
        let mut board = *self;
        variants.push(board);
        let mut t: usize = 0;
        while t < 3
            invariant
                board@.wf(),
                0 <= t <= 3,
                variants@.len() == t + 1,
                board == variants@[t as int],
                forall|k: int| 0 <= k < variants@.len() ==> (#[trigger] variants@[k])@.wf(),
                forall|k: int|
                    0 <= k < variants@.len() ==> (#[trigger] variants@[k])@
                        == geometric_variants(v)[k],
            decreases 3 - t,
        {
            board.rotate();
            variants.push(board);
            t = t + 1;
        }
        board.flip_horizontal();
        variants.push(board);
        let mut t: usize = 0;
        while t < 3
            invariant
                board@.wf(),
                0 <= t <= 3,
                variants@.len() == t + 5,
                board == variants@[t + 4],
                forall|k: int| 0 <= k < variants@.len() ==> (#[trigger] variants@[k])@.wf(),
                forall|k: int|
                    0 <= k < variants@.len() ==> (#[trigger] variants@[k])@
                        == geometric_variants(v)[k],
            decreases 3 - t,
        {
            board.rotate();
            variants.push(board);
            t = t + 1;
        }
        let count = variants.len();
        let mut i: usize = 0;
        while i < count
            invariant
                count == 8,
                0 <= i <= 8,
                variants@.len() == 8 + i,
                forall|k: int| 0 <= k < variants@.len() ==> (#[trigger] variants@[k])@.wf(),
                forall|k: int| 0 <= k < 8 ==> (#[trigger] variants@[k])@ == geometric_variants(v)[k],
                forall|k: int|
                    8 <= k < variants@.len() ==> (#[trigger] variants@[k])@ == role_swapped(
                        geometric_variants(v)[k - 8],
                    ),
            decreases count - i,
        {
            let mut board = variants[i];
            board.switch_cow_person();
            variants.push(board);
            i = i + 1;
        }
        assert(boards_view(variants@) =~= symmetric_variants(v));
        variants
    }
}

} // verus!
