//! The forward move engine: a mover slides in a straight line until it is
//! blocked or lands on its own goal.
use vstd::prelude::*;
use crate::board::{Board, BoardView, Geometry, Piece, is_mover, lemma_index_in_grid};
use crate::geometry::{direction_count, directions, lemma_step, neighbor, room, step};

verus! {

/// The scan in the current direction ends without a move.
pub open spec fn stops(cell: Piece) -> bool {
    cell == Piece::Empty
}

/// `cell` halts `mover` on the cell before it.
pub open spec fn blocks(mover: Piece, cell: Piece) -> bool {
    cell == Piece::Person || cell == Piece::Cow || (cell == Piece::House && mover == Piece::Cow)
        || (cell == Piece::Barn && mover == Piece::Person)
}

/// `cell` is the goal that takes `mover` in.
pub open spec fn absorbs(mover: Piece, cell: Piece) -> bool {
    (cell == Piece::House && mover == Piece::Person) || (cell == Piece::Barn && mover == Piece::Cow)
}

/// The move, as (destination, puller), that `mover` gets by sliding from
/// (x, y) in direction `d`; `moved` tells whether it has already passed a
/// blank cell. Sliding off the edge of the grid gives no move.
pub open spec fn slide(v: BoardView, g: Geometry, mover: Piece, x: int, y: int, d: int, moved: bool) -> Option<(int, int)>
    decreases room(g, v.width, v.height, x, y, d),
{
    match step(g, v.width, v.height, x, y, d) {
        None => None,
        Some(n) => {
            let c = v.cells[v.index_of(n.0, n.1)];
            if stops(c) {
                None
            } else if blocks(mover, c) {
                if moved {
                    Some((v.index_of(x, y), v.index_of(n.0, n.1)))
                } else {
                    None
                }
            } else if absorbs(mover, c) {
                Some((v.index_of(n.0, n.1), v.index_of(n.0, n.1)))
            } else if room(g, v.width, v.height, n.0, n.1, d) < room(g, v.width, v.height, x, y, d) {
                slide(v, g, mover, n.0, n.1, d, true)
            } else {
                None
            }
        },
    }
}

pub open spec fn opt_seq<T>(o: Option<T>) -> Seq<T> {
    match o {
        Some(t) => seq![t],
        None => seq![],
    }
}

/// Moves of `mover` at (x, y) over the first `n` directions, in order.
pub open spec fn dir_moves(v: BoardView, g: Geometry, mover: Piece, x: int, y: int, n: int) -> Seq<(int, int)>
    decreases n,
{
    if n <= 0 {
        seq![]
    } else {
        dir_moves(v, g, mover, x, y, n - 1) + opt_seq(slide(v, g, mover, x, y, n - 1, false))
    }
}

/// Moves, as (destination, puller), of the piece at linear index `i`.
pub open spec fn moves_from(v: BoardView, g: Geometry, i: int) -> Seq<(int, int)> {
    dir_moves(v, g, v.cells[i], i % v.width, i / v.width, direction_count(g))
}

pub open spec fn pairs_view(s: Seq<(u8, u8)>) -> Seq<(int, int)> {
    s.map_values(|p: (u8, u8)| (p.0 as int, p.1 as int))
}

/// The board after the piece at `from` moves to `to`: `from` becomes blank;
/// a blank destination takes the mover, a goal destination absorbs it.
pub open spec fn apply_move(v: BoardView, from: int, to: int) -> BoardView {
    let cleared = v.with_cell(from, Piece::Blank);
    if v.cells[to] == Piece::Blank {
        cleared.with_cell(to, v.cells[from])
    } else {
        cleared
    }
}

/// A legal forward move of the mover at `from`.
pub open spec fn legal_move(v: BoardView, g: Geometry, from: int, to: int, puller: int) -> bool {
    &&& 0 <= from < v.size()
    &&& is_mover(v.cells[from])
    &&& moves_from(v, g, from).contains((to, puller))
}

/// Children of the movers at the first `n` indices, as (board, from, to, puller).
pub open spec fn moves_at(v: BoardView, g: Geometry, i: int) -> Seq<(BoardView, int, int, int)> {
    if is_mover(v.cells[i]) {
        moves_from(v, g, i).map_values(|m: (int, int)| (apply_move(v, i, m.0), i, m.0, m.1))
    } else {
        seq![]
    }
}

pub open spec fn moves_upto(v: BoardView, g: Geometry, n: int) -> Seq<(BoardView, int, int, int)>
    decreases n,
{
    if n <= 0 {
        seq![]
    } else {
        moves_upto(v, g, n - 1) + moves_at(v, g, n - 1)
    }
}

/// Every child of `v`, movers taken in index order.
pub open spec fn possible_moves(v: BoardView, g: Geometry) -> Seq<(BoardView, int, int, int)> {
    moves_upto(v, g, v.size())
}

pub open spec fn children_view(s: Seq<(Board, u8, u8, u8)>) -> Seq<(BoardView, int, int, int)> {
    s.map_values(|e: (Board, u8, u8, u8)| (e.0@, e.1 as int, e.2 as int, e.3 as int))
}

/// Every cell from (x, y), exclusive, to the edge of the grid in direction
/// `d` is blank.
pub open spec fn clear_to_edge(v: BoardView, g: Geometry, x: int, y: int, d: int) -> bool
    decreases room(g, v.width, v.height, x, y, d),
{
    match step(g, v.width, v.height, x, y, d) {
        None => true,
        Some(n) => {
            &&& v.cells[v.index_of(n.0, n.1)] == Piece::Blank
            &&& room(g, v.width, v.height, n.0, n.1, d) < room(g, v.width, v.height, x, y, d)
                ==> clear_to_edge(v, g, n.0, n.1, d)
        },
    }
}

/// A mover with only blank cells between it and the edge of the grid in
/// direction `d` has no move in that direction.
pub proof fn lemma_no_move_to_open_edge(v: BoardView, g: Geometry, mover: Piece, x: int, y: int, d: int, moved: bool)
    requires
        clear_to_edge(v, g, x, y, d),
    ensures
        slide(v, g, mover, x, y, d, moved) is None,
    decreases room(g, v.width, v.height, x, y, d),
{
    if let Some(n) = step(g, v.width, v.height, x, y, d) {
        if room(g, v.width, v.height, n.0, n.1, d) < room(g, v.width, v.height, x, y, d) {
            lemma_no_move_to_open_edge(v, g, mover, n.0, n.1, d, true);
        }
    }
}

/// Records the move that scanning onto `new_piece` gives `piece`, and tells
/// whether the scan stops there.
fn check_move(
    piece: Piece,
    new_piece: Piece,
    moves: &mut Vec<(u8, u8)>,
    space: u8,
    prev_space: u8,
    has_prev_space: bool,
) -> (r: bool)
    ensures
        r == (stops(new_piece) || blocks(piece, new_piece) || absorbs(piece, new_piece)),
        final(moves)@ == old(moves)@ + if stops(new_piece) {
            seq![]
        } else if blocks(piece, new_piece) {
            if has_prev_space {
                seq![(prev_space, space)]
            } else {
                seq![]
            }
        } else if absorbs(piece, new_piece) {
            seq![(space, space)]
        } else {
            seq![]
        },
{
    if new_piece == Piece::Empty {
        return true;
    }
    if new_piece == Piece::Person || new_piece == Piece::Cow || (new_piece == Piece::House && piece
        == Piece::Cow) || (new_piece == Piece::Barn && piece == Piece::Person) {
        if has_prev_space {
            moves.push((prev_space, space));
        }
        return true;
    }
    if (new_piece == Piece::House && piece == Piece::Person) || (new_piece == Piece::Barn && piece
        == Piece::Cow) {
        moves.push((space, space));
        return true;
    }
    false
}

/// Column and row of a linear index on the grid.
pub proof fn lemma_div_mod_index(v: BoardView, i: int)
    requires
        v.wf(),
        0 <= i < v.size(),
    ensures
        0 <= i % v.width < v.width,
        0 <= i / v.width < v.height,
        v.index_of(i % v.width, i / v.width) == i,
{
    assert(0 <= i / v.width < v.height) by (nonlinear_arith)
        requires
            0 <= i < v.width * v.height,
            1 <= v.width,
    ;
    assert(i == (i / v.width) * v.width + i % v.width) by (nonlinear_arith)
        requires
            1 <= v.width,
    ;
}

impl Board {
    /// Every move, as (destination, puller), of the piece at `index`,
    /// directions taken in scan order.
    pub fn get_moves_from(&self, index: u8, geometry: Geometry) -> (r: Vec<(u8, u8)>)
        requires
            self@.wf(),
            index < self@.size(),
        ensures
            pairs_view(r@) == moves_from(self@, geometry, index as int),
    {
        let ghost v = self@;
        proof {
            lemma_div_mod_index(v, index as int);
            lemma_index_in_grid(v, 0, 0);
        }
        let mut moves: Vec<(u8, u8)> = Vec::new();
        let w = self.width;
        let h = self.height;
        let x = index % w;
        let y = index / w;
        let piece = self.get(x, y);
        let n = directions(geometry);
        let mut d: u8 = 0;
        while d < n
            invariant
                v == self@,
                v.wf(),
                w == v.width,
                h == v.height,
                x < w,
                y < h,
                piece == v.cells[index as int],
                v.index_of(x as int, y as int) == index,
                n == direction_count(geometry),
                d <= n,
                x as int == index as int % v.width,
                y as int == index as int / v.width,
                pairs_view(moves@) == dir_moves(v, geometry, piece, x as int, y as int, d as int),
            decreases n - d,
        {
            let ghost before = moves@;
            let mut cx = x;
            let mut cy = y;
            let mut moved = false;
            loop
                invariant_except_break
                    cx < w,
                    cy < h,
                    moves@ == before,
                    slide(v, geometry, piece, x as int, y as int, d as int, false) == slide(
                        v,
                        geometry,
                        piece,
                        cx as int,
                        cy as int,
                        d as int,
                        moved,
                    ),
                invariant
                    v == self@,
                    v.wf(),
                    w == v.width,
                    h == v.height,
                ensures
                    pairs_view(moves@) == pairs_view(before) + opt_seq(
                        slide(v, geometry, piece, x as int, y as int, d as int, false),
                    ),
                decreases room(geometry, w as int, h as int, cx as int, cy as int, d as int),
            {
                proof {
                    lemma_step(geometry, w as int, h as int, cx as int, cy as int, d as int);
                }
                match neighbor(geometry, w, h, cx, cy, d) {
                    None => {
                        assert(pairs_view(moves@) =~= pairs_view(before) + opt_seq(
                            slide(v, geometry, piece, x as int, y as int, d as int, false),
                        ));
                        break ;
                    },
                    Some(next) => {
                        let (nx, ny) = next;
                        proof {
                            lemma_index_in_grid(v, nx as int, ny as int);
                            lemma_index_in_grid(v, cx as int, cy as int);
                        }
                        let c = self.get(nx, ny);
                        if check_move(piece, c, &mut moves, ny * w + nx, cy * w + cx, moved) {
                            assert(pairs_view(moves@) =~= pairs_view(before) + opt_seq(
                                slide(v, geometry, piece, x as int, y as int, d as int, false),
                            ));
                            break ;
                        }
                        cx = nx;
                        cy = ny;
                        moved = true;
                    },
                }
            }
            d = d + 1;
        }
        moves
    }
}


proof fn lemma_slide_in_grid(v: BoardView, g: Geometry, mover: Piece, x: int, y: int, d: int, moved: bool)
    requires
        v.wf(),
        0 <= x < v.width,
        0 <= y < v.height,
    ensures
        slide(v, g, mover, x, y, d, moved) matches Some(m) ==> 0 <= m.0 < v.size() && 0 <= m.1
            < v.size(),
    decreases room(g, v.width, v.height, x, y, d),
{
    lemma_step(g, v.width, v.height, x, y, d);
    lemma_index_in_grid(v, x, y);
    if let Some(n) = step(g, v.width, v.height, x, y, d) {
        lemma_index_in_grid(v, n.0, n.1);
        lemma_slide_in_grid(v, g, mover, n.0, n.1, d, true);
    }
}

proof fn lemma_dir_moves_in_grid(v: BoardView, g: Geometry, mover: Piece, x: int, y: int, n: int)
    requires
        v.wf(),
        0 <= x < v.width,
        0 <= y < v.height,
    ensures
        forall|k: int|
            0 <= k < dir_moves(v, g, mover, x, y, n).len() ==> 0 <= (#[trigger] dir_moves(
                v,
                g,
                mover,
                x,
                y,
                n,
            )[k]).0 < v.size() && 0 <= dir_moves(v, g, mover, x, y, n)[k].1 < v.size(),
    decreases n,
{
    if n > 0 {
        lemma_dir_moves_in_grid(v, g, mover, x, y, n - 1);
        lemma_slide_in_grid(v, g, mover, x, y, n - 1, false);
        let a = dir_moves(v, g, mover, x, y, n - 1);
        let b = opt_seq(slide(v, g, mover, x, y, n - 1, false));
        assert forall|k: int| 0 <= k < dir_moves(v, g, mover, x, y, n).len() implies 0 <= (
        #[trigger] dir_moves(v, g, mover, x, y, n)[k]).0 < v.size() && 0 <= dir_moves(
            v,
            g,
            mover,
            x,
            y,
            n,
        )[k].1 < v.size() by {
            if k >= a.len() {
                assert(dir_moves(v, g, mover, x, y, n)[k] == b[k - a.len()]);
            } else {
                assert(dir_moves(v, g, mover, x, y, n)[k] == a[k]);
            }
        }
    }
}

/// Destinations and pullers of the moves from a cell lie on the grid.
pub proof fn lemma_moves_from_in_grid(v: BoardView, g: Geometry, i: int)
    requires
        v.wf(),
        0 <= i < v.size(),
    ensures
        forall|k: int|
            0 <= k < moves_from(v, g, i).len() ==> 0 <= (#[trigger] moves_from(v, g, i)[k]).0
                < v.size() && 0 <= moves_from(v, g, i)[k].1 < v.size(),
{
    lemma_div_mod_index(v, i);
    lemma_dir_moves_in_grid(v, g, v.cells[i], i % v.width, i / v.width, direction_count(g));
}

/// Applying a move keeps a board well formed.
pub proof fn lemma_apply_move_wf(v: BoardView, from: int, to: int)
    requires
        v.wf(),
        0 <= from < v.size(),
        0 <= to < v.size(),
    ensures
        apply_move(v, from, to).wf(),
        apply_move(v, from, to).width == v.width,
        apply_move(v, from, to).height == v.height,
{
}

proof fn lemma_moves_upto_legal(v: BoardView, g: Geometry, n: int)
    requires
        v.wf(),
        n <= v.size(),
    ensures
        forall|k: int|
            0 <= k < moves_upto(v, g, n).len() ==> {
                let e = #[trigger] moves_upto(v, g, n)[k];
                &&& legal_move(v, g, e.1, e.2, e.3)
                &&& e.0 == apply_move(v, e.1, e.2)
                &&& 0 <= e.2 < v.size()
                &&& 0 <= e.3 < v.size()
            },
    decreases n,
{
    if n > 0 {
        lemma_moves_upto_legal(v, g, n - 1);
        let i = n - 1;
        if is_mover(v.cells[i]) {
            lemma_moves_from_in_grid(v, g, i);
            let ms = moves_from(v, g, i);
            assert forall|k: int| 0 <= k < ms.len() implies ms.contains(#[trigger] ms[k]) by {}
        }
        let a = moves_upto(v, g, n - 1);
        let b = moves_at(v, g, i);
        assert forall|k: int| 0 <= k < moves_upto(v, g, n).len() implies {
            let e = #[trigger] moves_upto(v, g, n)[k];
            &&& legal_move(v, g, e.1, e.2, e.3)
            &&& e.0 == apply_move(v, e.1, e.2)
            &&& 0 <= e.2 < v.size()
            &&& 0 <= e.3 < v.size()
        } by {
            if k >= a.len() {
                assert(moves_upto(v, g, n)[k] == b[k - a.len()]);
            } else {
                assert(moves_upto(v, g, n)[k] == a[k]);
            }
        }
    }
}

/// Each child is a legal move of the board, applied.
pub proof fn lemma_possible_moves_legal(v: BoardView, g: Geometry)
    requires
        v.wf(),
    ensures
        forall|k: int|
            0 <= k < possible_moves(v, g).len() ==> {
                let e = #[trigger] possible_moves(v, g)[k];
                &&& legal_move(v, g, e.1, e.2, e.3)
                &&& e.0 == apply_move(v, e.1, e.2)
                &&& e.0.wf()
            },
{
    lemma_moves_upto_legal(v, g, v.size());
    assert forall|k: int| 0 <= k < possible_moves(v, g).len() implies {
        let e = #[trigger] possible_moves(v, g)[k];
        &&& legal_move(v, g, e.1, e.2, e.3)
        &&& e.0 == apply_move(v, e.1, e.2)
        &&& e.0.wf()
    } by {
        let e = possible_moves(v, g)[k];
        lemma_apply_move_wf(v, e.1, e.2);
    }
}

proof fn lemma_legal_in_moves_upto(v: BoardView, g: Geometry, f: int, t: int, p: int, n: int)
    requires
        v.wf(),
        legal_move(v, g, f, t, p),
        f < n <= v.size(),
    ensures
        moves_upto(v, g, n).contains((apply_move(v, f, t), f, t, p)),
    decreases n,
{
    let e = (apply_move(v, f, t), f, t, p);
    let a = moves_upto(v, g, n - 1);
    let b = moves_at(v, g, n - 1);
    if f < n - 1 {
        lemma_legal_in_moves_upto(v, g, f, t, p, n - 1);
        let k = choose|k: int| 0 <= k < a.len() && a[k] == e;
        assert(moves_upto(v, g, n)[k] == e);
    } else {
        let ms = moves_from(v, g, f);
        let j = choose|j: int| 0 <= j < ms.len() && ms[j] == (t, p);
        assert(b[j] == e);
        assert(moves_upto(v, g, n)[a.len() + j] == e);
    }
}

/// Every legal move of a board appears among its children.
pub proof fn lemma_legal_is_child(v: BoardView, g: Geometry, f: int, t: int, p: int)
    requires
        v.wf(),
        legal_move(v, g, f, t, p),
    ensures
        possible_moves(v, g).contains((apply_move(v, f, t), f, t, p)),
{
    lemma_legal_in_moves_upto(v, g, f, t, p, v.size());
}

impl Board {
    /// Every child of this board, as (board, from, to, puller), movers taken
    /// in index order and each mover's moves in scan order.
    pub fn get_possible_moves(&self, geometry: Geometry) -> (r: Vec<(Board, u8, u8, u8)>)
        requires
            self@.wf(),
        ensures
            children_view(r@) == possible_moves(self@, geometry),
    {
        let ghost v = self@;
        proof { lemma_index_in_grid(v, 0, 0); }
        let mut moves: Vec<(Board, u8, u8, u8)> = Vec::new();
        let size = self.width * self.height;
        let mut i: u8 = 0;
        while i < size
            invariant
                v == self@,
                v.wf(),
                size == v.size(),
                i <= size,
                children_view(moves@) == moves_upto(v, geometry, i as int),
            decreases size - i,
        {
            let piece = self.pieces[i as usize];
            if piece == Piece::Cow || piece == Piece::Person {
                let destinations = self.get_moves_from(i, geometry);
                proof { lemma_moves_from_in_grid(v, geometry, i as int); }
                let ghost all = moves_at(v, geometry, i as int);
                let ghost start = children_view(moves@);
                let mut j: usize = 0;
                while j < destinations.len()
                    invariant
                        v == self@,
                        v.wf(),
                        size == v.size(),
                        i < size,
                        piece == v.cells[i as int],
                        is_mover(piece),
                        all == moves_at(v, geometry, i as int),
                        pairs_view(destinations@) == moves_from(v, geometry, i as int),
                        forall|k: int|
                            0 <= k < moves_from(v, geometry, i as int).len() ==> 0 <= (
                            #[trigger] moves_from(v, geometry, i as int)[k]).0 < v.size(),
                        j <= destinations.len(),
                        children_view(moves@) == start + all.take(j as int),
                    decreases destinations.len() - j,
                {
                    let (destination, puller) = destinations[j];
                    assert(moves_from(v, geometry, i as int)[j as int] == (destination as int, puller as int));
                    let mut new_board = *self;
                    let destination_piece = new_board.pieces[destination as usize];
                    new_board.set_index(i as usize, Piece::Blank);
                    if destination_piece == Piece::Blank {
                        new_board.set_index(destination as usize, piece);
                    }
                    assert(new_board@ == apply_move(v, i as int, destination as int));
                    let ghost prev = moves@;
                    moves.push((new_board, i, destination, puller));
                    assert(all[j as int] == (new_board@, i as int, destination as int, puller as int));
                    assert(children_view(moves@) =~= children_view(prev).push(all[j as int]));
                    assert(all.take(j + 1) =~= all.take(j as int).push(all[j as int]));
                    assert(children_view(moves@) =~= start + all.take(j + 1));
                    j = j + 1;
                }
                assert(all.take(j as int) =~= all);
            } else {
                assert(moves_at(v, geometry, i as int) =~= seq![]);
            }
            assert(moves_upto(v, geometry, i + 1) == moves_upto(v, geometry, i as int) + moves_at(v, geometry, i as int));
            assert(children_view(moves@) =~= moves_upto(v, geometry, i + 1));
            i = i + 1;
        }
        moves
    }
}

} // verus!
