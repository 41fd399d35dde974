//! The reverse move engine: the transitions that a forward move could have
//! taken to reach the current board.
use vstd::prelude::*;
use crate::board::{Board, BoardView, Geometry, Piece, is_goal, is_mover, lemma_index_in_grid};
use crate::geometry::{direction_count, directions, lemma_step, lemma_step_back, neighbor, opposite, room, step};
use crate::moves::{apply_move, children_view, dir_moves, legal_move, lemma_div_mod_index, opt_seq, slide};
use crate::symmetry::lemma_index_coords;

verus! {

/// Linear indices of the blank cells met when stepping from (x, y) in
/// direction `d`, nearest first, up to the first cell that is not blank.
pub open spec fn blank_run(v: BoardView, g: Geometry, x: int, y: int, d: int) -> Seq<int>
    decreases room(g, v.width, v.height, x, y, d),
{
    match step(g, v.width, v.height, x, y, d) {
        None => seq![],
        Some(n) => {
            if v.cells[v.index_of(n.0, n.1)] != Piece::Blank {
                seq![]
            } else if room(g, v.width, v.height, n.0, n.1, d) < room(g, v.width, v.height, x, y, d) {
                seq![v.index_of(n.0, n.1)] + blank_run(v, g, n.0, n.1, d)
            } else {
                seq![]
            }
        },
    }
}

/// The mover that a goal takes in.
pub open spec fn mover_for(goal: Piece) -> Piece {
    if goal == Piece::House {
        Piece::Person
    } else {
        Piece::Cow
    }
}

/// Reverse transitions (from, to, puller, piece to place) for the piece
/// `tp` at index `t`, whose neighbour in the scanned direction is the piece
/// `ap` at index `a`; `run` holds the candidate origins.
pub open spec fn reverse_entries(tp: Piece, t: int, a: int, ap: Piece, run: Seq<int>) -> Seq<(int, int, int, Piece)> {
    if ap == Piece::Empty || is_goal(ap) {
        seq![]
    } else if ap == Piece::Blank {
        if is_mover(tp) {
            seq![]
        } else {
            run.map_values(|f: int| (f, t, t, mover_for(tp)))
        }
    } else if (ap == Piece::Cow && tp == Piece::Barn) || (ap == Piece::Person && tp == Piece::House) {
        seq![]
    } else {
        run.map_values(|f: int| (f, a, t, ap))
    }
}

/// Reverse transitions arriving at (x, y) from direction `d`: an absorbed
/// mover coming back out of a goal, or a mover halted next to (x, y)
/// moving back to where it started.
pub open spec fn reverse_dir(v: BoardView, g: Geometry, x: int, y: int, d: int) -> Seq<(int, int, int, Piece)> {
    match step(g, v.width, v.height, x, y, d) {
        None => seq![],
        Some(a) => {
            let ap = v.cells[v.index_of(a.0, a.1)];
            let run = if ap == Piece::Blank {
                blank_run(v, g, x, y, d)
            } else {
                blank_run(v, g, a.0, a.1, d)
            };
            reverse_entries(v.cells[v.index_of(x, y)], v.index_of(x, y), v.index_of(a.0, a.1), ap, run)
        },
    }
}

pub open spec fn reverse_dirs(v: BoardView, g: Geometry, x: int, y: int, n: int) -> Seq<(int, int, int, Piece)>
    decreases n,
{
    if n <= 0 {
        seq![]
    } else {
        reverse_dirs(v, g, x, y, n - 1) + reverse_dir(v, g, x, y, n - 1)
    }
}

/// Reverse transitions (from, to, puller, piece to place) that end at index `i`.
pub open spec fn reverse_transitions(v: BoardView, g: Geometry, i: int) -> Seq<(int, int, int, Piece)> {
    if v.cells[i] == Piece::Blank || v.cells[i] == Piece::Empty {
        seq![]
    } else {
        reverse_dirs(v, g, i % v.width, i / v.width, direction_count(g))
    }
}

pub open spec fn quads_view(s: Seq<(u8, u8, u8, Piece)>) -> Seq<(int, int, int, Piece)> {
    s.map_values(|q: (u8, u8, u8, Piece)| (q.0 as int, q.1 as int, q.2 as int, q.3))
}

pub open spec fn indices_view(s: Seq<u8>) -> Seq<int> {
    s.map_values(|i: u8| i as int)
}

/// The board before the reverse transition: `from` gets the piece back and
/// `to` is cleared, unless the transition undoes an absorption (`to == puller`).
pub open spec fn undo_move(v: BoardView, from: int, to: int, puller: int, piece: Piece) -> BoardView {
    let placed = v.with_cell(from, piece);
    if to != puller {
        placed.with_cell(to, Piece::Blank)
    } else {
        placed
    }
}

pub open spec fn previous_at(v: BoardView, g: Geometry, i: int) -> Seq<(BoardView, int, int, int)> {
    reverse_transitions(v, g, i).map_values(
        |m: (int, int, int, Piece)| (undo_move(v, m.0, m.1, m.2, m.3), m.0, m.1, m.2),
    )
}

pub open spec fn previous_upto(v: BoardView, g: Geometry, n: int) -> Seq<(BoardView, int, int, int)>
    decreases n,
{
    if n <= 0 {
        seq![]
    } else {
        previous_upto(v, g, n - 1) + previous_at(v, g, n - 1)
    }
}

/// Every predecessor of `v`, as (board, from, to, puller), target cells
/// taken in index order.
pub open spec fn previous_boards(v: BoardView, g: Geometry) -> Seq<(BoardView, int, int, int)> {
    previous_upto(v, g, v.size())
}

proof fn lemma_blank_run_in_grid(v: BoardView, g: Geometry, x: int, y: int, d: int)
    requires
        v.wf(),
        0 <= x < v.width,
        0 <= y < v.height,
    ensures
        forall|k: int|
            0 <= k < blank_run(v, g, x, y, d).len() ==> 0 <= #[trigger] blank_run(v, g, x, y, d)[k]
                < v.size(),
    decreases room(g, v.width, v.height, x, y, d),
{
    lemma_step(g, v.width, v.height, x, y, d);
    if let Some(n) = step(g, v.width, v.height, x, y, d) {
        lemma_index_in_grid(v, n.0, n.1);
        lemma_blank_run_in_grid(v, g, n.0, n.1, d);
        let r = blank_run(v, g, n.0, n.1, d);
        if v.cells[v.index_of(n.0, n.1)] == Piece::Blank {
            assert forall|k: int| 0 <= k < blank_run(v, g, x, y, d).len() implies 0
                <= #[trigger] blank_run(v, g, x, y, d)[k] < v.size() by {
                if k > 0 {
                    assert(blank_run(v, g, x, y, d)[k] == r[k - 1]);
                }
            }
        }
    }
}

pub open spec fn quads_in_grid(v: BoardView, s: Seq<(int, int, int, Piece)>) -> bool {
    forall|k: int|
        0 <= k < s.len() ==> 0 <= (#[trigger] s[k]).0 < v.size() && 0 <= s[k].1 < v.size() && 0
            <= s[k].2 < v.size()
}

proof fn lemma_reverse_dirs_in_grid(v: BoardView, g: Geometry, x: int, y: int, n: int)
    requires
        v.wf(),
        0 <= x < v.width,
        0 <= y < v.height,
    ensures
        quads_in_grid(v, reverse_dirs(v, g, x, y, n)),
    decreases n,
{
    if n > 0 {
        lemma_reverse_dirs_in_grid(v, g, x, y, n - 1);
        let d = n - 1;
        lemma_step(g, v.width, v.height, x, y, d);
        lemma_index_in_grid(v, x, y);
        lemma_blank_run_in_grid(v, g, x, y, d);
        if let Some(a) = step(g, v.width, v.height, x, y, d) {
            lemma_index_in_grid(v, a.0, a.1);
            lemma_blank_run_in_grid(v, g, a.0, a.1, d);
        }
        let p = reverse_dirs(v, g, x, y, n - 1);
        let q = reverse_dir(v, g, x, y, d);
        assert forall|k: int| 0 <= k < reverse_dirs(v, g, x, y, n).len() implies 0 <= (
        #[trigger] reverse_dirs(v, g, x, y, n)[k]).0 < v.size() && 0 <= reverse_dirs(
            v,
            g,
            x,
            y,
            n,
        )[k].1 < v.size() && 0 <= reverse_dirs(v, g, x, y, n)[k].2 < v.size() by {
            if k >= p.len() {
                assert(reverse_dirs(v, g, x, y, n)[k] == q[k - p.len()]);
            } else {
                assert(reverse_dirs(v, g, x, y, n)[k] == p[k]);
            }
        }
    }
}

/// Origins, targets and pullers of the reverse transitions lie on the grid.
pub proof fn lemma_reverse_moves_in_grid(v: BoardView, g: Geometry, i: int)
    requires
        v.wf(),
        0 <= i < v.size(),
    ensures
        quads_in_grid(v, reverse_transitions(v, g, i)),
{
    lemma_div_mod_index(v, i);
    lemma_reverse_dirs_in_grid(v, g, i % v.width, i / v.width, direction_count(g));
}

proof fn lemma_previous_upto_wf(v: BoardView, g: Geometry, n: int)
    requires
        v.wf(),
        n <= v.size(),
    ensures
        forall|k: int|
            0 <= k < previous_upto(v, g, n).len() ==> {
                let e = #[trigger] previous_upto(v, g, n)[k];
                &&& e.0.wf()
                &&& e.0.width == v.width
                &&& e.0.height == v.height
            },
    decreases n,
{
    if n > 0 {
        lemma_previous_upto_wf(v, g, n - 1);
        let i = n - 1;
        lemma_reverse_moves_in_grid(v, g, i);
        let a = previous_upto(v, g, n - 1);
        let b = previous_at(v, g, i);
        assert forall|k: int| 0 <= k < previous_upto(v, g, n).len() implies {
            let e = #[trigger] previous_upto(v, g, n)[k];
            &&& e.0.wf()
            &&& e.0.width == v.width
            &&& e.0.height == v.height
        } by {
            if k >= a.len() {
                assert(previous_upto(v, g, n)[k] == b[k - a.len()]);
                let m = reverse_transitions(v, g, i)[k - a.len()];
                assert(b[k - a.len()].0 == undo_move(v, m.0, m.1, m.2, m.3));
            } else {
                assert(previous_upto(v, g, n)[k] == a[k]);
            }
        }
    }
}

/// Predecessors of a well-formed board are well formed, of the same size.
pub proof fn lemma_previous_boards_wf(v: BoardView, g: Geometry)
    requires
        v.wf(),
    ensures
        forall|k: int|
            0 <= k < previous_boards(v, g).len() ==> {
                let e = #[trigger] previous_boards(v, g)[k];
                &&& e.0.wf()
                &&& e.0.width == v.width
                &&& e.0.height == v.height
            },
{
    lemma_previous_upto_wf(v, g, v.size());
}

/// Room left in direction `d` at the cell with linear index `c`.
pub open spec fn room_at(v: BoardView, g: Geometry, c: int, d: int) -> int {
    room(g, v.width, v.height, c % v.width, c / v.width, d)
}

proof fn lemma_run_facts(v: BoardView, g: Geometry, x: int, y: int, d: int)
    requires
        v.wf(),
        0 <= x < v.width,
        0 <= y < v.height,
    ensures
        forall|k: int|
            0 <= k < blank_run(v, g, x, y, d).len() ==> {
                let c = #[trigger] blank_run(v, g, x, y, d)[k];
                &&& 0 <= c < v.size()
                &&& v.cells[c] == Piece::Blank
                &&& room_at(v, g, c, d) < room(g, v.width, v.height, x, y, d)
            },
        forall|i: int, k: int|
            0 <= i < k < blank_run(v, g, x, y, d).len() ==> room_at(v, g, #[trigger] blank_run(v, g, x, y, d)[k], d)
                < room_at(v, g, #[trigger] blank_run(v, g, x, y, d)[i], d),
    decreases room(g, v.width, v.height, x, y, d),
{
    lemma_step(g, v.width, v.height, x, y, d);
    let run = blank_run(v, g, x, y, d);
    if let Some(n) = step(g, v.width, v.height, x, y, d) {
        lemma_index_in_grid(v, n.0, n.1);
        lemma_index_coords(v.width, v.height, n.0, n.1);
        lemma_run_facts(v, g, n.0, n.1, d);
        let rest = blank_run(v, g, n.0, n.1, d);
        if v.cells[v.index_of(n.0, n.1)] == Piece::Blank {
            assert(run == seq![v.index_of(n.0, n.1)] + rest);
            assert forall|k: int| 0 <= k < run.len() implies {
                let c = #[trigger] run[k];
                &&& 0 <= c < v.size()
                &&& v.cells[c] == Piece::Blank
                &&& room_at(v, g, c, d) < room(g, v.width, v.height, x, y, d)
            } by {
                if k > 0 {
                    assert(run[k] == rest[k - 1]);
                }
            }
            assert forall|i: int, k: int| 0 <= i < k < run.len() implies room_at(v, g, #[trigger] run[k], d)
                < room_at(v, g, #[trigger] run[i], d) by {
                assert(run[k] == rest[k - 1]);
                if i > 0 {
                    assert(run[i] == rest[i - 1]);
                }
            }
        }
    }
}

/// Sliding back towards (x, y) from the `k`-th cell of the blank run from
/// (x, y) in direction `d` passes over the nearer cells of the run.
proof fn lemma_walk_back(v: BoardView, p: BoardView, g: Geometry, m: Piece, x: int, y: int, d: int, k: int, moved: bool)
    requires
        v.wf(),
        p.width == v.width,
        p.height == v.height,
        0 <= x < v.width,
        0 <= y < v.height,
        0 <= d < direction_count(g),
        0 <= k < blank_run(v, g, x, y, d).len(),
        forall|i: int| 0 <= i < k ==> p.cells[#[trigger] blank_run(v, g, x, y, d)[i]] == Piece::Blank,
    ensures
        ({
            let f = blank_run(v, g, x, y, d)[k];
            let n1 = step(g, v.width, v.height, x, y, d)->0;
            slide(p, g, m, f % v.width, f / v.width, opposite(g, d), moved) == slide(
                p,
                g,
                m,
                n1.0,
                n1.1,
                opposite(g, d),
                moved || k > 0,
            )
        }),
    decreases room(g, v.width, v.height, x, y, d),
{
    lemma_step(g, v.width, v.height, x, y, d);
    let run = blank_run(v, g, x, y, d);
    let n1 = step(g, v.width, v.height, x, y, d)->0;
    lemma_index_in_grid(v, n1.0, n1.1);
    lemma_index_coords(v.width, v.height, n1.0, n1.1);
    let rest = blank_run(v, g, n1.0, n1.1, d);
    assert(run == seq![v.index_of(n1.0, n1.1)] + rest);
    if k > 0 {
        assert forall|i: int| 0 <= i < k - 1 implies p.cells[#[trigger] rest[i]] == Piece::Blank by {
            assert(rest[i] == run[i + 1]);
        }
        lemma_walk_back(v, p, g, m, n1.0, n1.1, d, k - 1, moved);
        assert(run[k] == rest[k - 1]);
        lemma_step(g, v.width, v.height, n1.0, n1.1, d);
        let n2 = step(g, v.width, v.height, n1.0, n1.1, d)->0;
        lemma_step_back(g, v.width, v.height, n1.0, n1.1, d);
        lemma_step(g, v.width, v.height, n2.0, n2.1, opposite(g, d));
        assert(p.cells[run[0]] == Piece::Blank);
        assert(slide(p, g, m, n2.0, n2.1, opposite(g, d), moved || k - 1 > 0) == slide(
            p,
            g,
            m,
            n1.0,
            n1.1,
            opposite(g, d),
            true,
        ));
    }
}

/// What the forward engine does with a reverse transition `e`: on the board
/// before it, the placed mover moves from `e.0` in direction `d` to `e.1`,
/// pulled by `e.2`, and that move gives `v` back.
pub open spec fn undone_by_slide(v: BoardView, g: Geometry, e: (int, int, int, Piece), d: int) -> bool {
    let p = undo_move(v, e.0, e.1, e.2, e.3);
    &&& 0 <= e.0 < v.size()
    &&& 0 <= e.1 < v.size()
    &&& p.cells[e.0] == e.3
    &&& is_mover(e.3)
    &&& p.wf()
    &&& slide(p, g, e.3, e.0 % v.width, e.0 / v.width, d, false) == Some((e.1, e.2))
    &&& apply_move(p, e.0, e.1) == v
}

#[verifier::rlimit(40)]
proof fn lemma_absorption_undone(v: BoardView, g: Geometry, x: int, y: int, d: int, q: int)
    requires
        v.wf(),
        0 <= x < v.width,
        0 <= y < v.height,
        0 <= d < direction_count(g),
        is_goal(v.cells[v.index_of(x, y)]),
        step(g, v.width, v.height, x, y, d) is Some,
        0 <= q < blank_run(v, g, x, y, d).len(),
    ensures
        undone_by_slide(
            v,
            g,
            (blank_run(v, g, x, y, d)[q], v.index_of(x, y), v.index_of(x, y), mover_for(v.cells[v.index_of(x, y)])),
            opposite(g, d),
        ),
{
    let w = v.width;
    let h = v.height;
    let e = opposite(g, d);
    lemma_step(g, w, h, x, y, d);
    lemma_step_back(g, w, h, x, y, d);
    lemma_index_in_grid(v, x, y);
    lemma_index_coords(w, h, x, y);
    let t = v.index_of(x, y);
    let tp = v.cells[t];
    let a = step(g, w, h, x, y, d)->0;
    lemma_index_in_grid(v, a.0, a.1);
    lemma_index_coords(w, h, a.0, a.1);
    lemma_step(g, w, h, a.0, a.1, e);
    let run = blank_run(v, g, x, y, d);
    lemma_run_facts(v, g, x, y, d);
    let mv = mover_for(tp);
    let f = run[q];
    let p = v.with_cell(f, mv);
    assert(undo_move(v, f, t, t, mv) == p);
    assert forall|i: int| 0 <= i < q implies p.cells[#[trigger] run[i]] == Piece::Blank by {
        assert(room_at(v, g, run[q], d) < room_at(v, g, run[i], d));
    }
    lemma_walk_back(v, p, g, mv, x, y, d, q, false);
    assert(room_at(v, g, f, d) < room(g, w, h, x, y, d));
    assert(f != t);
    assert(p.cells[t] == tp);
    assert(slide(p, g, mv, a.0, a.1, e, q > 0) == Some((t, t)));
    assert(apply_move(p, f, t).cells =~= v.cells);
}

#[verifier::rlimit(40)]
proof fn lemma_blocked_undone(v: BoardView, g: Geometry, x: int, y: int, d: int, q: int)
    requires
        v.wf(),
        0 <= x < v.width,
        0 <= y < v.height,
        0 <= d < direction_count(g),
        step(g, v.width, v.height, x, y, d) is Some,
        ({
            let a = step(g, v.width, v.height, x, y, d)->0;
            let ap = v.cells[v.index_of(a.0, a.1)];
            let tp = v.cells[v.index_of(x, y)];
            &&& is_mover(ap)
            &&& tp != Piece::Blank
            &&& tp != Piece::Empty
            &&& !((ap == Piece::Cow && tp == Piece::Barn) || (ap == Piece::Person && tp == Piece::House))
            &&& 0 <= q < blank_run(v, g, a.0, a.1, d).len()
        }),
    ensures
        ({
            let a = step(g, v.width, v.height, x, y, d)->0;
            let ai = v.index_of(a.0, a.1);
            undone_by_slide(
                v,
                g,
                (blank_run(v, g, a.0, a.1, d)[q], ai, v.index_of(x, y), v.cells[ai]),
                opposite(g, d),
            )
        }),
{
    let w = v.width;
    let h = v.height;
    let e = opposite(g, d);
    lemma_step(g, w, h, x, y, d);
    lemma_step_back(g, w, h, x, y, d);
    lemma_index_in_grid(v, x, y);
    lemma_index_coords(w, h, x, y);
    let t = v.index_of(x, y);
    let tp = v.cells[t];
    let a = step(g, w, h, x, y, d)->0;
    lemma_index_in_grid(v, a.0, a.1);
    lemma_index_coords(w, h, a.0, a.1);
    lemma_step(g, w, h, a.0, a.1, e);
    let ai = v.index_of(a.0, a.1);
    let ap = v.cells[ai];
    let run = blank_run(v, g, a.0, a.1, d);
    lemma_run_facts(v, g, a.0, a.1, d);
    assert(ai != t);
    let f = run[q];
    let p = v.with_cell(f, ap).with_cell(ai, Piece::Blank);
    assert(undo_move(v, f, ai, t, ap) == p);
    assert(room_at(v, g, f, d) < room(g, w, h, a.0, a.1, d));
    assert(f != ai);
    assert(f != t);
    assert forall|i: int| 0 <= i < q implies p.cells[#[trigger] run[i]] == Piece::Blank by {
        assert(room_at(v, g, run[q], d) < room_at(v, g, run[i], d));
    }
    lemma_walk_back(v, p, g, ap, a.0, a.1, d, q, false);
    lemma_step(g, w, h, a.0, a.1, d);
    lemma_step_back(g, w, h, a.0, a.1, d);
    let n1 = step(g, w, h, a.0, a.1, d)->0;
    lemma_step(g, w, h, n1.0, n1.1, e);
    assert(p.cells[ai] == Piece::Blank);
    assert(p.cells[t] == tp);
    assert(slide(p, g, ap, a.0, a.1, e, true) == Some((ai, t)));
    assert(slide(p, g, ap, n1.0, n1.1, e, q > 0) == Some((ai, t)));
    assert(apply_move(p, f, ai).cells =~= v.cells);
}

proof fn lemma_reverse_dir_undone(v: BoardView, g: Geometry, x: int, y: int, d: int)
    requires
        v.wf(),
        0 <= x < v.width,
        0 <= y < v.height,
        0 <= d < direction_count(g),
        v.cells[v.index_of(x, y)] != Piece::Blank,
        v.cells[v.index_of(x, y)] != Piece::Empty,
    ensures
        forall|q: int|
            0 <= q < reverse_dir(v, g, x, y, d).len() ==> undone_by_slide(
                v,
                g,
                #[trigger] reverse_dir(v, g, x, y, d)[q],
                opposite(g, d),
            ),
{
    let w = v.width;
    let h = v.height;
    lemma_index_in_grid(v, x, y);
    let t = v.index_of(x, y);
    let tp = v.cells[t];
    if let Some(a) = step(g, w, h, x, y, d) {
        lemma_step(g, w, h, x, y, d);
        lemma_index_in_grid(v, a.0, a.1);
        let ai = v.index_of(a.0, a.1);
        let ap = v.cells[ai];
        let entries = reverse_dir(v, g, x, y, d);
        if ap == Piece::Blank && !is_mover(tp) {
            assert forall|q: int| 0 <= q < entries.len() implies undone_by_slide(v, g, #[trigger] entries[q], opposite(g, d)) by {
                lemma_absorption_undone(v, g, x, y, d, q);
            }
        } else if is_mover(ap) && !((ap == Piece::Cow && tp == Piece::Barn) || (ap == Piece::Person
            && tp == Piece::House)) {
            assert forall|q: int| 0 <= q < entries.len() implies undone_by_slide(v, g, #[trigger] entries[q], opposite(g, d)) by {
                lemma_blocked_undone(v, g, x, y, d, q);
            }
        } else {
            assert(entries.len() == 0);
        }
    }
}

proof fn lemma_dir_moves_contains(p: BoardView, g: Geometry, m: Piece, x: int, y: int, n: int, d: int)
    requires
        0 <= d < n,
        slide(p, g, m, x, y, d, false) is Some,
    ensures
        dir_moves(p, g, m, x, y, n).contains(slide(p, g, m, x, y, d, false)->0),
    decreases n,
{
    let r = slide(p, g, m, x, y, d, false)->0;
    let prev = dir_moves(p, g, m, x, y, n - 1);
    let last = opt_seq(slide(p, g, m, x, y, n - 1, false));
    if d < n - 1 {
        lemma_dir_moves_contains(p, g, m, x, y, n - 1, d);
        let k = choose|k: int| 0 <= k < prev.len() && prev[k] == r;
        assert(dir_moves(p, g, m, x, y, n)[k] == r);
    } else {
        assert(dir_moves(p, g, m, x, y, n)[prev.len() as int] == r);
    }
}

/// A reverse transition undone by a slide is a legal forward move on the
/// board before it, which gives the board back.
proof fn lemma_undone_is_legal(v: BoardView, g: Geometry, e: (int, int, int, Piece), d: int)
    requires
        v.wf(),
        0 <= d < direction_count(g),
        undone_by_slide(v, g, e, d),
    ensures
        legal_move(undo_move(v, e.0, e.1, e.2, e.3), g, e.0, e.1, e.2),
        apply_move(undo_move(v, e.0, e.1, e.2, e.3), e.0, e.1) == v,
        undo_move(v, e.0, e.1, e.2, e.3).wf(),
{
    let p = undo_move(v, e.0, e.1, e.2, e.3);
    lemma_dir_moves_contains(p, g, e.3, e.0 % v.width, e.0 / v.width, direction_count(g), d);
}

proof fn lemma_reverse_dirs_undone(v: BoardView, g: Geometry, x: int, y: int, n: int)
    requires
        v.wf(),
        0 <= x < v.width,
        0 <= y < v.height,
        n <= direction_count(g),
        v.cells[v.index_of(x, y)] != Piece::Blank,
        v.cells[v.index_of(x, y)] != Piece::Empty,
    ensures
        forall|q: int|
            0 <= q < reverse_dirs(v, g, x, y, n).len() ==> {
                let e = #[trigger] reverse_dirs(v, g, x, y, n)[q];
                &&& legal_move(undo_move(v, e.0, e.1, e.2, e.3), g, e.0, e.1, e.2)
                &&& apply_move(undo_move(v, e.0, e.1, e.2, e.3), e.0, e.1) == v
            },
    decreases n,
{
    if n > 0 {
        lemma_reverse_dirs_undone(v, g, x, y, n - 1);
        lemma_reverse_dir_undone(v, g, x, y, n - 1);
        let a = reverse_dirs(v, g, x, y, n - 1);
        let b = reverse_dir(v, g, x, y, n - 1);
        lemma_step_back(g, v.width, v.height, x, y, n - 1);
        assert forall|q: int| 0 <= q < reverse_dirs(v, g, x, y, n).len() implies {
            let e = #[trigger] reverse_dirs(v, g, x, y, n)[q];
            &&& legal_move(undo_move(v, e.0, e.1, e.2, e.3), g, e.0, e.1, e.2)
            &&& apply_move(undo_move(v, e.0, e.1, e.2, e.3), e.0, e.1) == v
        } by {
            if q < a.len() {
                assert(reverse_dirs(v, g, x, y, n)[q] == a[q]);
            } else {
                assert(reverse_dirs(v, g, x, y, n)[q] == b[q - a.len()]);
                lemma_undone_is_legal(v, g, b[q - a.len()], opposite(g, n - 1));
            }
        }
    }
}

proof fn lemma_previous_upto_undone(v: BoardView, g: Geometry, n: int)
    requires
        v.wf(),
        n <= v.size(),
    ensures
        forall|k: int|
            0 <= k < previous_upto(v, g, n).len() ==> {
                let e = #[trigger] previous_upto(v, g, n)[k];
                &&& legal_move(e.0, g, e.1, e.2, e.3)
                &&& apply_move(e.0, e.1, e.2) == v
            },
    decreases n,
{
    if n > 0 {
        lemma_previous_upto_undone(v, g, n - 1);
        let i = n - 1;
        lemma_div_mod_index(v, i);
        if v.cells[i] != Piece::Blank && v.cells[i] != Piece::Empty {
            lemma_reverse_dirs_undone(v, g, i % v.width, i / v.width, direction_count(g));
        }
        let a = previous_upto(v, g, n - 1);
        let b = previous_at(v, g, i);
        assert forall|k: int| 0 <= k < previous_upto(v, g, n).len() implies {
            let e = #[trigger] previous_upto(v, g, n)[k];
            &&& legal_move(e.0, g, e.1, e.2, e.3)
            &&& apply_move(e.0, e.1, e.2) == v
        } by {
            if k < a.len() {
                assert(previous_upto(v, g, n)[k] == a[k]);
            } else {
                assert(previous_upto(v, g, n)[k] == b[k - a.len()]);
                let m = reverse_transitions(v, g, i)[k - a.len()];
                assert(b[k - a.len()] == (undo_move(v, m.0, m.1, m.2, m.3), m.0, m.1, m.2));
            }
        }
    }
}

/// The reverse engine inverts the forward one: every predecessor, moved
/// forward by the recorded move, gives the board back.
pub proof fn lemma_previous_boards_undone(v: BoardView, g: Geometry)
    requires
        v.wf(),
    ensures
        forall|k: int|
            0 <= k < previous_boards(v, g).len() ==> {
                let e = #[trigger] previous_boards(v, g)[k];
                &&& legal_move(e.0, g, e.1, e.2, e.3)
                &&& apply_move(e.0, e.1, e.2) == v
            },
{
    lemma_previous_upto_undone(v, g, v.size());
}

impl Board {
    /// Appends to `reverse_moves` the reverse transitions through the
    /// neighbour at `adjacent_index` of the target `this_index`, one for
    /// each candidate origin in `direction_indices`.
    fn check_reverse_direction(
        &self,
        reverse_moves: &mut Vec<(u8, u8, u8, Piece)>,
        this_piece: Piece,
        this_index: u8,
        adjacent_index: u8,
        direction_indices: Vec<u8>,
    )
        requires
            self@.wf(),
            adjacent_index < self@.size(),
        ensures
            quads_view(final(reverse_moves)@) == quads_view(old(reverse_moves)@) + reverse_entries(
                this_piece,
                this_index as int,
                adjacent_index as int,
                self@.cells[adjacent_index as int],
                indices_view(direction_indices@),
            ),
    {
        let ghost start = quads_view(reverse_moves@);
        let adjacent_piece = self.pieces[adjacent_index as usize];
        let ghost entries = reverse_entries(
            this_piece,
            this_index as int,
            adjacent_index as int,
            adjacent_piece,
            indices_view(direction_indices@),
        );
        if adjacent_piece == Piece::Empty || adjacent_piece == Piece::House || adjacent_piece
            == Piece::Barn {
            assert(quads_view(reverse_moves@) =~= start + entries);
            return ;
        }
        if adjacent_piece == Piece::Blank && (this_piece == Piece::Cow || this_piece == Piece::Person) {
            assert(quads_view(reverse_moves@) =~= start + entries);
            return ;
        }
        if (adjacent_piece == Piece::Cow && this_piece == Piece::Barn) || (adjacent_piece
            == Piece::Person && this_piece == Piece::House) {
            assert(quads_view(reverse_moves@) =~= start + entries);
            return ;
        }
        let (to, placed) = if adjacent_piece == Piece::Blank {
            let piece_to_create = match this_piece {
                Piece::House => Piece::Person,
                _ => Piece::Cow,
            };
            (this_index, piece_to_create)
        } else {
            (adjacent_index, adjacent_piece)
        };
        let mut k: usize = 0;
        while k < direction_indices.len()
            invariant
                k <= direction_indices.len(),
                entries.len() == direction_indices.len(),
                forall|j: int|
                    0 <= j < direction_indices.len() ==> #[trigger] entries[j] == (
                        direction_indices@[j] as int,
                        to as int,
                        this_index as int,
                        placed,
                    ),
                quads_view(reverse_moves@) == start + entries.take(k as int),
            decreases direction_indices.len() - k,
        {
            let ghost prev = reverse_moves@;
            reverse_moves.push((direction_indices[k], to, this_index, placed));
            assert(quads_view(reverse_moves@) =~= quads_view(prev).push(entries[k as int]));
            assert(entries.take(k + 1) =~= entries.take(k as int).push(entries[k as int]));
            k = k + 1;
        }
        assert(entries.take(k as int) =~= entries);
    }
}


impl Board {
    /// Indices of the blank cells met when stepping from (x, y) in
    /// direction `d`, nearest first.
    fn blank_cells_from(&self, geometry: Geometry, x: u8, y: u8, d: u8) -> (r: Vec<u8>)
        requires
            self@.wf(),
            x < self.width,
            y < self.height,
        ensures
            indices_view(r@) == blank_run(self@, geometry, x as int, y as int, d as int),
    {
        let ghost v = self@;
        let w = self.width;
        let h = self.height;
        proof { lemma_index_in_grid(v, 0, 0); }
        let mut run: Vec<u8> = Vec::new();
        let mut cx = x;
        let mut cy = y;
        loop
            invariant_except_break
                cx < w,
                cy < h,
                indices_view(run@) + blank_run(v, geometry, cx as int, cy as int, d as int)
                    == blank_run(v, geometry, x as int, y as int, d as int),
            invariant
                v == self@,
                v.wf(),
                w == v.width,
                h == v.height,
            ensures
                indices_view(run@) == blank_run(v, geometry, x as int, y as int, d as int),
            decreases room(geometry, w as int, h as int, cx as int, cy as int, d as int),
        {
            proof {
                lemma_step(geometry, w as int, h as int, cx as int, cy as int, d as int);
            }
            match neighbor(geometry, w, h, cx, cy, d) {
                None => {
                    assert(indices_view(run@) =~= indices_view(run@) + blank_run(
                        v,
                        geometry,
                        cx as int,
                        cy as int,
                        d as int,
                    ));
                    break ;
                },
                Some(next) => {
                    let (nx, ny) = next;
                    proof { lemma_index_in_grid(v, nx as int, ny as int); }
                    if self.get(nx, ny) != Piece::Blank {
                        assert(indices_view(run@) =~= indices_view(run@) + blank_run(
                            v,
                            geometry,
                            cx as int,
                            cy as int,
                            d as int,
                        ));
                        break ;
                    }
                    let ghost prev = run@;
                    run.push(ny * w + nx);
                    assert(indices_view(run@) =~= indices_view(prev).push(
                        v.index_of(nx as int, ny as int),
                    ));
                    assert(indices_view(run@) + blank_run(v, geometry, nx as int, ny as int, d as int)
                        =~= indices_view(prev) + blank_run(v, geometry, cx as int, cy as int, d as int));
                    cx = nx;
                    cy = ny;
                },
            }
        }
        run
    }

    /// Every reverse transition (from, to, puller, piece to place) that ends
    /// at `index`, directions taken in scan order.
    pub fn get_reverse_moves(&self, index: u8, geometry: Geometry) -> (r: Vec<(u8, u8, u8, Piece)>)
        requires
            self@.wf(),
            index < self@.size(),
        ensures
            quads_view(r@) == reverse_transitions(self@, geometry, index as int),
    {
        let ghost v = self@;
        let mut reverse_moves: Vec<(u8, u8, u8, Piece)> = Vec::new();
        proof {
            lemma_div_mod_index(v, index as int);
            lemma_index_in_grid(v, 0, 0);
        }
        let w = self.width;
        let h = self.height;
        let x = index % w;
        let y = index / w;
        let this_piece = self.get(x, y);
        if this_piece == Piece::Blank || this_piece == Piece::Empty {
            assert(quads_view(reverse_moves@) =~= seq![]);
            return reverse_moves;
        }
        let n = directions(geometry);
        let mut d: u8 = 0;
        while d < n
            invariant
                v == self@,
                v.wf(),
                w == v.width,
                h == v.height,
                x < w,
                y < h,
                this_piece == v.cells[index as int],
                v.index_of(x as int, y as int) == index,
                n == direction_count(geometry),
                d <= n,
                quads_view(reverse_moves@) == reverse_dirs(v, geometry, x as int, y as int, d as int),
            decreases n - d,
        {
            proof {
                lemma_step(geometry, w as int, h as int, x as int, y as int, d as int);
            }
            match neighbor(geometry, w, h, x, y, d) {
                None => {
                    assert(quads_view(reverse_moves@) =~= reverse_dirs(
                        v,
                        geometry,
                        x as int,
                        y as int,
                        d + 1,
                    ));
                },
                Some(adjacent) => {
                    let (ax, ay) = adjacent;
                    proof { lemma_index_in_grid(v, ax as int, ay as int); }
                    let adjacent_index = ay * w + ax;
                    let mut direction_indices: Vec<u8>;
                    if self.pieces[adjacent_index as usize] == Piece::Blank {
                        direction_indices = self.blank_cells_from(geometry, x, y, d);
                    } else {
                        direction_indices = self.blank_cells_from(geometry, ax, ay, d);
                    }
                    self.check_reverse_direction(
                        &mut reverse_moves,
                        this_piece,
                        index,
                        adjacent_index,
                        direction_indices,
                    );
                },
            }
            d = d + 1;
        }
        reverse_moves
    }

    /// Every predecessor of this board, as (board, from, to, puller),
    /// target cells taken in index order.
    pub fn get_possible_previous_boards(&self, geometry: Geometry) -> (r: Vec<(Board, u8, u8, u8)>)
        requires
            self@.wf(),
        ensures
            children_view(r@) == previous_boards(self@, geometry),
    {
        let ghost v = self@;
        proof { lemma_index_in_grid(v, 0, 0); }
        let mut boards: Vec<(Board, u8, u8, u8)> = Vec::new();
        let size = self.width * self.height;
        let mut i: u8 = 0;
        while i < size
            invariant
                v == self@,
                v.wf(),
                size == v.size(),
                i <= size,
                children_view(boards@) == previous_upto(v, geometry, i as int),
            decreases size - i,
        {
            let reverse_moves = self.get_reverse_moves(i, geometry);
            proof { lemma_reverse_moves_in_grid(v, geometry, i as int); }
            let ghost all = previous_at(v, geometry, i as int);
            let ghost start = children_view(boards@);
            let mut j: usize = 0;
            while j < reverse_moves.len()
                invariant
                    v == self@,
                    v.wf(),
                    size == v.size(),
                    i < size,
                    all == previous_at(v, geometry, i as int),
                    quads_view(reverse_moves@) == reverse_transitions(v, geometry, i as int),
                    quads_in_grid(v, reverse_transitions(v, geometry, i as int)),
                    j <= reverse_moves.len(),
                    children_view(boards@) == start + all.take(j as int),
                decreases reverse_moves.len() - j,
            {
                let (from, to, puller, piece) = reverse_moves[j];
                assert(reverse_transitions(v, geometry, i as int)[j as int] == (
                    from as int,
                    to as int,
                    puller as int,
                    piece,
                ));
                let mut new_board = *self;
                new_board.set_index(from as usize, piece);
                if to != puller {
                    new_board.set_index(to as usize, Piece::Blank);
                }
                let ghost prev = boards@;
                boards.push((new_board, from, to, puller));
                assert(all[j as int] == (new_board@, from as int, to as int, puller as int));
                assert(children_view(boards@) =~= children_view(prev).push(all[j as int]));
                assert(all.take(j + 1) =~= all.take(j as int).push(all[j as int]));
                j = j + 1;
            }
            assert(all.take(j as int) =~= all);
            assert(children_view(boards@) =~= previous_upto(v, geometry, i + 1));
            i = i + 1;
        }
        boards
    }
}

} // verus!
