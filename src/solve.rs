//! The forward solvers: breadth-first search for a shortest solution, and
//! the same search behind a memo table that keeps exact solutions across
//! calls; and the elegance predicates on solutions.
use vstd::prelude::*;
use vstd::std_specs::hash::group_hash_axioms;
use std::collections::{HashMap, HashSet};
use crate::board::{Board, BoardView, Geometry, Piece, MAX_BOARD_SIZE};
use crate::key::{board_key, key_bound, lemma_key_bound, lemma_key_injective, lemma_key_set_bound};
use crate::moves::{
    apply_move, children_view, legal_move, lemma_apply_move_wf, lemma_legal_is_child,
    lemma_moves_from_in_grid, lemma_possible_moves_legal, moves_from, possible_moves,
};

verus! {

broadcast use group_hash_axioms;

#[derive(Clone, Copy, Debug, PartialEq, Eq, Structural)]
pub struct Move {
    pub from: u8,
    pub to: u8,
    pub puller: u8,
}

#[derive(Clone, Debug)]
pub struct Solution {
    pub moves: Vec<Move>,
    pub move_count: u8,
    pub tree_size: usize,
    pub can_be_solved: bool,
}

pub ghost struct SolutionView {
    pub moves: Seq<Move>,
    pub move_count: int,
    pub tree_size: int,
    pub can_be_solved: bool,
}

impl View for Solution {
    type V = SolutionView;

    open spec fn view(&self) -> SolutionView {
        SolutionView {
            moves: self.moves@,
            move_count: self.move_count as int,
            tree_size: self.tree_size as int,
            can_be_solved: self.can_be_solved,
        }
    }
}

/// Playing `moves` from `v`, each one legal where it is played, ends on a
/// solved board.
pub open spec fn plays_to_solved(v: BoardView, g: Geometry, moves: Seq<Move>) -> bool
    decreases moves.len(),
{
    if moves.len() == 0 {
        v.solved()
    } else {
        let m = moves[0];
        &&& legal_move(v, g, m.from as int, m.to as int, m.puller as int)
        &&& plays_to_solved(apply_move(v, m.from as int, m.to as int), g, moves.drop_first())
    }
}

/// A move count as stored in a `u8`: saturated at 255.
pub open spec fn saturated_count(n: int) -> int {
    if n < 255 {
        n
    } else {
        255
    }
}

/// `n` saturated at 255.
pub fn count_moves(n: usize) -> (r: u8)
    ensures
        r == saturated_count(n as int),
{
    if n < 255 {
        n as u8
    } else {
        255
    }
}

/// The solution of a board that is already solved.
pub open spec fn solved_view() -> SolutionView {
    SolutionView { moves: seq![], move_count: 0, tree_size: 1, can_be_solved: true }
}

/// What every solution the solver hands out satisfies for its board: a
/// solvable verdict comes with a move sequence that solves the board, of
/// as many moves as `move_count` says (counts saturate at 255); an
/// unsolvable one with no moves; a solved board gets the empty solution.
pub open spec fn solution_sound(v: BoardView, g: Geometry, s: SolutionView) -> bool {
    &&& s.tree_size >= 1
    &&& s.can_be_solved ==> plays_to_solved(v, g, s.moves) && s.move_count == saturated_count(
        s.moves.len() as int,
    )
    &&& !s.can_be_solved ==> s.moves.len() == 0 && s.move_count == 0
    &&& v.solved() ==> s == solved_view()
}

/// A solution that is sound, whose verdict is exact (unsolvable only when no
/// move sequence solves the board) and whose moves are a shortest solution.
pub open spec fn exact_solution(v: BoardView, g: Geometry, s: SolutionView) -> bool {
    &&& solution_sound(v, g, s)
    &&& s.can_be_solved || unsolvable(v, g)
    &&& s.can_be_solved ==> shortest(v, g, s.moves)
    &&& possible_moves(v, g).len() == 0 ==> s.tree_size == 1
}

/// Memo table of one solver run: board key to solution, for one geometry.
pub struct SolutionMap {
    geometry: Geometry,
    map: HashMap<u128, Solution>,
}

impl SolutionMap {
    pub closed spec fn geometry(self) -> Geometry {
        self.geometry
    }

    /// The solution remembered for `v`, if any.
    pub closed spec fn entry(self, v: BoardView) -> Option<SolutionView> {
        if self.map@.contains_key(board_key(v) as u128) {
            Some(self.map@[board_key(v) as u128]@)
        } else {
            None
        }
    }

    /// Every remembered solution is exact for its board.
    pub closed spec fn wf(self) -> bool {
        forall|v: BoardView|
            v.wf() && #[trigger] self.entry(v) is Some ==> exact_solution(
                v,
                self.geometry,
                self.entry(v)->0,
            )
    }

    /// An empty memo table for boards of geometry `geometry`.
    pub fn new(geometry: Geometry) -> (r: SolutionMap)
        ensures
            r.wf(),
            r.geometry() == geometry,
            forall|v: BoardView| #[trigger] r.entry(v) is None,
    {
        SolutionMap { geometry, map: HashMap::new() }
    }

    /// The geometry this table's solutions were computed in.
    pub fn get_geometry(&self) -> (r: Geometry)
        ensures
            r == self.geometry(),
    {
        self.geometry
    }

    /// Remembers `s` for `board`.
    fn remember(&mut self, board: &Board, key: u128, s: Solution)
        requires
            old(self).wf(),
            board@.wf(),
            key == board_key(board@),
            exact_solution(board@, old(self).geometry(), s@),
        ensures
            final(self).wf(),
            final(self).geometry() == old(self).geometry(),
            final(self).entry(board@) == Some(s@),
            forall|v: BoardView| v.wf() && v != board@ ==> #[trigger] final(self).entry(v) == old(self).entry(v),
    {
        self.map.insert(key, s);
        assert forall|v: BoardView| v.wf() && v != board@ implies #[trigger] self.entry(v) == old(self).entry(v) by {
            lemma_key_bound(v);
            lemma_key_bound(board@);
            if board_key(v) == board_key(board@) {
                lemma_key_injective(v, board@);
            }
        }
        assert forall|v: BoardView| v.wf() && #[trigger] self.entry(v) is Some implies exact_solution(
            v,
            self.geometry,
            self.entry(v)->0,
        ) by {
            lemma_key_bound(v);
            lemma_key_bound(board@);
            if board_key(v) == board_key(board@) {
                lemma_key_injective(v, board@);
            } else {
                assert(old(self).entry(v) is Some);
            }
        }
    }
}

/// What `solve` promises for `b`, run with the table `before`, leaving the
/// table `after`, returning `r`: `r` is exact, `after` remembers `r` for
/// `b` and keeps every other entry, and a board that `before` already
/// remembered gets the remembered solution.
pub open spec fn solve_post(b: BoardView, before: SolutionMap, after: SolutionMap, r: SolutionView) -> bool {
    &&& exact_solution(b, before.geometry(), r)
    &&& after.geometry() == before.geometry()
    &&& after.entry(b) == Some(r)
    &&& forall|v: BoardView| v.wf() && v != b ==> #[trigger] after.entry(v) == before.entry(v)
    &&& before.entry(b) is Some ==> r == before.entry(b)->0
}

/// Solving a board twice in a row, the second time with the table the first
/// run left, gives identical solutions: same verdict, move count, moves and
/// tree size.
pub proof fn lemma_solve_repeatable(
    b: BoardView,
    m0: SolutionMap,
    m1: SolutionMap,
    m2: SolutionMap,
    r1: SolutionView,
    r2: SolutionView,
)
    requires
        solve_post(b, m0, m1, r1),
        solve_post(b, m1, m2, r2),
    ensures
        r1 == r2,
{
}

/// Two runs of `solve` on a board, with any tables of the same geometry,
/// give the same verdict and the same number of moves.
pub proof fn lemma_solve_runs_agree(
    b: BoardView,
    m0: SolutionMap,
    m1: SolutionMap,
    n0: SolutionMap,
    n1: SolutionMap,
    r1: SolutionView,
    r2: SolutionView,
)
    requires
        solve_post(b, m0, m1, r1),
        solve_post(b, n0, n1, r2),
        m0.geometry() == n0.geometry(),
    ensures
        r1.can_be_solved == r2.can_be_solved,
        r1.moves.len() == r2.moves.len(),
        r1.move_count == r2.move_count,
{
    let g = m0.geometry();
    if r1.can_be_solved {
        assert(plays_to_solved(b, g, r1.moves));
    }
    if r2.can_be_solved {
        assert(plays_to_solved(b, g, r2.moves));
    }
}

impl Solution {
    /// A copy of this solution.
    pub fn duplicate(&self) -> (r: Solution)
        ensures
            r@ == self@,
    {
        let mut moves: Vec<Move> = Vec::new();
        let mut k: usize = 0;
        while k < self.moves.len()
            invariant
                k <= self.moves@.len(),
                moves@ == self.moves@.take(k as int),
            decreases self.moves@.len() - k,
        {
            moves.push(self.moves[k]);
            assert(self.moves@.take(k + 1) =~= self.moves@.take(k as int).push(self.moves@[k as int]));
            k = k + 1;
        }
        assert(self.moves@.take(k as int) =~= self.moves@);
        Solution {
            moves,
            move_count: self.move_count,
            tree_size: self.tree_size,
            can_be_solved: self.can_be_solved,
        }
    }
}

/// Solves `board`, reusing the solution remembered in `solution_map` when
/// there is one; otherwise by breadth-first search, whose result is then
/// remembered. Every remembered solution is exact and shortest, so the table
/// stays valid across calls.
pub fn solve(board: Board, solution_map: &mut SolutionMap) -> (r: Solution)
    requires
        board@.wf(),
        old(solution_map).wf(),
    ensures
        final(solution_map).wf(),
        solve_post(board@, *old(solution_map), *final(solution_map), r@),
{
    let key = board.key();
    proof { lemma_key_bound(board@); }
    if solution_map.map.contains_key(&key) {
        let s = solution_map.map.get(&key).unwrap();
        assert(solution_map.entry(board@) is Some);
        return s.duplicate();
    }
    let solution = solve_breadth_first(board, solution_map.geometry);
    solution_map.remember(&board, key, solution.duplicate());
    solution
}

/// Playing `moves` from `v`, each one legal where it is played, ends on `end`.
pub open spec fn plays_to(v: BoardView, g: Geometry, moves: Seq<Move>, end: BoardView) -> bool
    decreases moves.len(),
{
    if moves.len() == 0 {
        end == v
    } else {
        let m = moves[0];
        &&& legal_move(v, g, m.from as int, m.to as int, m.puller as int)
        &&& plays_to(apply_move(v, m.from as int, m.to as int), g, moves.drop_first(), end)
    }
}

proof fn lemma_plays_extend(v: BoardView, g: Geometry, moves: Seq<Move>, u: BoardView, m: Move)
    requires
        plays_to(v, g, moves, u),
        legal_move(u, g, m.from as int, m.to as int, m.puller as int),
    ensures
        plays_to(v, g, moves.push(m), apply_move(u, m.from as int, m.to as int)),
    decreases moves.len(),
{
    if moves.len() > 0 {
        let first = moves[0];
        lemma_plays_extend(apply_move(v, first.from as int, first.to as int), g, moves.drop_first(), u, m);
        assert(moves.push(m).drop_first() =~= moves.drop_first().push(m));
        assert(moves.push(m)[0] == first);
    } else {
        assert(moves.push(m).drop_first() =~= Seq::<Move>::empty());
        assert(moves.push(m)[0] == m);
        assert(plays_to(apply_move(u, m.from as int, m.to as int), g, Seq::<Move>::empty(), apply_move(u, m.from as int, m.to as int)));
    }
}

pub proof fn lemma_plays_solved(v: BoardView, g: Geometry, moves: Seq<Move>, end: BoardView)
    requires
        plays_to(v, g, moves, end),
        end.solved(),
    ensures
        plays_to_solved(v, g, moves),
    decreases moves.len(),
{
    if moves.len() > 0 {
        let first = moves[0];
        lemma_plays_solved(apply_move(v, first.from as int, first.to as int), g, moves.drop_first(), end);
    }
}

fn copy_path(v: &Vec<Move>) -> (r: Vec<Move>)
    ensures
        r@ == v@,
{
    let mut r: Vec<Move> = Vec::new();
    let mut k: usize = 0;
    while k < v.len()
        invariant
            k <= v@.len(),
            r@ == v@.take(k as int),
        decreases v@.len() - k,
    {
        r.push(v[k]);
        assert(v@.take(k + 1) =~= v@.take(k as int).push(v@[k as int]));
        k = k + 1;
    }
    assert(v@.take(k as int) =~= v@);
    r
}

/// Playing a legal sequence from a well-formed board ends on a well-formed
/// board.
proof fn lemma_plays_wf(v: BoardView, g: Geometry, moves: Seq<Move>, u: BoardView)
    requires
        v.wf(),
        plays_to(v, g, moves, u),
    ensures
        u.wf(),
    decreases moves.len(),
{
    if moves.len() > 0 {
        let m = moves[0];
        lemma_moves_from_in_grid(v, g, m.from as int);
        let ms = moves_from(v, g, m.from as int);
        let j = choose|j: int| 0 <= j < ms.len() && ms[j] == (m.to as int, m.puller as int);
        lemma_apply_move_wf(v, m.from as int, m.to as int);
        lemma_plays_wf(apply_move(v, m.from as int, m.to as int), g, moves.drop_first(), u);
    }
}

/// The board before the last move of a legal sequence.
proof fn lemma_plays_split(v: BoardView, g: Geometry, moves: Seq<Move>, u: BoardView) -> (w: BoardView)
    requires
        moves.len() > 0,
        plays_to(v, g, moves, u),
    ensures
        plays_to(v, g, moves.drop_last(), w),
        legal_move(w, g, moves.last().from as int, moves.last().to as int, moves.last().puller as int),
        u == apply_move(w, moves.last().from as int, moves.last().to as int),
    decreases moves.len(),
{
    let m0 = moves[0];
    let v1 = apply_move(v, m0.from as int, m0.to as int);
    let rest = moves.drop_first();
    if rest.len() == 0 {
        assert(moves.drop_last() =~= Seq::<Move>::empty());
        assert(moves.last() == m0);
        assert(plays_to(v1, g, rest, u));
        assert(u == v1);
        v
    } else {
        let w = lemma_plays_split(v1, g, rest, u);
        assert(rest.last() == moves.last());
        assert(moves.drop_last().drop_first() =~= rest.drop_last());
        assert(moves.drop_last()[0] == m0);
        w
    }
}

/// A solving sequence ends on a solved board.
proof fn lemma_solving_end(v: BoardView, g: Geometry, moves: Seq<Move>) -> (u: BoardView)
    requires
        plays_to_solved(v, g, moves),
    ensures
        plays_to(v, g, moves, u),
        u.solved(),
    decreases moves.len(),
{
    if moves.len() == 0 {
        v
    } else {
        let m = moves[0];
        lemma_solving_end(apply_move(v, m.from as int, m.to as int), g, moves.drop_first())
    }
}

/// No solving sequence from `v` is shorter than `moves`.
pub open spec fn shortest(v: BoardView, g: Geometry, moves: Seq<Move>) -> bool {
    forall|other: Seq<Move>| #[trigger] plays_to_solved(v, g, other) ==> moves.len() <= other.len()
}

/// No sequence of legal moves leads from `v` to a solved board.
pub open spec fn unsolvable(v: BoardView, g: Geometry) -> bool {
    forall|moves: Seq<Move>| !#[trigger] plays_to_solved(v, g, moves)
}

/// `keys` holds exactly the keys of the boards of `bs`.
pub open spec fn keys_of_boards(bs: Seq<Board>, keys: Set<u128>) -> bool {
    &&& forall|a: int| 0 <= a < bs.len() ==> keys.contains(board_key(#[trigger] bs[a]@) as u128)
    &&& forall|x: u128|
        keys.contains(x) ==> exists|a: int| 0 <= a < bs.len() && board_key(#[trigger] bs[a]@) as u128 == x
}

/// The children of the first `n` boards of `bs` all have their keys in `keys`.
pub open spec fn children_known(bs: Seq<Board>, keys: Set<u128>, g: Geometry, n: int) -> bool {
    forall|a: int, k: int|
        0 <= a < n && 0 <= k < possible_moves(bs[a]@, g).len() ==> keys.contains(
            board_key(#[trigger] possible_moves(bs[a]@, g)[k].0) as u128,
        )
}

/// A set of unsolved boards closed under moves holds no board from which a
/// solved board can be reached.
proof fn lemma_closed_unsolvable(g: Geometry, bs: Seq<Board>, keys: Set<u128>, v: BoardView, moves: Seq<Move>)
    requires
        keys_of_boards(bs, keys),
        children_known(bs, keys, g, bs.len() as int),
        forall|a: int| 0 <= a < bs.len() ==> (#[trigger] bs[a])@.wf() && !bs[a]@.solved(),
        v.wf(),
        keys.contains(board_key(v) as u128),
    ensures
        !plays_to_solved(v, g, moves),
    decreases moves.len(),
{
    lemma_key_bound(v);
    let a = choose|a: int| 0 <= a < bs.len() && board_key(#[trigger] bs[a]@) as u128 == board_key(v) as u128;
    lemma_key_bound(bs[a]@);
    lemma_key_injective(bs[a]@, v);
    if moves.len() > 0 {
        let m = moves[0];
        if legal_move(v, g, m.from as int, m.to as int, m.puller as int) {
            let next = apply_move(v, m.from as int, m.to as int);
            lemma_legal_is_child(v, g, m.from as int, m.to as int, m.puller as int);
            let pm = possible_moves(v, g);
            let k = choose|k: int| 0 <= k < pm.len() && pm[k] == (next, m.from as int, m.to as int, m.puller as int);
            assert(keys.contains(board_key(possible_moves(bs[a]@, g)[k].0) as u128));
            lemma_moves_from_in_grid(v, g, m.from as int);
            let ms = moves_from(v, g, m.from as int);
            let j = choose|j: int| 0 <= j < ms.len() && ms[j] == (m.to as int, m.puller as int);
            lemma_apply_move_wf(v, m.from as int, m.to as int);
            lemma_closed_unsolvable(g, bs, keys, next, moves.drop_first());
        }
    }
}

/// Every board reachable from `v` in at most `n` moves has its key in `keys`.
pub open spec fn reached_within(v: BoardView, g: Geometry, keys: Set<u128>, n: int) -> bool {
    forall|ms: Seq<Move>, u: BoardView|
        #[trigger] plays_to(v, g, ms, u) && ms.len() <= n ==> keys.contains(board_key(u) as u128)
}

/// No sequence from `v` reaches `bs[b]` in fewer than `depth[b]` moves.
pub open spec fn depths_minimal(v: BoardView, g: Geometry, bs: Seq<Board>, depth: Seq<int>) -> bool {
    forall|b: int, ms: Seq<Move>|
        0 <= b < bs.len() && #[trigger] plays_to(v, g, ms, bs[b]@) ==> depth[b] <= ms.len()
}

pub open spec fn nondecreasing(depth: Seq<int>) -> bool {
    forall|a: int, b: int| 0 <= a <= b < depth.len() ==> #[trigger] depth[a] <= #[trigger] depth[b]
}

/// The boards of `bs` expanded so far are those before `head`; when the
/// board at `head` is next, every board reachable within its depth has
/// already been met, so the first board at a greater depth can be reached
/// no sooner.
proof fn lemma_next_layer_reached(
    v: BoardView,
    g: Geometry,
    bs: Seq<Board>,
    keys: Set<u128>,
    depth: Seq<int>,
    head: int,
    d: int,
)
    requires
        v.wf(),
        0 < head < bs.len(),
        depth.len() == bs.len(),
        nondecreasing(depth),
        d >= 0,
        d == depth[head - 1],
        depth[head] == d + 1,
        reached_within(v, g, keys, d),
        depths_minimal(v, g, bs, depth),
        keys_of_boards(bs, keys),
        children_known(bs, keys, g, head),
        forall|a: int| 0 <= a < bs.len() ==> (#[trigger] bs[a])@.wf(),
    ensures
        reached_within(v, g, keys, d + 1),
{
    assert forall|ms: Seq<Move>, u: BoardView|
        #[trigger] plays_to(v, g, ms, u) && ms.len() <= d + 1 implies keys.contains(board_key(u) as u128) by {
        if ms.len() <= d {
            assert(keys.contains(board_key(u) as u128));
        } else {
            let w = lemma_plays_split(v, g, ms, u);
            let pre = ms.drop_last();
            assert(plays_to(v, g, pre, w));
            assert(keys.contains(board_key(w) as u128));
            lemma_plays_wf(v, g, pre, w);
            lemma_key_bound(w);
            let b = choose|b: int| 0 <= b < bs.len() && board_key(#[trigger] bs[b]@) as u128 == board_key(w) as u128;
            lemma_key_bound(bs[b]@);
            lemma_key_injective(bs[b]@, w);
            assert(plays_to(v, g, pre, bs[b]@));
            assert(depth[b] <= d);
            if b >= head {
                assert(depth[head] <= depth[b]);
            }
            let m = ms.last();
            lemma_legal_is_child(w, g, m.from as int, m.to as int, m.puller as int);
            let pm = possible_moves(w, g);
            let k = choose|k: int| 0 <= k < pm.len() && pm[k] == (u, m.from as int, m.to as int, m.puller as int);
            assert(possible_moves(bs[b]@, g)[k].0 == u);
            assert(keys.contains(board_key(possible_moves(bs[b]@, g)[k].0) as u128));
        }
    }
}

/// Solves `board` by breadth-first search from it, stopping at the first
/// solved board met. The tree size is the number of boards expanded. No
/// state is kept between calls. The verdict is exact, and a solution found
/// is a shortest one.
#[verifier::rlimit(40)]
pub fn solve_breadth_first(board: Board, geometry: Geometry) -> (r: Solution)
    requires
        board@.wf(),
    ensures
        exact_solution(board@, geometry, r@),
        r.tree_size >= 1,
{
    let ghost v = board@;
    if board.is_solved() {
        let solution = Solution { moves: Vec::new(), move_count: 0, tree_size: 1, can_be_solved: true };
        assert(solution@.moves =~= seq![]);
        return solution;
    }
    let mut encountered_boards: HashSet<u128> = HashSet::new();
    let mut boards: Vec<Board> = Vec::new();
    let mut paths: Vec<Vec<Move>> = Vec::new();
    let ghost mut depth: Seq<int> = seq![0];
    boards.push(board);
    paths.push(Vec::new());
    proof {
        lemma_key_bound(v);
        assert(plays_to(v, geometry, paths@[0]@, v));
    }
    encountered_boards.insert(board.key());
    proof {
        assert(boards@[0] == board);
        assert forall|x: u128| encountered_boards@.contains(x) implies exists|a: int|
            0 <= a < boards@.len() && board_key(#[trigger] boards@[a]@) as u128 == x by {
            assert(board_key(boards@[0]@) as u128 == x);
        }
        assert forall|ms: Seq<Move>, u: BoardView|
            #[trigger] plays_to(v, geometry, ms, u) && ms.len() <= 0 implies encountered_boards@.contains(
                board_key(u) as u128,
            ) by {
            assert(u == v);
        }
    }
    let mut head: usize = 0;
    while head < boards.len()
        invariant
            v == board@,
            v.wf(),
            !v.solved(),
            boards@.len() == paths@.len(),
            boards@.len() == depth.len(),
            boards@.len() >= 1,
            boards@[0] == board,
            possible_moves(v, geometry).len() == 0 ==> boards@.len() == 1,
            head <= boards@.len(),
            forall|a: int| 0 <= a < boards@.len() ==> (#[trigger] boards@[a])@.wf() && !boards@[a]@.solved(),
            forall|a: int|
                head <= a < boards@.len() ==> plays_to(v, geometry, paths@[a]@, (#[trigger] boards@[a])@)
                    && paths@[a]@.len() == depth[a],
            nondecreasing(depth),
            depth[0] == 0,
            head < boards@.len() ==> depth[boards@.len() - 1] <= depth[head as int] + 1,
            head < boards@.len() ==> reached_within(v, geometry, encountered_boards@, depth[head as int]),
            depths_minimal(v, geometry, boards@, depth),
            keys_of_boards(boards@, encountered_boards@),
            children_known(boards@, encountered_boards@, geometry, head as int),
            encountered_boards@.finite(),
            forall|k: u128| encountered_boards@.contains(k) ==> k < key_bound(),
            encountered_boards@.len() <= key_bound(),
        decreases key_bound() - encountered_boards@.len(), boards@.len() - head,
    {
        let current = boards[head];
        let ghost d = depth[head as int];
        assert(depth[0] <= depth[head as int]);
        let ghost queued = paths@;
        let mut moves: Vec<Move> = Vec::new();
        core::mem::swap(&mut paths[head], &mut moves);
        assert(moves == queued[head as int]);
        assert(forall|a: int| 0 <= a < queued.len() && a != head ==> paths@[a] == queued[a]);
        head = head + 1;
        assert forall|a: int| head <= a < boards@.len() implies plays_to(
            v,
            geometry,
            paths@[a]@,
            (#[trigger] boards@[a])@,
        ) && paths@[a]@.len() == depth[a] by {
            assert(paths@[a] == queued[a]);
        }
        let ghost len0 = boards@.len();
        let ghost enc0 = encountered_boards@.len();
        let children = current.get_possible_moves(geometry);
        proof { lemma_possible_moves_legal(current@, geometry); }
        let mut j: usize = 0;
        while j < children.len()
            invariant
                v == board@,
                v.wf(),
                !v.solved(),
                current == boards@[head - 1],
                boards@[0] == board,
                possible_moves(v, geometry).len() == 0 ==> boards@.len() == 1,
                current@.wf(),
                plays_to(v, geometry, moves@, current@),
                moves@.len() == d,
                d == depth[head - 1],
                children_view(children@) == possible_moves(current@, geometry),
                forall|k: int|
                    0 <= k < possible_moves(current@, geometry).len() ==> {
                        let e = #[trigger] possible_moves(current@, geometry)[k];
                        &&& legal_move(current@, geometry, e.1, e.2, e.3)
                        &&& e.0 == apply_move(current@, e.1, e.2)
                        &&& e.0.wf()
                    },
                j <= children@.len(),
                boards@.len() == paths@.len(),
                boards@.len() == depth.len(),
                1 <= head <= len0 <= boards@.len(),
                boards@.len() - len0 == encountered_boards@.len() - enc0,
                forall|a: int| 0 <= a < boards@.len() ==> (#[trigger] boards@[a])@.wf() && !boards@[a]@.solved(),
                forall|a: int|
                    head <= a < boards@.len() ==> plays_to(v, geometry, paths@[a]@, (#[trigger] boards@[a])@)
                        && paths@[a]@.len() == depth[a],
                nondecreasing(depth),
                depth[0] == 0,
                d >= 0,
                depth[boards@.len() - 1] <= d + 1,
                reached_within(v, geometry, encountered_boards@, d),
                depths_minimal(v, geometry, boards@, depth),
                keys_of_boards(boards@, encountered_boards@),
                children_known(boards@, encountered_boards@, geometry, head - 1),
                forall|k: int|
                    0 <= k < j ==> encountered_boards@.contains(
                        board_key(#[trigger] possible_moves(current@, geometry)[k].0) as u128,
                    ),
                encountered_boards@.finite(),
                forall|k: u128| encountered_boards@.contains(k) ==> k < key_bound(),
                encountered_boards@.len() <= key_bound(),
            decreases children@.len() - j,
        {
            let (child, from, to, puller) = children[j];
            assert(possible_moves(v, geometry).len() > 0) by {
                if possible_moves(v, geometry).len() == 0 {
                    assert(current == board);
                }
            }
            assert(children_view(children@)[j as int] == possible_moves(current@, geometry)[j as int]);
            let key = child.key();
            proof { lemma_key_bound(child@); }
            if encountered_boards.contains(&key) {
                j = j + 1;
                continue;
            }
            let mut new_moves = copy_path(&moves);
            let m = Move { from, to, puller };
            new_moves.push(m);
            proof { lemma_plays_extend(v, geometry, moves@, current@, m); }
            if child.is_solved() {
                proof {
                    lemma_plays_solved(v, geometry, new_moves@, child@);
                    assert forall|other: Seq<Move>| #[trigger] plays_to_solved(v, geometry, other) implies new_moves@.len()
                        <= other.len() by {
                        if other.len() <= d {
                            let u = lemma_solving_end(v, geometry, other);
                            assert(encountered_boards@.contains(board_key(u) as u128));
                            lemma_plays_wf(v, geometry, other, u);
                            lemma_key_bound(u);
                            let b = choose|b: int|
                                0 <= b < boards@.len() && board_key(#[trigger] boards@[b]@) as u128 == board_key(u) as u128;
                            lemma_key_bound(boards@[b]@);
                            lemma_key_injective(boards@[b]@, u);
                        }
                    }
                }
                let move_count = count_moves(new_moves.len());
                return Solution { moves: new_moves, move_count, tree_size: head, can_be_solved: true };
            }
            let ghost old_boards = boards@;
            let ghost old_keys = encountered_boards@;
            let ghost old_depth = depth;
            encountered_boards.insert(key);
            proof { lemma_key_set_bound(encountered_boards@, key_bound()); }
            boards.push(child);
            paths.push(new_moves);
            proof {
                depth = depth.push(d + 1);
                let n = old_boards.len() as int;
                assert(depth[0] == old_depth[0]);
                assert(boards@[n] == child);
                assert(boards@[0] == old_boards[0]);
                assert(boards@[head - 1] == old_boards[head - 1]);
                assert forall|a: int| 0 <= a < boards@.len() implies encountered_boards@.contains(
                    board_key(#[trigger] boards@[a]@) as u128,
                ) by {
                    if a < n {
                        assert(boards@[a] == old_boards[a]);
                    }
                }
                assert forall|x: u128| encountered_boards@.contains(x) implies exists|a: int|
                    0 <= a < boards@.len() && board_key(#[trigger] boards@[a]@) as u128 == x by {
                    if x != key {
                        let a = choose|a: int| 0 <= a < old_boards.len() && board_key(#[trigger] old_boards[a]@) as u128 == x;
                        assert(boards@[a] == old_boards[a]);
                    } else {
                        assert(board_key(boards@[n]@) as u128 == x);
                    }
                }
                assert forall|a: int, k: int|
                    0 <= a < head - 1 && 0 <= k < possible_moves(boards@[a]@, geometry).len() implies encountered_boards@.contains(
                        board_key(#[trigger] possible_moves(boards@[a]@, geometry)[k].0) as u128,
                    ) by {
                    assert(boards@[a] == old_boards[a]);
                    assert(old_keys.contains(board_key(possible_moves(old_boards[a]@, geometry)[k].0) as u128));
                }
                assert forall|a: int| 0 <= a < boards@.len() implies (#[trigger] boards@[a])@.wf() && !boards@[a]@.solved() by {
                    if a < n {
                        assert(boards@[a] == old_boards[a]);
                    }
                }
                assert forall|a: int, b: int| 0 <= a <= b < depth.len() implies #[trigger] depth[a] <= #[trigger] depth[b] by {
                    if b == n {
                        if a < n {
                            assert(old_depth[a] <= old_depth[n - 1]);
                        }
                    }
                }
                assert forall|ms: Seq<Move>, u: BoardView|
                    #[trigger] plays_to(v, geometry, ms, u) && ms.len() <= d implies encountered_boards@.contains(
                        board_key(u) as u128,
                    ) by {
                    assert(old_keys.contains(board_key(u) as u128));
                }
                assert forall|b: int, ms: Seq<Move>|
                    0 <= b < boards@.len() && #[trigger] plays_to(v, geometry, ms, boards@[b]@) implies depth[b] <= ms.len() by {
                    if b < n {
                        assert(boards@[b] == old_boards[b]);
                    } else {
                        if ms.len() <= d {
                            assert(old_keys.contains(board_key(child@) as u128));
                        }
                    }
                }
                assert forall|a: int|
                    head <= a < boards@.len() implies plays_to(v, geometry, paths@[a]@, (#[trigger] boards@[a])@)
                        && paths@[a]@.len() == depth[a] by {
                    if a < n {
                        assert(boards@[a] == old_boards[a]);
                    }
                }
            }
            j = j + 1;
        }
        proof {
            assert forall|a: int, k: int|
                0 <= a < head && 0 <= k < possible_moves(boards@[a]@, geometry).len() implies encountered_boards@.contains(
                    board_key(#[trigger] possible_moves(boards@[a]@, geometry)[k].0) as u128,
                ) by {
                if a == head - 1 {
                    assert(boards@[a] == current);
                }
            }
            if head < boards@.len() {
                assert(depth[head - 1] <= depth[head as int]);
                if depth[head as int] == d + 1 {
                    lemma_next_layer_reached(v, geometry, boards@, encountered_boards@, depth, head as int, d);
                }
            }
        }
    }
    proof {
        assert forall|moves: Seq<Move>| !#[trigger] plays_to_solved(v, geometry, moves) by {
            assert(encountered_boards@.contains(board_key(boards@[0]@) as u128));
            lemma_closed_unsolvable(geometry, boards@, encountered_boards@, v, moves);
        }
    }
    let solution = Solution { moves: Vec::new(), move_count: 0, tree_size: head, can_be_solved: false };
    assert(solution@.moves =~= seq![]);
    solution
}

/// The memoized and the breadth-first solver agree on a board: same
/// verdict and the same number of moves, both verdicts being exact and both
/// solutions shortest.
pub proof fn lemma_solvers_agree(b: BoardView, g: Geometry, memoized: SolutionView, plain: SolutionView)
    requires
        exact_solution(b, g, memoized),
        exact_solution(b, g, plain),
    ensures
        memoized.can_be_solved == plain.can_be_solved,
        memoized.moves.len() == plain.moves.len(),
        memoized.move_count == plain.move_count,
{
    if memoized.can_be_solved {
        assert(plays_to_solved(b, g, memoized.moves));
    }
    if plain.can_be_solved {
        assert(plays_to_solved(b, g, plain.moves));
    }
}

/// Move `m` touches index `i` as its origin, destination or puller.
pub open spec fn touches(m: Move, i: int) -> bool {
    m.from == i || m.to == i || m.puller == i
}

pub open spec fn touches_row(m: Move, width: int, r: int) -> bool {
    m.from as int / width == r || m.to as int / width == r || m.puller as int / width == r
}

pub open spec fn touches_column(m: Move, width: int, c: int) -> bool {
    m.from as int % width == c || m.to as int % width == c || m.puller as int % width == c
}

/// Some move touches index `i`.
pub open spec fn index_touched(moves: Seq<Move>, i: int) -> bool {
    exists|k: int| 0 <= k < moves.len() && #[trigger] touches(moves[k], i)
}

/// Some move touches row `r`.
pub open spec fn row_touched(moves: Seq<Move>, width: int, r: int) -> bool {
    exists|k: int| 0 <= k < moves.len() && #[trigger] touches_row(moves[k], width, r)
}

/// Some move touches column `c`.
pub open spec fn column_touched(moves: Seq<Move>, width: int, c: int) -> bool {
    exists|k: int| 0 <= k < moves.len() && #[trigger] touches_column(moves[k], width, c)
}

/// Every cell holding a piece (neither obstacle nor blank) is touched by
/// some move.
pub open spec fn uses_all_pieces_of(moves: Seq<Move>, v: BoardView) -> bool {
    forall|i: int|
        0 <= i < MAX_BOARD_SIZE && v.cells[i] != Piece::Empty && v.cells[i] != Piece::Blank
            ==> #[trigger] index_touched(moves, i)
}

/// Every row and every column of the board is touched by some move.
pub open spec fn uses_all_rows_columns_of(moves: Seq<Move>, v: BoardView) -> bool {
    &&& forall|r: int| 0 <= r < v.height ==> #[trigger] row_touched(moves, v.width, r)
    &&& forall|c: int| 0 <= c < v.width ==> #[trigger] column_touched(moves, v.width, c)
}

/// Elegance read on the grid: every cell of the grid holding a piece, and
/// every row and every column, is touched by some move's origin,
/// destination or puller.
pub proof fn lemma_elegance_on_grid(moves: Seq<Move>, v: BoardView)
    requires
        v.wf(),
    ensures
        (uses_all_pieces_of(moves, v) && uses_all_rows_columns_of(moves, v)) == ({
            &&& forall|i: int|
                0 <= i < v.size() && v.cells[i] != Piece::Empty && v.cells[i] != Piece::Blank
                    ==> #[trigger] index_touched(moves, i)
            &&& forall|r: int| 0 <= r < v.height ==> #[trigger] row_touched(moves, v.width, r)
            &&& forall|c: int| 0 <= c < v.width ==> #[trigger] column_touched(moves, v.width, c)
        }),
{
}

/// Inserts `x` into a set of small integers.
fn note(set: &mut HashSet<u8>, x: u8)
    ensures
        final(set)@ == old(set)@.insert(x),
{
    set.insert(x);
}

impl Solution {
    pub fn uses_all_pieces(&self, board: &Board) -> (r: bool)
        ensures
            r == uses_all_pieces_of(self.moves@, board@),
    {
        let moves = &self.moves;
        let mut encountered_indices: HashSet<u8> = HashSet::new();
        let mut k: usize = 0;
        while k < moves.len()
            invariant
                moves@ == self.moves@,
                k <= moves@.len(),
                forall|x: u8|
                    encountered_indices@.contains(x) <==> exists|j: int|
                        0 <= j < k && #[trigger] touches(moves@[j], x as int),
            decreases moves@.len() - k,
        {
            let m = moves[k];
            note(&mut encountered_indices, m.from);
            note(&mut encountered_indices, m.to);
            note(&mut encountered_indices, m.puller);
            assert forall|x: u8|
                encountered_indices@.contains(x) <==> exists|j: int|
                    0 <= j < k + 1 && #[trigger] touches(moves@[j], x as int) by {
                if touches(moves@[k as int], x as int) {
                    assert(encountered_indices@.contains(x));
                }
            }
            k = k + 1;
        }
        assert forall|x: u8|
            encountered_indices@.contains(x) <==> #[trigger] index_touched(moves@, x as int) by {}
        let mut i: usize = 0;
        while i < MAX_BOARD_SIZE
            invariant
                moves@ == self.moves@,
                i <= MAX_BOARD_SIZE,
                forall|x: u8|
                    encountered_indices@.contains(x) <==> #[trigger] index_touched(moves@, x as int),
                forall|q: int|
                    0 <= q < i && board@.cells[q] != Piece::Empty && board@.cells[q] != Piece::Blank
                        ==> #[trigger] index_touched(moves@, q),
            decreases MAX_BOARD_SIZE - i,
        {
            let piece = board.pieces[i];
            if piece != Piece::Empty && piece != Piece::Blank {
                if !encountered_indices.contains(&(i as u8)) {
                    assert(!index_touched(moves@, i as int));
                    return false;
                }
            }
            i = i + 1;
        }
        true
    }

    pub fn uses_all_rows_columns(&self, board: &Board) -> (r: bool)
        requires
            board.width >= 1,
        ensures
            r == uses_all_rows_columns_of(self.moves@, board@),
    {
        let moves = &self.moves;
        let w = board.width;
        let mut encountered_rows: HashSet<u8> = HashSet::new();
        let mut encountered_columns: HashSet<u8> = HashSet::new();
        let mut k: usize = 0;
        while k < moves.len()
            invariant
                moves@ == self.moves@,
                w == board.width,
                w >= 1,
                k <= moves@.len(),
                forall|r: u8|
                    encountered_rows@.contains(r) <==> exists|j: int|
                        0 <= j < k && #[trigger] touches_row(moves@[j], w as int, r as int),
                forall|c: u8|
                    encountered_columns@.contains(c) <==> exists|j: int|
                        0 <= j < k && #[trigger] touches_column(moves@[j], w as int, c as int),
            decreases moves@.len() - k,
        {
            let m = moves[k];
            note(&mut encountered_rows, m.from / w);
            note(&mut encountered_rows, m.to / w);
            note(&mut encountered_rows, m.puller / w);
            note(&mut encountered_columns, m.from % w);
            note(&mut encountered_columns, m.to % w);
            note(&mut encountered_columns, m.puller % w);
            assert forall|r: u8|
                encountered_rows@.contains(r) <==> exists|j: int|
                    0 <= j < k + 1 && #[trigger] touches_row(moves@[j], w as int, r as int) by {
                if touches_row(moves@[k as int], w as int, r as int) {
                    assert(encountered_rows@.contains(r));
                }
            }
            assert forall|c: u8|
                encountered_columns@.contains(c) <==> exists|j: int|
                    0 <= j < k + 1 && #[trigger] touches_column(moves@[j], w as int, c as int) by {
                if touches_column(moves@[k as int], w as int, c as int) {
                    assert(encountered_columns@.contains(c));
                }
            }
            k = k + 1;
        }
        assert forall|r: u8|
            encountered_rows@.contains(r) <==> #[trigger] row_touched(moves@, w as int, r as int) by {}
        assert forall|c: u8|
            encountered_columns@.contains(c) <==> #[trigger] column_touched(moves@, w as int, c as int) by {}
        let mut i: u8 = 0;
        while i < board.height
            invariant
                moves@ == self.moves@,
                w == board.width,
                w >= 1,
                i <= board.height,
                forall|r: u8|
                    encountered_rows@.contains(r) <==> #[trigger] row_touched(moves@, w as int, r as int),
                forall|r: int| 0 <= r < i ==> #[trigger] row_touched(moves@, w as int, r),
            decreases board.height - i,
        {
            if !encountered_rows.contains(&i) {
                assert(!row_touched(self.moves@, board@.width, i as int));
                assert(!uses_all_rows_columns_of(self.moves@, board@));
                return false;
            }
            i = i + 1;
        }
        let mut i: u8 = 0;
        while i < board.width
            invariant
                moves@ == self.moves@,
                w == board.width,
                w >= 1,
                i <= board.width,
                forall|r: int| 0 <= r < board.height ==> #[trigger] row_touched(moves@, w as int, r),
                forall|c: u8|
                    encountered_columns@.contains(c) <==> #[trigger] column_touched(moves@, w as int, c as int),
                forall|c: int| 0 <= c < i ==> #[trigger] column_touched(moves@, w as int, c),
            decreases board.width - i,
        {
            if !encountered_columns.contains(&i) {
                assert(!column_touched(self.moves@, board@.width, i as int));
                assert(!uses_all_rows_columns_of(self.moves@, board@));
                return false;
            }
            i = i + 1;
        }
        true
    }

    /// Elegant: the moves touch every piece and every row and column.
    pub fn is_elegant(&self, board: &Board) -> (r: bool)
        requires
            board.width >= 1,
        ensures
            r == (uses_all_pieces_of(self.moves@, board@) && uses_all_rows_columns_of(
                self.moves@,
                board@,
            )),
    {
        self.uses_all_pieces(board) && self.uses_all_rows_columns(board)
    }
}

} // verus!
