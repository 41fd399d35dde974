//! The reverse solver: breadth-first search over predecessor boards, within
//! a budget of cows and persons, for the start position deepest below a
//! seed board. Used to manufacture hard puzzles.
use vstd::prelude::*;
use vstd::std_specs::hash::group_hash_axioms;
use std::collections::HashSet;
use crate::board::{Board, BoardView, Geometry, Piece, lemma_count_update, lemma_index_in_grid};
use crate::key::{board_key, key_bound, lemma_key_bound, lemma_key_injective, lemma_key_set_bound};
use crate::moves::children_view;
use crate::reverse_moves::{lemma_previous_boards_undone, lemma_previous_boards_wf, previous_boards};
use crate::solve::{Move, count_moves, keys_of_boards, lemma_plays_solved, plays_to, plays_to_solved, saturated_count};

verus! {

broadcast use group_hash_axioms;

#[derive(Clone, Debug)]
pub struct ReverseSolution {
    pub moves: Vec<Move>,
    pub move_count: u8,
}

/// Every choice of `k - cur.len()` further members of `s[i..]`, kept in
/// order and appended to `cur`; selections that take `s[i]` come before
/// those that skip it.
pub open spec fn selections(s: Seq<u8>, k: int, i: int, cur: Seq<u8>) -> Seq<Seq<u8>>
    decreases s.len() - i,
{
    if cur.len() == k {
        seq![cur]
    } else if i >= s.len() {
        seq![]
    } else {
        selections(s, k, i + 1, cur.push(s[i])) + selections(s, k, i + 1, cur)
    }
}

/// Indices below `n` of the blank cells, in increasing order.
pub open spec fn blank_indices(v: BoardView, n: int) -> Seq<u8>
    decreases n,
{
    if n <= 0 {
        seq![]
    } else {
        blank_indices(v, n - 1) + if v.cells[n - 1] == Piece::Blank {
            seq![(n - 1) as u8]
        } else {
            seq![]
        }
    }
}

/// `v` with a person placed on each index of `c`.
pub open spec fn with_people(v: BoardView, c: Seq<u8>) -> BoardView
    decreases c.len(),
{
    if c.len() == 0 {
        v
    } else {
        with_people(v, c.drop_last()).with_cell(c.last() as int, Piece::Person)
    }
}

/// Within the budget of at most `max_cow` cows and `max_person` persons.
pub open spec fn within_budget(v: BoardView, max_cow: int, max_person: int) -> bool {
    v.count(Piece::Cow) <= max_cow && v.count(Piece::Person) <= max_person
}

proof fn lemma_selections_members(s: Seq<u8>, k: int, i: int, cur: Seq<u8>, bound: int)
    requires
        0 <= i <= s.len(),
        forall|q: int| 0 <= q < s.len() ==> s[q] < bound,
        forall|q: int| 0 <= q < cur.len() ==> cur[q] < bound,
    ensures
        forall|a: int, q: int|
            0 <= a < selections(s, k, i, cur).len() && 0 <= q < selections(s, k, i, cur)[a].len()
                ==> #[trigger] selections(s, k, i, cur)[a][q] < bound,
    decreases s.len() - i,
{
    if cur.len() != k && i < s.len() {
        lemma_selections_members(s, k, i + 1, cur.push(s[i]), bound);
        lemma_selections_members(s, k, i + 1, cur, bound);
        let l = selections(s, k, i + 1, cur.push(s[i]));
        let r = selections(s, k, i + 1, cur);
        assert forall|a: int, q: int|
            0 <= a < selections(s, k, i, cur).len() && 0 <= q < selections(s, k, i, cur)[a].len()
                implies #[trigger] selections(s, k, i, cur)[a][q] < bound by {
            if a < l.len() {
                assert(selections(s, k, i, cur)[a] == l[a]);
            } else {
                assert(selections(s, k, i, cur)[a] == r[a - l.len()]);
            }
        }
    }
}

/// Appends every choice of `max_count - current_combination.len()` further
/// members of `blank_indices[index..]` to `current_combination`, in order.
fn get_combinations(
    combinations: &mut Vec<Vec<u8>>,
    blank_indices: &Vec<u8>,
    max_count: usize,
    index: usize,
    current_combination: Vec<u8>,
)
    requires
        index <= blank_indices@.len(),
    ensures
        final(combinations)@.map_values(|c: Vec<u8>| c@) == old(combinations)@.map_values(
            |c: Vec<u8>| c@,
        ) + selections(blank_indices@, max_count as int, index as int, current_combination@),
    decreases blank_indices@.len() - index,
{
    let ghost start = combinations@.map_values(|c: Vec<u8>| c@);
    let ghost cur = current_combination@;
    if current_combination.len() == max_count {
        combinations.push(current_combination);
        assert(combinations@.map_values(|c: Vec<u8>| c@) =~= start + seq![cur]);
        return ;
    }
    if index == blank_indices.len() {
        assert(combinations@.map_values(|c: Vec<u8>| c@) =~= start + seq![]);
        return ;
    }
    let mut new_combination = copy_indices(&current_combination);
    new_combination.push(blank_indices[index]);
    get_combinations(combinations, blank_indices, max_count, index + 1, new_combination);
    get_combinations(combinations, blank_indices, max_count, index + 1, current_combination);
    assert(combinations@.map_values(|c: Vec<u8>| c@) =~= start + selections(
        blank_indices@,
        max_count as int,
        index as int,
        cur,
    ));
}

fn copy_indices(v: &Vec<u8>) -> (r: Vec<u8>)
    ensures
        r@ == v@,
{
    let mut r: Vec<u8> = Vec::new();
    let mut k: usize = 0;
    while k < v.len()
        invariant
            k <= v@.len(),
            r@ == v@.take(k as int),
        decreases v@.len() - k,
    {
        r.push(v[k]);
        assert(v@.take(k + 1) =~= v@.take(k as int).push(v@[k as int]));
        k = k + 1;
    }
    assert(v@.take(k as int) =~= v@);
    r
}

/// Start boards: `board` with `max_person_count` persons placed on blank
/// cells, one board for each choice of cells.
fn choose_people_locations(board: &Board, max_person_count: u8) -> (r: Vec<Board>)
    requires
        board@.wf(),
    ensures
        r@.len() == selections(blank_indices(board@, board@.size()), max_person_count as int, 0, seq![]).len(),
        forall|k: int|
            0 <= k < r@.len() ==> (#[trigger] r@[k])@ == with_people(
                board@,
                selections(blank_indices(board@, board@.size()), max_person_count as int, 0, seq![])[k],
            ) && r@[k]@.wf() && r@[k].width == board.width && r@[k].height == board.height,
{
    let ghost v = board@;
    proof { lemma_index_in_grid(v, 0, 0); }
    let size = board.width * board.height;
    let mut blank: Vec<u8> = Vec::new();
    let mut i: u8 = 0;
    while i < size
        invariant
            v == board@,
            v.wf(),
            size == v.size(),
            i <= size,
            blank@ == blank_indices(v, i as int),
            forall|q: int| 0 <= q < blank@.len() ==> blank@[q] < size,
        decreases size - i,
    {
        if board.pieces[i as usize] == Piece::Blank {
            blank.push(i);
        } else {
            assert(blank_indices(v, i + 1) =~= blank_indices(v, i as int));
        }
        i = i + 1;
    }
    let mut combos: Vec<Vec<u8>> = Vec::new();
    get_combinations(&mut combos, &blank, max_person_count as usize, 0, Vec::new());
    let ghost all = selections(blank@, max_person_count as int, 0, seq![]);
    assert(combos@.map_values(|c: Vec<u8>| c@) =~= all);
    proof { lemma_selections_members(blank@, max_person_count as int, 0, seq![], size as int); }
    let mut boards: Vec<Board> = Vec::new();
    let mut k: usize = 0;
    while k < combos.len()
        invariant
            v == board@,
            v.wf(),
            size == v.size(),
            combos@.map_values(|c: Vec<u8>| c@) == all,
            forall|a: int, q: int|
                0 <= a < all.len() && 0 <= q < all[a].len() ==> #[trigger] all[a][q] < size,
            k <= combos@.len(),
            boards@.len() == k,
            forall|a: int|
                0 <= a < k ==> (#[trigger] boards@[a])@ == with_people(v, all[a]) && boards@[a]@.wf()
                    && boards@[a].width == board.width && boards@[a].height == board.height,
        decreases combos@.len() - k,
    {
        let combination = &combos[k];
        assert(combination@ == all[k as int]);
        let mut new_board = *board;
        let mut q: usize = 0;
        while q < combination.len()
            invariant
                v == board@,
                v.wf(),
                size == v.size(),
                combination@ == all[k as int],
                forall|p: int| 0 <= p < combination@.len() ==> #[trigger] combination@[p] < size,
                q <= combination@.len(),
                new_board@ == with_people(v, combination@.take(q as int)),
                new_board@.wf(),
                new_board.width == board.width,
                new_board.height == board.height,
            decreases combination@.len() - q,
        {
            assert(combination@.take(q + 1).drop_last() =~= combination@.take(q as int));
            assert(combination@[q as int] < size);
            new_board.set_index(combination[q] as usize, Piece::Person);
            q = q + 1;
        }
        assert(combination@.take(q as int) =~= combination@);
        boards.push(new_board);
        k = k + 1;
    }
    boards
}


/// A board the reverse search starts from: the seed itself or, when persons
/// are allowed and the seed has no house, the seed with `max_person`
/// persons placed on a choice of its blank cells.
pub open spec fn reverse_start(seed: BoardView, max_person: int, s: BoardView) -> bool {
    ||| s == seed
    ||| (max_person > 0 && seed.count(Piece::House) == 0 && exists|k: int|
        0 <= k < selections(blank_indices(seed, seed.size()), max_person, 0, seq![]).len() && s
            == with_people(
            seed,
            #[trigger] selections(blank_indices(seed, seed.size()), max_person, 0, seq![])[k],
        ))
}

/// The boards `bs` are visited in turn by the reverse transitions `moves`:
/// each transition, with the board it produces, is one of the predecessors
/// of the board before it.
pub open spec fn path_steps(g: Geometry, moves: Seq<Move>, bs: Seq<BoardView>) -> bool {
    &&& bs.len() == moves.len() + 1
    &&& forall|i: int|
        0 <= i < moves.len() ==> previous_boards(bs[i], g).contains(
            (bs[i + 1], (#[trigger] moves[i]).from as int, moves[i].to as int, moves[i].puller as int),
        )
}

/// `moves` are reverse transitions leading from `start` to `end`.
pub open spec fn reverse_path(start: BoardView, g: Geometry, moves: Seq<Move>, end: BoardView) -> bool {
    exists|bs: Seq<BoardView>| #[trigger] path_steps(g, moves, bs) && bs[0] == start && bs.last() == end
}

proof fn lemma_extend_path(start: BoardView, g: Geometry, moves: Seq<Move>, u: BoardView, m: Move, end: BoardView)
    requires
        reverse_path(start, g, moves, u),
        previous_boards(u, g).contains((end, m.from as int, m.to as int, m.puller as int)),
    ensures
        reverse_path(start, g, moves.push(m), end),
{
    let bs = choose|bs: Seq<BoardView>| #[trigger] path_steps(g, moves, bs) && bs[0] == start && bs.last() == u;
    let bs2 = bs.push(end);
    let ms = moves.push(m);
    assert forall|i: int| 0 <= i < ms.len() implies previous_boards(bs2[i], g).contains(
        (bs2[i + 1], (#[trigger] ms[i]).from as int, ms[i].to as int, ms[i].puller as int),
    ) by {
        if i < moves.len() {
            assert(ms[i] == moves[i]);
            assert(bs2[i] == bs[i] && bs2[i + 1] == bs[i + 1]);
        } else {
            assert(bs2[i] == u);
        }
    }
    assert(path_steps(g, ms, bs2));
}

proof fn lemma_empty_path(start: BoardView, g: Geometry)
    ensures
        reverse_path(start, g, seq![], start),
{
    assert(path_steps(g, seq![], seq![start]));
}

proof fn lemma_with_people_counts(v: BoardView, c: Seq<u8>, q: Piece)
    requires
        q != Piece::Person,
        forall|k: int| 0 <= k < c.len() ==> 0 <= #[trigger] c[k] < v.cells.len(),
    ensures
        with_people(v, c).count(q) <= v.count(q),
        with_people(v, c).cells.len() == v.cells.len(),
    decreases c.len(),
{
    if c.len() > 0 {
        lemma_with_people_counts(v, c.drop_last(), q);
        let u = with_people(v, c.drop_last());
        lemma_count_update(u.cells, c.last() as int, Piece::Person, q);
    }
}

/// A start board of a solved seed is solved.
proof fn lemma_start_solved(seed: BoardView, max_person: int, s: BoardView)
    requires
        seed.wf(),
        seed.solved(),
        reverse_start(seed, max_person, s),
    ensures
        s.solved(),
{
    if s != seed {
        let sel = selections(blank_indices(seed, seed.size()), max_person, 0, seq![]);
        let k = choose|k: int| 0 <= k < sel.len() && s == with_people(seed, #[trigger] sel[k]);
        lemma_index_in_grid(seed, 0, 0);
        lemma_blank_indices_below(seed, seed.size());
        lemma_selections_members(blank_indices(seed, seed.size()), max_person, 0, seq![], seed.size());
        assert forall|j: int| 0 <= j < sel[k].len() implies 0 <= #[trigger] sel[k][j] < seed.cells.len() by {
            assert(sel[k][j] < seed.size());
        }
        lemma_with_people_counts(seed, sel[k], Piece::House);
        lemma_with_people_counts(seed, sel[k], Piece::Cow);
        lemma_with_people_counts(seed, sel[k], Piece::Barn);
        let c = seed.count(Piece::Cow);
        let b = seed.count(Piece::Barn);
        let c2 = s.count(Piece::Cow);
        let b2 = s.count(Piece::Barn);
        assert(c2 * b2 <= c * b) by (nonlinear_arith)
            requires
                c2 <= c,
                b2 <= b,
        ;
        let p0 = seed.count(Piece::Person);
        let h0 = seed.count(Piece::House);
        assert(c * b == 0) by (nonlinear_arith)
            requires
                p0 * h0 + c * b == 0,
                p0 >= 0,
                h0 >= 0,
                c >= 0,
                b >= 0,
        ;
        assert(s.count(Piece::House) == 0);
        assert(s.count(Piece::Person) * s.count(Piece::House) == 0);
    }
}

proof fn lemma_blank_indices_below(v: BoardView, n: int)
    requires
        0 <= n <= 255,
    ensures
        forall|k: int| 0 <= k < blank_indices(v, n).len() ==> #[trigger] blank_indices(v, n)[k] < n,
    decreases n,
{
    if n > 0 {
        lemma_blank_indices_below(v, n - 1);
        let a = blank_indices(v, n - 1);
        assert forall|k: int| 0 <= k < blank_indices(v, n).len() implies #[trigger] blank_indices(v, n)[k] < n by {
            if k < a.len() {
                assert(blank_indices(v, n)[k] == a[k]);
            }
        }
    }
}

proof fn lemma_path_prefix_plays(start: BoardView, g: Geometry, moves: Seq<Move>, bs: Seq<BoardView>, k: int)
    requires
        start.wf(),
        path_steps(g, moves, bs),
        bs[0] == start,
        0 <= k <= moves.len(),
    ensures
        bs[k].wf(),
        plays_to(bs[k], g, moves.take(k).reverse(), start),
    decreases k,
{
    if k == 0 {
        assert(moves.take(0).reverse() =~= Seq::<Move>::empty());
    } else {
        let i = k - 1;
        lemma_path_prefix_plays(start, g, moves, bs, i);
        let m = moves[i];
        assert(previous_boards(bs[i], g).contains((bs[i + 1], m.from as int, m.to as int, m.puller as int)));
        lemma_previous_boards_undone(bs[i], g);
        lemma_previous_boards_wf(bs[i], g);
        let j = choose|j: int| 0 <= j < previous_boards(bs[i], g).len() && previous_boards(bs[i], g)[j] == (
            bs[i + 1],
            m.from as int,
            m.to as int,
            m.puller as int,
        );
        assert(previous_boards(bs[i], g)[j] == (bs[i + 1], m.from as int, m.to as int, m.puller as int));
        let r = moves.take(k).reverse();
        assert(r[0] == m);
        assert(r.drop_first() =~= moves.take(i).reverse());
    }
}

/// Played forward in reverse order, a chain of reverse transitions from a
/// well-formed start leads back to the start, each move legal.
pub proof fn lemma_reverse_path_plays(start: BoardView, g: Geometry, moves: Seq<Move>, end: BoardView)
    requires
        start.wf(),
        reverse_path(start, g, moves, end),
    ensures
        plays_to(end, g, moves.reverse(), start),
{
    let bs = choose|bs: Seq<BoardView>| #[trigger] path_steps(g, moves, bs) && bs[0] == start && bs.last() == end;
    lemma_path_prefix_plays(start, g, moves, bs, moves.len() as int);
    assert(moves.take(moves.len() as int) =~= moves);
}

fn copy_moves(v: &Vec<Move>) -> (r: Vec<Move>)
    ensures
        r@ == v@,
{
    let mut r: Vec<Move> = Vec::new();
    let mut k: usize = 0;
    while k < v.len()
        invariant
            k <= v@.len(),
            r@ == v@.take(k as int),
        decreases v@.len() - k,
    {
        r.push(v[k]);
        assert(v@.take(k + 1) =~= v@.take(k as int).push(v@[k as int]));
        k = k + 1;
    }
    assert(v@.take(k as int) =~= v@);
    r
}

/// The boards `bs` are visited in turn by the reverse transitions `moves`,
/// and every board after the first is within the budget.
pub open spec fn budget_steps(g: Geometry, mc: int, mp: int, moves: Seq<Move>, bs: Seq<BoardView>) -> bool {
    &&& path_steps(g, moves, bs)
    &&& forall|i: int| 1 <= i < bs.len() ==> within_budget(#[trigger] bs[i], mc, mp)
}

/// `end` is reached from `start` by the reverse transitions `moves` through
/// boards within the budget.
pub open spec fn budget_path(start: BoardView, g: Geometry, mc: int, mp: int, moves: Seq<Move>, end: BoardView) -> bool {
    exists|bs: Seq<BoardView>| #[trigger] budget_steps(g, mc, mp, moves, bs) && bs[0] == start && bs.last() == end
}

/// The reverse search from `seed` can reach `u` in at most `n` transitions.
pub open spec fn reverse_reach(seed: BoardView, mc: int, mp: int, g: Geometry, u: BoardView, n: int) -> bool {
    exists|start: BoardView, moves: Seq<Move>|
        reverse_start(seed, mp, start) && moves.len() <= n && #[trigger] budget_path(start, g, mc, mp, moves, u)
}

/// The keys of the boards that the reverse search from `seed` can reach.
pub open spec fn reverse_reach_keys(seed: BoardView, mc: int, mp: int, g: Geometry) -> Set<u128> {
    Set::new(
        |k: u128|
            exists|u: BoardView, n: int|
                u.wf() && board_key(u) as u128 == k && #[trigger] reverse_reach(seed, mc, mp, g, u, n),
    )
}

proof fn lemma_budget_empty(start: BoardView, g: Geometry, mc: int, mp: int)
    ensures
        budget_path(start, g, mc, mp, seq![], start),
{
    assert(budget_steps(g, mc, mp, seq![], seq![start]));
}

proof fn lemma_budget_extend(
    start: BoardView,
    g: Geometry,
    mc: int,
    mp: int,
    moves: Seq<Move>,
    u: BoardView,
    m: Move,
    end: BoardView,
)
    requires
        budget_path(start, g, mc, mp, moves, u),
        previous_boards(u, g).contains((end, m.from as int, m.to as int, m.puller as int)),
        within_budget(end, mc, mp),
    ensures
        budget_path(start, g, mc, mp, moves.push(m), end),
{
    let bs = choose|bs: Seq<BoardView>| #[trigger] budget_steps(g, mc, mp, moves, bs) && bs[0] == start && bs.last() == u;
    let bs2 = bs.push(end);
    let ms = moves.push(m);
    assert forall|i: int| 0 <= i < ms.len() implies previous_boards(bs2[i], g).contains(
        (bs2[i + 1], (#[trigger] ms[i]).from as int, ms[i].to as int, ms[i].puller as int),
    ) by {
        if i < moves.len() {
            assert(ms[i] == moves[i]);
            assert(bs2[i] == bs[i] && bs2[i + 1] == bs[i + 1]);
        } else {
            assert(bs2[i] == u);
        }
    }
    assert forall|i: int| 1 <= i < bs2.len() implies within_budget(#[trigger] bs2[i], mc, mp) by {
        if i < bs.len() {
            assert(bs2[i] == bs[i]);
        }
    }
    assert(budget_steps(g, mc, mp, ms, bs2));
}

proof fn lemma_budget_is_reverse_path(start: BoardView, g: Geometry, mc: int, mp: int, moves: Seq<Move>, end: BoardView)
    requires
        budget_path(start, g, mc, mp, moves, end),
    ensures
        reverse_path(start, g, moves, end),
{
    let bs = choose|bs: Seq<BoardView>| #[trigger] budget_steps(g, mc, mp, moves, bs) && bs[0] == start && bs.last() == end;
    assert(path_steps(g, moves, bs));
}

/// The queue of the reverse search: every board in it is well formed and
/// reached from a start within the budget in `depth[a] <= most` transitions.
#[verifier::opaque]
pub open spec fn queue_ok(
    seed: BoardView,
    mc: int,
    mp: int,
    g: Geometry,
    boards: Seq<Board>,
    starts: Seq<BoardView>,
    paths: Seq<Seq<Move>>,
    most: int,
) -> bool {
    &&& boards.len() == starts.len()
    &&& boards.len() == paths.len()
    &&& forall|a: int|
        0 <= a < boards.len() ==> {
            &&& (#[trigger] boards[a])@.wf()
            &&& boards[a].width == seed.width
            &&& boards[a].height == seed.height
            &&& reverse_start(seed, mp, starts[a])
            &&& starts[a].wf()
            &&& budget_path(starts[a], g, mc, mp, paths[a], boards[a]@)
            &&& paths[a].len() <= most
        }
}

/// Every start board of the search is well formed and has its key in `keys`.
#[verifier::opaque]
pub open spec fn starts_known(seed: BoardView, mp: int, keys: Set<u128>) -> bool {
    forall|s: BoardView| #[trigger] reverse_start(seed, mp, s) ==> s.wf() && keys.contains(board_key(s) as u128)
}

/// The within-budget predecessors of the first `n` boards all have their
/// keys in `keys`.
#[verifier::opaque]
pub open spec fn predecessors_known(boards: Seq<Board>, keys: Set<u128>, g: Geometry, mc: int, mp: int, n: int) -> bool {
    forall|a: int, k: int|
        0 <= a < n && 0 <= k < previous_boards(boards[a]@, g).len() && within_budget(
            previous_boards(boards[a]@, g)[k].0,
            mc,
            mp,
        ) ==> keys.contains(board_key(#[trigger] previous_boards(boards[a]@, g)[k].0) as u128)
}

proof fn lemma_known_after_push(
    old_boards: Seq<Board>,
    boards: Seq<Board>,
    old_keys: Set<u128>,
    keys: Set<u128>,
    g: Geometry,
    mc: int,
    mp: int,
    n: int,
    b: Board,
)
    requires
        predecessors_known(old_boards, old_keys, g, mc, mp, n),
        boards == old_boards.push(b),
        old_keys.subset_of(keys),
        0 <= n <= old_boards.len(),
    ensures
        predecessors_known(boards, keys, g, mc, mp, n),
{
    reveal(predecessors_known);
    assert forall|a: int, k: int|
        0 <= a < n && 0 <= k < previous_boards(boards[a]@, g).len() && within_budget(
            previous_boards(boards[a]@, g)[k].0,
            mc,
            mp,
        ) implies keys.contains(board_key(#[trigger] previous_boards(boards[a]@, g)[k].0) as u128) by {
        assert(boards[a] == old_boards[a]);
        assert(old_keys.contains(board_key(previous_boards(old_boards[a]@, g)[k].0) as u128));
    }
}

proof fn lemma_known_extend(boards: Seq<Board>, keys: Set<u128>, g: Geometry, mc: int, mp: int, n: int)
    requires
        1 <= n <= boards.len(),
        predecessors_known(boards, keys, g, mc, mp, n - 1),
        forall|k: int|
            0 <= k < previous_boards(boards[n - 1]@, g).len() && within_budget(previous_boards(boards[n - 1]@, g)[k].0, mc, mp)
                ==> keys.contains(board_key(#[trigger] previous_boards(boards[n - 1]@, g)[k].0) as u128),
    ensures
        predecessors_known(boards, keys, g, mc, mp, n),
{
    reveal(predecessors_known);
}

/// Once every board of the queue is expanded, whatever the search can reach
/// has its key among the keys met.
proof fn lemma_reach_known(
    seed: BoardView,
    mc: int,
    mp: int,
    g: Geometry,
    boards: Seq<Board>,
    keys: Set<u128>,
    start: BoardView,
    moves: Seq<Move>,
    bs: Seq<BoardView>,
    k: int,
)
    requires
        keys_of_boards(boards, keys),
        predecessors_known(boards, keys, g, mc, mp, boards.len() as int),
        forall|a: int| 0 <= a < boards.len() ==> (#[trigger] boards[a])@.wf(),
        start.wf(),
        keys.contains(board_key(start) as u128),
        budget_steps(g, mc, mp, moves, bs),
        bs[0] == start,
        0 <= k < bs.len(),
    ensures
        bs[k].wf(),
        keys.contains(board_key(bs[k]) as u128),
    decreases k,
{
    reveal(predecessors_known);
    if k > 0 {
        let i = k - 1;
        lemma_reach_known(seed, mc, mp, g, boards, keys, start, moves, bs, i);
        lemma_key_bound(bs[i]);
        let a = choose|a: int| 0 <= a < boards.len() && board_key(#[trigger] boards[a]@) as u128 == board_key(bs[i]) as u128;
        lemma_key_bound(boards[a]@);
        lemma_key_injective(boards[a]@, bs[i]);
        let m = moves[i];
        assert(previous_boards(bs[i], g).contains((bs[i + 1], m.from as int, m.to as int, m.puller as int)));
        let pb = previous_boards(bs[i], g);
        let j = choose|j: int| 0 <= j < pb.len() && pb[j] == (bs[i + 1], m.from as int, m.to as int, m.puller as int);
        lemma_previous_boards_wf(bs[i], g);
        assert(within_budget(bs[k], mc, mp));
        assert(keys.contains(board_key(previous_boards(boards[a]@, g)[j].0) as u128));
    }
}

/// Breadth-first layering of the queue: depths (path lengths) do not
/// decrease and grow by at most one past `head`; everything reachable within
/// the depth of the board at `head` is known; no board of the queue can be
/// reached in fewer transitions than its depth.
#[verifier::opaque]
pub open spec fn layers_ok(
    seed: BoardView,
    mc: int,
    mp: int,
    g: Geometry,
    boards: Seq<Board>,
    keys: Set<u128>,
    paths: Seq<Seq<Move>>,
    head: int,
) -> bool {
    &&& forall|a: int, b: int| 0 <= a <= b < paths.len() ==> #[trigger] paths[a].len() <= #[trigger] paths[b].len()
    &&& head < paths.len() ==> paths[paths.len() - 1].len() <= paths[head].len() + 1
    &&& head < paths.len() ==> forall|u: BoardView, n: int|
        #[trigger] reverse_reach(seed, mc, mp, g, u, n) && n <= paths[head].len() ==> keys.contains(board_key(u) as u128)
    &&& forall|b: int, n: int|
        0 <= b < boards.len() && #[trigger] reverse_reach(seed, mc, mp, g, boards[b]@, n) ==> paths[b].len() <= n
}

/// The last transition of a path within the budget.
proof fn lemma_budget_split(start: BoardView, g: Geometry, mc: int, mp: int, moves: Seq<Move>, u: BoardView) -> (w: BoardView)
    requires
        moves.len() > 0,
        budget_path(start, g, mc, mp, moves, u),
    ensures
        budget_path(start, g, mc, mp, moves.drop_last(), w),
        previous_boards(w, g).contains((u, moves.last().from as int, moves.last().to as int, moves.last().puller as int)),
        within_budget(u, mc, mp),
{
    let bs = choose|bs: Seq<BoardView>| #[trigger] budget_steps(g, mc, mp, moves, bs) && bs[0] == start && bs.last() == u;
    let n = moves.len() as int;
    let w = bs[n - 1];
    let bs2 = bs.drop_last();
    let ms = moves.drop_last();
    assert forall|i: int| 0 <= i < ms.len() implies previous_boards(bs2[i], g).contains(
        (bs2[i + 1], (#[trigger] ms[i]).from as int, ms[i].to as int, ms[i].puller as int),
    ) by {
        assert(ms[i] == moves[i]);
    }
    assert forall|i: int| 1 <= i < bs2.len() implies within_budget(#[trigger] bs2[i], mc, mp) by {
        assert(bs2[i] == bs[i]);
    }
    assert(budget_steps(g, mc, mp, ms, bs2));
    assert(moves[n - 1] == moves.last());
    assert(within_budget(bs[n], mc, mp));
    w
}

proof fn lemma_layers_init(
    seed: BoardView,
    mc: int,
    mp: int,
    g: Geometry,
    boards: Seq<Board>,
    keys: Set<u128>,
    paths: Seq<Seq<Move>>,
)
    requires
        starts_known(seed, mp, keys),
        forall|a: int| 0 <= a < paths.len() ==> (#[trigger] paths[a]).len() == 0,
        paths.len() == boards.len(),
    ensures
        layers_ok(seed, mc, mp, g, boards, keys, paths, 0),
{
    reveal(layers_ok);
    reveal(starts_known);
    assert forall|u: BoardView, n: int|
        #[trigger] reverse_reach(seed, mc, mp, g, u, n) && n <= 0 implies keys.contains(board_key(u) as u128) by {
        let (start, moves) = choose|start: BoardView, moves: Seq<Move>|
            reverse_start(seed, mp, start) && moves.len() <= n && #[trigger] budget_path(start, g, mc, mp, moves, u);
        let bs = choose|bs: Seq<BoardView>| #[trigger] budget_steps(g, mc, mp, moves, bs) && bs[0] == start && bs.last() == u;
        assert(bs.len() == 1);
    }
}

proof fn lemma_layers_push(
    seed: BoardView,
    mc: int,
    mp: int,
    g: Geometry,
    old_boards: Seq<Board>,
    old_keys: Set<u128>,
    old_paths: Seq<Seq<Move>>,
    boards: Seq<Board>,
    keys: Set<u128>,
    paths: Seq<Seq<Move>>,
    head: int,
    b: Board,
    path: Seq<Move>,
)
    requires
        layers_ok(seed, mc, mp, g, old_boards, old_keys, old_paths, head - 1),
        1 <= head <= old_boards.len(),
        old_paths.len() == old_boards.len(),
        path.len() == old_paths[head - 1].len() + 1,
        !old_keys.contains(board_key(b@) as u128),
        boards == old_boards.push(b),
        paths == old_paths.push(path),
        old_keys.subset_of(keys),
    ensures
        layers_ok(seed, mc, mp, g, boards, keys, paths, head - 1),
{
    reveal(layers_ok);
    let n = old_boards.len() as int;
    let d = old_paths[head - 1].len();
    assert forall|a: int, c: int| 0 <= a <= c < paths.len() implies #[trigger] paths[a].len() <= #[trigger] paths[c].len() by {
        if c < n {
            assert(paths[a] == old_paths[a] && paths[c] == old_paths[c]);
        } else if a < n {
            assert(paths[a] == old_paths[a]);
            assert(old_paths[a].len() <= old_paths[n - 1].len());
        }
    }
    assert forall|c: int, k: int|
        0 <= c < boards.len() && #[trigger] reverse_reach(seed, mc, mp, g, boards[c]@, k) implies paths[c].len() <= k by {
        if c < n {
            assert(boards[c] == old_boards[c] && paths[c] == old_paths[c]);
        } else {
            assert(boards[c] == b);
            if k <= d {
                assert(old_keys.contains(board_key(b@) as u128));
            }
        }
    }
    assert(paths[head - 1] == old_paths[head - 1]);
    assert(paths[paths.len() - 1].len() <= paths[head - 1].len() + 1);
}

proof fn lemma_layers_next(
    seed: BoardView,
    mc: int,
    mp: int,
    g: Geometry,
    boards: Seq<Board>,
    keys: Set<u128>,
    paths: Seq<Seq<Move>>,
    head: int,
)
    requires
        layers_ok(seed, mc, mp, g, boards, keys, paths, head - 1),
        predecessors_known(boards, keys, g, mc, mp, head),
        keys_of_boards(boards, keys),
        starts_known(seed, mp, keys),
        forall|a: int| 0 <= a < boards.len() ==> (#[trigger] boards[a])@.wf(),
        1 <= head <= boards.len(),
        paths.len() == boards.len(),
    ensures
        layers_ok(seed, mc, mp, g, boards, keys, paths, head),
{
    reveal(layers_ok);
    reveal(predecessors_known);
    reveal(starts_known);
    if head < paths.len() {
        let d = paths[head - 1].len();
        assert(paths[head - 1].len() <= paths[head].len());
        assert(paths[paths.len() - 1].len() <= d + 1);
        if paths[head].len() == d + 1 {
            assert forall|u: BoardView, n: int|
                #[trigger] reverse_reach(seed, mc, mp, g, u, n) && n <= paths[head].len() implies keys.contains(
                    board_key(u) as u128,
                ) by {
                let (start, moves) = choose|start: BoardView, moves: Seq<Move>|
                    reverse_start(seed, mp, start) && moves.len() <= n && #[trigger] budget_path(start, g, mc, mp, moves, u);
                if moves.len() <= d {
                    assert(reverse_reach(seed, mc, mp, g, u, d as int));
                } else {
                    let w = lemma_budget_split(start, g, mc, mp, moves, u);
                    assert(reverse_reach(seed, mc, mp, g, w, d as int));
                    assert(keys.contains(board_key(w) as u128));
                    let bs = choose|bs: Seq<BoardView>| #[trigger] budget_steps(g, mc, mp, moves.drop_last(), bs) && bs[0] == start && bs.last() == w;
                    let wa = choose|a: int| 0 <= a < boards.len() && board_key(#[trigger] boards[a]@) as u128 == board_key(w) as u128;
                    lemma_key_bound(boards[wa]@);
                    lemma_budget_wf(start, g, mc, mp, moves.drop_last(), w);
                    lemma_key_bound(w);
                    lemma_key_injective(boards[wa]@, w);
                    assert(paths[wa].len() <= d);
                    if wa >= head {
                        assert(paths[head].len() <= paths[wa].len());
                    }
                    let m = moves.last();
                    let pb = previous_boards(w, g);
                    let j = choose|j: int| 0 <= j < pb.len() && pb[j] == (u, m.from as int, m.to as int, m.puller as int);
                    assert(keys.contains(board_key(previous_boards(boards[wa]@, g)[j].0) as u128));
                }
            }
        }
    }
}

/// A board not yet known when the board at `head` is expanded cannot be
/// reached in fewer than one transition more than that board's depth.
proof fn lemma_unknown_is_deeper(
    seed: BoardView,
    mc: int,
    mp: int,
    g: Geometry,
    boards: Seq<Board>,
    keys: Set<u128>,
    paths: Seq<Seq<Move>>,
    head: int,
    u: BoardView,
)
    requires
        layers_ok(seed, mc, mp, g, boards, keys, paths, head),
        0 <= head < paths.len(),
        !keys.contains(board_key(u) as u128),
    ensures
        forall|n: int| #[trigger] reverse_reach(seed, mc, mp, g, u, n) ==> paths[head].len() + 1 <= n,
{
    reveal(layers_ok);
}

proof fn lemma_queue_all_wf(
    seed: BoardView,
    mc: int,
    mp: int,
    g: Geometry,
    boards: Seq<Board>,
    starts: Seq<BoardView>,
    paths: Seq<Seq<Move>>,
    most: int,
)
    requires
        queue_ok(seed, mc, mp, g, boards, starts, paths, most),
    ensures
        forall|a: int| 0 <= a < boards.len() ==> (#[trigger] boards[a])@.wf(),
        paths.len() == boards.len(),
{
    reveal(queue_ok);
}

/// Boards along a path from a well-formed start are well formed.
proof fn lemma_budget_wf(start: BoardView, g: Geometry, mc: int, mp: int, moves: Seq<Move>, u: BoardView)
    requires
        budget_path(start, g, mc, mp, moves, u),
        start.wf(),
    ensures
        u.wf(),
    decreases moves.len(),
{
    if moves.len() == 0 {
        let bs = choose|bs: Seq<BoardView>| #[trigger] budget_steps(g, mc, mp, moves, bs) && bs[0] == start && bs.last() == u;
    } else {
        let w = lemma_budget_split(start, g, mc, mp, moves, u);
        lemma_budget_wf(start, g, mc, mp, moves.drop_last(), w);
        lemma_previous_boards_wf(w, g);
        let m = moves.last();
        let pb = previous_boards(w, g);
        let j = choose|j: int| 0 <= j < pb.len() && pb[j] == (u, m.from as int, m.to as int, m.puller as int);
    }
}

/// The reverse search's result: `deepest` is reached from a start of `seed`
/// through boards within the budget by `moves`, and no board the search can
/// reach lies deeper; `visited` is the number of boards it can reach.
pub open spec fn reverse_outcome(
    seed: BoardView,
    mc: int,
    mp: int,
    g: Geometry,
    deepest: BoardView,
    moves: Seq<Move>,
    visited: int,
) -> bool {
    &&& deepest.wf()
    &&& deepest.width == seed.width
    &&& deepest.height == seed.height
    &&& deepest == seed || within_budget(deepest, mc, mp)
    &&& exists|start: BoardView| reverse_start(seed, mp, start) && #[trigger] budget_path(start, g, mc, mp, moves, deepest)
    &&& forall|u: BoardView, n: int| #[trigger] reverse_reach(seed, mc, mp, g, u, n) ==> reverse_reach(seed, mc, mp, g, u, moves.len() as int)
    &&& forall|n: int| #[trigger] reverse_reach(seed, mc, mp, g, deepest, n) ==> moves.len() <= n
    &&& visited == reverse_reach_keys(seed, mc, mp, g).len()
    &&& seed.solved() ==> plays_to_solved(deepest, g, moves.reverse())
}

/// Breadth-first search backwards from `board` (and, where persons may be
/// placed and there is no house, from every placement of
/// `max_person_count` persons on blank cells): returns the deepest board
/// found, the reverse transitions that lead to it (so that played backwards
/// they solve it) and the number of boards taken from the queue, which is
/// the number of distinct boards reached. Predecessors with more than
/// `max_cow_count` cows or `max_person_count` persons are left out. The
/// move count saturates at 255.
#[verifier::rlimit(60)]
pub fn reverse_solve(
    board: Board,
    max_cow_count: u8,
    max_person_count: u8,
    geometry: Geometry,
) -> (r: (Board, ReverseSolution, usize))
    requires
        board@.wf(),
    ensures
        r.1.move_count == saturated_count(r.1.moves@.len() as int),
        reverse_outcome(board@, max_cow_count as int, max_person_count as int, geometry, r.0@, r.1.moves@, r.2 as int),
        within_budget(board@, max_cow_count as int, max_person_count as int) ==> within_budget(
            r.0@,
            max_cow_count as int,
            max_person_count as int,
        ),
{
    let ghost seed = board@;
    let ghost mp = max_person_count as int;
    let ghost mc = max_cow_count as int;
    let mut encountered_boards: HashSet<u128> = HashSet::new();
    let mut boards: Vec<Board> = Vec::new();
    let mut solutions: Vec<Vec<Move>> = Vec::new();
    let ghost mut starts: Seq<BoardView> = seq![];
    let ghost mut paths: Seq<Seq<Move>> = seq![];
    let ghost sel = selections(blank_indices(seed, seed.size()), mp, 0, seq![]);
    let with_people_starts = max_person_count > 0 && board.count_piece(Piece::House) == 0;
    let mut people: Vec<Board> = Vec::new();
    if with_people_starts {
        people = choose_people_locations(&board, max_person_count);
    }
    proof {
        lemma_key_bound(seed);
        assert(boards@.map_values(|b: Board| b@) =~= seq![]);
    }
    proof { reveal(queue_ok); }
    let mut k: usize = 0;
    while k < people.len()
        invariant
            seed == board@,
            seed.wf(),
            mp == max_person_count as int,
            mc == max_cow_count as int,
            sel == selections(blank_indices(seed, seed.size()), mp, 0, seq![]),
            with_people_starts == (max_person_count > 0 && seed.count(Piece::House) == 0),
            !with_people_starts ==> people@.len() == 0,
            with_people_starts ==> people@.len() == sel.len(),
            forall|a: int|
                0 <= a < people@.len() ==> (#[trigger] people@[a])@ == with_people(seed, sel[a])
                    && people@[a]@.wf() && people@[a].width == board.width && people@[a].height == board.height,
            k <= people@.len(),
            queue_ok(seed, mc, mp, geometry, boards@, starts, paths, 0),
            forall|a: int| 0 <= a < boards@.len() ==> #[trigger] solutions@[a]@ == paths[a],
            boards@.len() == solutions@.len(),
            keys_of_boards(boards@, encountered_boards@),
            forall|a: int| 0 <= a < k ==> encountered_boards@.contains(board_key(#[trigger] people@[a]@) as u128),
            encountered_boards@.finite(),
            forall|x: u128| encountered_boards@.contains(x) ==> x < key_bound(),
            encountered_boards@.len() == boards@.len(),
        decreases people@.len() - k,
    {
        let p = people[k];
        proof {
            assert(reverse_start(seed, mp, p@));
            lemma_key_bound(p@);
        }
        let key = p.key();
        if !encountered_boards.contains(&key) {
            let ghost old_boards = boards@;
            let ghost old_solutions = solutions@;
            let ghost old_keys = encountered_boards@;
            let ghost old_starts = starts;
            let ghost old_paths = paths;
            encountered_boards.insert(key);
            boards.push(p);
            solutions.push(Vec::new());
            proof {
                lemma_budget_empty(p@, geometry, mc, mp);
                starts = starts.push(p@);
                paths = paths.push(seq![]);
                assert(solutions@.last()@ =~= paths.last());
                lemma_queue_push(seed, mc, mp, geometry, 0, old_boards, boards@, old_solutions, solutions@, old_keys, encountered_boards@, old_starts, starts, old_paths, paths, 0, p, solutions@.last(), p@, seq![]);
                lemma_key_set_bound(encountered_boards@, key_bound());
            }
        }
        k = k + 1;
    }
    let seed_key = board.key();
    if !encountered_boards.contains(&seed_key) {
        let ghost old_boards = boards@;
        let ghost old_solutions = solutions@;
        let ghost old_keys = encountered_boards@;
        let ghost old_starts = starts;
        let ghost old_paths = paths;
        encountered_boards.insert(seed_key);
        boards.push(board);
        solutions.push(Vec::new());
        proof {
            lemma_budget_empty(seed, geometry, mc, mp);
            starts = starts.push(seed);
            paths = paths.push(seq![]);
            assert(solutions@.last()@ =~= paths.last());
            lemma_queue_push(seed, mc, mp, geometry, 0, old_boards, boards@, old_solutions, solutions@, old_keys, encountered_boards@, old_starts, starts, old_paths, paths, 0, board, solutions@.last(), seed, seq![]);
        }
    }
    proof {
        lemma_key_set_bound(encountered_boards@, key_bound());
        lemma_budget_empty(seed, geometry, mc, mp);
    }
    // every start is known
    proof { reveal(starts_known); reveal(queue_ok); }
    assert forall|s: BoardView| #[trigger] reverse_start(seed, mp, s) implies s.wf() && encountered_boards@.contains(board_key(s) as u128) by {
        if s != seed {
            let q = choose|q: int| 0 <= q < sel.len() && s == with_people(seed, #[trigger] sel[q]);
            assert(people@[q]@ == s);
        }
    }
    proof {
        assert forall|a: int| 0 <= a < paths.len() implies (#[trigger] paths[a]).len() == 0 by {
            lemma_queue_at(seed, mc, mp, geometry, boards@, starts, paths, 0, a);
        }
        lemma_queue_all_wf(seed, mc, mp, geometry, boards@, starts, paths, 0);
        lemma_layers_init(seed, mc, mp, geometry, boards@, encountered_boards@, paths);
    }
    let mut most_moves: usize = 0;
    let mut board_with_most_moves = board;
    let mut best_moves: Vec<Move> = Vec::new();
    let ghost mut best_start = seed;
    assert(best_moves@ =~= seq![]);
    proof { reveal(predecessors_known); }
    let mut head: usize = 0;
    while head < boards.len()
        invariant
            seed == board@,
            seed.wf(),
            mp == max_person_count as int,
            mc == max_cow_count as int,
            queue_ok(seed, mc, mp, geometry, boards@, starts, paths, most_moves as int),
            boards@.len() == solutions@.len(),
            head <= boards@.len(),
            forall|a: int| head <= a < boards@.len() ==> #[trigger] solutions@[a]@ == paths[a],
            keys_of_boards(boards@, encountered_boards@),
            predecessors_known(boards@, encountered_boards@, geometry, mc, mp, head as int),
            starts_known(seed, mp, encountered_boards@),
            encountered_boards@.finite(),
            forall|x: u128| encountered_boards@.contains(x) ==> x < key_bound(),
            encountered_boards@.len() == boards@.len(),
            encountered_boards@.len() <= key_bound(),
            board_with_most_moves@.wf(),
            board_with_most_moves.width == board.width,
            board_with_most_moves.height == board.height,
            best_moves@.len() == most_moves,
            board_with_most_moves@ == seed || within_budget(board_with_most_moves@, mc, mp),
            reverse_start(seed, mp, best_start),
            best_start.wf(),
            budget_path(best_start, geometry, mc, mp, best_moves@, board_with_most_moves@),
            layers_ok(seed, mc, mp, geometry, boards@, encountered_boards@, paths, head as int),
            forall|n: int| #[trigger] reverse_reach(seed, mc, mp, geometry, board_with_most_moves@, n) ==> most_moves <= n,
        decreases key_bound() - encountered_boards@.len(), boards@.len() - head,
    {
        let current = boards[head];
        let ghost current_start = starts[head as int];
        proof {
            lemma_queue_at(seed, mc, mp, geometry, boards@, starts, paths, most_moves as int, head as int);
        }
        let ghost queued = solutions@;
        let mut moves: Vec<Move> = Vec::new();
        core::mem::swap(&mut solutions[head], &mut moves);
        assert(moves == queued[head as int]);
        assert(forall|a: int| 0 <= a < queued.len() && a != head ==> solutions@[a] == queued[a]);
        assert(current == boards@[head as int]);
        assert(moves@ == paths[head as int]);
        head = head + 1;
        assert forall|a: int| head <= a < boards@.len() implies #[trigger] solutions@[a]@ == paths[a] by {
            assert(solutions@[a] == queued[a]);
        }
        let ghost len0 = boards@.len();
        let predecessors = current.get_possible_previous_boards(geometry);
        proof { lemma_previous_boards_wf(current@, geometry); }
        let mut j: usize = 0;
        while j < predecessors.len()
            invariant
                seed == board@,
                seed.wf(),
                mp == max_person_count as int,
                mc == max_cow_count as int,
                current == boards@[head - 1],
                current@.wf(),
                current.width == board.width,
                current.height == board.height,
                reverse_start(seed, mp, current_start),
                current_start.wf(),
                budget_path(current_start, geometry, mc, mp, moves@, current@),
                moves@.len() <= most_moves,
                children_view(predecessors@) == previous_boards(current@, geometry),
                forall|k: int|
                    0 <= k < previous_boards(current@, geometry).len() ==> {
                        let e = #[trigger] previous_boards(current@, geometry)[k];
                        &&& e.0.wf()
                        &&& e.0.width == current@.width
                        &&& e.0.height == current@.height
                    },
                j <= predecessors@.len(),
                queue_ok(seed, mc, mp, geometry, boards@, starts, paths, most_moves as int),
                boards@.len() == solutions@.len(),
                1 <= head <= len0 <= boards@.len(),
                forall|a: int| head <= a < boards@.len() ==> #[trigger] solutions@[a]@ == paths[a],
                keys_of_boards(boards@, encountered_boards@),
                predecessors_known(boards@, encountered_boards@, geometry, mc, mp, head - 1),
                forall|k: int|
                    0 <= k < j && within_budget(previous_boards(current@, geometry)[k].0, mc, mp) ==> encountered_boards@.contains(
                        board_key(#[trigger] previous_boards(current@, geometry)[k].0) as u128,
                    ),
                starts_known(seed, mp, encountered_boards@),
                encountered_boards@.finite(),
                forall|x: u128| encountered_boards@.contains(x) ==> x < key_bound(),
                encountered_boards@.len() == boards@.len(),
                encountered_boards@.len() <= key_bound(),
                board_with_most_moves@.wf(),
                board_with_most_moves.width == board.width,
                board_with_most_moves.height == board.height,
                best_moves@.len() == most_moves,
                board_with_most_moves@ == seed || within_budget(board_with_most_moves@, mc, mp),
                reverse_start(seed, mp, best_start),
                best_start.wf(),
                budget_path(best_start, geometry, mc, mp, best_moves@, board_with_most_moves@),
                layers_ok(seed, mc, mp, geometry, boards@, encountered_boards@, paths, head - 1),
                head - 1 < paths.len(),
                moves@ == paths[head - 1],
                forall|n: int| #[trigger] reverse_reach(seed, mc, mp, geometry, board_with_most_moves@, n) ==> most_moves <= n,
            decreases predecessors@.len() - j,
        {
            let (prev, from, to, puller) = predecessors[j];
            assert(children_view(predecessors@)[j as int] == previous_boards(current@, geometry)[j as int]);
            let key = prev.key();
            proof { lemma_key_bound(prev@); }
            if encountered_boards.contains(&key) {
                j = j + 1;
                continue;
            }
            if prev.count_piece(Piece::Cow) > max_cow_count || prev.count_piece(Piece::Person)
                > max_person_count {
                j = j + 1;
                continue;
            }
            let mut new_moves = copy_moves(&moves);
            let m = Move { from, to, puller };
            new_moves.push(m);
            proof {
                assert(previous_boards(current@, geometry).contains(
                    (prev@, from as int, to as int, puller as int),
                ));
                lemma_budget_extend(current_start, geometry, mc, mp, moves@, current@, m, prev@);
            }
            let ghost most0 = most_moves as int;
            proof { lemma_unknown_is_deeper(seed, mc, mp, geometry, boards@, encountered_boards@, paths, head - 1, prev@); }
            if new_moves.len() > most_moves {
                most_moves = new_moves.len();
                board_with_most_moves = prev;
                best_moves = copy_moves(&new_moves);
                proof { best_start = current_start; }
            }
            let ghost old_boards = boards@;
            let ghost old_solutions = solutions@;
            let ghost old_keys = encountered_boards@;
            let ghost old_paths = paths;
            let ghost old_starts = starts;
            encountered_boards.insert(key);
            proof { lemma_key_set_bound(encountered_boards@, key_bound()); }
            boards.push(prev);
            solutions.push(new_moves);
            proof {
                starts = starts.push(current_start);
                paths = paths.push(new_moves@);
                let n = old_boards.len() as int;
                assert(boards@[head - 1] == old_boards[head - 1]);
                lemma_queue_most(seed, mc, mp, geometry, old_boards, old_starts, old_paths, most0, most_moves as int);
                lemma_queue_push(seed, mc, mp, geometry, most_moves as int, old_boards, boards@, old_solutions, solutions@, old_keys, encountered_boards@, old_starts, starts, old_paths, paths, head as int, prev, solutions@.last(), current_start, new_moves@);
                lemma_known_after_push(old_boards, boards@, old_keys, encountered_boards@, geometry, mc, mp, head - 1, prev);
                lemma_starts_grow(seed, mp, old_keys, encountered_boards@);
                lemma_queue_all_wf(seed, mc, mp, geometry, old_boards, old_starts, old_paths, most_moves as int);
                lemma_layers_push(seed, mc, mp, geometry, old_boards, old_keys, old_paths, boards@, encountered_boards@, paths, head as int, prev, new_moves@);
                assert(paths[head - 1] == old_paths[head - 1]);
            }
            j = j + 1;
        }
        proof {
            lemma_known_extend(boards@, encountered_boards@, geometry, mc, mp, head as int);
            lemma_queue_all_wf(seed, mc, mp, geometry, boards@, starts, paths, most_moves as int);
            lemma_layers_next(seed, mc, mp, geometry, boards@, encountered_boards@, paths, head as int);
        }
    }
    let move_count = count_moves(best_moves.len());
    let solution = ReverseSolution { moves: best_moves, move_count };
    proof {
        lemma_reverse_finish(
            seed,
            mc,
            mp,
            geometry,
            boards@,
            encountered_boards@,
            starts,
            paths,
            most_moves as int,
            best_start,
            solution.moves@,
            board_with_most_moves@,
        );
    }
    (board_with_most_moves, solution, head)
}

/// Appending a board to the queue, with its start, path and key, keeps the
/// queue well formed.
proof fn lemma_queue_push(
    seed: BoardView,
    mc: int,
    mp: int,
    g: Geometry,
    most: int,
    old_boards: Seq<Board>,
    boards: Seq<Board>,
    old_solutions: Seq<Vec<Move>>,
    solutions: Seq<Vec<Move>>,
    old_keys: Set<u128>,
    keys: Set<u128>,
    old_starts: Seq<BoardView>,
    starts: Seq<BoardView>,
    old_paths: Seq<Seq<Move>>,
    paths: Seq<Seq<Move>>,
    from: int,
    b: Board,
    sol: Vec<Move>,
    st: BoardView,
    path: Seq<Move>,
)
    requires
        0 <= from,
        queue_ok(seed, mc, mp, g, old_boards, old_starts, old_paths, most),
        keys_of_boards(old_boards, old_keys),
        old_solutions.len() == old_boards.len(),
        forall|a: int| from <= a < old_boards.len() ==> #[trigger] old_solutions[a]@ == old_paths[a],
        boards == old_boards.push(b),
        solutions == old_solutions.push(sol),
        starts == old_starts.push(st),
        paths == old_paths.push(path),
        keys == old_keys.insert(board_key(b@) as u128),
        b@.wf(),
        b.width == seed.width,
        b.height == seed.height,
        reverse_start(seed, mp, st),
        st.wf(),
        budget_path(st, g, mc, mp, path, b@),
        path.len() <= most,
        sol@ == path,
    ensures
        queue_ok(seed, mc, mp, g, boards, starts, paths, most),
        keys_of_boards(boards, keys),
        forall|a: int| from <= a < boards.len() ==> #[trigger] solutions[a]@ == paths[a],
{
    reveal(queue_ok);
    reveal(starts_known);
    let n = old_boards.len() as int;
    assert forall|a: int| 0 <= a < boards.len() implies {
        &&& (#[trigger] boards[a])@.wf()
        &&& boards[a].width == seed.width
        &&& boards[a].height == seed.height
        &&& reverse_start(seed, mp, starts[a])
        &&& starts[a].wf()
        &&& budget_path(starts[a], g, mc, mp, paths[a], boards[a]@)
        &&& paths[a].len() <= most
    } by {
        if a < n {
            assert(boards[a] == old_boards[a]);
            assert(starts[a] == old_starts[a]);
            assert(paths[a] == old_paths[a]);
        }
    }
    assert forall|a: int| from <= a < boards.len() implies #[trigger] solutions[a]@ == paths[a] by {
        if a < n {
            assert(old_solutions.push(sol)[a] == old_solutions[a]);
            assert(old_paths.push(path)[a] == old_paths[a]);
        }
    }
    assert forall|a: int| 0 <= a < boards.len() implies keys.contains(board_key(#[trigger] boards[a]@) as u128) by {
        if a < n {
            assert(boards[a] == old_boards[a]);
        }
    }
    assert forall|x: u128| keys.contains(x) implies exists|a: int|
        0 <= a < boards.len() && board_key(#[trigger] boards[a]@) as u128 == x by {
        if x != board_key(b@) as u128 {
            let a = choose|a: int| 0 <= a < old_boards.len() && board_key(#[trigger] old_boards[a]@) as u128 == x;
            assert(boards[a] == old_boards[a]);
        } else {
            assert(boards[n] == b);
        }
    }
}

proof fn lemma_queue_at(
    seed: BoardView,
    mc: int,
    mp: int,
    g: Geometry,
    boards: Seq<Board>,
    starts: Seq<BoardView>,
    paths: Seq<Seq<Move>>,
    most: int,
    a: int,
)
    requires
        queue_ok(seed, mc, mp, g, boards, starts, paths, most),
        0 <= a < boards.len(),
    ensures
        boards[a]@.wf(),
        boards[a].width == seed.width,
        boards[a].height == seed.height,
        reverse_start(seed, mp, starts[a]),
        starts[a].wf(),
        budget_path(starts[a], g, mc, mp, paths[a], boards[a]@),
        paths[a].len() <= most,
        boards.len() == starts.len(),
        boards.len() == paths.len(),
{
    reveal(queue_ok);
    assert(boards[a]@.wf());
    assert(paths[a].len() <= most);
}

proof fn lemma_starts_grow(seed: BoardView, mp: int, keys: Set<u128>, more: Set<u128>)
    requires
        starts_known(seed, mp, keys),
        keys.subset_of(more),
    ensures
        starts_known(seed, mp, more),
{
    reveal(starts_known);
}

proof fn lemma_queue_most(
    seed: BoardView,
    mc: int,
    mp: int,
    g: Geometry,
    boards: Seq<Board>,
    starts: Seq<BoardView>,
    paths: Seq<Seq<Move>>,
    most0: int,
    most1: int,
)
    requires
        queue_ok(seed, mc, mp, g, boards, starts, paths, most0),
        most0 <= most1,
    ensures
        queue_ok(seed, mc, mp, g, boards, starts, paths, most1),
{
    reveal(queue_ok);
    reveal(starts_known);
}

/// A board the search can reach is in the fully expanded queue, so it is
/// reached within the greatest depth met.
proof fn lemma_reached_in_queue(
    seed: BoardView,
    mc: int,
    mp: int,
    g: Geometry,
    boards: Seq<Board>,
    keys: Set<u128>,
    starts: Seq<BoardView>,
    paths: Seq<Seq<Move>>,
    most: int,
    u: BoardView,
    n: int,
)
    requires
        queue_ok(seed, mc, mp, g, boards, starts, paths, most),
        keys_of_boards(boards, keys),
        predecessors_known(boards, keys, g, mc, mp, boards.len() as int),
        starts_known(seed, mp, keys),
        reverse_reach(seed, mc, mp, g, u, n),
    ensures
        u.wf(),
        keys.contains(board_key(u) as u128),
        reverse_reach(seed, mc, mp, g, u, most),
{
    reveal(queue_ok);
    reveal(starts_known);
    let (start, moves) = choose|start: BoardView, moves: Seq<Move>|
        reverse_start(seed, mp, start) && moves.len() <= n && #[trigger] budget_path(start, g, mc, mp, moves, u);
    let bs = choose|bs: Seq<BoardView>| #[trigger] budget_steps(g, mc, mp, moves, bs) && bs[0] == start && bs.last() == u;
    assert(start.wf() && keys.contains(board_key(start) as u128));
    assert forall|a: int| 0 <= a < boards.len() implies (#[trigger] boards[a])@.wf() by {}
    lemma_reach_known(seed, mc, mp, g, boards, keys, start, moves, bs, bs.len() - 1);
    lemma_key_bound(u);
    let a = choose|a: int| 0 <= a < boards.len() && board_key(#[trigger] boards[a]@) as u128 == board_key(u) as u128;
    lemma_key_bound(boards[a]@);
    lemma_key_injective(boards[a]@, u);
    assert(budget_path(starts[a], g, mc, mp, paths[a], u));
}

proof fn lemma_reverse_finish(
    seed: BoardView,
    mc: int,
    mp: int,
    g: Geometry,
    boards: Seq<Board>,
    keys: Set<u128>,
    starts: Seq<BoardView>,
    paths: Seq<Seq<Move>>,
    most: int,
    best_start: BoardView,
    best_moves: Seq<Move>,
    deepest: BoardView,
)
    requires
        seed.wf(),
        queue_ok(seed, mc, mp, g, boards, starts, paths, most),
        keys_of_boards(boards, keys),
        predecessors_known(boards, keys, g, mc, mp, boards.len() as int),
        starts_known(seed, mp, keys),
        keys.finite(),
        keys.len() == boards.len(),
        deepest.wf(),
        deepest.width == seed.width,
        deepest.height == seed.height,
        deepest == seed || within_budget(deepest, mc, mp),
        reverse_start(seed, mp, best_start),
        best_start.wf(),
        budget_path(best_start, g, mc, mp, best_moves, deepest),
        best_moves.len() == most,
        forall|n: int| #[trigger] reverse_reach(seed, mc, mp, g, deepest, n) ==> most <= n,
    ensures
        reverse_outcome(seed, mc, mp, g, deepest, best_moves, boards.len() as int),
{
    reveal(queue_ok);
    reveal(starts_known);
    assert forall|u: BoardView, n: int| #[trigger] reverse_reach(seed, mc, mp, g, u, n) implies reverse_reach(
        seed,
        mc,
        mp,
        g,
        u,
        best_moves.len() as int,
    ) by {
        lemma_reached_in_queue(seed, mc, mp, g, boards, keys, starts, paths, most, u, n);
    }
    let reach = reverse_reach_keys(seed, mc, mp, g);
    assert forall|x: u128| keys.contains(x) <==> reach.contains(x) by {
        if keys.contains(x) {
            let a = choose|a: int| 0 <= a < boards.len() && board_key(#[trigger] boards[a]@) as u128 == x;
            assert(budget_path(starts[a], g, mc, mp, paths[a], boards[a]@));
            assert(reverse_reach(seed, mc, mp, g, boards[a]@, paths[a].len() as int));
        }
        if reach.contains(x) {
            let (u, n) = choose|u: BoardView, n: int|
                u.wf() && board_key(u) as u128 == x && #[trigger] reverse_reach(seed, mc, mp, g, u, n);
            lemma_reached_in_queue(seed, mc, mp, g, boards, keys, starts, paths, most, u, n);
        }
    }
    assert(keys =~= reach);
    if seed.solved() {
        lemma_start_solved(seed, mp, best_start);
        lemma_budget_is_reverse_path(best_start, g, mc, mp, best_moves, deepest);
        lemma_reverse_path_plays(best_start, g, best_moves, deepest);
        lemma_plays_solved(deepest, g, best_moves.reverse(), best_start);
    }
}



} // verus!
