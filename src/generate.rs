//! Combinatorial enumeration of boards with given piece counts, one board
//! for each class of symmetric variants.
use vstd::prelude::*;
use vstd::std_specs::hash::group_hash_axioms;
use vstd::string::{StringExecFns, is_ascii_spec_bytes};
use vstd::utf8::is_ascii_chars;
use std::collections::HashSet;
use crate::board::{Board, BoardView, Piece, MAX_BOARD_SIZE, lemma_index_in_grid};
use crate::key::{board_key, lemma_key_bound, lemma_key_injective};
use crate::symmetry::{
    boards_view, flipped, geometric_variants, lemma_flipped_wf, lemma_role_swapped_wf,
    lemma_rotated_wf, role_swapped, rotated, symmetric_variants,
};
use crate::text::{char_piece, piece_char, piece_of_byte, piece_text};
use crate::board::Geometry;
use crate::reverse_solver::{ReverseSolution, reverse_outcome, reverse_solve, within_budget};
use crate::solve::{Move, Solution, plays_to_solved, saturated_count, uses_all_pieces_of, uses_all_rows_columns_of};

verus! {

broadcast use group_hash_axioms;

pub open spec fn prefixed(c: char, ss: Seq<Seq<char>>) -> Seq<Seq<char>> {
    ss.map_values(|s: Seq<char>| seq![c] + s)
}

/// Every cell string of length `n` with exactly `c` cows (`O`), `b` barns
/// (`B`), `p` persons (`P`), `h` houses (`H`) and `e` obstacles (`E`), the
/// other cells blank (`_`); ordered by first character in the order
/// O, B, P, H, E, _, then by the rest.
pub open spec fn fillings(n: int, c: int, b: int, p: int, h: int, e: int) -> Seq<Seq<char>>
    decreases n,
{
    if c + b + p + h + e > n {
        seq![]
    } else if n <= 0 {
        seq![seq![]]
    } else {
        (if c > 0 {
            prefixed('O', fillings(n - 1, c - 1, b, p, h, e))
        } else {
            seq![]
        }) + (if b > 0 {
            prefixed('B', fillings(n - 1, c, b - 1, p, h, e))
        } else {
            seq![]
        }) + (if p > 0 {
            prefixed('P', fillings(n - 1, c, b, p - 1, h, e))
        } else {
            seq![]
        }) + (if h > 0 {
            prefixed('H', fillings(n - 1, c, b, p, h - 1, e))
        } else {
            seq![]
        }) + (if e > 0 {
            prefixed('E', fillings(n - 1, c, b, p, h, e - 1))
        } else {
            seq![]
        }) + prefixed('_', fillings(n - 1, c, b, p, h, e))
    }
}

pub open spec fn strings_view(s: Seq<String>) -> Seq<Seq<char>> {
    s.map_values(|x: String| x@)
}

/// The `w` by `h` board whose cells the string `cells` spells.
pub open spec fn board_of(w: int, h: int, cells: Seq<char>) -> BoardView {
    BoardView {
        width: w,
        height: h,
        cells: Seq::new(
            MAX_BOARD_SIZE as nat,
            |k: int|
                if k < w * h {
                    char_piece(cells[k])->0
                } else {
                    Piece::Blank
                },
        ),
    }
}

/// Every board of the given size and piece counts, in enumeration order.
pub open spec fn candidates(w: int, h: int, c: int, b: int, p: int, ho: int, e: int) -> Seq<BoardView> {
    fillings(w * h, c, b, p, ho, e).map_values(|s: Seq<char>| board_of(w, h, s))
}

pub open spec fn cell_char(ch: char) -> bool {
    char_piece(ch) is Some
}

proof fn lemma_prefixed_shape(c: char, ss: Seq<Seq<char>>, n: int)
    requires
        cell_char(c),
        forall|k: int| 0 <= k < ss.len() ==> (#[trigger] ss[k]).len() == n && forall|q: int|
            0 <= q < ss[k].len() ==> cell_char(#[trigger] ss[k][q]),
    ensures
        forall|k: int|
            0 <= k < prefixed(c, ss).len() ==> (#[trigger] prefixed(c, ss)[k]).len() == n + 1
                && forall|q: int| 0 <= q < prefixed(c, ss)[k].len() ==> cell_char(#[trigger] prefixed(c, ss)[k][q]),
{
    assert forall|k: int| 0 <= k < prefixed(c, ss).len() implies (#[trigger] prefixed(c, ss)[k]).len()
        == n + 1 && forall|q: int| 0 <= q < prefixed(c, ss)[k].len() ==> cell_char(#[trigger] prefixed(c, ss)[k][q]) by {
        let t = prefixed(c, ss)[k];
        assert(t == seq![c] + ss[k]);
        assert forall|q: int| 0 <= q < t.len() implies cell_char(#[trigger] t[q]) by {
            if q > 0 {
                assert(t[q] == ss[k][q - 1]);
            }
        }
    }
}

pub open spec fn shaped(ss: Seq<Seq<char>>, n: int) -> bool {
    forall|k: int| 0 <= k < ss.len() ==> (#[trigger] ss[k]).len() == n && forall|q: int|
        0 <= q < ss[k].len() ==> cell_char(#[trigger] ss[k][q])
}

proof fn lemma_concat_shaped(a: Seq<Seq<char>>, b: Seq<Seq<char>>, n: int)
    requires
        shaped(a, n),
        shaped(b, n),
    ensures
        shaped(a + b, n),
{
    assert forall|k: int| 0 <= k < (a + b).len() implies (#[trigger] (a + b)[k]).len() == n && forall|q: int|
        0 <= q < (a + b)[k].len() ==> cell_char(#[trigger] (a + b)[k][q]) by {
        if k < a.len() {
            assert((a + b)[k] == a[k]);
        } else {
            assert((a + b)[k] == b[k - a.len()]);
        }
    }
}

/// Every filling has length `n` and only cell characters.
proof fn lemma_fillings_shape(n: int, c: int, b: int, p: int, h: int, e: int)
    requires
        0 <= c && 0 <= b && 0 <= p && 0 <= h && 0 <= e,
    ensures
        shaped(fillings(n, c, b, p, h, e), n),
    decreases n,
{
    if c + b + p + h + e > n {
    } else if n <= 0 {
        assert(fillings(n, c, b, p, h, e) =~= seq![seq![]]);
    } else {
        let m = n - 1;
        let empty = Seq::<Seq<char>>::empty();
        if c > 0 {
            lemma_fillings_shape(m, c - 1, b, p, h, e);
            lemma_prefixed_shape('O', fillings(m, c - 1, b, p, h, e), m);
        }
        if b > 0 {
            lemma_fillings_shape(m, c, b - 1, p, h, e);
            lemma_prefixed_shape('B', fillings(m, c, b - 1, p, h, e), m);
        }
        if p > 0 {
            lemma_fillings_shape(m, c, b, p - 1, h, e);
            lemma_prefixed_shape('P', fillings(m, c, b, p - 1, h, e), m);
        }
        if h > 0 {
            lemma_fillings_shape(m, c, b, p, h - 1, e);
            lemma_prefixed_shape('H', fillings(m, c, b, p, h - 1, e), m);
        }
        if e > 0 {
            lemma_fillings_shape(m, c, b, p, h, e - 1);
            lemma_prefixed_shape('E', fillings(m, c, b, p, h, e - 1), m);
        }
        lemma_fillings_shape(m, c, b, p, h, e);
        lemma_prefixed_shape('_', fillings(m, c, b, p, h, e), m);
        let so = if c > 0 { prefixed('O', fillings(m, c - 1, b, p, h, e)) } else { empty };
        let sb = if b > 0 { prefixed('B', fillings(m, c, b - 1, p, h, e)) } else { empty };
        let sp = if p > 0 { prefixed('P', fillings(m, c, b, p - 1, h, e)) } else { empty };
        let sh = if h > 0 { prefixed('H', fillings(m, c, b, p, h - 1, e)) } else { empty };
        let se = if e > 0 { prefixed('E', fillings(m, c, b, p, h, e - 1)) } else { empty };
        let su = prefixed('_', fillings(m, c, b, p, h, e));
        lemma_concat_shaped(so, sb, n);
        lemma_concat_shaped(so + sb, sp, n);
        lemma_concat_shaped(so + sb + sp, sh, n);
        lemma_concat_shaped(so + sb + sp + sh, se, n);
        lemma_concat_shaped(so + sb + sp + sh + se, su, n);
    }
}

/// Appends the character of `piece` to `s`.
fn push_cell(s: &mut String, piece: Piece)
    ensures
        final(s)@ == old(s)@.push(piece_char(piece)),
{
    s.append(piece_text(piece));
    assert(final(s)@ =~= old(s)@.push(piece_char(piece)));
}

/// Appends, after `prefix`, every filling of the remaining cells.
fn extend_prefix(
    boards: &mut Vec<String>,
    length: u8,
    prefix: &str,
    piece: Piece,
    cow_count: u8,
    barn_count: u8,
    person_count: u8,
    house_count: u8,
    empty_count: u8,
)
    requires
        prefix@.len() < length,
        is_ascii_chars(prefix@),
        cell_char(piece_char(piece)),
    ensures
        strings_view(final(boards)@) == strings_view(old(boards)@) + fillings(
            length - prefix@.len() - 1,
            cow_count as int,
            barn_count as int,
            person_count as int,
            house_count as int,
            empty_count as int,
        ).map_values(|s: Seq<char>| prefix@.push(piece_char(piece)) + s),
    decreases length - prefix@.len(), 0int,
{
    let mut new_prefix = prefix.to_owned();
    push_cell(&mut new_prefix, piece);
    assert(is_ascii_chars(new_prefix@)) by {
        assert forall|q: int| 0 <= q < new_prefix@.len() implies '\0' <= #[trigger] new_prefix@[q]
            <= '\u{7f}' by {
            if q < prefix@.len() {
                assert(new_prefix@[q] == prefix@[q]);
            }
        }
    }
    let mut more = generate_with_prefix(
        length,
        new_prefix.as_str(),
        cow_count,
        barn_count,
        person_count,
        house_count,
        empty_count,
    );
    let ghost old_view = strings_view(boards@);
    let ghost more_view = strings_view(more@);
    boards.append(&mut more);
    assert(strings_view(boards@) =~= old_view + more_view);
}

proof fn lemma_map_concat(a: Seq<Seq<char>>, b: Seq<Seq<char>>, prefix: Seq<char>)
    ensures
        (a + b).map_values(|s: Seq<char>| prefix + s) == a.map_values(|s: Seq<char>| prefix + s)
            + b.map_values(|s: Seq<char>| prefix + s),
{
    assert((a + b).map_values(|s: Seq<char>| prefix + s) =~= a.map_values(|s: Seq<char>| prefix + s)
        + b.map_values(|s: Seq<char>| prefix + s));
}

/// Every cell string that extends `prefix` to `length` cells with exactly
/// the given counts of cows, barns, persons, houses and obstacles.
#[verifier::rlimit(40)]
fn generate_with_prefix(
    length: u8,
    prefix: &str,
    cow_count: u8,
    barn_count: u8,
    person_count: u8,
    house_count: u8,
    empty_count: u8,
) -> (r: Vec<String>)
    requires
        prefix@.len() <= length,
        is_ascii_chars(prefix@),
    ensures
        strings_view(r@) == fillings(
            length - prefix@.len(),
            cow_count as int,
            barn_count as int,
            person_count as int,
            house_count as int,
            empty_count as int,
        ).map_values(|s: Seq<char>| prefix@ + s),
    decreases length - prefix@.len(), 1int,
{
    let ghost n = length - prefix@.len();
    let ghost c = cow_count as int;
    let ghost b = barn_count as int;
    let ghost p = person_count as int;
    let ghost h = house_count as int;
    let ghost e = empty_count as int;
    proof { is_ascii_spec_bytes(prefix); }
    let used = prefix.len();
    if cow_count as u32 + barn_count as u32 + person_count as u32 + house_count as u32
        + empty_count as u32 > length as u32 - used as u32 {
        let r: Vec<String> = Vec::new();
        assert(strings_view(r@) =~= fillings(n, c, b, p, h, e).map_values(|s: Seq<char>| prefix@ + s));
        return r;
    }
    if used == length as usize {
        let mut r: Vec<String> = Vec::new();
        r.push(prefix.to_owned());
        assert(fillings(n, c, b, p, h, e) =~= seq![seq![]]);
        assert(prefix@ + Seq::<char>::empty() =~= prefix@);
        assert(strings_view(r@) =~= fillings(n, c, b, p, h, e).map_values(|s: Seq<char>| prefix@ + s));
        return r;
    }
    let mut boards: Vec<String> = Vec::new();
    let ghost m = n - 1;
    let ghost f = |s: Seq<char>| prefix@ + s;
    let ghost empty = Seq::<Seq<char>>::empty();
    let ghost so = if c > 0 { prefixed('O', fillings(m, c - 1, b, p, h, e)) } else { empty };
    let ghost sb = if b > 0 { prefixed('B', fillings(m, c, b - 1, p, h, e)) } else { empty };
    let ghost sp = if p > 0 { prefixed('P', fillings(m, c, b, p - 1, h, e)) } else { empty };
    let ghost sh = if h > 0 { prefixed('H', fillings(m, c, b, p, h - 1, e)) } else { empty };
    let ghost se = if e > 0 { prefixed('E', fillings(m, c, b, p, h, e - 1)) } else { empty };
    let ghost su = prefixed('_', fillings(m, c, b, p, h, e));
    assert(fillings(n, c, b, p, h, e) == so + sb + sp + sh + se + su);
    if cow_count > 0 {
        extend_prefix(&mut boards, length, prefix, Piece::Cow, cow_count - 1, barn_count, person_count, house_count, empty_count);
        proof { lemma_prefix_map(prefix@, 'O', fillings(m, c - 1, b, p, h, e)); }
    }
    assert(strings_view(boards@) =~= so.map_values(f));
    proof { lemma_map_concat(so, sb, prefix@); }
    if barn_count > 0 {
        extend_prefix(&mut boards, length, prefix, Piece::Barn, cow_count, barn_count - 1, person_count, house_count, empty_count);
        proof { lemma_prefix_map(prefix@, 'B', fillings(m, c, b - 1, p, h, e)); }
    }
    assert(strings_view(boards@) =~= (so + sb).map_values(f));
    proof { lemma_map_concat(so + sb, sp, prefix@); }
    if person_count > 0 {
        extend_prefix(&mut boards, length, prefix, Piece::Person, cow_count, barn_count, person_count - 1, house_count, empty_count);
        proof { lemma_prefix_map(prefix@, 'P', fillings(m, c, b, p - 1, h, e)); }
    }
    assert(strings_view(boards@) =~= (so + sb + sp).map_values(f));
    proof { lemma_map_concat(so + sb + sp, sh, prefix@); }
    if house_count > 0 {
        extend_prefix(&mut boards, length, prefix, Piece::House, cow_count, barn_count, person_count, house_count - 1, empty_count);
        proof { lemma_prefix_map(prefix@, 'H', fillings(m, c, b, p, h - 1, e)); }
    }
    assert(strings_view(boards@) =~= (so + sb + sp + sh).map_values(f));
    proof { lemma_map_concat(so + sb + sp + sh, se, prefix@); }
    if empty_count > 0 {
        extend_prefix(&mut boards, length, prefix, Piece::Empty, cow_count, barn_count, person_count, house_count, empty_count - 1);
        proof { lemma_prefix_map(prefix@, 'E', fillings(m, c, b, p, h, e - 1)); }
    }
    assert(strings_view(boards@) =~= (so + sb + sp + sh + se).map_values(f));
    proof { lemma_map_concat(so + sb + sp + sh + se, su, prefix@); }
    extend_prefix(&mut boards, length, prefix, Piece::Blank, cow_count, barn_count, person_count, house_count, empty_count);
    proof { lemma_prefix_map(prefix@, '_', fillings(m, c, b, p, h, e)); }
    assert(strings_view(boards@) =~= (so + sb + sp + sh + se + su).map_values(f));
    boards
}

proof fn lemma_prefix_map(prefix: Seq<char>, c: char, ss: Seq<Seq<char>>)
    ensures
        ss.map_values(|s: Seq<char>| prefix.push(c) + s) == prefixed(c, ss).map_values(
            |s: Seq<char>| prefix + s,
        ),
{
    let l = ss.map_values(|s: Seq<char>| prefix.push(c) + s);
    let r = prefixed(c, ss).map_values(|s: Seq<char>| prefix + s);
    assert forall|k: int| 0 <= k < ss.len() implies #[trigger] l[k] == r[k] by {
        assert(prefix.push(c) + ss[k] =~= prefix + (seq![c] + ss[k]));
    }
    assert(l =~= r);
}


/// Symmetric variants of a well-formed board are well formed.
pub proof fn lemma_variants_wf(v: BoardView)
    requires
        v.wf(),
    ensures
        symmetric_variants(v).len() == 16,
        symmetric_variants(v)[0] == v,
        forall|j: int| 0 <= j < 16 ==> (#[trigger] symmetric_variants(v)[j]).wf(),
{
    let r1 = rotated(v);
    lemma_rotated_wf(v);
    let r2 = rotated(r1);
    lemma_rotated_wf(r1);
    let r3 = rotated(r2);
    lemma_rotated_wf(r2);
    let f = flipped(r3);
    lemma_flipped_wf(r3);
    let f1 = rotated(f);
    lemma_rotated_wf(f);
    let f2 = rotated(f1);
    lemma_rotated_wf(f1);
    let f3 = rotated(f2);
    lemma_rotated_wf(f2);
    let g = geometric_variants(v);
    assert forall|j: int| 0 <= j < 8 implies (#[trigger] g[j]).wf() && role_swapped(g[j]).wf() by {
        lemma_role_swapped_wf(g[j]);
    }
    assert forall|j: int| 0 <= j < 16 implies (#[trigger] symmetric_variants(v)[j]).wf() by {
        if j >= 8 {
            assert(symmetric_variants(v)[j] == role_swapped(g[j - 8]));
        }
    }
}

/// The board that the cell string `cells` spells, `width` by `height`.
fn board_from_cells(width: u8, height: u8, cells: &String) -> (r: Board)
    requires
        1 <= width,
        1 <= height,
        width * height <= MAX_BOARD_SIZE,
        cells@.len() == width * height,
        forall|q: int| 0 <= q < cells@.len() ==> cell_char(#[trigger] cells@[q]),
    ensures
        r@ == board_of(width as int, height as int, cells@),
        r@.wf(),
{
    let text = cells.as_str();
    assert(is_ascii_chars(text@)) by {
        assert forall|q: int| 0 <= q < text@.len() implies '\0' <= #[trigger] text@[q] <= '\u{7f}' by {
            assert(cell_char(text@[q]));
        }
    }
    proof { is_ascii_spec_bytes(text); }
    let b = text.as_bytes();
    let mut board = Board::new(width, height);
    let size = width * height;
    let mut k: u8 = 0;
    while k < size
        invariant
            size == width * height,
            size <= MAX_BOARD_SIZE,
            b@.len() == size,
            cells@.len() == size,
            forall|q: int| 0 <= q < size ==> #[trigger] b@[q] == text@[q] as u8,
            text@ == cells@,
            forall|q: int| 0 <= q < cells@.len() ==> cell_char(#[trigger] cells@[q]),
            board@.wf(),
            board.width == width,
            board.height == height,
            k <= size,
            forall|q: int| 0 <= q < k ==> Some(#[trigger] board@.cells[q]) == char_piece(cells@[q]),
            forall|q: int| k <= q < MAX_BOARD_SIZE ==> board@.cells[q] == Piece::Blank,
        decreases size - k,
    {
        assert(cell_char(cells@[k as int]));
        assert(b@[k as int] == text@[k as int] as u8);
        let p = piece_of_byte(b[k as usize]);
        board.set_index(k as usize, p.unwrap());
        k = k + 1;
    }
    assert(board@.cells =~= board_of(width as int, height as int, cells@).cells);
    board
}

/// The candidates kept when each is dropped if a board kept before it has it
/// among its symmetric variants: the first of each class, in order.
pub open spec fn first_of_classes(cands: Seq<BoardView>, n: int) -> Seq<BoardView>
    decreases n,
{
    if n <= 0 {
        seq![]
    } else {
        let prev = first_of_classes(cands, n - 1);
        if exists|i: int| 0 <= i < prev.len() && symmetric_variants(#[trigger] prev[i]).contains(cands[n - 1]) {
            prev
        } else {
            prev.push(cands[n - 1])
        }
    }
}

/// Some board of `bs` has `v` among its symmetric variants.
pub open spec fn covered(bs: Seq<Board>, v: BoardView) -> bool {
    exists|i: int| 0 <= i < bs.len() && symmetric_variants(#[trigger] bs[i]@).contains(v)
}

/// The state of the deduplication loop after `k` candidates: `keys` holds
/// exactly the keys of the variants of the boards kept, which are the first
/// of each class among those candidates.
#[verifier::opaque]
pub open spec fn dedup_ok(boards: Seq<Board>, keys: Set<u128>, cands: Seq<BoardView>, k: int) -> bool {
    &&& forall|x: u128|
        keys.contains(x) ==> exists|i: int, j: int|
            0 <= i < boards.len() && 0 <= j < 16 && x == board_key(
                #[trigger] symmetric_variants(boards[i]@)[j],
            ) as u128
    &&& forall|i: int, j: int|
        0 <= i < boards.len() && 0 <= j < 16 ==> keys.contains(
            board_key(#[trigger] symmetric_variants(boards[i]@)[j]) as u128,
        )
    &&& forall|i: int| 0 <= i < boards.len() ==> (#[trigger] boards[i])@.wf() && cands.contains(boards[i]@)
    &&& forall|q: int| 0 <= q < k ==> covered(boards, #[trigger] cands[q])
    &&& forall|i: int, j: int|
        0 <= i < j < boards.len() ==> !symmetric_variants(#[trigger] boards[i]@).contains(
            #[trigger] boards[j]@,
        )
    &&& boards.map_values(|b: Board| b@) == first_of_classes(cands, k)
}

#[verifier::rlimit(30)]
proof fn lemma_dedup_skip(boards: Seq<Board>, keys: Set<u128>, cands: Seq<BoardView>, k: int)
    requires
        0 <= k < cands.len(),
        dedup_ok(boards, keys, cands, k),
        cands[k].wf(),
        keys.contains(board_key(cands[k]) as u128),
    ensures
        dedup_ok(boards, keys, cands, k + 1),
{
    reveal(dedup_ok);
    let c = cands[k];
    lemma_key_bound(c);
    let (i, j) = choose|i: int, j: int|
        0 <= i < boards.len() && 0 <= j < 16 && board_key(c) as u128 == board_key(
            #[trigger] symmetric_variants(boards[i]@)[j],
        ) as u128;
    let u = symmetric_variants(boards[i]@)[j];
    lemma_variants_wf(boards[i]@);
    lemma_key_bound(u);
    lemma_key_injective(u, c);
    assert(symmetric_variants(boards[i]@).contains(c));
    assert(covered(boards, c));
    let prev = first_of_classes(cands, k);
    assert(prev[i] == boards[i]@);
    assert(first_of_classes(cands, k + 1) == prev);
    assert forall|q: int| 0 <= q < k + 1 implies covered(boards, #[trigger] cands[q]) by {}
}

/// Keeps `board`, the `k`-th candidate, whose key no kept variant has, and
/// records the keys of its variants.
fn add_class(
    boards: &mut Vec<Board>,
    keys: &mut HashSet<u128>,
    board: Board,
    Ghost(cands): Ghost<Seq<BoardView>>,
    Ghost(k): Ghost<int>,
)
    requires
        0 <= k < cands.len(),
        dedup_ok(old(boards)@, old(keys)@, cands, k),
        board@ == cands[k],
        board@.wf(),
        !old(keys)@.contains(board_key(board@) as u128),
    ensures
        dedup_ok(final(boards)@, final(keys)@, cands, k + 1),
{
    proof {
        reveal(dedup_ok);
        lemma_variants_wf(board@);
    }
    let variants = board.get_symmetric_variants();
    let ghost before = keys@;
    let ghost old_boards = boards@;
    proof {
        assert forall|i: int| 0 <= i < old_boards.len() implies !symmetric_variants(
            #[trigger] old_boards[i]@,
        ).contains(board@) by {
            if symmetric_variants(old_boards[i]@).contains(board@) {
                let j = choose|j: int| 0 <= j < 16 && symmetric_variants(old_boards[i]@)[j] == board@;
                assert(before.contains(board_key(symmetric_variants(old_boards[i]@)[j]) as u128));
            }
        }
    }
    boards.push(board);
    let mut t: usize = 0;
    while t < 16
        invariant
            variants@.len() == 16,
            boards_view(variants@) == symmetric_variants(board@),
            boards@ == old_boards.push(board),
            t <= 16,
            forall|x: u128|
                keys@.contains(x) ==> before.contains(x) || exists|j: int|
                    0 <= j < t && x == board_key(#[trigger] symmetric_variants(board@)[j]) as u128,
            forall|x: u128| before.contains(x) ==> keys@.contains(x),
            forall|j: int|
                0 <= j < t ==> keys@.contains(board_key(#[trigger] symmetric_variants(board@)[j]) as u128),
            forall|j: int| 0 <= j < 16 ==> (#[trigger] symmetric_variants(board@)[j]).wf(),
        decreases 16 - t,
    {
        assert(boards_view(variants@)[t as int] == variants@[t as int]@);
        let vk = variants[t].key();
        keys.insert(vk);
        t = t + 1;
    }
    proof {
        let n = old_boards.len() as int;
        assert(boards@[n] == board);
        assert forall|x: u128| keys@.contains(x) implies exists|i: int, j: int|
            0 <= i < boards@.len() && 0 <= j < 16 && x == board_key(
                #[trigger] symmetric_variants(boards@[i]@)[j],
            ) as u128 by {
            if before.contains(x) {
                let (i, j) = choose|i: int, j: int|
                    0 <= i < old_boards.len() && 0 <= j < 16 && x == board_key(
                        #[trigger] symmetric_variants(old_boards[i]@)[j],
                    ) as u128;
                assert(boards@[i] == old_boards[i]);
            } else {
                let j = choose|j: int| 0 <= j < 16 && x == board_key(#[trigger] symmetric_variants(board@)[j]) as u128;
                assert(symmetric_variants(boards@[n]@)[j] == symmetric_variants(board@)[j]);
            }
        }
        assert forall|i: int, j: int| 0 <= i < boards@.len() && 0 <= j < 16 implies keys@.contains(
            board_key(#[trigger] symmetric_variants(boards@[i]@)[j]) as u128,
        ) by {
            if i < n {
                assert(boards@[i] == old_boards[i]);
            }
        }
        assert(symmetric_variants(board@)[0] == board@);
        assert(symmetric_variants(boards@[n]@).contains(cands[k]));
        assert forall|q: int| 0 <= q < k + 1 implies covered(boards@, #[trigger] cands[q]) by {
            if q < k {
                assert(covered(old_boards, cands[q]));
                let i = choose|i: int|
                    0 <= i < old_boards.len() && symmetric_variants(#[trigger] old_boards[i]@).contains(cands[q]);
                assert(boards@[i] == old_boards[i]);
            } else {
                assert(symmetric_variants(boards@[n]@).contains(cands[q]));
            }
        }
        assert forall|i: int, j: int| 0 <= i < j < boards@.len() implies !symmetric_variants(
            #[trigger] boards@[i]@,
        ).contains(#[trigger] boards@[j]@) by {
            assert(boards@[i] == old_boards[i]);
            if j < n {
                assert(boards@[j] == old_boards[j]);
            }
        }
        assert forall|a: int| 0 <= a < boards@.len() implies (#[trigger] boards@[a])@.wf() && cands.contains(
            boards@[a]@,
        ) by {
            if a < n {
                assert(boards@[a] == old_boards[a]);
            } else {
                assert(cands[k] == board@);
            }
        }
        let prev = first_of_classes(cands, k);
        assert(!(exists|i: int| 0 <= i < prev.len() && symmetric_variants(#[trigger] prev[i]).contains(cands[k]))) by {
            if exists|i: int| 0 <= i < prev.len() && symmetric_variants(#[trigger] prev[i]).contains(cands[k]) {
                let i = choose|i: int| 0 <= i < prev.len() && symmetric_variants(#[trigger] prev[i]).contains(cands[k]);
                assert(prev[i] == old_boards[i]@);
            }
        }
        assert(boards@.map_values(|b: Board| b@) =~= first_of_classes(cands, k + 1));
        reveal(dedup_ok);
    }
}

/// What the deduplication loop has established once every candidate is seen.
proof fn lemma_dedup_done(boards: Seq<Board>, keys: Set<u128>, cands: Seq<BoardView>)
    requires
        dedup_ok(boards, keys, cands, cands.len() as int),
    ensures
        boards_view(boards) == first_of_classes(cands, cands.len() as int),
        forall|i: int| 0 <= i < boards.len() ==> (#[trigger] boards[i])@.wf() && cands.contains(boards[i]@),
        forall|k: int| 0 <= k < cands.len() ==> covered(boards, #[trigger] cands[k]),
        forall|i: int, j: int|
            0 <= i < j < boards.len() ==> !symmetric_variants(#[trigger] boards[i]@).contains(#[trigger] boards[j]@),
{
    reveal(dedup_ok);
}

/// Boards of `width` by `height` with exactly the given numbers of cows,
/// barns, persons, houses and obstacles, one for each class of symmetric
/// variants: the first of each class in enumeration order.
#[verifier::rlimit(50)]
pub fn generate_boards(
    width: u8,
    height: u8,
    cow_count: u8,
    barn_count: u8,
    person_count: u8,
    house_count: u8,
    empty_count: u8,
) -> (r: Vec<Board>)
    requires
        1 <= width,
        1 <= height,
        width * height <= MAX_BOARD_SIZE,
    ensures
        boards_view(r@) == first_of_classes(
            candidates(
                width as int,
                height as int,
                cow_count as int,
                barn_count as int,
                person_count as int,
                house_count as int,
                empty_count as int,
            ),
            candidates(
                width as int,
                height as int,
                cow_count as int,
                barn_count as int,
                person_count as int,
                house_count as int,
                empty_count as int,
            ).len() as int,
        ),
        forall|i: int|
            0 <= i < r@.len() ==> (#[trigger] r@[i])@.wf() && candidates(
                width as int,
                height as int,
                cow_count as int,
                barn_count as int,
                person_count as int,
                house_count as int,
                empty_count as int,
            ).contains(r@[i]@),
        forall|k: int|
            0 <= k < candidates(
                width as int,
                height as int,
                cow_count as int,
                barn_count as int,
                person_count as int,
                house_count as int,
                empty_count as int,
            ).len() ==> covered(
                r@,
                #[trigger] candidates(
                    width as int,
                    height as int,
                    cow_count as int,
                    barn_count as int,
                    person_count as int,
                    house_count as int,
                    empty_count as int,
                )[k],
            ),
        forall|i: int, j: int|
            0 <= i < j < r@.len() ==> !symmetric_variants(#[trigger] r@[i]@).contains(
                #[trigger] r@[j]@,
            ),
{
    let ghost w = width as int;
    let ghost h = height as int;
    let ghost cands = candidates(w, h, cow_count as int, barn_count as int, person_count as int, house_count as int, empty_count as int);
    let ghost fills = fillings(w * h, cow_count as int, barn_count as int, person_count as int, house_count as int, empty_count as int);
    let length = width * height;
    proof {
        reveal_strlit("");
        lemma_fillings_shape(w * h, cow_count as int, barn_count as int, person_count as int, house_count as int, empty_count as int);
    }
    let strings = generate_with_prefix(length, "", cow_count, barn_count, person_count, house_count, empty_count);
    assert(strings_view(strings@) =~= fills) by {
        assert forall|k: int| 0 <= k < fills.len() implies #[trigger] strings_view(strings@)[k] == fills[k] by {
            assert(Seq::<char>::empty() + fills[k] =~= fills[k]);
        }
    }
    let mut boards: Vec<Board> = Vec::new();
    let mut encountered_variants: HashSet<u128> = HashSet::new();
    assert(boards@.map_values(|b: Board| b@) =~= first_of_classes(cands, 0));
    proof { reveal(dedup_ok); }
    let mut k: usize = 0;
    while k < strings.len()
        invariant
            w == width,
            h == height,
            1 <= width,
            1 <= height,
            width * height <= MAX_BOARD_SIZE,
            strings_view(strings@) == fills,
            cands == fills.map_values(|s: Seq<char>| board_of(w, h, s)),
            cands == candidates(w, h, cow_count as int, barn_count as int, person_count as int, house_count as int, empty_count as int),
            shaped(fills, w * h),
            k <= strings@.len(),
            dedup_ok(boards@, encountered_variants@, cands, k as int),
        decreases strings@.len() - k,
    {
        assert(strings_view(strings@)[k as int] == strings@[k as int]@);
        assert(fills[k as int].len() == w * h);
        let board = board_from_cells(width, height, &strings[k]);
        assert(board@ == cands[k as int]);
        let key = board.key();
        proof {
            lemma_key_bound(board@);
            lemma_variants_wf(board@);
        }
        if encountered_variants.contains(&key) {
            proof { lemma_dedup_skip(boards@, encountered_variants@, cands, k as int); }
        } else {
            add_class(&mut boards, &mut encountered_variants, board, Ghost(cands), Ghost(k as int));
        }
        k = k + 1;
    }
    assert(cands.len() == strings@.len());
    proof { lemma_dedup_done(boards@, encountered_variants@, cands); }
    boards
}


/// The seed boards with `barns` barns, `houses` houses and `obstacles`
/// obstacles and no movers: the first of each class of symmetric variants.
pub open spec fn seeds(w: int, h: int, barns: int, houses: int, obstacles: int) -> Seq<BoardView> {
    let c = candidates(w, h, 0, barns, 0, houses, obstacles);
    first_of_classes(c, c.len() as int)
}

/// Boards with the given numbers of barns, houses and obstacles and no
/// movers, one for each class of symmetric variants.
pub fn get_initial_boards(width: u8, height: u8, barn_count: u8, house_count: u8, empty_count: u8) -> (r: Vec<Board>)
    requires
        1 <= width,
        1 <= height,
        width * height <= MAX_BOARD_SIZE,
    ensures
        boards_view(r@) == seeds(width as int, height as int, barn_count as int, house_count as int, empty_count as int),
        forall|i: int|
            0 <= i < r@.len() ==> (#[trigger] r@[i])@.wf() && r@[i].width == width && r@[i].height == height,
{
    let r = generate_boards(width, height, 0, barn_count, 0, house_count, empty_count);
    let ghost c = candidates(width as int, height as int, 0, barn_count as int, 0, house_count as int, empty_count as int);
    assert forall|i: int| 0 <= i < r@.len() implies (#[trigger] r@[i])@.wf() && r@[i].width == width && r@[i].height
        == height by {
        let k = choose|k: int| 0 <= k < c.len() && c[k] == r@[i]@;
        assert(c[k] == board_of(width as int, height as int, fillings(width * height, 0, barn_count as int, 0, house_count as int, empty_count as int)[k]));
    }
    r
}

/// A generation job: a seed board and the numbers of cows and persons that
/// the reverse search may place on it. At least two cells stay free of
/// pieces and movers fill at most half of the board.
pub open spec fn configuration_ok(v: BoardView, width: int, height: int, cows: int, people: int) -> bool {
    let length = width * height;
    let houses = v.count(Piece::House);
    &&& v.wf()
    &&& v.width == width
    &&& v.height == height
    &&& 1 <= cows <= 5
    &&& 1 <= people <= (if houses == 0 { 3int } else { 5int })
    &&& cows + people + v.count(Piece::Barn) + houses + v.count(Piece::Empty) <= length - 2
    &&& cows + people <= length / 2
}

/// The (barns, houses, obstacles) groups of seed boards, in enumeration
/// order: one or two barns, at most one house, and fewer obstacles with two
/// barns.
pub open spec fn seed_groups() -> Seq<(int, int, int)> {
    seq![(1, 0, 0), (1, 0, 1), (1, 0, 2), (1, 1, 0), (1, 1, 1), (1, 1, 2), (2, 0, 0), (2, 0, 1), (2, 1, 0), (2, 1, 1)]
}

/// Some seed group `g` below `n` has `v` among its seed boards.
pub open spec fn is_seed(w: int, h: int, v: BoardView, n: int) -> bool {
    exists|g: int| 0 <= g < n && #[trigger] seeds(w, h, seed_groups()[g].0, seed_groups()[g].1, seed_groups()[g].2).contains(v)
}

/// `jobs` holds the job (`v`, `cows`, `people`).
pub open spec fn has_job(jobs: Seq<(Board, u8, u8)>, v: BoardView, cows: int, people: int) -> bool {
    exists|i: int| 0 <= i < jobs.len() && (#[trigger] jobs[i]).0@ == v && jobs[i].1 == cows && jobs[i].2 == people
}

fn seed_group(g: usize) -> (r: (u8, u8, u8))
    requires
        g < 10,
    ensures
        (r.0 as int, r.1 as int, r.2 as int) == seed_groups()[g as int],
{
    if g < 3 {
        (1, 0, g as u8)
    } else if g < 6 {
        (1, 1, (g - 3) as u8)
    } else if g < 8 {
        (2, 0, (g - 6) as u8)
    } else {
        (2, 1, (g - 8) as u8)
    }
}

/// Appends every admissible job on `board`, cows taken from 1 up, then
/// persons from 1 up.
fn add_jobs(jobs: &mut Vec<(Board, u8, u8)>, board: Board, width: u8, height: u8)
    requires
        board@.wf(),
        board.width == width,
        board.height == height,
    ensures
        final(jobs)@.len() >= old(jobs)@.len(),
        forall|i: int| 0 <= i < old(jobs)@.len() ==> #[trigger] final(jobs)@[i] == old(jobs)@[i],
        forall|i: int|
            old(jobs)@.len() <= i < final(jobs)@.len() ==> (#[trigger] final(jobs)@[i]).0 == board
                && configuration_ok(board@, width as int, height as int, final(jobs)@[i].1 as int, final(jobs)@[i].2 as int),
        forall|c: int, p: int|
            #![trigger configuration_ok(board@, width as int, height as int, c, p)]
            configuration_ok(board@, width as int, height as int, c, p) ==> has_job(final(jobs)@, board@, c, p),
{
    let ghost start = jobs@;
    proof { lemma_index_in_grid(board@, 0, 0); }
    let length: u32 = width as u32 * height as u32;
    let houses = board.count_piece(Piece::House);
    let barns = board.count_piece(Piece::Barn);
    let empty = board.count_piece(Piece::Empty);
    let max_person_count: u8 = if houses == 0 { 3 } else { 5 };
    let mut cows: u8 = 1;
    while cows <= 5
        invariant
            board@.wf(),
            board.width == width,
            board.height == height,
            length == width * height,
            houses == board@.count(Piece::House),
            barns == board@.count(Piece::Barn),
            empty == board@.count(Piece::Empty),
            houses <= 36 && barns <= 36 && empty <= 36,
            max_person_count == if houses == 0 { 3u8 } else { 5u8 },
            1 <= cows <= 6,
            jobs@.len() >= start.len(),
            forall|i: int| 0 <= i < start.len() ==> #[trigger] jobs@[i] == start[i],
            forall|i: int|
                start.len() <= i < jobs@.len() ==> (#[trigger] jobs@[i]).0 == board
                    && configuration_ok(board@, width as int, height as int, jobs@[i].1 as int, jobs@[i].2 as int),
            forall|c: int, p: int|
                #![trigger configuration_ok(board@, width as int, height as int, c, p)]
                c < cows && configuration_ok(board@, width as int, height as int, c, p) ==> has_job(jobs@, board@, c, p),
        decreases 6 - cows,
    {
        let mut people: u8 = 1;
        while people <= max_person_count
            invariant
                board@.wf(),
                board.width == width,
                board.height == height,
                length == width * height,
                houses == board@.count(Piece::House),
                barns == board@.count(Piece::Barn),
                empty == board@.count(Piece::Empty),
                houses <= 36 && barns <= 36 && empty <= 36,
                max_person_count == if houses == 0 { 3u8 } else { 5u8 },
                1 <= cows <= 5,
                1 <= people <= max_person_count + 1,
                jobs@.len() >= start.len(),
                forall|i: int| 0 <= i < start.len() ==> #[trigger] jobs@[i] == start[i],
                forall|i: int|
                    start.len() <= i < jobs@.len() ==> (#[trigger] jobs@[i]).0 == board
                        && configuration_ok(board@, width as int, height as int, jobs@[i].1 as int, jobs@[i].2 as int),
                forall|c: int, p: int|
                    #![trigger configuration_ok(board@, width as int, height as int, c, p)]
                    (c < cows || (c == cows && p < people)) && configuration_ok(board@, width as int, height as int, c, p)
                        ==> has_job(jobs@, board@, c, p),
            decreases max_person_count + 1 - people,
        {
            let pieces: u32 = cows as u32 + people as u32 + barns as u32 + houses as u32 + empty as u32;
            if pieces + 2 <= length && cows as u32 + people as u32 <= length / 2 {
                let ghost old_jobs = jobs@;
                jobs.push((board, cows, people));
                proof {
                    let n = old_jobs.len() as int;
                    assert(jobs@[n] == (board, cows, people));
                    assert(has_job(jobs@, board@, cows as int, people as int));
                    assert forall|c: int, p: int|
                        #![trigger configuration_ok(board@, width as int, height as int, c, p)]
                        (c < cows || (c == cows && p < people + 1)) && configuration_ok(board@, width as int, height as int, c, p)
                            implies has_job(jobs@, board@, c, p) by {
                        if !(c == cows && p == people) {
                            assert(has_job(old_jobs, board@, c, p));
                            let i = choose|i: int| 0 <= i < old_jobs.len() && (#[trigger] old_jobs[i]).0@ == board@ && old_jobs[i].1 == c && old_jobs[i].2 == p;
                            assert(jobs@[i] == old_jobs[i]);
                        }
                    }
                    assert forall|i: int| start.len() <= i < jobs@.len() implies (#[trigger] jobs@[i]).0 == board
                        && configuration_ok(board@, width as int, height as int, jobs@[i].1 as int, jobs@[i].2 as int) by {
                        if i < n {
                            assert(jobs@[i] == old_jobs[i]);
                        }
                    }
                    assert forall|i: int| 0 <= i < start.len() implies #[trigger] jobs@[i] == start[i] by {
                        assert(jobs@[i] == old_jobs[i]);
                    }
                }
            }
            people = people + 1;
        }
        cows = cows + 1;
    }
}

/// The generation jobs for `width` by `height` boards: every seed board of
/// every seed group, each with every admissible number of cows and persons.
pub fn puzzle_configurations(width: u8, height: u8) -> (r: Vec<(Board, u8, u8)>)
    requires
        1 <= width,
        1 <= height,
        width * height <= MAX_BOARD_SIZE,
    ensures
        forall|i: int|
            0 <= i < r@.len() ==> configuration_ok(
                (#[trigger] r@[i]).0@,
                width as int,
                height as int,
                r@[i].1 as int,
                r@[i].2 as int,
            ) && is_seed(width as int, height as int, r@[i].0@, 10),
        forall|v: BoardView, c: int, p: int|
            #![trigger configuration_ok(v, width as int, height as int, c, p), is_seed(width as int, height as int, v, 10)]
            is_seed(width as int, height as int, v, 10) && configuration_ok(v, width as int, height as int, c, p)
                ==> has_job(r@, v, c, p),
{
    let ghost w = width as int;
    let ghost h = height as int;
    let mut jobs: Vec<(Board, u8, u8)> = Vec::new();
    let mut g: usize = 0;
    while g < 10
        invariant
            w == width,
            h == height,
            1 <= width,
            1 <= height,
            width * height <= MAX_BOARD_SIZE,
            g <= 10,
            forall|i: int|
                0 <= i < jobs@.len() ==> configuration_ok((#[trigger] jobs@[i]).0@, w, h, jobs@[i].1 as int, jobs@[i].2 as int)
                    && is_seed(w, h, jobs@[i].0@, g as int),
            forall|v: BoardView, c: int, p: int|
                #![trigger configuration_ok(v, w, h, c, p), is_seed(w, h, v, g as int)]
                is_seed(w, h, v, g as int) && configuration_ok(v, w, h, c, p) ==> has_job(jobs@, v, c, p),
        decreases 10 - g,
    {
        let (barn_count, house_count, empty_count) = seed_group(g);
        let ghost grp = seed_groups()[g as int];
        let boards = get_initial_boards(width, height, barn_count, house_count, empty_count);
        let ghost sd = seeds(w, h, grp.0, grp.1, grp.2);
        assert(boards_view(boards@) == sd);
        let ghost before = jobs@;
        let mut k: usize = 0;
        while k < boards.len()
            invariant
                w == width,
                h == height,
                g < 10,
                grp == seed_groups()[g as int],
                sd == seeds(w, h, grp.0, grp.1, grp.2),
                boards_view(boards@) == sd,
                forall|i: int|
                    0 <= i < boards@.len() ==> (#[trigger] boards@[i])@.wf() && boards@[i].width == width
                        && boards@[i].height == height,
                k <= boards@.len(),
                jobs@.len() >= before.len(),
                forall|i: int| 0 <= i < before.len() ==> #[trigger] jobs@[i] == before[i],
                forall|i: int|
                    0 <= i < before.len() ==> configuration_ok((#[trigger] before[i]).0@, w, h, before[i].1 as int, before[i].2 as int)
                        && is_seed(w, h, before[i].0@, g as int),
                forall|i: int|
                    before.len() <= i < jobs@.len() ==> configuration_ok((#[trigger] jobs@[i]).0@, w, h, jobs@[i].1 as int, jobs@[i].2 as int)
                        && sd.contains(jobs@[i].0@),
                forall|v: BoardView, c: int, p: int|
                    #![trigger configuration_ok(v, w, h, c, p), is_seed(w, h, v, g as int)]
                    is_seed(w, h, v, g as int) && configuration_ok(v, w, h, c, p) ==> has_job(before, v, c, p),
                forall|q: int, c: int, p: int|
                    #![trigger configuration_ok(sd[q], w, h, c, p)]
                    0 <= q < k && configuration_ok(sd[q], w, h, c, p) ==> has_job(jobs@, sd[q], c, p),
            decreases boards@.len() - k,
        {
            let board = boards[k];
            assert(sd[k as int] == board@);
            let ghost old_jobs = jobs@;
            add_jobs(&mut jobs, board, width, height);
            proof {
                assert forall|q: int, c: int, p: int|
                    #![trigger configuration_ok(sd[q], w, h, c, p)]
                    0 <= q < k + 1 && configuration_ok(sd[q], w, h, c, p) implies has_job(jobs@, sd[q], c, p) by {
                    if q < k {
                        let i = choose|i: int| 0 <= i < old_jobs.len() && (#[trigger] old_jobs[i]).0@ == sd[q] && old_jobs[i].1 == c && old_jobs[i].2 == p;
                        assert(jobs@[i] == old_jobs[i]);
                    }
                }
                assert forall|i: int| 0 <= i < before.len() implies #[trigger] jobs@[i] == before[i] by {
                    assert(jobs@[i] == old_jobs[i]);
                }
                assert forall|i: int|
                    before.len() <= i < jobs@.len() implies configuration_ok((#[trigger] jobs@[i]).0@, w, h, jobs@[i].1 as int, jobs@[i].2 as int)
                        && sd.contains(jobs@[i].0@) by {
                    if i < old_jobs.len() {
                        assert(jobs@[i] == old_jobs[i]);
                    } else {
                        assert(jobs@[i].0@ == sd[k as int]);
                    }
                }
            }
            k = k + 1;
        }
        proof {
            assert forall|i: int|
                0 <= i < jobs@.len() implies configuration_ok((#[trigger] jobs@[i]).0@, w, h, jobs@[i].1 as int, jobs@[i].2 as int)
                    && is_seed(w, h, jobs@[i].0@, g + 1) by {
                if i < before.len() {
                    assert(jobs@[i] == before[i]);
                    let gg = choose|gg: int| 0 <= gg < g && #[trigger] seeds(w, h, seed_groups()[gg].0, seed_groups()[gg].1, seed_groups()[gg].2).contains(before[i].0@);
                    assert(seeds(w, h, seed_groups()[gg].0, seed_groups()[gg].1, seed_groups()[gg].2).contains(jobs@[i].0@));
                } else {
                    assert(seeds(w, h, seed_groups()[g as int].0, seed_groups()[g as int].1, seed_groups()[g as int].2).contains(jobs@[i].0@));
                }
            }
            assert forall|v: BoardView, c: int, p: int|
                #![trigger configuration_ok(v, w, h, c, p), is_seed(w, h, v, g + 1)]
                is_seed(w, h, v, g + 1) && configuration_ok(v, w, h, c, p) implies has_job(jobs@, v, c, p) by {
                let gg = choose|gg: int| 0 <= gg < g + 1 && #[trigger] seeds(w, h, seed_groups()[gg].0, seed_groups()[gg].1, seed_groups()[gg].2).contains(v);
                if gg < g {
                    assert(is_seed(w, h, v, g as int));
                    let i = choose|i: int| 0 <= i < before.len() && (#[trigger] before[i]).0@ == v && before[i].1 == c && before[i].2 == p;
                    assert(jobs@[i] == before[i]);
                } else {
                    let q = choose|q: int| 0 <= q < sd.len() && sd[q] == v;
                    assert(boards_view(boards@)[q] == sd[q]);
                    assert(configuration_ok(sd[q], w, h, c, p));
                }
            }
        }
        g = g + 1;
    }
    jobs
}

/// The moves of `moves` in reverse order.
fn reversed(moves: &Vec<Move>) -> (r: Vec<Move>)
    ensures
        r@ == moves@.reverse(),
{
    let mut r: Vec<Move> = Vec::new();
    let mut k: usize = moves.len();
    while k > 0
        invariant
            k <= moves@.len(),
            r@ == moves@.subrange(k as int, moves@.len() as int).reverse(),
        decreases k,
    {
        k = k - 1;
        r.push(moves[k]);
        assert(moves@.subrange(k as int, moves@.len() as int).reverse() =~= moves@.subrange(
            k + 1,
            moves@.len() as int,
        ).reverse().push(moves@[k as int]));
    }
    assert(moves@.subrange(0, moves@.len() as int) =~= moves@);
    r
}

/// Turns a reverse search result into a puzzle: the deepest board found,
/// with the reverse transitions played backwards as its solution and the
/// number of boards searched as its tree size. Kept only when elegant.
pub fn puzzle_from(puzzle_board: Board, reverse_solution: &ReverseSolution, iterations: usize) -> (r: Option<(Board, Solution)>)
    requires
        puzzle_board.width >= 1,
    ensures
        match r {
            Some((b, s)) => {
                &&& b == puzzle_board
                &&& s.moves@ == reverse_solution.moves@.reverse()
                &&& s.move_count == reverse_solution.move_count
                &&& s.tree_size == iterations
                &&& s.can_be_solved
                &&& uses_all_pieces_of(s.moves@, b@)
                &&& uses_all_rows_columns_of(s.moves@, b@)
            },
            None => !(uses_all_pieces_of(reverse_solution.moves@.reverse(), puzzle_board@)
                && uses_all_rows_columns_of(reverse_solution.moves@.reverse(), puzzle_board@)),
        },
{
    let moves = reversed(&reverse_solution.moves);
    let solution = Solution {
        moves,
        move_count: reverse_solution.move_count,
        tree_size: iterations,
        can_be_solved: true,
    };
    if solution.is_elegant(&puzzle_board) {
        Some((puzzle_board, solution))
    } else {
        None
    }
}

/// The puzzle made of a reverse search result: the deepest board, with the
/// reverse transitions played backwards as its solution.
pub open spec fn elegant_puzzle(b: BoardView, moves: Seq<Move>) -> bool {
    uses_all_pieces_of(moves.reverse(), b) && uses_all_rows_columns_of(moves.reverse(), b)
}

/// Runs the reverse search on one generation job and keeps the result when
/// it is elegant: `None` exactly when the search result is not elegant. From
/// a solved seed the puzzle's moves solve it.
pub fn make_puzzle(board: Board, cows: u8, people: u8, geometry: Geometry) -> (r: Option<(Board, Solution)>)
    requires
        board@.wf(),
    ensures
        match r {
            Some((b, s)) => {
                &&& reverse_outcome(board@, cows as int, people as int, geometry, b@, s.moves@.reverse(), s.tree_size as int)
                &&& elegant_puzzle(b@, s.moves@.reverse())
                &&& s.can_be_solved
                &&& s.move_count == saturated_count(s.moves@.len() as int)
                &&& within_budget(board@, cows as int, people as int) ==> within_budget(b@, cows as int, people as int)
                &&& board@.solved() ==> plays_to_solved(b@, geometry, s.moves@)
            },
            None => exists|b: BoardView, moves: Seq<Move>, n: int|
                #[trigger] reverse_outcome(board@, cows as int, people as int, geometry, b, moves, n) && !elegant_puzzle(b, moves),
        },
{
    let (puzzle_board, reverse_solution, iterations) = reverse_solve(board, cows, people, geometry);
    proof { lemma_index_in_grid(puzzle_board@, 0, 0); }
    let r = puzzle_from(puzzle_board, &reverse_solution, iterations);
    proof {
        if r is Some {
            assert((r->0).1.moves@.reverse() =~= reverse_solution.moves@);
        } else {
            assert(reverse_outcome(board@, cows as int, people as int, geometry, puzzle_board@, reverse_solution.moves@, iterations as int));
        }
    }
    r
}

} // verus!
