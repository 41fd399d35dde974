//! Integer keys of boards: distinct well-formed boards have distinct keys,
//! all below `key_bound()`. Search structures index boards by key.
use vstd::prelude::*;
use vstd::arithmetic::div_mod::lemma_fundamental_div_mod_converse;
use vstd::set_lib::{lemma_int_range, lemma_len_subset, lemma_map_size, set_int_range};
use crate::board::{Board, BoardView, Piece, MAX_BOARD_SIZE, lemma_index_in_grid};

verus! {

pub open spec fn piece_code(p: Piece) -> int {
    match p {
        Piece::Cow => 0,
        Piece::Person => 1,
        Piece::House => 2,
        Piece::Barn => 3,
        Piece::Empty => 4,
        Piece::Blank => 5,
    }
}

/// The cells read as a base-6 number, least significant digit first.
pub open spec fn cells_code(s: Seq<Piece>) -> int
    decreases s.len(),
{
    if s.len() == 0 {
        0
    } else {
        piece_code(s[0]) + 6 * cells_code(s.drop_first())
    }
}

pub open spec fn six_pow(n: nat) -> int
    decreases n,
{
    if n == 0 {
        1
    } else {
        6 * six_pow((n - 1) as nat)
    }
}

pub open spec fn board_key(v: BoardView) -> int {
    v.width + 37 * v.height + 1369 * cells_code(v.cells)
}

/// Every key of a well-formed board is below this bound.
pub open spec fn key_bound() -> int {
    1369 * six_pow(36)
}

proof fn lemma_cells_code_bound(s: Seq<Piece>)
    ensures
        0 <= cells_code(s) < six_pow(s.len()),
    decreases s.len(),
{
    if s.len() > 0 {
        lemma_cells_code_bound(s.drop_first());
        let a = piece_code(s[0]);
        let c = cells_code(s.drop_first());
        let p = six_pow(s.drop_first().len());
        assert(a + 6 * c < 6 * p) by (nonlinear_arith)
            requires
                0 <= a < 6,
                0 <= c < p,
        ;
    }
}

proof fn lemma_cells_code_injective(s1: Seq<Piece>, s2: Seq<Piece>)
    requires
        s1.len() == s2.len(),
        cells_code(s1) == cells_code(s2),
    ensures
        s1 == s2,
    decreases s1.len(),
{
    if s1.len() > 0 {
        let c1 = cells_code(s1.drop_first());
        let c2 = cells_code(s2.drop_first());
        lemma_cells_code_bound(s1.drop_first());
        lemma_cells_code_bound(s2.drop_first());
        let x = cells_code(s1);
        lemma_fundamental_div_mod_converse(x, 6, c1, piece_code(s1[0]));
        lemma_fundamental_div_mod_converse(x, 6, c2, piece_code(s2[0]));
        lemma_cells_code_injective(s1.drop_first(), s2.drop_first());
        assert(s1 =~= seq![s1[0]] + s1.drop_first());
        assert(s2 =~= seq![s2[0]] + s2.drop_first());
    }
}

/// Keys lie in `[0, key_bound())`, and `key_bound()` fits in a `u128`.
pub proof fn lemma_key_bound(v: BoardView)
    requires
        v.wf(),
    ensures
        0 <= board_key(v) < key_bound(),
        key_bound() < u128::MAX,
{
    lemma_index_in_grid(v, 0, 0);
    lemma_cells_code_bound(v.cells);
    assert(six_pow(36) == 10314424798490535546171949056) by {
        reveal_with_fuel(six_pow, 37);
    }
    let c = cells_code(v.cells);
    assert(v.width + 37 * v.height + 1369 * c < 1369 * six_pow(36)) by (nonlinear_arith)
        requires
            1 <= v.width <= 36,
            1 <= v.height <= 36,
            0 <= c < six_pow(36),
    ;
}

/// Well-formed boards with equal keys are equal.
pub proof fn lemma_key_injective(v1: BoardView, v2: BoardView)
    requires
        v1.wf(),
        v2.wf(),
        board_key(v1) == board_key(v2),
    ensures
        v1 == v2,
{
    lemma_index_in_grid(v1, 0, 0);
    lemma_index_in_grid(v2, 0, 0);
    let k = board_key(v1);
    let c1 = cells_code(v1.cells);
    let c2 = cells_code(v2.cells);
    lemma_cells_code_bound(v1.cells);
    lemma_cells_code_bound(v2.cells);
    assert(k == (v1.height + 37 * c1) * 37 + v1.width);
    assert(k == (v2.height + 37 * c2) * 37 + v2.width);
    lemma_fundamental_div_mod_converse(k, 37, v1.height + 37 * c1, v1.width);
    lemma_fundamental_div_mod_converse(k, 37, v2.height + 37 * c2, v2.width);
    lemma_fundamental_div_mod_converse(k / 37, 37, c1, v1.height);
    lemma_fundamental_div_mod_converse(k / 37, 37, c2, v2.height);
    lemma_cells_code_injective(v1.cells, v2.cells);
}

impl Board {
    /// The board's key: distinct well-formed boards have distinct keys.
    pub fn key(&self) -> (r: u128)
        requires
            self@.wf(),
        ensures
            r == board_key(self@),
    {
        let ghost v = self@;
        proof {
            lemma_key_bound(v);
            lemma_index_in_grid(v, 0, 0);
            assert(six_pow(36) == 10314424798490535546171949056) by {
                reveal_with_fuel(six_pow, 37);
            }
        }
        let mut acc: u128 = 0;
        let mut k: usize = MAX_BOARD_SIZE;
        assert(v.cells.skip(36) =~= Seq::<Piece>::empty());
        while k > 0
            invariant
                v == self@,
                v.wf(),
                k <= MAX_BOARD_SIZE,
                acc == cells_code(v.cells.skip(k as int)),
                six_pow(36) == 10314424798490535546171949056,
            decreases k,
        {
            proof {
                lemma_cells_code_bound(v.cells.skip(k as int));
                lemma_six_pow_monotone((36 - k) as nat, 35);
                assert(v.cells.skip(k - 1).drop_first() =~= v.cells.skip(k as int));
            }
            let code: u128 = match self.pieces[k - 1] {
                Piece::Cow => 0,
                Piece::Person => 1,
                Piece::House => 2,
                Piece::Barn => 3,
                Piece::Empty => 4,
                Piece::Blank => 5,
            };
            acc = acc * 6 + code;
            k = k - 1;
        }
        assert(v.cells.skip(0) =~= v.cells);
        self.width as u128 + 37 * self.height as u128 + 1369 * acc
    }
}

proof fn lemma_six_pow_monotone(a: nat, b: nat)
    requires
        a <= b,
    ensures
        1 <= six_pow(a) <= six_pow(b),
    decreases b,
{
    if a < b {
        lemma_six_pow_monotone(a, (b - 1) as nat);
    } else if a > 0 {
        lemma_six_pow_monotone((a - 1) as nat, (a - 1) as nat);
    }
}

/// A finite set of keys below `b` has at most `b` members.
pub proof fn lemma_key_set_bound(s: Set<u128>, b: int)
    requires
        s.finite(),
        0 <= b,
        forall|k: u128| s.contains(k) ==> k < b,
    ensures
        s.len() <= b,
{
    let f = |k: u128| k as int;
    let t = s.map(f);
    assert(vstd::relations::injective_on(f, s));
    lemma_map_size(s, t, f);
    lemma_int_range(0, b);
    assert(t.subset_of(set_int_range(0, b)));
    lemma_len_subset(t, set_int_range(0, b));
}

} // verus!
