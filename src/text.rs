//! The board text format `"<width>|<height>|<cells>"`: cells row-major, one
//! character each (`O` cow, `P` person, `H` house, `B` barn, `E` obstacle,
//! `_` blank).
use vstd::prelude::*;
use vstd::string::{StringExecFns, is_ascii_spec_bytes};
use crate::board::{Board, BoardView, Piece, MAX_BOARD_SIZE, lemma_index_in_grid};

verus! {

pub open spec fn piece_char(p: Piece) -> char {
    match p {
        Piece::Cow => 'O',
        Piece::Person => 'P',
        Piece::House => 'H',
        Piece::Barn => 'B',
        Piece::Empty => 'E',
        Piece::Blank => '_',
    }
}

pub open spec fn char_piece(c: char) -> Option<Piece> {
    if c == 'O' {
        Some(Piece::Cow)
    } else if c == 'P' {
        Some(Piece::Person)
    } else if c == 'H' {
        Some(Piece::House)
    } else if c == 'B' {
        Some(Piece::Barn)
    } else if c == 'E' {
        Some(Piece::Empty)
    } else if c == '_' {
        Some(Piece::Blank)
    } else {
        None
    }
}

pub open spec fn is_digit(c: char) -> bool {
    '0' <= c <= '9'
}

pub open spec fn digit_value(c: char) -> int {
    c as int - '0' as int
}

pub open spec fn digit_char(d: int) -> char {
    if d == 0 {
        '0'
    } else if d == 1 {
        '1'
    } else if d == 2 {
        '2'
    } else if d == 3 {
        '3'
    } else if d == 4 {
        '4'
    } else if d == 5 {
        '5'
    } else if d == 6 {
        '6'
    } else if d == 7 {
        '7'
    } else if d == 8 {
        '8'
    } else {
        '9'
    }
}

/// Decimal digits of `n`, most significant first, without leading zeros.
pub open spec fn decimal(n: nat) -> Seq<char>
    decreases n,
{
    if n < 10 {
        seq![digit_char(n as int)]
    } else {
        decimal(n / 10).push(digit_char((n % 10) as int))
    }
}

/// Value of a string of decimal digits.
pub open spec fn decimal_value(s: Seq<char>) -> int
    decreases s.len(),
{
    if s.len() == 0 {
        0
    } else {
        decimal_value(s.drop_last()) * 10 + digit_value(s.last())
    }
}

pub open spec fn all_digits(s: Seq<char>) -> bool {
    forall|k: int| 0 <= k < s.len() ==> is_digit(#[trigger] s[k])
}

/// The text of a board.
pub open spec fn board_text(v: BoardView) -> Seq<char> {
    decimal(v.width as nat) + seq!['|'] + decimal(v.height as nat) + seq!['|'] + v.cells.take(
        v.size(),
    ).map_values(|p: Piece| piece_char(p))
}

/// Index of the first `|` at or after `k`, or the length if there is none.
pub open spec fn first_bar(s: Seq<char>, k: int) -> int
    decreases s.len() - k,
{
    if k >= s.len() {
        s.len() as int
    } else if s[k] == '|' {
        k
    } else {
        first_bar(s, k + 1)
    }
}

/// The board that a text denotes: two `|`-separated decimal dimensions, both
/// positive with a product within capacity, then exactly width * height
/// cell characters. Anything else denotes no board.
pub open spec fn parse_text(s: Seq<char>) -> Option<BoardView> {
    let i = first_bar(s, 0);
    let j = first_bar(s, i + 1);
    let ws = s.subrange(0, i);
    let hs = s.subrange(i + 1, j);
    let cs = s.subrange(j + 1, s.len() as int);
    let w = decimal_value(ws);
    let h = decimal_value(hs);
    if j >= s.len() || ws.len() == 0 || hs.len() == 0 || !all_digits(ws) || !all_digits(hs) {
        None
    } else if w < 1 || h < 1 || w * h > MAX_BOARD_SIZE || cs.len() != w * h {
        None
    } else if exists|k: int| 0 <= k < cs.len() && char_piece(#[trigger] cs[k]) is None {
        None
    } else {
        Some(
            BoardView {
                width: w,
                height: h,
                cells: Seq::new(
                    MAX_BOARD_SIZE as nat,
                    |k: int|
                        if k < w * h {
                            char_piece(cs[k])->0
                        } else {
                            Piece::Blank
                        },
                ),
            },
        )
    }
}


proof fn lemma_decimal(n: nat)
    ensures
        decimal(n).len() > 0,
        all_digits(decimal(n)),
        decimal_value(decimal(n)) == n,
    decreases n,
{
    if n >= 10 {
        lemma_decimal(n / 10);
        let d = decimal(n / 10);
        assert(decimal(n).drop_last() =~= d);
        assert(digit_value(digit_char((n % 10) as int)) == n % 10);
        assert(n == (n / 10) * 10 + n % 10);
    } else {
        assert(decimal(n).drop_last() =~= Seq::<char>::empty());
        assert(decimal_value(Seq::<char>::empty()) == 0);
        assert(digit_value(digit_char(n as int)) == n);
    }
}

proof fn lemma_first_bar(s: Seq<char>, k: int, m: int)
    requires
        0 <= k <= m < s.len(),
        s[m] == '|',
        forall|q: int| k <= q < m ==> s[q] != '|',
    ensures
        first_bar(s, k) == m,
    decreases m - k,
{
    if k < m {
        lemma_first_bar(s, k + 1, m);
    }
}

/// Reading the text of a well-formed board gives the board back.
pub proof fn lemma_round_trip(v: BoardView)
    requires
        v.wf(),
    ensures
        parse_text(board_text(v)) == Some(v),
{
    let s = board_text(v);
    let dw = decimal(v.width as nat);
    let dh = decimal(v.height as nat);
    let cells = v.cells.take(v.size()).map_values(|p: Piece| piece_char(p));
    lemma_decimal(v.width as nat);
    lemma_decimal(v.height as nat);
    lemma_index_in_grid(v, 0, 0);
    let i = dw.len() as int;
    let j = i + 1 + dh.len();
    assert(s[i] == '|');
    assert(s[j] == '|');
    assert forall|q: int| 0 <= q < i implies s[q] != '|' by {
        assert(s[q] == dw[q]);
        assert(is_digit(dw[q]));
    }
    assert forall|q: int| i + 1 <= q < j implies s[q] != '|' by {
        assert(s[q] == dh[q - i - 1]);
        assert(is_digit(dh[q - i - 1]));
    }
    lemma_first_bar(s, 0, i);
    lemma_first_bar(s, i + 1, j);
    assert(s.subrange(0, i) =~= dw);
    assert(s.subrange(i + 1, j) =~= dh);
    let cs = s.subrange(j + 1, s.len() as int);
    assert(cs =~= cells);
    assert forall|k: int| 0 <= k < cs.len() implies char_piece(#[trigger] cs[k]) == Some(
        v.cells[k],
    ) by {
        assert(cs[k] == piece_char(v.cells[k]));
    }
    let r = parse_text(s)->0;
    assert(r.cells =~= v.cells);
}


/// Text of a board option: `Some` boards compare by their views.
pub open spec fn parsed_view(r: Option<Board>) -> Option<BoardView> {
    match r {
        Some(b) => Some(b@),
        None => None,
    }
}

proof fn lemma_value_nonneg(t: Seq<char>)
    requires
        all_digits(t),
    ensures
        decimal_value(t) >= 0,
    decreases t.len(),
{
    if t.len() > 0 {
        lemma_value_nonneg(t.drop_last());
    }
}

/// A digit string is worth at least as much as any of its prefixes.
proof fn lemma_value_prefix(t: Seq<char>, m: int)
    requires
        all_digits(t),
        0 <= m <= t.len(),
    ensures
        decimal_value(t) >= decimal_value(t.take(m)),
    decreases t.len(),
{
    if m < t.len() {
        lemma_value_nonneg(t.drop_last());
        lemma_value_prefix(t.drop_last(), m);
        assert(t.drop_last().take(m) =~= t.take(m));
    } else {
        assert(t.take(m) =~= t);
    }
}

proof fn lemma_parsed_is_ascii(s: Seq<char>)
    requires
        parse_text(s) is Some,
    ensures
        vstd::utf8::is_ascii_chars(s),
{
    let i = first_bar(s, 0);
    let j = first_bar(s, i + 1);
    lemma_first_bar_found(s, 0);
    lemma_first_bar_found(s, i + 1);
    let ws = s.subrange(0, i);
    let hs = s.subrange(i + 1, j);
    let cs = s.subrange(j + 1, s.len() as int);
    assert forall|q: int| 0 <= q < s.len() implies '\0' <= #[trigger] s[q] <= '\u{7f}' by {
        if q < i {
            assert(s[q] == ws[q]);
        } else if q == i || q == j {
        } else if q < j {
            assert(s[q] == hs[q - i - 1]);
        } else {
            assert(s[q] == cs[q - j - 1]);
            assert(char_piece(cs[q - j - 1]) is Some);
        }
    }
}

proof fn lemma_first_bar_found(s: Seq<char>, k: int)
    requires
        0 <= k,
    ensures
        k <= first_bar(s, k) <= s.len() || (k > s.len() && first_bar(s, k) == s.len()),
        first_bar(s, k) < s.len() ==> s[first_bar(s, k)] == '|',
    decreases s.len() - k,
{
    if k < s.len() && s[k] != '|' {
        lemma_first_bar_found(s, k + 1);
    }
}

/// The piece written as the ASCII byte `c`.
pub(crate) fn piece_of_byte(c: u8) -> (r: Option<Piece>)
    ensures
        forall|ch: char| '\0' <= ch <= '\u{7f}' && ch as u8 == c ==> r == char_piece(ch),
{
    if c == 79 {
        Some(Piece::Cow)
    } else if c == 80 {
        Some(Piece::Person)
    } else if c == 72 {
        Some(Piece::House)
    } else if c == 66 {
        Some(Piece::Barn)
    } else if c == 69 {
        Some(Piece::Empty)
    } else if c == 95 {
        Some(Piece::Blank)
    } else {
        None
    }
}

pub open spec fn ascii_bytes_of(b: Seq<u8>, s: Seq<char>) -> bool {
    &&& b.len() == s.len()
    &&& vstd::utf8::is_ascii_chars(s)
    &&& forall|q: int| 0 <= q < s.len() ==> #[trigger] b[q] == s[q] as u8
}

/// Index of the first `|` at or after `k`, or the length.
fn find_bar(b: &[u8], k: usize, Ghost(s): Ghost<Seq<char>>) -> (r: usize)
    requires
        ascii_bytes_of(b@, s),
        k <= b@.len(),
    ensures
        r == first_bar(s, k as int),
{
    let mut q = k;
    while q < b.len() && b[q] != 124
        invariant
            ascii_bytes_of(b@, s),
            k <= q <= b@.len(),
            first_bar(s, k as int) == first_bar(s, q as int),
        decreases b@.len() - q,
    {
        assert('\0' <= s[q as int] <= '\u{7f}');
        q = q + 1;
    }
    if q < b.len() {
        assert('\0' <= s[q as int] <= '\u{7f}');
    }
    q
}

/// Value of the digits in `b[lo..hi]`, when they are a non-empty digit
/// string worth at most the capacity.
fn parse_dimension(b: &[u8], lo: usize, hi: usize, Ghost(s): Ghost<Seq<char>>) -> (r: Option<u8>)
    requires
        ascii_bytes_of(b@, s),
        lo <= hi <= b@.len(),
    ensures
        ({
            let t = s.subrange(lo as int, hi as int);
            match r {
                Some(n) => t.len() > 0 && all_digits(t) && decimal_value(t) == n && n
                    <= MAX_BOARD_SIZE,
                None => !(t.len() > 0 && all_digits(t) && decimal_value(t) <= MAX_BOARD_SIZE),
            }
        }),
{
    let ghost t = s.subrange(lo as int, hi as int);
    if lo == hi {
        return None;
    }
    let mut acc: u8 = 0;
    let mut k = lo;
    while k < hi
        invariant
            ascii_bytes_of(b@, s),
            lo <= k <= hi <= b@.len(),
            t == s.subrange(lo as int, hi as int),
            all_digits(t.take(k - lo)),
            acc == decimal_value(t.take(k - lo)),
            acc <= MAX_BOARD_SIZE,
        decreases hi - k,
    {
        let c = b[k];
        assert('\0' <= s[k as int] <= '\u{7f}');
        assert(t[k - lo] == s[k as int]);
        if c < 48 || c > 57 {
            assert(!is_digit(t[k - lo]));
            return None;
        }
        let ghost pre = t.take(k - lo);
        let ghost next = t.take(k - lo + 1);
        assert(next.drop_last() =~= pre);
        assert(digit_value(t[k - lo]) == c - 48);
        let v: u32 = acc as u32 * 10 + (c - 48) as u32;
        if v > 36 {
            proof {
                if all_digits(t) {
                    lemma_value_prefix(t, k - lo + 1);
                }
            }
            return None;
        }
        acc = v as u8;
        k = k + 1;
    }
    assert(t.take(k - lo) =~= t);
    Some(acc)
}

impl Board {
    /// The board that `s` denotes, or `None` where `s` is malformed: a
    /// wrong number of fields, a dimension that is not a positive decimal
    /// number, a grid over capacity, a cell string of the wrong length, or
    /// an unknown cell character.
    pub fn parse(s: &str) -> (r: Option<Board>)
        ensures
            parsed_view(r) == parse_text(s@),
            r matches Some(b) ==> b@.wf(),
    {
        if !s.is_ascii() {
            proof {
                if parse_text(s@) is Some {
                    lemma_parsed_is_ascii(s@);
                }
            }
            return None;
        }
        let b = s.as_bytes();
        proof {
            is_ascii_spec_bytes(s);
            assert(ascii_bytes_of(b@, s@));
            lemma_first_bar_found(s@, 0);
        }
        let ghost text = s@;
        let n = b.len();
        let i = find_bar(b, 0, Ghost(text));
        if i >= n {
            return None;
        }
        proof { lemma_first_bar_found(text, i + 1); }
        let j = find_bar(b, i + 1, Ghost(text));
        if j >= n {
            return None;
        }
        let ghost ws = text.subrange(0, i as int);
        let ghost hs = text.subrange(i + 1, j as int);
        let width = match parse_dimension(b, 0, i, Ghost(text)) {
            Some(w) => w,
            None => {
                proof {
                    let w = decimal_value(ws);
                    let h = decimal_value(hs);
                    assert(w > 36 && h >= 1 ==> w * h > 36) by (nonlinear_arith);
                }
                return None;
            },
        };
        let height = match parse_dimension(b, i + 1, j, Ghost(text)) {
            Some(h) => h,
            None => {
                proof {
                    let w = decimal_value(ws);
                    let h = decimal_value(hs);
                    assert(h > 36 && w >= 1 ==> w * h > 36) by (nonlinear_arith);
                }
                return None;
            },
        };
        assert(width as u32 * height as u32 <= 1296) by (nonlinear_arith)
            requires
                width <= 36,
                height <= 36,
        ;
        if width < 1 || height < 1 || width as u32 * height as u32 > 36 {
            return None;
        }
        let size = width * height;
        assert(text.subrange(j + 1, n as int).len() == n - (j + 1));
        if n - (j + 1) != size as usize {
            return None;
        }
        let ghost cs = text.subrange(j + 1, n as int);
        assert(parse_text(text) is None <==> exists|q: int|
            0 <= q < cs.len() && char_piece(#[trigger] cs[q]) is None);
        let mut board = Board::new(width, height);
        let mut k: u8 = 0;
        while k < size
            invariant
                ascii_bytes_of(b@, text),
                text == s@,
                n == b@.len(),
                j < n,
                n - (j + 1) == size,
                cs == text.subrange(j + 1, n as int),
                parse_text(text) is None <==> exists|q: int|
                    0 <= q < cs.len() && char_piece(#[trigger] cs[q]) is None,
                size == width * height,
                board@.wf(),
                board.width == width,
                board.height == height,
                k <= size,
                forall|q: int| 0 <= q < k ==> char_piece(#[trigger] cs[q]) == Some(board@.cells[q]),
                forall|q: int| k <= q < MAX_BOARD_SIZE ==> board@.cells[q] == Piece::Blank,
            decreases size - k,
        {
            let c = b[j + 1 + k as usize];
            assert(cs[k as int] == text[j + 1 + k]);
            assert('\0' <= text[j + 1 + k] <= '\u{7f}');
            match piece_of_byte(c) {
                None => {
                    assert(char_piece(cs[k as int]) is None);
                    return None;
                },
                Some(p) => {
                    board.set_index(k as usize, p);
                },
            }
            k = k + 1;
        }
        let ghost expected = parse_text(text);
        assert(!(exists|q: int| 0 <= q < cs.len() && char_piece(#[trigger] cs[q]) is None));
        assert(board@.cells =~= expected->0.cells);
        Some(board)
    }

    /// The board that `s` denotes; `s` must be well formed.
    pub fn from_string(s: &str) -> (r: Board)
        requires
            parse_text(s@) is Some,
        ensures
            parse_text(s@) == Some(r@),
            r@.wf(),
    {
        Board::parse(s).unwrap()
    }
}


pub(crate) fn piece_text(p: Piece) -> (r: &'static str)
    ensures
        r@ == seq![piece_char(p)],
{
    match p {
        Piece::Cow => {
            proof { reveal_strlit("O"); }
            "O"
        },
        Piece::Person => {
            proof { reveal_strlit("P"); }
            "P"
        },
        Piece::House => {
            proof { reveal_strlit("H"); }
            "H"
        },
        Piece::Barn => {
            proof { reveal_strlit("B"); }
            "B"
        },
        Piece::Empty => {
            proof { reveal_strlit("E"); }
            "E"
        },
        Piece::Blank => {
            proof { reveal_strlit("_"); }
            "_"
        },
    }
}

fn digit_text(d: u8) -> (r: &'static str)
    requires
        d < 10,
    ensures
        r@ == seq![digit_char(d as int)],
{
    if d == 0 {
        proof { reveal_strlit("0"); }
        "0"
    } else if d == 1 {
        proof { reveal_strlit("1"); }
        "1"
    } else if d == 2 {
        proof { reveal_strlit("2"); }
        "2"
    } else if d == 3 {
        proof { reveal_strlit("3"); }
        "3"
    } else if d == 4 {
        proof { reveal_strlit("4"); }
        "4"
    } else if d == 5 {
        proof { reveal_strlit("5"); }
        "5"
    } else if d == 6 {
        proof { reveal_strlit("6"); }
        "6"
    } else if d == 7 {
        proof { reveal_strlit("7"); }
        "7"
    } else if d == 8 {
        proof { reveal_strlit("8"); }
        "8"
    } else {
        proof { reveal_strlit("9"); }
        "9"
    }
}

/// Appends the decimal digits of `n`.
fn append_decimal(s: &mut String, n: u8)
    ensures
        final(s)@ == old(s)@ + decimal(n as nat),
    decreases n,
{
    if n >= 10 {
        append_decimal(s, n / 10);
    }
    s.append(digit_text(n % 10));
    assert(decimal(n as nat) == if n < 10 {
        seq![digit_char(n as int)]
    } else {
        decimal((n / 10) as nat).push(digit_char((n % 10) as int))
    });
    if n >= 10 {
        assert(decimal((n / 10) as nat).push(digit_char((n % 10) as int)) =~= decimal(
            (n / 10) as nat,
        ) + seq![digit_char((n % 10) as int)]);
    }
}

impl Board {
    /// The board's text: `"<width>|<height>|<cells>"`.
    pub fn to_string(&self) -> (r: String)
        requires
            self@.wf(),
        ensures
            r@ == board_text(self@),
    {
        let ghost v = self@;
        proof { lemma_index_in_grid(v, 0, 0); }
        let mut s = String::new();
        proof { reveal_strlit("|"); }
        append_decimal(&mut s, self.width);
        s.append("|");
        append_decimal(&mut s, self.height);
        s.append("|");
        let ghost head = s@;
        let size = self.width * self.height;
        let mut k: u8 = 0;
        while k < size
            invariant
                v == self@,
                v.wf(),
                size == v.size(),
                k <= size,
                s@ == head + v.cells.take(k as int).map_values(|p: Piece| piece_char(p)),
            decreases size - k,
        {
            s.append(piece_text(self.pieces[k as usize]));
            assert(v.cells.take(k + 1).map_values(|p: Piece| piece_char(p)) =~= v.cells.take(
                k as int,
            ).map_values(|p: Piece| piece_char(p)).push(piece_char(v.cells[k as int])));
            k = k + 1;
        }
        assert(s@ =~= board_text(v));
        s
    }
}

/// Row `y` of the board, one character per cell.
pub open spec fn row_text(v: BoardView, y: int) -> Seq<char> {
    v.cells.subrange(y * v.width, y * v.width + v.width).map_values(|p: Piece| piece_char(p))
}

/// The first `n` rows of the board, each followed by a line break.
pub open spec fn grid_text(v: BoardView, n: int) -> Seq<char>
    decreases n,
{
    if n <= 0 {
        seq![]
    } else {
        grid_text(v, n - 1) + row_text(v, n - 1) + seq!['\n']
    }
}

impl Board {
    /// The board drawn as a grid: one line per row, one character per cell.
    pub fn display_grid(&self) -> (r: String)
        requires
            self@.wf(),
        ensures
            r@ == grid_text(self@, self@.height),
    {
        let ghost v = self@;
        proof { lemma_index_in_grid(v, 0, 0); }
        let w = self.width;
        let mut s = String::new();
        let mut y: u8 = 0;
        while y < self.height
            invariant
                v == self@,
                v.wf(),
                w == v.width,
                y <= v.height,
                s@ == grid_text(v, y as int),
            decreases v.height - y,
        {
            let ghost head = s@;
            assert(y * w + w <= w * v.height) by (nonlinear_arith)
                requires
                    y < v.height,
                    w >= 1,
            ;
            assert(head + v.cells.subrange(y * w, y * w + 0).map_values(|p: Piece| piece_char(p)) =~= head);
            let mut x: u8 = 0;
            while x < w
                invariant
                    v == self@,
                    v.wf(),
                    w == v.width,
                    y < v.height,
                    y * w + w <= v.size(),
                    x <= w,
                    s@ == head + v.cells.subrange(y * w, y * w + x).map_values(|p: Piece| piece_char(p)),
                decreases w - x,
            {
                proof { lemma_index_in_grid(v, x as int, y as int); }
                s.append(piece_text(self.get(x, y)));
                assert(v.cells.subrange(y * w, y * w + x + 1).map_values(|p: Piece| piece_char(p))
                    =~= v.cells.subrange(y * w, y * w + x).map_values(|p: Piece| piece_char(p)).push(
                    piece_char(v.cells[y * w + x]),
                ));
                x = x + 1;
            }
            proof { reveal_strlit("\n"); }
            s.append("\n");
            assert(s@ =~= head + row_text(v, y as int) + seq!['\n']);
            assert(grid_text(v, y + 1) == grid_text(v, y as int) + row_text(v, y as int) + seq!['\n']);
            y = y + 1;
        }
        s
    }
}

} // verus!
