use barnyard::board::{Board, Geometry, Piece};

fn board(s: &str) -> Board {
    Board::parse(s).unwrap()
}

#[test]
fn round_trip_keeps_boards() {
    for text in ["2|1|OB", "3|2|OPHBE_", "4|4|BH_O_POOEPOOP___", "6|6|______OOPP__HHBBEE________________PB", "1|1|_"] {
        let b = board(text);
        assert_eq!(b.to_string(), text);
        assert_eq!(Board::from_string(&b.to_string()), b);
    }
}

#[test]
fn to_string_writes_dimensions_in_decimal() {
    let mut b = Board::new(12, 3);
    b.set(11, 2, Piece::Cow);
    let text = b.to_string();
    assert!(text.starts_with("12|3|"));
    assert!(text.ends_with("O"));
    assert_eq!(text.len(), 5 + 36);
    assert_eq!(Board::from_string(&text), b);
}

#[test]
fn parse_reads_cells_row_major() {
    let b = board("3|2|OPHBE_");
    assert_eq!(b.width, 3);
    assert_eq!(b.height, 2);
    assert_eq!(b.get(0, 0), Piece::Cow);
    assert_eq!(b.get(1, 0), Piece::Person);
    assert_eq!(b.get(2, 0), Piece::House);
    assert_eq!(b.get(0, 1), Piece::Barn);
    assert_eq!(b.get(1, 1), Piece::Empty);
    assert_eq!(b.get(2, 1), Piece::Blank);
    assert_eq!(b.pieces[6], Piece::Blank);
    assert_eq!(b.pieces[35], Piece::Blank);
}

#[test]
fn parse_accepts_leading_zeros() {
    assert_eq!(board("02|1|OB"), board("2|1|OB"));
}

#[test]
fn parse_rejects_malformed_text() {
    assert!(Board::parse("2|1|OX").is_none());
    assert!(Board::parse("2|1|O").is_none());
    assert!(Board::parse("2|1|OB_").is_none());
    assert!(Board::parse("2|1|OB|").is_none());
    assert!(Board::parse("a|1|OB").is_none());
    assert!(Board::parse("2|1").is_none());
    assert!(Board::parse("").is_none());
    assert!(Board::parse("|1|O").is_none());
    assert!(Board::parse("0|1|").is_none());
    assert!(Board::parse("2|0|").is_none());
    assert!(Board::parse("7|6|").is_none());
    assert!(Board::parse("300|1|O").is_none());
    assert!(Board::parse("2|1|Oé").is_none());
}

#[test]
fn parse_accepts_full_capacity() {
    let text = format!("36|1|{}", "_".repeat(36));
    let b = board(&text);
    assert_eq!(b.width, 36);
    let text = format!("37|1|{}", "_".repeat(37));
    assert!(Board::parse(&text).is_none());
}

#[test]
fn counts_pieces() {
    let b = board("3|2|OOPHB_");
    assert_eq!(b.count_piece(Piece::Cow), 2);
    assert_eq!(b.count_piece(Piece::Person), 1);
    assert_eq!(b.count_piece(Piece::House), 1);
    assert_eq!(b.count_piece(Piece::Barn), 1);
    assert_eq!(b.count_piece(Piece::Empty), 0);
    assert_eq!(b.count_piece(Piece::Blank), 1 + 30);
}

#[test]
fn solved_follows_the_count_rule() {
    // one cow and one house, no person and no barn: 0*1 + 1*0 == 0
    assert!(board("2|1|OH").is_solved());
    assert!(board("2|1|_B").is_solved());
    assert!(board("1|1|_").is_solved());
    assert!(board("3|1|PHO").is_solved() == false);
    assert!(!board("2|1|OB").is_solved());
    assert!(!board("3|1|O_B").is_solved());
    assert!(board("4|1|OHPB").is_solved() == false);
    assert!(board("4|1|OOHH").is_solved());
}

#[test]
fn set_and_set_index_write_one_cell() {
    let mut b = Board::new(3, 2);
    b.set(2, 1, Piece::Barn);
    b.set_index(1, Piece::Cow);
    assert_eq!(b.to_string(), "3|2|_O___B");
}

#[test]
fn keys_tell_boards_apart() {
    let a = board("2|1|OB");
    let b = board("2|1|BO");
    let c = board("1|2|OB");
    assert_ne!(a.key(), b.key());
    assert_ne!(a.key(), c.key());
    assert_ne!(b.key(), c.key());
    assert_eq!(a.key(), board("2|1|OB").key());
}

#[test]
fn rotate_turns_clockwise() {
    let mut b = board("3|2|OB_P__");
    b.rotate();
    assert_eq!(b.to_string(), "2|3|PO_B__");
}

#[test]
fn four_rotations_give_the_board_back() {
    for text in ["3|2|OB_P__", "4|3|OPHBE_OOPPHB", "1|5|OPHB_", "6|6|______OOPP__HHBBEE________________PB"] {
        let start = board(text);
        let mut b = start;
        b.rotate();
        assert_eq!(b.width, start.height);
        assert_eq!(b.height, start.width);
        b.rotate();
        b.rotate();
        b.rotate();
        assert_eq!(b, start);
    }
}

#[test]
fn flip_mirrors_rows() {
    let mut b = board("3|2|OB_P__");
    b.flip_horizontal();
    assert_eq!(b.to_string(), "3|2|_BO__P");
}

#[test]
fn switch_swaps_roles() {
    let mut b = board("3|2|OB_PHE");
    b.switch_cow_person();
    assert_eq!(b.to_string(), "3|2|PH_OBE");
}

#[test]
fn symmetric_variants_are_sixteen() {
    let b = board("3|2|OB_P__");
    let variants = b.get_symmetric_variants();
    assert_eq!(variants.len(), 16);
    assert_eq!(variants[0], b);
    assert_eq!(variants[1].to_string(), "2|3|PO_B__");
    let mut swapped = b;
    swapped.switch_cow_person();
    assert_eq!(variants[8], swapped);
    let mut distinct: Vec<String> = variants.iter().map(|v| v.to_string()).collect();
    distinct.sort();
    distinct.dedup();
    assert_eq!(distinct.len(), 16);
}

#[test]
fn symmetric_board_repeats_variants() {
    let b = board("2|2|____");
    let variants = b.get_symmetric_variants();
    assert_eq!(variants.len(), 16);
    assert!(variants.iter().all(|v| *v == b));
}

#[test]
fn geometry_equality() {
    assert_eq!(Geometry::Rectangular, Geometry::Rectangular);
    assert_ne!(Geometry::Rectangular, Geometry::Hexagonal);
}

#[test]
fn display_grid_draws_rows() {
    assert_eq!(board("3|2|OPHBE_").display_grid(), "OPH\nBE_\n");
    assert_eq!(board("1|1|_").display_grid(), "_\n");
}
