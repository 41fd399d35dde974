use barnyard::board::{Board, Geometry};
use barnyard::generate::{generate_boards, get_initial_boards, make_puzzle, puzzle_configurations, puzzle_from};
use barnyard::reverse_solver::{reverse_solve, ReverseSolution};
use barnyard::solve::{solve, solve_breadth_first, Move, Solution, SolutionMap};

fn board(s: &str) -> Board {
    Board::parse(s).unwrap()
}

fn texts(children: &[(Board, u8, u8, u8)]) -> Vec<(String, u8, u8, u8)> {
    children.iter().map(|c| (c.0.to_string(), c.1, c.2, c.3)).collect()
}

#[test]
fn cow_next_to_barn_is_absorbed() {
    let b = board("2|1|OB");
    let children = b.get_possible_moves(Geometry::Rectangular);
    assert_eq!(texts(&children), vec![("2|1|_B".to_string(), 0, 1, 1)]);
    assert!(children[0].0.is_solved());
}

#[test]
fn cow_next_to_house_cannot_move() {
    let b = board("2|1|OH");
    assert!(b.get_possible_moves(Geometry::Rectangular).is_empty());
    assert!(b.get_moves_from(0, Geometry::Rectangular).is_empty());
    assert!(b.is_solved());
}

#[test]
fn sliding_to_an_open_edge_is_no_move() {
    assert!(board("3|1|O__").get_moves_from(0, Geometry::Rectangular).is_empty());
    assert!(board("3|1|_O_").get_moves_from(1, Geometry::Rectangular).is_empty());
    assert!(board("3|3|____O____").get_moves_from(4, Geometry::Rectangular).is_empty());
    assert!(board("3|3|____O____").get_moves_from(4, Geometry::Hexagonal).is_empty());
}

#[test]
fn blocked_slide_stops_before_the_blocker() {
    assert_eq!(board("3|1|O_P").get_moves_from(0, Geometry::Rectangular), vec![(1, 2)]);
    assert_eq!(board("4|1|O__H").get_moves_from(0, Geometry::Rectangular), vec![(2, 3)]);
    assert_eq!(board("4|1|P__H").get_moves_from(0, Geometry::Rectangular), vec![(3, 3)]);
    assert_eq!(board("4|1|P_EH").get_moves_from(0, Geometry::Rectangular), vec![]);
    // up, then down
    assert_eq!(board("1|5|P_O_H").get_moves_from(2, Geometry::Rectangular), vec![(1, 0), (3, 4)]);
    assert_eq!(board("1|5|B_P_H").get_moves_from(2, Geometry::Rectangular), vec![(1, 0), (4, 4)]);
}

#[test]
fn moves_are_listed_left_right_up_down() {
    let b = board("3|3|_P_PO__P_");
    // left: person at 3 with no gap; right: edge; up: person at 1; down: person at 7
    assert_eq!(b.get_moves_from(4, Geometry::Rectangular), vec![]);
    let b = board(&format!("5|5|B{}", "_".repeat(24)));
    let b2 = {
        let mut c = b;
        c.set_index(12, barnyard::board::Piece::Cow);
        c.set_index(10, barnyard::board::Piece::Person);
        c.set_index(14, barnyard::board::Piece::Person);
        c.set_index(2, barnyard::board::Piece::Person);
        c.set_index(22, barnyard::board::Piece::Barn);
        c
    };
    assert_eq!(b2.get_moves_from(12, Geometry::Rectangular), vec![(11, 10), (13, 14), (7, 2), (22, 22)]);
}

#[test]
fn hexagonal_diagonal_reaches_goal() {
    let b = board("3|4|__B______O__");
    assert_eq!(b.get_moves_from(9, Geometry::Hexagonal), vec![(2, 2)]);
    assert_eq!(b.get_moves_from(9, Geometry::Rectangular), vec![]);
    let children = b.get_possible_moves(Geometry::Hexagonal);
    assert_eq!(texts(&children), vec![("3|4|__B_________".to_string(), 9, 2, 2)]);
}

#[test]
fn children_cover_every_mover() {
    let b = board("3|1|O_P");
    let children = b.get_possible_moves(Geometry::Rectangular);
    assert_eq!(texts(&children), vec![("3|1|_OP".to_string(), 0, 1, 2), ("3|1|OP_".to_string(), 2, 1, 0)]);
}

#[test]
fn reverse_of_an_absorption() {
    let b = board("2|1|_B");
    let previous = b.get_possible_previous_boards(Geometry::Rectangular);
    assert_eq!(texts(&previous), vec![("2|1|OB".to_string(), 0, 1, 1)]);
    assert_eq!(b.get_reverse_moves(1, Geometry::Rectangular), vec![(0, 1, 1, barnyard::board::Piece::Cow)]);
    assert!(b.get_reverse_moves(0, Geometry::Rectangular).is_empty());
}

#[test]
fn reverse_of_a_blocked_slide() {
    let b = board("3|1|_OP");
    let previous = b.get_possible_previous_boards(Geometry::Rectangular);
    assert_eq!(texts(&previous), vec![("3|1|O_P".to_string(), 0, 1, 2)]);
}

#[test]
fn reverse_moves_undo_forward_moves() {
    for geometry in [Geometry::Rectangular, Geometry::Hexagonal] {
        for text in ["4|3|O__B_P_H____", "4|4|BH_O_POOEPOOP___", "3|4|__B______O__"] {
            let b = board(text);
            for (child, from, to, puller) in b.get_possible_moves(geometry) {
                let previous = child.get_possible_previous_boards(geometry);
                assert!(previous.iter().any(|p| p.0 == b && p.1 == from && p.2 == to && p.3 == puller));
            }
        }
    }
}

#[test]
fn forward_moves_undo_reverse_moves() {
    for geometry in [Geometry::Rectangular, Geometry::Hexagonal] {
        for text in ["4|3|_O_B_P_H____", "4|4|BH_O_POOEPOOP___", "3|4|__B______O__"] {
            let b = board(text);
            for (previous, from, to, puller) in b.get_possible_previous_boards(geometry) {
                let children = previous.get_possible_moves(geometry);
                assert!(children.iter().any(|c| c.0 == b && c.1 == from && c.2 == to && c.3 == puller));
            }
        }
    }
}

#[test]
fn solver_finds_the_absorption() {
    let mut map = SolutionMap::new(Geometry::Rectangular);
    let s = solve(board("2|1|OB"), &mut map);
    assert!(s.can_be_solved);
    assert_eq!(s.move_count, 1);
    assert_eq!(s.moves, vec![Move { from: 0, to: 1, puller: 1 }]);
    // only the starting board is expanded before its solved child is met
    assert_eq!(s.tree_size, 1);
}

#[test]
fn solved_board_needs_no_moves() {
    let mut map = SolutionMap::new(Geometry::Rectangular);
    let s = solve(board("2|1|_B"), &mut map);
    assert!(s.can_be_solved);
    assert_eq!(s.move_count, 0);
    assert!(s.moves.is_empty());
    assert_eq!(s.tree_size, 1);
}

#[test]
fn stuck_board_is_unsolvable() {
    let mut map = SolutionMap::new(Geometry::Rectangular);
    let s = solve(board("3|1|OEB"), &mut map);
    assert!(!s.can_be_solved);
    assert!(s.moves.is_empty());
    assert_eq!(s.move_count, 0);
    assert_eq!(s.tree_size, 1);
}

fn replay(start: &Board, moves: &[Move], geometry: Geometry) -> Board {
    let mut b = *start;
    for m in moves {
        let children = b.get_possible_moves(geometry);
        let next = children.iter().find(|c| c.1 == m.from && c.2 == m.to && c.3 == m.puller).expect("legal move");
        b = next.0;
    }
    b
}

#[test]
fn solver_plays_a_two_step_solution() {
    // the cow must be stopped by the person before it can slide into the barn
    let b = board("3|3|O____BP__");
    let mut map = SolutionMap::new(Geometry::Rectangular);
    let s = solve(b, &mut map);
    assert!(s.can_be_solved);
    assert_eq!(s.move_count as usize, s.moves.len());
    assert_eq!(s.moves, vec![Move { from: 0, to: 3, puller: 6 }, Move { from: 3, to: 5, puller: 5 }]);
    assert!(replay(&b, &s.moves, Geometry::Rectangular).is_solved());
}

#[test]
fn solving_twice_gives_the_same_solution() {
    for text in ["3|3|O____BP__", "3|3|O_P_____B", "4|3|O__B_P_H____", "3|1|OEB", "4|4|BH_O_POOEPOOP___"] {
        let b = board(text);
        let mut map = SolutionMap::new(Geometry::Rectangular);
        let first = solve(b, &mut map);
        let second = solve(b, &mut map);
        assert_eq!(first.can_be_solved, second.can_be_solved);
        assert_eq!(first.move_count, second.move_count);
        assert_eq!(first.moves, second.moves);
        assert_eq!(first.tree_size, second.tree_size);
    }
}

#[test]
fn solutions_replay_to_a_solved_board() {
    for text in ["4|3|O__B_P_H____", "4|4|BH_O_POOEPOOP___", "3|3|O_P_____B", "3|3|O____BP__"] {
        for geometry in [Geometry::Rectangular, Geometry::Hexagonal] {
            let b = board(text);
            let mut map = SolutionMap::new(geometry);
            assert_eq!(map.get_geometry(), geometry);
            let s = solve(b, &mut map);
            if s.can_be_solved {
                assert_eq!(s.move_count as usize, s.moves.len());
                assert!(replay(&b, &s.moves, geometry).is_solved());
            } else {
                assert!(s.moves.is_empty());
            }
        }
    }
}

#[test]
fn elegance_positive() {
    let s = Solution { moves: vec![Move { from: 0, to: 1, puller: 1 }], move_count: 1, tree_size: 2, can_be_solved: true };
    let b = board("2|1|OB");
    assert!(s.uses_all_pieces(&b));
    assert!(s.uses_all_rows_columns(&b));
    assert!(s.is_elegant(&b));
}

#[test]
fn elegance_negative() {
    let s = Solution { moves: vec![Move { from: 0, to: 1, puller: 1 }], move_count: 1, tree_size: 2, can_be_solved: true };
    let b = board("3|1|OB_");
    assert!(s.uses_all_pieces(&b));
    assert!(!s.uses_all_rows_columns(&b));
    assert!(!s.is_elegant(&b));
    let b = board("2|2|OB_P");
    assert!(!s.uses_all_pieces(&b));
    assert!(!s.uses_all_rows_columns(&b));
    assert!(!s.is_elegant(&b));
    let empty = Solution { moves: vec![], move_count: 0, tree_size: 1, can_be_solved: true };
    assert!(!empty.is_elegant(&board("1|1|_")));
    assert!(empty.uses_all_pieces(&board("1|1|_")));
}

#[test]
fn elegance_counts_the_puller() {
    let s = Solution { moves: vec![Move { from: 0, to: 1, puller: 2 }], move_count: 1, tree_size: 2, can_be_solved: true };
    let b = board("3|1|O_P");
    assert!(s.is_elegant(&b));
}

#[test]
fn reverse_solver_builds_one_step_puzzle() {
    let (b, rs, iterations) = reverse_solve(board("2|1|_B"), 1, 0, Geometry::Rectangular);
    assert_eq!(b.to_string(), "2|1|OB");
    assert_eq!(rs.moves, vec![Move { from: 0, to: 1, puller: 1 }]);
    assert_eq!(rs.move_count, 1);
    assert_eq!(iterations, 2);
}

#[test]
fn reverse_solver_without_budget_returns_the_seed() {
    let (b, rs, iterations) = reverse_solve(board("2|1|_B"), 0, 0, Geometry::Rectangular);
    assert_eq!(b.to_string(), "2|1|_B");
    assert!(rs.moves.is_empty());
    assert_eq!(rs.move_count, 0);
    assert_eq!(iterations, 1);
}

#[test]
fn reverse_solver_respects_the_budget() {
    for (text, cows, people) in [("3|3|____B____", 2, 0), ("3|3|B___H____", 2, 2), ("4|3|B_E____H____", 3, 1), ("3|3|B___E____", 1, 2)] {
        for geometry in [Geometry::Rectangular, Geometry::Hexagonal] {
            let (b, rs, _) = reverse_solve(board(text), cows, people, geometry);
            assert!(b.count_piece(barnyard::board::Piece::Cow) <= cows);
            assert!(b.count_piece(barnyard::board::Piece::Person) <= people);
            assert_eq!(rs.move_count as usize, rs.moves.len());
        }
    }
}

#[test]
fn reverse_solution_played_forward_solves_the_puzzle() {
    for (text, cows, people) in [("3|3|____B____", 2, 0), ("3|3|B___H____", 2, 2), ("3|3|B___E____", 1, 2)] {
        let (b, rs, _) = reverse_solve(board(text), cows, people, Geometry::Rectangular);
        let forward: Vec<Move> = rs.moves.iter().rev().cloned().collect();
        assert!(replay(&b, &forward, Geometry::Rectangular).is_solved());
    }
}

#[test]
fn generate_boards_keeps_one_per_symmetry_class() {
    let boards = generate_boards(2, 1, 1, 1, 0, 0, 0);
    let t: Vec<String> = boards.iter().map(|b| b.to_string()).collect();
    assert_eq!(t, vec!["2|1|OB".to_string()]);
    let boards = generate_boards(2, 2, 0, 1, 0, 0, 0);
    assert_eq!(boards.len(), 1);
    assert_eq!(boards[0].to_string(), "2|2|B___");
    let boards = generate_boards(3, 1, 0, 1, 0, 0, 0);
    let t: Vec<String> = boards.iter().map(|b| b.to_string()).collect();
    assert_eq!(t, vec!["3|1|B__".to_string(), "3|1|_B_".to_string()]);
    assert!(generate_boards(2, 1, 2, 1, 0, 0, 0).is_empty());
}

#[test]
fn generate_boards_counts_pieces_exactly() {
    let boards = generate_boards(3, 3, 1, 1, 1, 1, 1);
    assert!(!boards.is_empty());
    for b in &boards {
        assert_eq!(b.count_piece(barnyard::board::Piece::Cow), 1);
        assert_eq!(b.count_piece(barnyard::board::Piece::Barn), 1);
        assert_eq!(b.count_piece(barnyard::board::Piece::Person), 1);
        assert_eq!(b.count_piece(barnyard::board::Piece::House), 1);
        assert_eq!(b.count_piece(barnyard::board::Piece::Empty), 1);
    }
    for (i, a) in boards.iter().enumerate() {
        for b in &boards[i + 1..] {
            assert!(!a.get_symmetric_variants().contains(b));
        }
    }
}

#[test]
fn initial_boards_have_no_movers() {
    let boards = get_initial_boards(3, 2, 1, 1, 0);
    assert!(!boards.is_empty());
    for b in &boards {
        assert_eq!(b.count_piece(barnyard::board::Piece::Cow), 0);
        assert_eq!(b.count_piece(barnyard::board::Piece::Barn), 1);
        assert_eq!(b.count_piece(barnyard::board::Piece::House), 1);
    }
}

#[test]
fn configurations_leave_room() {
    assert!(puzzle_configurations(2, 2).is_empty());
    let configurations = puzzle_configurations(3, 3);
    assert!(!configurations.is_empty());
    for (b, cows, people) in &configurations {
        let pieces = cows + people + b.count_piece(barnyard::board::Piece::Barn) + b.count_piece(barnyard::board::Piece::House) + b.count_piece(barnyard::board::Piece::Empty);
        assert!(pieces <= 7);
        assert!(cows + people <= 4);
        assert!(*cows >= 1 && *people >= 1);
    }
}

#[test]
fn make_puzzle_keeps_elegant_results() {
    let (b, s) = make_puzzle(board("2|1|_B"), 1, 0, Geometry::Rectangular).unwrap();
    assert_eq!(b.to_string(), "2|1|OB");
    assert_eq!(s.moves, vec![Move { from: 0, to: 1, puller: 1 }]);
    assert_eq!(s.move_count, 1);
    assert_eq!(s.tree_size, 2);
    assert!(s.can_be_solved);
    assert!(make_puzzle(board("3|1|_B_"), 0, 0, Geometry::Rectangular).is_none());
}

#[test]
fn puzzle_from_reverses_moves() {
    let rs = ReverseSolution { moves: vec![Move { from: 0, to: 1, puller: 2 }, Move { from: 1, to: 2, puller: 2 }], move_count: 2 };
    let (b, s) = puzzle_from(board("3|1|O_P"), &rs, 7).unwrap();
    assert_eq!(b.to_string(), "3|1|O_P");
    assert_eq!(s.moves, vec![Move { from: 1, to: 2, puller: 2 }, Move { from: 0, to: 1, puller: 2 }]);
    assert_eq!(s.tree_size, 7);
    let rs = ReverseSolution { moves: vec![Move { from: 0, to: 0, puller: 0 }], move_count: 1 };
    assert!(puzzle_from(board("3|1|O_P"), &rs, 1).is_none());
}

#[test]
fn breadth_first_finds_shortest_solution() {
    let s = solve_breadth_first(board("3|3|O____BP__"), Geometry::Rectangular);
    assert!(s.can_be_solved);
    assert_eq!(s.moves, vec![Move { from: 0, to: 3, puller: 6 }, Move { from: 3, to: 5, puller: 5 }]);
    assert_eq!(s.move_count, 2);
    let s = solve_breadth_first(board("2|1|_B"), Geometry::Rectangular);
    assert!(s.can_be_solved && s.moves.is_empty() && s.tree_size == 1);
    let s = solve_breadth_first(board("3|1|OEB"), Geometry::Rectangular);
    assert!(!s.can_be_solved && s.moves.is_empty() && s.move_count == 0);
    assert_eq!(s.tree_size, 1);
}

#[test]
fn breadth_first_and_memoized_solvers_agree() {
    let sample = [
        "2|1|OB",
        "3|1|OEB",
        "3|3|O____BP__",
        "3|3|O_P_____B",
        "4|3|O__B_P_H____",
        "4|4|BH_O_POOEPOOP___",
        "3|3|OP_H___B_",
        "4|2|O_P_HB__",
    ];
    for text in sample {
        for geometry in [Geometry::Rectangular, Geometry::Hexagonal] {
            let b = board(text);
            let mut map = SolutionMap::new(geometry);
            let memoized = solve(b, &mut map);
            let plain = solve_breadth_first(b, geometry);
            assert_eq!(memoized.can_be_solved, plain.can_be_solved, "{}", text);
            assert_eq!(memoized.move_count, plain.move_count, "{}", text);
            if plain.can_be_solved {
                assert!(replay(&b, &plain.moves, geometry).is_solved());
            }
        }
    }
}

#[test]
fn fresh_tables_give_the_same_solution() {
    for text in ["3|3|O____BP__", "4|3|O__B_P_H____", "3|1|OPB"] {
        let b = board(text);
        let mut first_map = SolutionMap::new(Geometry::Rectangular);
        let mut second_map = SolutionMap::new(Geometry::Rectangular);
        let first = solve(b, &mut first_map);
        let second = solve(b, &mut second_map);
        assert_eq!(first.can_be_solved, second.can_be_solved);
        assert_eq!(first.move_count, second.move_count);
        assert_eq!(first.moves, second.moves);
        assert_eq!(first.tree_size, second.tree_size);
    }
}

#[test]
fn stuck_board_without_moves_has_tree_size_one() {
    let mut map = SolutionMap::new(Geometry::Rectangular);
    let s = solve(board("3|1|OPB"), &mut map);
    assert!(!s.can_be_solved);
    assert!(s.moves.is_empty());
    assert_eq!(s.tree_size, 1);
}

#[test]
fn table_keeps_earlier_entries() {
    let mut map = SolutionMap::new(Geometry::Rectangular);
    let a = solve(board("3|3|O____BP__"), &mut map);
    let _ = solve(board("2|1|OB"), &mut map);
    let again = solve(board("3|3|O____BP__"), &mut map);
    assert_eq!(a.moves, again.moves);
    assert_eq!(a.tree_size, again.tree_size);
}

#[test]
fn memoized_solver_matches_breadth_first_moves() {
    for text in ["3|3|O____BP__", "4|3|O__B_P_H____", "4|4|BH_O_POOEPOOP___"] {
        let b = board(text);
        let mut map = SolutionMap::new(Geometry::Rectangular);
        let memoized = solve(b, &mut map);
        let plain = solve_breadth_first(b, Geometry::Rectangular);
        assert_eq!(memoized.moves, plain.moves);
    }
}
