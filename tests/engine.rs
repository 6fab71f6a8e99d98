use shusaku::board::{BoardError, IGoban, Order, Stone};
use shusaku::game::{GameError, IGame};
use shusaku::group::{flood, has_liberty, liberties};
use shusaku::rules::{score, Rule};

fn play_all(g: &mut IGame, moves: &[(usize, usize)]) {
    for &(x, y) in moves {
        assert_eq!(g.play(Some((x, y))), Ok(()), "move ({}, {})", x, y);
    }
}

#[test]
fn from_array_row_major_reads_rows() {
    let g = IGoban::from_array(2, &vec![0, 1, 2, 0], Order::RowMajor).unwrap();
    assert_eq!(g.get(0, 1), Stone::Black);
    assert_eq!(g.get(1, 0), Stone::White);
    assert_eq!(g.raw(), vec![0, 1, 2, 0]);
}

#[test]
fn from_array_column_major_transposes() {
    let g = IGoban::from_array(2, &vec![0, 1, 2, 0], Order::ColumnMajor).unwrap();
    assert_eq!(g.get(1, 0), Stone::Black);
    assert_eq!(g.get(0, 1), Stone::White);
    assert_eq!(g.raw(), vec![0, 2, 1, 0]);
}

#[test]
fn from_array_rejects_wrong_length() {
    assert_eq!(IGoban::from_array(3, &vec![0; 8], Order::RowMajor).err(), Some(BoardError::WrongLength));
}

#[test]
fn from_array_rejects_bad_code() {
    assert_eq!(IGoban::from_array(2, &vec![0, 3, 0, 0], Order::RowMajor).err(), Some(BoardError::BadCode));
}

#[test]
fn from_array_rejects_bad_size() {
    assert_eq!(IGoban::from_array(0, &vec![], Order::RowMajor).err(), Some(BoardError::BadSize));
}

#[test]
fn stone_counts_cover_the_board() {
    let g = IGoban::from_array(3, &vec![1, 2, 0, 0, 1, 1, 2, 0, 0], Order::RowMajor).unwrap();
    let raw = g.raw();
    let black = raw.iter().filter(|&&c| c == 1).count();
    let white = raw.iter().filter(|&&c| c == 2).count();
    let empty = raw.iter().filter(|&&c| c == 0).count();
    assert_eq!((black, white, empty), (3, 2, 4));
    assert_eq!(black + white + empty, 9);
}

#[test]
fn presence_views_agree_with_grid() {
    let g = IGoban::from_array(2, &vec![1, 2, 0, 1], Order::RowMajor).unwrap();
    let (b, w) = g.raw_split();
    assert_eq!(b, vec![true, false, false, true]);
    assert_eq!(w, vec![false, true, false, false]);
    for i in 0..4 {
        assert!(!(b[i] && w[i]));
    }
}

#[test]
fn set_then_get() {
    let mut g = IGoban::empty(5);
    g.set(2, 3, Stone::White);
    assert_eq!(g.get(2, 3), Stone::White);
    assert_eq!(g.raw()[2 * 5 + 3], 2);
}

#[test]
fn new_game_defaults() {
    let g = IGame::new(9);
    assert_eq!(g.komi(), 75);
    assert!(!g.turn());
    assert!(!g.over());
    assert_eq!(g.outcome(), None);
    assert_eq!(g.prisoners(), (0, 0));
    assert_eq!(g.raw_goban(), vec![0u8; 81]);
    assert_eq!(g.legals().len(), 81);
    assert_eq!(IGame::with_rule(9, Rule::Japanese).komi(), 65);
}

#[test]
fn black_center_then_two_passes_scores_by_area() {
    let mut g = IGame::new(9);
    assert_eq!(g.play(Some((4, 4))), Ok(()));
    assert_eq!(g.play(None), Ok(()));
    assert!(!g.over());
    assert_eq!(g.play(None), Ok(()));
    assert!(g.over());
    // one stone and 80 points of territory for black; komi 7.5 for white
    assert_eq!(g.outcome(), Some((810, 75)));
    // area rules: 80 points of territory and one stone for black
    assert_eq!(g.calculate_territories(), (81, 0));
    assert_eq!(g.legals(), vec![]);
    assert_eq!(g.play(Some((0, 0))), Err(GameError::GameOver));
}

#[test]
fn surrounded_stone_is_captured() {
    let mut g = IGame::new(9);
    play_all(&mut g, &[(3, 4), (4, 4), (5, 4), (0, 0), (4, 3), (0, 8)]);
    assert_eq!(g.prisoners(), (0, 0));
    assert_eq!(g.goban().get(4, 4), Stone::White);
    play_all(&mut g, &[(4, 5)]);
    assert_eq!(g.prisoners(), (1, 0));
    assert_eq!(g.goban().get(4, 4), Stone::Empty);
}

#[test]
fn simple_ko_retake_is_excluded() {
    let mut g = IGame::new(9);
    play_all(&mut g, &[(1, 2), (1, 3), (2, 1), (2, 4), (3, 2), (3, 3), (8, 8), (2, 2)]);
    play_all(&mut g, &[(2, 3)]);
    assert_eq!(g.prisoners(), (1, 0));
    assert_eq!(g.goban().get(2, 2), Stone::Empty);
    assert!(g.turn());
    assert!(!g.legals().contains(&(2, 2)));
    assert_eq!(g.play(Some((2, 2))), Err(GameError::Illegal));
    // after a move elsewhere the retake is allowed again
    play_all(&mut g, &[(7, 7), (7, 0)]);
    assert!(g.legals().contains(&(2, 2)));
}

#[test]
fn black_resigns_white_wins() {
    let mut g = IGame::new(9);
    g.resign();
    assert!(g.over());
    assert_eq!(g.outcome(), Some((-10, 0)));
}

#[test]
fn white_resigns_black_wins() {
    let mut g = IGame::new(9);
    play_all(&mut g, &[(4, 4)]);
    g.resign();
    assert!(g.over());
    assert_eq!(g.outcome(), Some((0, -10)));
    assert_eq!(g.resume(), Err(GameError::NotEndedByPasses));
}

#[test]
fn suicide_is_not_legal() {
    let mut g = IGame::new(9);
    play_all(&mut g, &[(0, 1), (5, 5), (1, 0)]);
    assert!(g.turn());
    assert!(!g.legals().contains(&(0, 0)));
    assert_eq!(g.play(Some((0, 0))), Err(GameError::Illegal));
    assert!(g.legals().contains(&(0, 2)));
}

#[test]
fn occupied_and_off_board_points() {
    let mut g = IGame::new(5);
    play_all(&mut g, &[(1, 1)]);
    assert_eq!(g.play(Some((1, 1))), Err(GameError::Illegal));
    assert_eq!(g.play(Some((5, 0))), Err(GameError::OutOfBoard));
    assert_eq!(g.legals().len(), 24);
}

#[test]
fn play_then_pop_restores_state() {
    let mut g = IGame::new(9);
    play_all(&mut g, &[(3, 4), (4, 4), (5, 4), (0, 0), (4, 3), (0, 8)]);
    let board = g.raw_goban();
    let turn = g.turn();
    let prisoners = g.prisoners();
    play_all(&mut g, &[(4, 5)]);
    assert_eq!(g.prisoners(), (1, 0));
    assert_eq!(g.pop(), Ok(()));
    assert_eq!(g.raw_goban(), board);
    assert_eq!(g.turn(), turn);
    assert_eq!(g.prisoners(), prisoners);
}

#[test]
fn pop_undoes_pass_end_and_resignation() {
    let mut g = IGame::new(9);
    assert_eq!(g.pop(), Err(GameError::EmptyHistory));
    assert_eq!(g.play(None), Ok(()));
    assert_eq!(g.play(None), Ok(()));
    assert!(g.over());
    assert_eq!(g.pop(), Ok(()));
    assert!(!g.over());
    assert!(g.turn());
    g.resign();
    assert_eq!(g.outcome(), Some((0, -10)));
    assert_eq!(g.pop(), Ok(()));
    assert_eq!(g.outcome(), None);
}

#[test]
fn resume_after_two_passes() {
    let mut g = IGame::new(9);
    assert_eq!(g.resume(), Err(GameError::NotEndedByPasses));
    assert_eq!(g.play(None), Ok(()));
    assert_eq!(g.play(None), Ok(()));
    assert_eq!(g.outcome(), Some((0, 75)));
    assert_eq!(g.resume(), Ok(()));
    assert!(!g.over());
    assert_eq!(g.outcome(), None);
    assert_eq!(g.play(None), Ok(()));
    assert!(!g.over());
}

#[test]
fn plays_lists_boards_before_each_move() {
    let mut g = IGame::new(3);
    play_all(&mut g, &[(0, 0), (2, 2)]);
    let plays = g.plays();
    assert_eq!(plays.len(), 2);
    assert_eq!(plays[0], vec![0u8; 9]);
    assert_eq!(plays[1], vec![1, 0, 0, 0, 0, 0, 0, 0, 0]);
}

#[test]
fn handicap_places_black_stones_and_gives_white_the_move() {
    let mut g = IGame::new(9);
    assert_eq!(g.put_handicap(&vec![(2, 2), (6, 6)]), Ok(()));
    assert_eq!(g.goban().get(2, 2), Stone::Black);
    assert_eq!(g.goban().get(6, 6), Stone::Black);
    assert!(g.turn());
    assert_eq!(g.put_handicap(&vec![(1, 1), (9, 0)]), Err(GameError::OutOfBoard));
    assert_eq!(g.goban().get(1, 1), Stone::Empty);
}

#[test]
fn territory_scoring_counts_prisoners() {
    let mut g = IGame::with_rule(9, Rule::Japanese);
    play_all(&mut g, &[(3, 4), (4, 4), (5, 4), (0, 0), (4, 3), (0, 8), (4, 5)]);
    // the emptied point is black territory; black also holds one prisoner
    assert_eq!(g.calculate_territories(), (1, 0));
    assert_eq!(score(&g.goban(), Rule::Japanese, g.prisoners(), g.komi()), (20, 65));
}

#[test]
fn territory_of_enclosed_corner() {
    let mut g = IGame::new(5);
    g.set_komi(0);
    // black wall on column 1 cuts off column 0; white stone far away
    play_all(&mut g, &[(0, 1), (4, 4), (1, 1), (4, 3), (2, 1), (3, 4), (3, 1)]);
    play_all(&mut g, &[(3, 3)]);
    play_all(&mut g, &[(4, 1)]);
    // black: 5 stones, column 0 (5 points); white: 4 stones, (4,4) corner area is all occupied
    assert_eq!(g.calculate_territories(), (10, 4));
    assert_eq!(score(&g.goban(), Rule::Chinese, g.prisoners(), g.komi()), (100, 40));
}

#[test]
fn raw_goban_split_matches_raw() {
    let mut g = IGame::new(3);
    play_all(&mut g, &[(0, 0), (1, 1)]);
    let (b, w) = g.raw_goban_split();
    let raw = g.raw_goban();
    for i in 0..9 {
        assert_eq!(b[i], raw[i] == 1);
        assert_eq!(w[i], raw[i] == 2);
    }
}

#[test]
fn pretty_bytes_draws_rows() {
    let g = IGoban::from_array(2, &vec![1, 0, 0, 2], Order::RowMajor).unwrap();
    assert!(g.is_valid());
    assert_eq!(String::from_utf8(g.pretty_bytes()).unwrap(), "X.\n.O\n");
}

#[test]
fn liberties_of_groups() {
    // X X .
    // O X .
    // . O .
    let g = IGoban::from_array(3, &vec![1, 1, 0, 2, 1, 0, 0, 2, 0], Order::RowMajor).unwrap();
    assert_eq!(liberties(&g, 0), 2);
    assert_eq!(liberties(&g, 3), 1);
    assert_eq!(liberties(&g, 7), 2);
    assert!(has_liberty(&g, 3));
    let h = IGoban::from_array(2, &vec![2, 1, 1, 0], Order::RowMajor).unwrap();
    assert_eq!(liberties(&h, 0), 0);
    assert!(!has_liberty(&h, 0));
}

#[test]
fn flood_marks_whole_group_only() {
    let g = IGoban::from_array(3, &vec![1, 1, 0, 2, 1, 0, 1, 2, 0], Order::RowMajor).unwrap();
    assert_eq!(flood(&g, 0), vec![true, true, false, false, true, false, false, false, false]);
    assert_eq!(flood(&g, 2), vec![false, false, true, false, false, true, false, false, true]);
}

#[test]
fn superko_forbids_any_earlier_position() {
    for (rule, allowed) in [(Rule::Chinese, false), (Rule::Japanese, true)] {
        let mut g = IGame::with_rule(9, rule);
        play_all(&mut g, &[(1, 2), (1, 3), (2, 1), (2, 4), (3, 2), (3, 3), (8, 8), (2, 2), (2, 3)]);
        assert_eq!(g.play(None), Ok(()));
        assert_eq!(g.play(None), Ok(()));
        assert_eq!(g.resume(), Ok(()));
        assert!(g.turn());
        assert_eq!(g.legals().contains(&(2, 2)), allowed);
        assert_eq!(g.play(Some((2, 2))).is_ok(), allowed);
    }
}

#[test]
fn new_infers_side_from_length() {
    let g = IGoban::new(&vec![0, 1, 2, 0, 0, 0, 0, 0, 1]).unwrap();
    assert_eq!(g.size, 3);
    assert_eq!(g.get(0, 1), Stone::Black);
    assert_eq!(g.get(2, 2), Stone::Black);
    assert_eq!(IGoban::new(&vec![0; 8]).err(), Some(BoardError::WrongLength));
    assert_eq!(IGoban::new(&vec![]).err(), Some(BoardError::WrongLength));
    assert_eq!(IGoban::new(&vec![0, 0, 0, 7]).err(), Some(BoardError::BadCode));
}

#[test]
fn two_stone_group_is_captured_whole() {
    let mut g = IGame::new(9);
    play_all(&mut g, &[(1, 0), (0, 0), (1, 1), (0, 1)]);
    assert_eq!(g.prisoners(), (0, 0));
    play_all(&mut g, &[(0, 2)]);
    assert_eq!(g.prisoners(), (2, 0));
    assert_eq!(g.goban().get(0, 0), Stone::Empty);
    assert_eq!(g.goban().get(0, 1), Stone::Empty);
    let (_, w) = g.raw_goban_split();
    assert!(w.iter().all(|&s| !s));
}

#[test]
fn same_final_position_gives_same_outcome() {
    let mut a = IGame::new(9);
    play_all(&mut a, &[(2, 2), (6, 6)]);
    let mut b = IGame::new(9);
    play_all(&mut b, &[(3, 3)]);
    assert_eq!(b.pop(), Ok(()));
    play_all(&mut b, &[(2, 2), (6, 6)]);
    for g in [&mut a, &mut b] {
        assert_eq!(g.play(None), Ok(()));
        assert_eq!(g.play(None), Ok(()));
        assert!(g.over());
    }
    assert_eq!(a.outcome(), b.outcome());
    assert_eq!(a.outcome(), Some((10, 85)));
}

#[test]
fn territories_leave_out_komi() {
    let g = IGame::new(9);
    assert_eq!(g.calculate_territories(), (0, 0));
    let mut h = IGame::new(9);
    play_all(&mut h, &[(4, 4), (0, 0)]);
    assert_eq!(h.calculate_territories(), (1, 1));
    assert_eq!(IGame::with_rule(9, Rule::Japanese).calculate_territories(), (0, 0));
    let mut j = IGame::with_rule(9, Rule::Japanese);
    play_all(&mut j, &[(4, 4)]);
    assert_eq!(j.calculate_territories(), (80, 0));
    let one = IGame::new(1);
    assert_eq!(one.calculate_territories(), (0, 0));
}

#[test]
fn legals_are_distinct() {
    let g = IGame::new(9);
    let mut l = g.legals();
    assert_eq!(l.len(), 81);
    l.sort();
    l.dedup();
    assert_eq!(l.len(), 81);
}
