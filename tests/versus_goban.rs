use goban::pieces::stones::Color;
use goban::rules::game::Game;
use goban::rules::{GobanSizes, Move, CHINESE, JAPANESE};
use shusaku::game::IGame;
use shusaku::rules::{score, Rule};

fn codes(g: &Game) -> Vec<u8> {
    g.goban()
        .to_vec()
        .iter()
        .map(|c| match c {
            None => 0,
            Some(Color::Black) => 1,
            Some(Color::White) => 2,
        })
        .collect()
}

fn next(state: u64) -> u64 {
    state.wrapping_mul(6364136223846793005).wrapping_add(1442695040888963407)
}

fn same_random_game(seed: u64, rule: Rule, steps: usize) {
    let mut mine = IGame::with_rule(9, rule);
    let mut theirs = Game::new(GobanSizes::Nine, if rule == Rule::Chinese { CHINESE } else { JAPANESE });
    let mut state = seed;
    for _ in 0..steps {
        let mut ours = mine.legals();
        ours.sort();
        let mut reference: Vec<(usize, usize)> =
            theirs.legals().map(|(x, y)| (x as usize, y as usize)).collect();
        reference.sort();
        assert_eq!(ours, reference);
        if ours.is_empty() {
            break;
        }
        state = next(state);
        let (x, y) = ours[(state >> 33) as usize % ours.len()];
        assert_eq!(mine.play(Some((x, y))), Ok(()));
        theirs.play(Move::Play(x as u8, y as u8));
        // goban keeps its cells in a fixed-capacity array: compare the 81 in use
        let reference = codes(&theirs);
        assert!(reference[81..].iter().all(|&c| c == 0));
        assert_eq!(mine.raw_goban(), reference[..81].to_vec(), "after ({}, {})", x, y);
        assert_eq!(mine.prisoners(), theirs.prisoners());
    }
    let (b, w) = score(&mine.goban(), rule, mine.prisoners(), mine.komi());
    let (tb, tw) = theirs.calculate_score();
    assert_eq!((b as f32 / 10.0, w as f32 / 10.0), (tb, tw));
}

#[test]
fn random_games_agree_with_goban_chinese() {
    for seed in 1..6u64 {
        same_random_game(seed, Rule::Chinese, 150);
    }
}

#[test]
fn random_games_agree_with_goban_japanese() {
    for seed in 11..16u64 {
        same_random_game(seed, Rule::Japanese, 150);
    }
}

#[test]
fn short_games_score_like_goban() {
    for seed in 21..31u64 {
        same_random_game(seed, Rule::Chinese, 25);
    }
}

#[test]
fn ko_after_passes_agrees_with_goban() {
    for rule in [Rule::Chinese, Rule::Japanese] {
        let mut mine = IGame::with_rule(9, rule);
        let mut theirs = Game::new(GobanSizes::Nine, if rule == Rule::Chinese { CHINESE } else { JAPANESE });
        for (x, y) in [(1, 2), (1, 3), (2, 1), (2, 4), (3, 2), (3, 3), (8, 8), (2, 2), (2, 3)] {
            assert_eq!(mine.play(Some((x, y))), Ok(()));
            theirs.play(Move::Play(x as u8, y as u8));
        }
        assert_eq!(mine.play(None), Ok(()));
        assert_eq!(mine.play(None), Ok(()));
        assert_eq!(mine.resume(), Ok(()));
        theirs.play(Move::Pass);
        theirs.play(Move::Pass);
        theirs.resume();
        let mut ours = mine.legals();
        ours.sort();
        let mut reference: Vec<(usize, usize)> =
            theirs.legals().map(|(x, y)| (x as usize, y as usize)).collect();
        reference.sort();
        assert_eq!(ours, reference);
    }
}
