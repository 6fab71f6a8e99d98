use vstd::prelude::*;
use crate::board::{
    IGoban, Player, Stone, MAX_SIZE, index_of, opponent, presence, code_of, lemma_index_in_range,
    stone_of,
};
use crate::group::count_marked;
use crate::rules::{
    Rule, default_komi, default_komi_spec, legal_spec, play_result, repeats, score, score_spec,
    try_place, uses_superko, territory_counts, counted_territories, dead_neighbours, emptied,
    law_capture,
};

verus! {

/// How a finished game ended.
#[derive(Clone, Copy, PartialEq, Eq, Structural, Debug)]
pub enum EndGame {
    /// Scores `(black, white)` in tenths of a point, after two passes.
    Score(i64, i64),
    /// The given side won because the other resigned.
    WinnerByResign(Player),
}

/// Why a game operation was refused. A refused operation changes nothing.
#[derive(Clone, Copy, PartialEq, Eq, Structural, Debug)]
pub enum GameError {
    /// The game is over.
    GameOver,
    /// The stone would be on an occupied cell, suicide, or retake a ko.
    Illegal,
    /// A coordinate lies off the board.
    OutOfBoard,
    /// There is no move to take back.
    EmptyHistory,
    /// The game did not end by two passes.
    NotEndedByPasses,
}

/// What a game looks like at one moment, apart from its history:
/// cells, turn, prisoners, consecutive passes and outcome.
pub type StateView = (Seq<Stone>, Player, (u32, u32), u8, Option<EndGame>);

/// The state of a game before one of its moves.
pub struct Snapshot {
    pub goban: IGoban,
    pub turn: Player,
    pub prisoners: (u32, u32),
    pub passes: u8,
    pub outcome: Option<EndGame>,
}

impl Snapshot {
    pub open spec fn view(&self) -> StateView {
        (self.goban.cells@, self.turn, self.prisoners, self.passes, self.outcome)
    }
}

/// A game of Go: the board, the side to move, prisoners, komi, passes, the outcome
/// once over, and the states before each move for undo and ko.
pub struct IGame {
    pub goban: IGoban,
    pub rule: Rule,
    /// Komi in tenths of a point.
    pub komi: i32,
    pub turn: Player,
    /// Stones captured by `(black, white)`.
    pub prisoners: (u32, u32),
    pub passes: u8,
    pub outcome: Option<EndGame>,
    pub history: Vec<Snapshot>,
}

/// The sum of a prisoner count and a capture, held at `u32::MAX`.
pub open spec fn add_capped_spec(a: u32, b: nat) -> u32 {
    if a + b > u32::MAX {
        u32::MAX
    } else {
        (a + b) as u32
    }
}

/// Prisoners after `player` captured `taken` stones.
pub open spec fn credit(prisoners: (u32, u32), player: Player, taken: nat) -> (u32, u32) {
    match player {
        Player::Black => (add_capped_spec(prisoners.0, taken), prisoners.1),
        Player::White => (prisoners.0, add_capped_spec(prisoners.1, taken)),
    }
}

/// The outcome as a pair `(black, white)` in tenths of a point; a resignation is
/// `(-10, 0)` when white wins and `(0, -10)` when black wins.
pub open spec fn outcome_pair(o: EndGame) -> (i64, i64) {
    match o {
        EndGame::Score(b, w) => (b, w),
        EndGame::WinnerByResign(Player::White) => (-10i64, 0i64),
        EndGame::WinnerByResign(Player::Black) => (0i64, -10i64),
    }
}

/// `after` is `before` with `before`'s state pushed on the history, rule and komi kept.
pub open spec fn pushed_from(after: IGame, before: IGame) -> bool {
    &&& after.hist() == before.hist().push(before.state())
    &&& after.history@.len() == before.history@.len() + 1
    &&& after.rule == before.rule
    &&& after.komi == before.komi
    &&& after.goban.size == before.goban.size
}

/// `after` is `before` after the side to move put a stone on `(x, y)`: the opponent
/// groups left without liberty are removed and their stones credited to the mover.
pub open spec fn stone_played(after: IGame, before: IGame, x: usize, y: usize) -> bool {
    let n = before.goban.size as int;
    let res = play_result(before.goban.cells@, n, index_of(n, x as int, y as int), before.turn);
    &&& (x as int) < n
    &&& (y as int) < n
    &&& pushed_from(after, before)
    &&& after.goban.cells@ == res.0
    &&& after.prisoners == credit(before.prisoners, before.turn, res.1)
    &&& after.turn == opponent(before.turn)
    &&& after.passes == 0
    &&& after.outcome is None
}

/// `after` is `before` after a pass by the side to move; the second pass in a row
/// ends the game with the score of the final position.
pub open spec fn passed_from(after: IGame, before: IGame) -> bool {
    &&& pushed_from(after, before)
    &&& after.goban.cells@ == before.goban.cells@
    &&& after.prisoners == before.prisoners
    &&& after.turn == opponent(before.turn)
    &&& after.passes == if before.passes >= 1 { 2u8 } else { 1u8 }
    &&& after.outcome == if before.passes >= 1 {
        Some(EndGame::Score(after.score_now().0 as i64, after.score_now().1 as i64))
    } else {
        None
    }
}

/// `after` is `before` with the last recorded state restored and taken off the history.
pub open spec fn restored_from(after: IGame, before: IGame) -> bool {
    &&& before.hist().len() > 0
    &&& after.state() == before.hist().last()
    &&& after.hist() == before.hist().drop_last()
    &&& after.history@.len() + 1 == before.history@.len()
    &&& after.rule == before.rule
    &&& after.komi == before.komi
    &&& after.goban.size == before.goban.size
}

fn add_capped(a: u32, b: usize) -> (r: u32)
    ensures
        r == add_capped_spec(a, b as nat),
{
    if b as u64 >= (u32::MAX - a) as u64 {
        u32::MAX
    } else {
        a + b as u32
    }
}

impl IGame {
    pub open spec fn state(&self) -> StateView {
        (self.goban.cells@, self.turn, self.prisoners, self.passes, self.outcome)
    }

    pub open spec fn hist(&self) -> Seq<StateView> {
        self.history@.map_values(|s: Snapshot| s.view())
    }

    /// The boards before each move so far, oldest first, used for ko.
    pub open spec fn past_cells(&self) -> Seq<Seq<Stone>> {
        self.history@.map_values(|s: Snapshot| s.goban.cells@)
    }

    pub open spec fn score_now(&self) -> (int, int) {
        score_spec(self.goban.cells@, self.goban.size as int, self.rule, self.prisoners, self.komi)
    }

    pub open spec fn wf(&self) -> bool {
        &&& self.goban.wf()
        &&& self.passes <= 2
        &&& forall|i: int|
            0 <= i < self.history@.len() ==> (#[trigger] self.history@[i]).goban.wf()
                && self.history@[i].goban.size == self.goban.size && self.history@[i].passes <= 2
    }

    /// The cells after the handicap stones `coords` are put on `cells`.
    pub open spec fn with_stones(cells: Seq<Stone>, n: int, coords: Seq<(usize, usize)>) -> Seq<Stone> {
        Seq::new(
            cells.len(),
            |i: int|
                if exists|k: int|
                    0 <= k < coords.len() && index_of(n, coords[k].0 as int, coords[k].1 as int)
                        == i {
                    Stone::Black
                } else {
                    cells[i]
                },
        )
    }

    /// A new game on an empty board of side `size`, under Chinese rules.
    pub fn new(size: usize) -> (r: IGame)
        requires
            1 <= size <= MAX_SIZE,
        ensures
            r.wf(),
            r.goban.size == size,
            r.rule == Rule::Chinese,
            r.komi == default_komi_spec(Rule::Chinese),
            forall|i: int| 0 <= i < r.goban.cells@.len() ==> r.goban.cells@[i] == Stone::Empty,
            r.turn == Player::Black,
            r.prisoners == (0u32, 0u32),
            r.passes == 0,
            r.outcome is None,
            r.history@.len() == 0,
    {
        IGame::with_rule(size, Rule::Chinese)
    }

    /// A new game on an empty board of side `size` under `rule`.
    pub fn with_rule(size: usize, rule: Rule) -> (r: IGame)
        requires
            1 <= size <= MAX_SIZE,
        ensures
            r.wf(),
            r.goban.size == size,
            r.rule == rule,
            r.komi == default_komi_spec(rule),
            forall|i: int| 0 <= i < r.goban.cells@.len() ==> r.goban.cells@[i] == Stone::Empty,
            r.turn == Player::Black,
            r.prisoners == (0u32, 0u32),
            r.passes == 0,
            r.outcome is None,
            r.history@.len() == 0,
    {
        IGame {
            goban: IGoban::empty(size),
            rule,
            komi: default_komi(rule),
            turn: Player::Black,
            prisoners: (0, 0),
            passes: 0,
            outcome: None,
            history: Vec::new(),
        }
    }

    /// Whether the board `b` repeats a position that the rule forbids: any earlier
    /// board under superko, else the board before the last move.
    pub fn repeats_history(&self, b: &IGoban) -> (r: bool)
        ensures
            r == repeats(b.cells@, self.past_cells(), uses_superko(self.rule)),
    {
        let superko = match self.rule {
            Rule::Chinese => true,
            Rule::Japanese => false,
        };
        let len = self.history.len();
        assert(self.past_cells().len() == len);
        if !superko {
            if len == 0 {
                return false;
            }
            let same = self.history[len - 1].goban.same_as(b);
            proof {
                assert(self.past_cells().last() == self.history@[len - 1].goban.cells@);
            }
            return same;
        }
        let mut i: usize = 0;
        while i < len
            invariant
                len == self.history@.len(),
                superko == uses_superko(self.rule),
                superko,
                i <= len,
                forall|j: int| 0 <= j < i ==> self.past_cells()[j] != b.cells@,
            decreases len - i,
        {
            assert(self.past_cells()[i as int] == self.history@[i as int].goban.cells@);
            if self.history[i].goban.same_as(b) {
                proof {
                    assert(self.past_cells()[i as int] == b.cells@);
                }
                return true;
            }
            i = i + 1;
        }
        false
    }

    /// The board after the side to move plays on cell `p`, with the stones captured,
    /// when that move is legal.
    pub fn check_point(&self, p: usize) -> (r: Option<(IGoban, usize)>)
        requires
            self.wf(),
        ensures
            r is Some <==> legal_spec(
                self.goban.cells@,
                self.goban.size as int,
                self.past_cells(),
                uses_superko(self.rule),
                p as int,
                self.turn,
            ),
            r is Some ==> {
                let (b, taken) = r->Some_0;
                &&& b.wf()
                &&& b.size == self.goban.size
                &&& b.cells@ == play_result(self.goban.cells@, self.goban.size as int, p as int, self.turn).0
                &&& taken == play_result(self.goban.cells@, self.goban.size as int, p as int, self.turn).1
            },
    {
        match try_place(&self.goban, p, self.turn) {
            None => None,
            Some((after, taken)) => {
                if self.repeats_history(&after) {
                    None
                } else {
                    Some((after, taken))
                }
            },
        }
    }

    fn snapshot(&self) -> (r: Snapshot)
        ensures
            r.view() == self.state(),
            r.goban.size == self.goban.size,
            self.goban.wf() ==> r.goban.wf(),
    {
        Snapshot {
            goban: self.goban.copy(),
            turn: self.turn,
            prisoners: self.prisoners,
            passes: self.passes,
            outcome: self.outcome,
        }
    }

    fn record(&mut self)
        requires
            old(self).wf(),
        ensures
            final(self).history@.len() == old(self).history@.len() + 1,
            final(self).history@.last().goban.cells@ == old(self).goban.cells@,
            final(self).history@.last().goban.size == old(self).goban.size,
            final(self).history@.last().passes == old(self).passes,
            forall|i: int| 0 <= i < old(self).history@.len() ==> final(self).history@[i] == old(self).history@[i],
            final(self).hist() == old(self).hist().push(old(self).state()),
            final(self).goban == old(self).goban,
            final(self).rule == old(self).rule,
            final(self).komi == old(self).komi,
            final(self).turn == old(self).turn,
            final(self).prisoners == old(self).prisoners,
            final(self).passes == old(self).passes,
            final(self).outcome == old(self).outcome,
    {
        let s = self.snapshot();
        self.history.push(s);
        proof {
            assert(self.hist() =~= old(self).hist().push(old(self).state()));
        }
    }

    /// Puts the side to move's stone on `(x, y)`, removes the opponent groups left
    /// without liberty and credits the mover with them. An illegal move is refused.
    pub fn play_stone(&mut self, x: usize, y: usize) -> (r: Result<(), GameError>)
        requires
            old(self).wf(),
        ensures
            final(self).wf(),
            old(self).outcome is Some <==> r == Err::<(), GameError>(GameError::GameOver),
            old(self).outcome is None && (x >= old(self).goban.size || y >= old(self).goban.size)
                <==> r == Err::<(), GameError>(GameError::OutOfBoard),
            old(self).outcome is None && x < old(self).goban.size && y < old(self).goban.size
                && !legal_spec(
                old(self).goban.cells@,
                old(self).goban.size as int,
                old(self).past_cells(),
                uses_superko(old(self).rule),
                index_of(old(self).goban.size as int, x as int, y as int),
                old(self).turn,
            ) <==> r == Err::<(), GameError>(GameError::Illegal),
            r is Ok <==> old(self).outcome is None && x < old(self).goban.size && y < old(self).goban.size
                && legal_spec(
                old(self).goban.cells@,
                old(self).goban.size as int,
                old(self).past_cells(),
                uses_superko(old(self).rule),
                index_of(old(self).goban.size as int, x as int, y as int),
                old(self).turn,
            ),
            r is Err ==> *final(self) == *old(self),
            r is Ok ==> stone_played(*final(self), *old(self), x, y),
    {
        if self.outcome.is_some() {
            return Err(GameError::GameOver);
        }
        let n = self.goban.size;
        if x >= n || y >= n {
            return Err(GameError::OutOfBoard);
        }
        proof {
            lemma_index_in_range(n as int, x as int, y as int);
        }
        let p = x * n + y;
        let (after, taken) = match self.check_point(p) {
            Some(placed) => placed,
            None => {
                return Err(GameError::Illegal);
            },
        };
        self.record();
        self.goban = after;
        self.prisoners = match self.turn {
            Player::Black => (add_capped(self.prisoners.0, taken), self.prisoners.1),
            Player::White => (self.prisoners.0, add_capped(self.prisoners.1, taken)),
        };
        self.turn = match self.turn {
            Player::Black => Player::White,
            Player::White => Player::Black,
        };
        self.passes = 0;
        Ok(())
    }

    /// The side to move passes. The second pass in a row ends the game and scores it.
    pub fn pass(&mut self) -> (r: Result<(), GameError>)
        requires
            old(self).wf(),
        ensures
            final(self).wf(),
            old(self).outcome is Some <==> r is Err,
            r is Err ==> r == Err::<(), GameError>(GameError::GameOver) && *final(self) == *old(self),
            r is Ok ==> passed_from(*final(self), *old(self)),
    {
        if self.outcome.is_some() {
            return Err(GameError::GameOver);
        }
        self.record();
        self.turn = match self.turn {
            Player::Black => Player::White,
            Player::White => Player::Black,
        };
        if self.passes >= 1 {
            self.passes = 2;
            let (b, w) = score(&self.goban, self.rule, self.prisoners, self.komi);
            self.outcome = Some(EndGame::Score(b, w));
        } else {
            self.passes = 1;
        }
        Ok(())
    }

    /// Plays a stone at `Some((x, y))`, or passes on `None`.
    pub fn play(&mut self, mv: Option<(usize, usize)>) -> (r: Result<(), GameError>)
        requires
            old(self).wf(),
        ensures
            final(self).wf(),
            old(self).outcome is Some <==> r == Err::<(), GameError>(GameError::GameOver),
            r is Err ==> *final(self) == *old(self),
            mv is None ==> (r is Ok <==> old(self).outcome is None),
            mv is None ==> (r is Ok ==> passed_from(*final(self), *old(self))),
            mv is Some ==> {
                    let x = mv->Some_0.0;
                    let y = mv->Some_0.1;
                    let n = old(self).goban.size as int;
                    let legal = x < n && y < n && legal_spec(
                        old(self).goban.cells@,
                        n,
                        old(self).past_cells(),
                uses_superko(old(self).rule),
                        index_of(n, x as int, y as int),
                        old(self).turn,
                    );
                    &&& (r is Ok <==> old(self).outcome is None && legal)
                    &&& r is Ok ==> stone_played(*final(self), *old(self), x, y)
            },
    {
        match mv {
            Some((x, y)) => self.play_stone(x, y),
            None => self.pass(),
        }
    }

    /// The side to move resigns: the game is over and the other side has won.
    pub fn resign(&mut self)
        requires
            old(self).wf(),
        ensures
            final(self).wf(),
            pushed_from(*final(self), *old(self)),
            final(self).goban.cells@ == old(self).goban.cells@,
            final(self).turn == old(self).turn,
            final(self).prisoners == old(self).prisoners,
            final(self).passes == old(self).passes,
            final(self).outcome == Some(EndGame::WinnerByResign(opponent(old(self).turn))),
    {
        self.record();
        let winner = match self.turn {
            Player::Black => Player::White,
            Player::White => Player::Black,
        };
        self.outcome = Some(EndGame::WinnerByResign(winner));
    }

    /// Takes back the last move (a stone, a pass or a resignation), restoring the
    /// board, turn, prisoners, passes and outcome from before it.
    pub fn pop(&mut self) -> (r: Result<(), GameError>)
        requires
            old(self).wf(),
        ensures
            final(self).wf(),
            old(self).history@.len() == 0 <==> r is Err,
            r is Err ==> r == Err::<(), GameError>(GameError::EmptyHistory) && *final(self) == *old(self),
            r is Ok ==> restored_from(*final(self), *old(self)),
    {
        if self.history.len() == 0 {
            return Err(GameError::EmptyHistory);
        }
        match self.history.pop() {
            None => Err(GameError::EmptyHistory),
            Some(s) => {
                proof {
                    assert(old(self).history@[old(self).history@.len() - 1] == s);
                }
                self.goban = s.goban;
                self.turn = s.turn;
                self.prisoners = s.prisoners;
                self.passes = s.passes;
                self.outcome = s.outcome;
                proof {
                    assert(self.hist() =~= old(self).hist().drop_last());
                }
                Ok(())
            },
        }
    }

    /// Reopens a game that ended by two passes.
    pub fn resume(&mut self) -> (r: Result<(), GameError>)
        requires
            old(self).wf(),
        ensures
            final(self).wf(),
            (old(self).outcome matches Some(EndGame::Score(_, _))) <==> r is Ok,
            r is Err ==> r == Err::<(), GameError>(GameError::NotEndedByPasses) && *final(self) == *old(self),
            r is Ok ==> {
                &&& final(self).outcome is None
                &&& final(self).passes == 0
                &&& final(self).goban == old(self).goban
                &&& final(self).turn == old(self).turn
                &&& final(self).prisoners == old(self).prisoners
                &&& final(self).history == old(self).history
                &&& final(self).rule == old(self).rule
                &&& final(self).komi == old(self).komi
            },
    {
        match self.outcome {
            Some(EndGame::Score(_, _)) => {
                self.outcome = None;
                self.passes = 0;
                Ok(())
            },
            _ => Err(GameError::NotEndedByPasses),
        }
    }

    /// Whether a stone of the side to move on `(x, y)` is legal now.
    pub open spec fn legal_at(&self, x: int, y: int) -> bool {
        let n = self.goban.size as int;
        &&& self.outcome is None
        &&& 0 <= x < n
        &&& 0 <= y < n
        &&& legal_spec(
            self.goban.cells@,
            n,
            self.past_cells(),
            uses_superko(self.rule),
            index_of(n, x, y),
            self.turn,
        )
    }

    /// Every legal point for the side to move, in row-major order; none once the
    /// game is over.
    pub fn legals(&self) -> (r: Vec<(usize, usize)>)
        requires
            self.wf(),
        ensures
            forall|k: int| 0 <= k < r@.len() ==> self.legal_at(#[trigger] r@[k].0 as int, r@[k].1 as int),
            forall|x: int, y: int| #[trigger] self.legal_at(x, y) ==> r@.contains((x as usize, y as usize)),
            r@.no_duplicates(),
    {
        let mut r: Vec<(usize, usize)> = Vec::new();
        if self.outcome.is_some() {
            return r;
        }
        let n = self.goban.size;
        let mut x: usize = 0;
        while x < n
            invariant
                self.wf(),
                n == self.goban.size,
                self.outcome is None,
                x <= n,
                r@.no_duplicates(),
                forall|k: int| 0 <= k < r@.len() ==> (#[trigger] r@[k]).0 < x,
                forall|k: int| 0 <= k < r@.len() ==> self.legal_at(#[trigger] r@[k].0 as int, r@[k].1 as int),
                forall|a: int, b: int| 0 <= a < x && #[trigger] self.legal_at(a, b) ==> r@.contains((a as usize, b as usize)),
            decreases n - x,
        {
            let mut y: usize = 0;
            while y < n
                invariant
                    self.wf(),
                    n == self.goban.size,
                    self.outcome is None,
                    x < n,
                    y <= n,
                    r@.no_duplicates(),
                    forall|k: int| 0 <= k < r@.len() ==> (#[trigger] r@[k]).0 < x || (r@[k].0 == x && r@[k].1 < y),
                    forall|k: int| 0 <= k < r@.len() ==> self.legal_at(#[trigger] r@[k].0 as int, r@[k].1 as int),
                    forall|a: int, b: int| ((0 <= a < x) || (a == x && b < y)) && #[trigger] self.legal_at(a, b) ==> r@.contains((a as usize, b as usize)),
                decreases n - y,
            {
                proof {
                    lemma_index_in_range(n as int, x as int, y as int);
                }
                let p = x * n + y;
                let legal = self.check_point(p).is_some();
                let ghost before = r@;
                if legal {
                    r.push((x, y));
                    proof {
                        assert forall|a: int, b: int| ((0 <= a < x) || (a == x && b < y)) && #[trigger] self.legal_at(a, b) implies r@.contains((a as usize, b as usize)) by {
                            let w = choose|w: int| 0 <= w < before.len() && before[w] == (a as usize, b as usize);
                            assert(r@[w] == (a as usize, b as usize));
                        }
                        assert(r@[r@.len() - 1] == (x, y));
                    }
                }
                y = y + 1;
            }
            x = x + 1;
        }
        r
    }

    /// Puts black handicap stones on `coords`, with no legality check, and gives
    /// the move to white. Refused if a coordinate lies off the board.
    pub fn put_handicap(&mut self, coords: &Vec<(usize, usize)>) -> (r: Result<(), GameError>)
        requires
            old(self).wf(),
        ensures
            final(self).wf(),
            (exists|k: int| 0 <= k < coords@.len() && (coords@[k].0 >= old(self).goban.size
                || coords@[k].1 >= old(self).goban.size)) <==> r == Err::<(), GameError>(GameError::OutOfBoard),
            r is Err ==> r == Err::<(), GameError>(GameError::OutOfBoard),
            r is Err ==> *final(self) == *old(self),
            r is Ok ==> {
                &&& final(self).goban.size == old(self).goban.size
                &&& final(self).goban.cells@ == IGame::with_stones(
                    old(self).goban.cells@,
                    old(self).goban.size as int,
                    coords@,
                )
                &&& final(self).turn == Player::White
                &&& final(self).prisoners == old(self).prisoners
                &&& final(self).passes == old(self).passes
                &&& final(self).outcome == old(self).outcome
                &&& final(self).history == old(self).history
                &&& final(self).rule == old(self).rule
                &&& final(self).komi == old(self).komi
            },
    {
        let n = self.goban.size;
        let mut k: usize = 0;
        while k < coords.len()
            invariant
                *self == *old(self),
                self.wf(),
                n == old(self).goban.size,
                k <= coords@.len(),
                forall|j: int| 0 <= j < k ==> coords@[j].0 < n && coords@[j].1 < n,
            decreases coords@.len() - k,
        {
            if coords[k].0 >= n || coords[k].1 >= n {
                proof {
                    assert(coords@[k as int].0 >= n || coords@[k as int].1 >= n);
                }
                return Err(GameError::OutOfBoard);
            }
            k = k + 1;
        }
        let ghost start = self.goban.cells@;
        let mut k: usize = 0;
        while k < coords.len()
            invariant
                self.goban.wf(),
                self.goban.size == n,
                n == old(self).goban.size,
                start == old(self).goban.cells@,
                k <= coords@.len(),
                forall|j: int| 0 <= j < coords@.len() ==> coords@[j].0 < n && coords@[j].1 < n,
                self.goban.cells@ == IGame::with_stones(start, n as int, coords@.subrange(0, k as int)),
                self.turn == old(self).turn,
                self.prisoners == old(self).prisoners,
                self.passes == old(self).passes,
                self.outcome == old(self).outcome,
                self.history == old(self).history,
                self.rule == old(self).rule,
                self.komi == old(self).komi,
            decreases coords@.len() - k,
        {
            let (x, y) = coords[k];
            let ghost pre = self.goban.cells@;
            self.goban.set(x, y, Stone::Black);
            proof {
                assert(coords@[k as int] == (x, y));
                lemma_index_in_range(n as int, x as int, y as int);
                let sub = coords@.subrange(0, k + 1);
                assert(sub[k as int] == (x, y));
                let prev = coords@.subrange(0, k as int);
                let nn = n as int;
                assert forall|i: int| 0 <= i < start.len() implies self.goban.cells@[i]
                    == IGame::with_stones(start, nn, sub)[i] by {
                    assert(pre[i] == IGame::with_stones(start, nn, prev)[i]);
                    if i == index_of(nn, x as int, y as int) {
                        assert(sub[k as int] == coords@[k as int]);
                        assert(index_of(nn, sub[k as int].0 as int, sub[k as int].1 as int) == i);
                    } else {
                        if exists|j: int| 0 <= j < prev.len() && index_of(nn, prev[j].0 as int, prev[j].1 as int) == i {
                            let j = choose|j: int| 0 <= j < prev.len() && index_of(nn, prev[j].0 as int, prev[j].1 as int) == i;
                            assert(sub[j] == prev[j]);
                        }
                        if exists|j: int| 0 <= j < sub.len() && index_of(nn, sub[j].0 as int, sub[j].1 as int) == i {
                            let j = choose|j: int| 0 <= j < sub.len() && index_of(nn, sub[j].0 as int, sub[j].1 as int) == i;
                            assert(j != k);
                            assert(prev[j] == sub[j]);
                        }
                    }
                }
                assert(self.goban.cells@ =~= IGame::with_stones(start, nn, sub));
            }
            k = k + 1;
        }
        proof {
            assert(coords@.subrange(0, coords@.len() as int) =~= coords@);
        }
        self.turn = Player::White;
        Ok(())
    }

    /// An independent copy of the board.
    pub fn goban(&self) -> (r: IGoban)
        ensures
            r.size == self.goban.size,
            r.cells@ == self.goban.cells@,
    {
        self.goban.copy()
    }

    /// The board as a flattened row-major array of codes (0 empty, 1 black, 2 white).
    pub fn raw_goban(&self) -> (r: Vec<u8>)
        requires
            self.wf(),
        ensures
            r@.len() == self.goban.cells@.len(),
            forall|i: int| 0 <= i < r@.len() ==> r@[i] == code_of(#[trigger] self.goban.cells@[i]),
    {
        self.goban.raw()
    }

    /// The board as its two presence views `(black, white)`.
    pub fn raw_goban_split(&self) -> (r: (Vec<bool>, Vec<bool>))
        ensures
            r.0@ == presence(self.goban.cells@, Stone::Black),
            r.1@ == presence(self.goban.cells@, Stone::White),
    {
        self.goban.raw_split()
    }

    /// Each board before a move so far, oldest first, as flattened arrays of codes.
    pub fn plays(&self) -> (r: Vec<Vec<u8>>)
        requires
            self.wf(),
        ensures
            r@.len() == self.history@.len(),
            forall|k: int, i: int|
                0 <= k < r@.len() && 0 <= i < self.history@[k].goban.cells@.len() ==> #[trigger] r@[k]@[i]
                    == code_of(self.history@[k].goban.cells@[i]),
            forall|k: int| 0 <= k < r@.len() ==> (#[trigger] r@[k]@).len() == self.history@[k].goban.cells@.len(),
    {
        let mut r: Vec<Vec<u8>> = Vec::new();
        let mut k: usize = 0;
        while k < self.history.len()
            invariant
                self.wf(),
                k <= self.history@.len(),
                r@.len() == k,
                forall|j: int, i: int|
                    0 <= j < k && 0 <= i < self.history@[j].goban.cells@.len() ==> #[trigger] r@[j]@[i]
                        == code_of(self.history@[j].goban.cells@[i]),
                forall|j: int| 0 <= j < k ==> (#[trigger] r@[j]@).len() == self.history@[j].goban.cells@.len(),
            decreases self.history@.len() - k,
        {
            let raw = self.history[k].goban.raw();
            r.push(raw);
            k = k + 1;
        }
        r
    }

    /// Stones captured by `(black, white)`.
    pub fn prisoners(&self) -> (r: (u32, u32))
        ensures
            r == self.prisoners,
    {
        self.prisoners
    }

    /// The komi, in tenths of a point.
    pub fn komi(&self) -> (r: i32)
        ensures
            r == self.komi,
    {
        self.komi
    }

    /// Sets the komi, in tenths of a point.
    pub fn set_komi(&mut self, komi: i32)
        requires
            old(self).wf(),
        ensures
            final(self).wf(),
            final(self).komi == komi,
            final(self).goban == old(self).goban,
            final(self).history == old(self).history,
            final(self).rule == old(self).rule,
            final(self).turn == old(self).turn,
            final(self).prisoners == old(self).prisoners,
            final(self).passes == old(self).passes,
            final(self).outcome == old(self).outcome,
    {
        self.komi = komi;
    }

    /// Whether the game is over.
    pub fn over(&self) -> (r: bool)
        ensures
            r == self.outcome is Some,
    {
        self.outcome.is_some()
    }

    /// The outcome as `(black, white)` in tenths of a point once the game is over:
    /// the scores after two passes, `(-10, 0)` when black resigned and `(0, -10)`
    /// when white resigned.
    pub fn outcome(&self) -> (r: Option<(i64, i64)>)
        ensures
            r == match self.outcome {
                None => None,
                Some(o) => Some(outcome_pair(o)),
            },
    {
        match self.outcome {
            None => None,
            Some(EndGame::Score(b, w)) => Some((b, w)),
            Some(EndGame::WinnerByResign(Player::White)) => Some((-10, 0)),
            Some(EndGame::WinnerByResign(Player::Black)) => Some((0, -10)),
        }
    }

    /// Whether white is to move.
    pub fn turn(&self) -> (r: bool)
        ensures
            r == (self.turn == Player::White),
    {
        match self.turn {
            Player::White => true,
            Player::Black => false,
        }
    }

    /// The territories `(black, white)` of the position now, in points: the empty
    /// points each colour alone encloses, with its stones on the board added under
    /// area rules.
    pub fn calculate_territories(&self) -> (r: (usize, usize))
        requires
            self.wf(),
        ensures
            r.0 == territory_counts(self.goban.cells@, self.goban.size as int, self.rule).0,
            r.1 == territory_counts(self.goban.cells@, self.goban.size as int, self.rule).1,
    {
        counted_territories(&self.goban, self.rule)
    }
}

/// Playing a move and taking it back restores the board, turn, prisoners, passes,
/// outcome and history from before the move.
pub proof fn law_play_then_pop(before: IGame, played: IGame, after: IGame)
    requires
        pushed_from(played, before),
        restored_from(after, played),
    ensures
        after.state() == before.state(),
        after.goban.cells@ == before.goban.cells@,
        after.turn == before.turn,
        after.prisoners == before.prisoners,
        after.hist() == before.hist(),
        after.rule == before.rule,
        after.komi == before.komi,
{
    assert(played.hist().drop_last() =~= before.hist());
}

/// The second pass in a row ends the game, and the outcome depends only on the final
/// board, the rule, the prisoners and the komi: two games that end by passes in the
/// same position with the same rule, prisoners and komi have the same outcome.
pub proof fn law_two_passes_end(a1: IGame, b1: IGame, a2: IGame, b2: IGame)
    requires
        passed_from(b1, a1),
        a1.passes >= 1,
        passed_from(b2, a2),
        a2.passes >= 1,
        b1.goban.cells@ == b2.goban.cells@,
        b1.goban.size == b2.goban.size,
        b1.rule == b2.rule,
        b1.prisoners == b2.prisoners,
        b1.komi == b2.komi,
    ensures
        b1.outcome is Some,
        b1.passes == 2,
        b1.outcome == Some(EndGame::Score(b1.score_now().0 as i64, b1.score_now().1 as i64)),
        b1.outcome == b2.outcome,
{
}

/// Capture, over a whole move: when the side to move puts a stone on `(x, y)`, the
/// stones of the opponent groups next to it that it leaves without liberty leave the
/// board and no other opponent stone does, and the mover's prisoners rise by exactly
/// their number (a count held at `u32::MAX` stays there).
pub proof fn law_play_captures(before: IGame, after: IGame, x: usize, y: usize)
    requires
        before.wf(),
        stone_played(after, before, x, y),
    ensures
        ({
            let n = before.goban.size as int;
            let p = index_of(n, x as int, y as int);
            let placed = before.goban.cells@.update(p, stone_of(before.turn));
            let opp = stone_of(opponent(before.turn));
            let d = dead_neighbours(placed, n, p, opp);
            &&& forall|t: int|
                0 <= t < placed.len() ==> (after.goban.cells@[t] == Stone::Empty && placed[t] == opp)
                    == #[trigger] d[t]
            &&& after.prisoners == credit(before.prisoners, before.turn, count_marked(d))
            &&& before.turn == Player::Black && before.prisoners.0 + count_marked(d) <= u32::MAX
                ==> after.prisoners == ((before.prisoners.0 + count_marked(d)) as u32, before.prisoners.1)
            &&& before.turn == Player::White && before.prisoners.1 + count_marked(d) <= u32::MAX
                ==> after.prisoners == (before.prisoners.0, (before.prisoners.1 + count_marked(d)) as u32)
        }),
{
    let n = before.goban.size as int;
    let p = index_of(n, x as int, y as int);
    lemma_index_in_range(n, x as int, y as int);
    law_capture(before.goban.cells@, n, p, before.turn);
    let placed = before.goban.cells@.update(p, stone_of(before.turn));
    let opp = stone_of(opponent(before.turn));
    let res = play_result(before.goban.cells@, n, p, before.turn).0;
    assert forall|t: int| 0 <= t < placed.len() implies (after.goban.cells@[t] == Stone::Empty && placed[t] == opp)
        == #[trigger] dead_neighbours(placed, n, p, opp)[t] by {
        assert(emptied(res, placed, opp)[t] == dead_neighbours(placed, n, p, opp)[t]);
    }
}

} // verus!
