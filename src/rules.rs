use vstd::prelude::*;
use crate::board::{
    IGoban, Player, Stone, MAX_SIZE, count_stone, opponent, stone_of, lemma_square_fits,
};
use crate::group::{
    borders, flood, has_liberty, has_liberty_spec, has_nb, nb, neighbor, region, remove_marked,
    touches, without, count_marked, lemma_count_marked_bound, lemma_nb_adj, connected,
    lemma_connected_same, lemma_connected_sym, lemma_connected_trans, lemma_count_disjoint,
    lemma_region_shared, is_chain, adj, lemma_connected_self, lemma_connected_step,
};

verus! {

/// The rule set of a game: its default komi and its scoring method.
#[derive(Clone, Copy, PartialEq, Eq, Structural, Debug)]
pub enum Rule {
    /// Area scoring: stones on the board plus territory.
    Chinese,
    /// Territory scoring: territory plus prisoners.
    Japanese,
}

/// Komi is kept in tenths of a point.
pub open spec fn default_komi_spec(rule: Rule) -> i32 {
    match rule {
        Rule::Chinese => 75i32,
        Rule::Japanese => 65i32,
    }
}

pub open spec fn is_area(rule: Rule) -> bool {
    rule == Rule::Chinese
}

/// The default komi of a rule set, in tenths of a point.
pub fn default_komi(rule: Rule) -> (r: i32)
    ensures
        r == default_komi_spec(rule),
{
    match rule {
        Rule::Chinese => 75,
        Rule::Japanese => 65,
    }
}

/// The capture of the opponent group next to `p` in direction `k`, if it has no
/// liberty: the board after removing it and the number of stones removed.
pub open spec fn capture_at(cells: Seq<Stone>, n: int, p: int, k: int, opp: Stone) -> (Seq<Stone>, nat) {
    if has_nb(n, cells.len() as int, p, k) && cells[nb(n, p, k)] == opp && !has_liberty_spec(
        cells,
        n,
        nb(n, p, k),
    ) {
        let r = region(cells, n, nb(n, p, k));
        (without(cells, r), count_marked(r))
    } else {
        (cells, 0)
    }
}

/// The captures around `p`, direction `k` onwards, each on the board the previous left.
pub open spec fn captures_from(cells: Seq<Stone>, n: int, p: int, opp: Stone, k: int) -> (Seq<Stone>, nat)
    decreases 4 - k,
{
    if k >= 4 || k < 0 {
        (cells, 0)
    } else {
        let first = capture_at(cells, n, p, k, opp);
        let rest = captures_from(first.0, n, p, opp, k + 1);
        (rest.0, first.1 + rest.1)
    }
}

/// The board after `player` puts a stone on the empty cell `p` and the opponent
/// groups left without liberty are removed, with the number of stones removed.
pub open spec fn play_result(cells: Seq<Stone>, n: int, p: int, player: Player) -> (Seq<Stone>, nat) {
    captures_from(cells.update(p, stone_of(player)), n, p, stone_of(opponent(player)), 0)
}

/// Whether a rule set forbids every earlier position (positional superko) rather
/// than only the one before the last move (simple ko).
pub open spec fn uses_superko(rule: Rule) -> bool {
    rule == Rule::Chinese
}

/// The board `result` repeats a forbidden earlier position: any of `past` under
/// superko, else the last of `past` (the board before the last move).
pub open spec fn repeats(result: Seq<Stone>, past: Seq<Seq<Stone>>, superko: bool) -> bool {
    if superko {
        exists|i: int| 0 <= i < past.len() && past[i] == result
    } else {
        past.len() > 0 && past.last() == result
    }
}

/// A stone of `player` on cell `p` can be placed: the cell is empty and the stone's
/// group has a liberty once the captures are done (it is no suicide).
pub open spec fn placeable(cells: Seq<Stone>, n: int, p: int, player: Player) -> bool {
    &&& 0 <= p < cells.len()
    &&& cells[p] == Stone::Empty
    &&& has_liberty_spec(play_result(cells, n, p, player).0, n, p)
}

/// A stone of `player` on cell `p` is legal: it can be placed and the board that
/// results repeats no forbidden position of `past`, the boards before each move.
pub open spec fn legal_spec(
    cells: Seq<Stone>,
    n: int,
    past: Seq<Seq<Stone>>,
    superko: bool,
    p: int,
    player: Player,
) -> bool {
    &&& placeable(cells, n, p, player)
    &&& !repeats(play_result(cells, n, p, player).0, past, superko)
}

/// Who owns empty cell `i`: the one colour that borders its empty area, or nobody.
pub open spec fn owner(cells: Seq<Stone>, n: int, i: int) -> Stone {
    if cells[i] != Stone::Empty {
        Stone::Empty
    } else {
        let b = touches(cells, n, region(cells, n, i), Stone::Black);
        let w = touches(cells, n, region(cells, n, i), Stone::White);
        if b && !w {
            Stone::Black
        } else if w && !b {
            Stone::White
        } else {
            Stone::Empty
        }
    }
}

/// Number of empty cells owned by `s`.
pub open spec fn territory(cells: Seq<Stone>, n: int, s: Stone) -> nat {
    count_marked(Seq::new(cells.len(), |i: int| owner(cells, n, i) == s))
}

/// Final scores `(black, white)` in tenths of a point. Area scoring counts stones
/// and territory, territory scoring counts territory and prisoners; white adds komi.
pub open spec fn score_spec(cells: Seq<Stone>, n: int, rule: Rule, prisoners: (u32, u32), komi: i32) -> (int, int) {
    if is_area(rule) {
        (
            (10 * (count_stone(cells, Stone::Black) + territory(cells, n, Stone::Black))) as int,
            10 * (count_stone(cells, Stone::White) + territory(cells, n, Stone::White)) + komi,
        )
    } else {
        (
            (10 * (territory(cells, n, Stone::Black) + prisoners.0)) as int,
            10 * (territory(cells, n, Stone::White) + prisoners.1) + komi,
        )
    }
}

/// Puts a stone of `player` on the empty cell `p` and removes the opponent groups
/// next to it that are left without liberty. Returns the new board and the number
/// of stones removed.
pub fn resolve_play(g: &IGoban, p: usize, player: Player) -> (r: (IGoban, usize))
    requires
        g.wf(),
        p < g.cells@.len(),
    ensures
        r.0.wf(),
        r.0.size == g.size,
        r.0.cells@ == play_result(g.cells@, g.size as int, p as int, player).0,
        r.1 == play_result(g.cells@, g.size as int, p as int, player).1,
{
    let n = g.size;
    let total = g.cells.len();
    let mine = match player {
        Player::Black => Stone::Black,
        Player::White => Stone::White,
    };
    let opp = match player {
        Player::Black => Stone::White,
        Player::White => Stone::Black,
    };
    let mut cur = g.copy();
    cur.cells.set(p, mine);
    let ghost start = cur.cells@;
    let mut removed: usize = 0;
    let mut k: usize = 0;
    while k < 4
        invariant
            cur.wf(),
            cur.size == n,
            n == g.size,
            1 <= n <= MAX_SIZE,
            total == n * n,
            cur.cells@.len() == total,
            p < total,
            k <= 4,
            removed <= k * total,
            opp == stone_of(opponent(player)),
            start == g.cells@.update(p as int, stone_of(player)),
            captures_from(start, n as int, p as int, opp, 0).0 == captures_from(
                cur.cells@,
                n as int,
                p as int,
                opp,
                k as int,
            ).0,
            captures_from(start, n as int, p as int, opp, 0).1 == removed + captures_from(
                cur.cells@,
                n as int,
                p as int,
                opp,
                k as int,
            ).1,
        decreases 4 - k,
    {
        proof {
            lemma_square_fits(n as int);
        }
        let ghost before = cur.cells@;
        match neighbor(n, total, p, k) {
            Some(u) => {
                proof {
                    lemma_nb_adj(n as int, total as int, p as int, k as int);
                }
                if cur.cells[u] == opp && !has_liberty(&cur, u) {
                    let marks = flood(&cur, u);
                    proof {
                        lemma_count_marked_bound(marks@);
                    }
                    let gone = remove_marked(&mut cur, &marks);
                    proof {
                        assert(k * total + total <= 4 * (MAX_SIZE * MAX_SIZE)) by (nonlinear_arith)
                            requires
                                k < 4,
                                total <= MAX_SIZE * MAX_SIZE,
                        ;
                    }
                    removed = removed + gone;
                    proof {
                        assert(removed <= (k + 1) * total) by (nonlinear_arith)
                            requires
                                removed <= k * total + total,
                        ;
                    }
                }
            },
            None => {},
        }
        proof {
            assert(removed <= (k + 1) * total) by (nonlinear_arith)
                requires
                    removed <= k * total + total || removed <= k * total,
                    total >= 0,
            ;
            assert(capture_at(before, n as int, p as int, k as int, opp).0 == cur.cells@);
        }
        k = k + 1;
    }
    (cur, removed)
}

/// Places a stone of `player` on cell `p` when that is no suicide on an empty cell,
/// and returns the board after captures with the number of stones captured.
pub fn try_place(g: &IGoban, p: usize, player: Player) -> (r: Option<(IGoban, usize)>)
    requires
        g.wf(),
    ensures
        r is Some <==> placeable(g.cells@, g.size as int, p as int, player),
        r is Some ==> {
            let (b, taken) = r->Some_0;
            &&& b.wf()
            &&& b.size == g.size
            &&& b.cells@ == play_result(g.cells@, g.size as int, p as int, player).0
            &&& taken == play_result(g.cells@, g.size as int, p as int, player).1
        },
{
    if p >= g.cells.len() {
        return None;
    }
    if g.cells[p] != Stone::Empty {
        return None;
    }
    let (after, taken) = resolve_play(g, p, player);
    if !has_liberty(&after, p) {
        return None;
    }
    Some((after, taken))
}

/// Territories `(black, white)`: the empty cells each colour alone encloses. Each
/// empty region is flooded once and counted whole for its owner.
pub fn territories(g: &IGoban) -> (r: (usize, usize))
    requires
        g.wf(),
    ensures
        r.0 == territory(g.cells@, g.size as int, Stone::Black),
        r.1 == territory(g.cells@, g.size as int, Stone::White),
{
    let total = g.cells.len();
    let n = g.size;
    let ghost cells = g.cells@;
    let ghost nn = n as int;
    let ghost ob = Seq::new(total as nat, |j: int| owner(cells, nn, j) == Stone::Black);
    let ghost ow = Seq::new(total as nat, |j: int| owner(cells, nn, j) == Stone::White);
    let mut visited: Vec<bool> = Vec::new();
    let mut k: usize = 0;
    while k < total
        invariant
            k <= total,
            visited@.len() == k,
            forall|j: int| 0 <= j < k ==> !visited@[j],
        decreases total - k,
    {
        visited.push(false);
        k = k + 1;
    }
    proof {
        lemma_count_none(Seq::new(total as nat, |j: int| visited@[j] && ob[j]));
        lemma_count_none(Seq::new(total as nat, |j: int| visited@[j] && ow[j]));
    }
    let mut b: usize = 0;
    let mut w: usize = 0;
    let mut i: usize = 0;
    while i < total
        invariant
            g.wf(),
            n == g.size,
            nn == n as int,
            cells == g.cells@,
            total == cells.len(),
            ob == Seq::new(total as nat, |j: int| owner(cells, nn, j) == Stone::Black),
            ow == Seq::new(total as nat, |j: int| owner(cells, nn, j) == Stone::White),
            visited@.len() == total,
            i <= total,
            forall|j: int| 0 <= j < total && #[trigger] visited@[j] ==> cells[j] == Stone::Empty,
            forall|j: int, u: int|
                0 <= j < total && visited@[j] && #[trigger] connected(cells, nn, j, u) ==> visited@[u],
            forall|j: int| 0 <= j < i && cells[j] == Stone::Empty ==> #[trigger] visited@[j],
            b == count_marked(Seq::new(total as nat, |j: int| visited@[j] && ob[j])),
            w == count_marked(Seq::new(total as nat, |j: int| visited@[j] && ow[j])),
        decreases total - i,
    {
        if g.cells[i] == Stone::Empty && !visited[i] {
            let marks = flood(g, i);
            let bl = borders(g, &marks, Stone::Black);
            let wh = borders(g, &marks, Stone::White);
            let ghost v0 = visited@;
            let (now, cnt) = mark_all(&visited, &marks);
            visited = now;
            proof {
                let r = marks@;
                // the region of i was not visited before
                assert forall|k: int| 0 <= k < total implies !(v0[k] && r[k]) by {
                    if v0[k] && r[k] {
                        lemma_connected_sym(cells, nn, i as int, k);
                    }
                }
                // every cell of the region has the owner of i
                assert forall|k: int| 0 <= k < total && r[k] implies owner(cells, nn, k) == owner(cells, nn, i as int)
                    && cells[k] == Stone::Empty by {
                    lemma_connected_same(cells, nn, i as int, k);
                    lemma_region_shared(cells, nn, i as int, k);
                }
                // the visited cells stay closed under connection
                assert forall|a: int, u: int|
                    0 <= a < total && visited@[a] && #[trigger] connected(cells, nn, a, u) implies visited@[u] by {
                    if !v0[a] {
                        lemma_connected_trans(cells, nn, i as int, a, u);
                        lemma_connected_same(cells, nn, a, u);
                    }
                }
                let o = owner(cells, nn, i as int);
                lemma_step_count(v0, r, ob, o == Stone::Black);
                lemma_step_count(v0, r, ow, o == Stone::White);
                assert(Seq::new(total as nat, |k: int| visited@[k] && ob[k]) =~= Seq::new(total as nat, |k: int| (v0[k] || r[k]) && ob[k]));
                assert(Seq::new(total as nat, |k: int| visited@[k] && ow[k]) =~= Seq::new(total as nat, |k: int| (v0[k] || r[k]) && ow[k]));
                lemma_count_marked_bound(Seq::new(total as nat, |k: int| visited@[k] && ob[k]));
                lemma_count_marked_bound(Seq::new(total as nat, |k: int| visited@[k] && ow[k]));
                lemma_count_marked_bound(r);
            }
            if bl && !wh {
                b = b + cnt;
            } else if wh && !bl {
                w = w + cnt;
            }
        }
        i = i + 1;
    }
    proof {
        assert(Seq::new(total as nat, |j: int| visited@[j] && ob[j]) =~= ob);
        assert(Seq::new(total as nat, |j: int| visited@[j] && ow[j]) =~= ow);
    }
    (b, w)
}

/// The cells marked in `visited` or in `marks`, with the number `marks` holds.
fn mark_all(visited: &Vec<bool>, marks: &Vec<bool>) -> (r: (Vec<bool>, usize))
    requires
        visited@.len() == marks@.len(),
    ensures
        r.0@ == Seq::new(marks@.len(), |k: int| visited@[k] || marks@[k]),
        r.1 == count_marked(marks@),
{
    let total = marks.len();
    let ghost both = Seq::new(marks@.len(), |k: int| visited@[k] || marks@[k]);
    let mut out: Vec<bool> = Vec::new();
    let mut cnt: usize = 0;
    let mut j: usize = 0;
    while j < total
        invariant
            total == marks@.len(),
            visited@.len() == total,
            both == Seq::new(marks@.len(), |k: int| visited@[k] || marks@[k]),
            j <= total,
            out@ == both.subrange(0, j as int),
            cnt == count_marked(marks@.subrange(0, j as int)),
            cnt <= j,
        decreases total - j,
    {
        proof {
            assert(marks@.subrange(0, j + 1).drop_last() =~= marks@.subrange(0, j as int));
        }
        out.push(visited[j] || marks[j]);
        if marks[j] {
            cnt = cnt + 1;
        }
        j = j + 1;
        proof {
            assert(out@ =~= both.subrange(0, j as int));
        }
    }
    proof {
        assert(marks@.subrange(0, total as int) =~= marks@);
        assert(out@ =~= both);
    }
    (out, cnt)
}

/// Territories `(black, white)` in points: enclosed empty points, plus the stones
/// on the board under area rules.
pub open spec fn territory_counts(cells: Seq<Stone>, n: int, rule: Rule) -> (nat, nat) {
    if is_area(rule) {
        (
            count_stone(cells, Stone::Black) + territory(cells, n, Stone::Black),
            count_stone(cells, Stone::White) + territory(cells, n, Stone::White),
        )
    } else {
        (territory(cells, n, Stone::Black), territory(cells, n, Stone::White))
    }
}

/// The territories `(black, white)` of a board under `rule`, in points.
pub fn counted_territories(g: &IGoban, rule: Rule) -> (r: (usize, usize))
    requires
        g.wf(),
    ensures
        r.0 == territory_counts(g.cells@, g.size as int, rule).0,
        r.1 == territory_counts(g.cells@, g.size as int, rule).1,
{
    proof {
        lemma_square_fits(g.size as int);
    }
    let (tb, tw) = territories(g);
    proof {
        lemma_count_marked_bound(Seq::new(g.cells@.len(), |i: int| owner(g.cells@, g.size as int, i) == Stone::Black));
        lemma_count_marked_bound(Seq::new(g.cells@.len(), |i: int| owner(g.cells@, g.size as int, i) == Stone::White));
    }
    match rule {
        Rule::Chinese => {
            let sb = count_stones(g, Stone::Black);
            let sw = count_stones(g, Stone::White);
            proof {
                crate::board::lemma_counts_cover(g.cells@);
            }
            (sb + tb, sw + tw)
        },
        Rule::Japanese => (tb, tw),
    }
}

proof fn lemma_count_none(m: Seq<bool>)
    requires
        forall|k: int| 0 <= k < m.len() ==> !m[k],
    ensures
        count_marked(m) == 0,
    decreases m.len(),
{
    if m.len() > 0 {
        lemma_count_none(m.drop_last());
    }
}

/// Adding a region `r` disjoint from `v`, on which `own` holds everywhere or nowhere,
/// adds the region's size to the owned count, or nothing.
proof fn lemma_step_count(v: Seq<bool>, r: Seq<bool>, own: Seq<bool>, owned: bool)
    requires
        v.len() == r.len(),
        own.len() == r.len(),
        forall|k: int| 0 <= k < v.len() ==> !(v[k] && r[k]),
        forall|k: int| 0 <= k < v.len() && r[k] ==> own[k] == owned,
    ensures
        count_marked(Seq::new(v.len(), |k: int| (v[k] || r[k]) && own[k])) == count_marked(
            Seq::new(v.len(), |k: int| v[k] && own[k]),
        ) + if owned {
            count_marked(r)
        } else {
            0
        },
{
    let a = Seq::new(v.len(), |k: int| v[k] && own[k]);
    let b = Seq::new(v.len(), |k: int| r[k] && own[k]);
    lemma_count_disjoint(a, b);
    assert(Seq::new(v.len(), |k: int| (v[k] || r[k]) && own[k]) =~= Seq::new(a.len(), |k: int| a[k] || b[k]));
    if owned {
        assert(b =~= r);
    } else {
        lemma_count_none(b);
    }
}

/// Number of cells holding `s`.
pub fn count_stones(g: &IGoban, s: Stone) -> (r: usize)
    ensures
        r == count_stone(g.cells@, s),
{
    let total = g.cells.len();
    let mut c: usize = 0;
    let mut i: usize = 0;
    while i < total
        invariant
            total == g.cells@.len(),
            i <= total,
            c == count_stone(g.cells@.subrange(0, i as int), s),
            c <= i,
        decreases total - i,
    {
        proof {
            assert(g.cells@.subrange(0, i + 1).drop_last() =~= g.cells@.subrange(0, i as int));
        }
        if g.cells[i] == s {
            c = c + 1;
        }
        i = i + 1;
    }
    proof {
        assert(g.cells@.subrange(0, total as int) =~= g.cells@);
    }
    c
}

/// Scores `(black, white)` in tenths of a point under `rule`.
pub fn score(g: &IGoban, rule: Rule, prisoners: (u32, u32), komi: i32) -> (r: (i64, i64))
    requires
        g.wf(),
    ensures
        r.0 == score_spec(g.cells@, g.size as int, rule, prisoners, komi).0,
        r.1 == score_spec(g.cells@, g.size as int, rule, prisoners, komi).1,
{
    proof {
        lemma_square_fits(g.size as int);
    }
    let (tb, tw) = territories(g);
    proof {
        lemma_count_marked_bound(Seq::new(g.cells@.len(), |i: int| owner(g.cells@, g.size as int, i) == Stone::Black));
        lemma_count_marked_bound(Seq::new(g.cells@.len(), |i: int| owner(g.cells@, g.size as int, i) == Stone::White));
    }
    match rule {
        Rule::Chinese => {
            let sb = count_stones(g, Stone::Black);
            let sw = count_stones(g, Stone::White);
            proof {
                crate::board::lemma_counts_cover(g.cells@);
            }
            (10 * (sb as i64 + tb as i64), 10 * (sw as i64 + tw as i64) + komi as i64)
        },
        Rule::Japanese => {
            (10 * (tb as i64 + prisoners.0 as i64), 10 * (tw as i64 + prisoners.1 as i64) + komi as i64)
        },
    }
}

/// Capturing the opponent group next to `p` removes every stone of that group, leaves
/// the other cells as they were, and counts exactly the group's size.
pub proof fn law_capture_removes_group(cells: Seq<Stone>, n: int, p: int, k: int, opp: Stone)
    requires
        0 <= p < cells.len(),
        has_nb(n, cells.len() as int, p, k),
        cells[nb(n, p, k)] == opp,
        !has_liberty_spec(cells, n, nb(n, p, k)),
    ensures
        capture_at(cells, n, p, k, opp).1 == count_marked(region(cells, n, nb(n, p, k))),
        capture_at(cells, n, p, k, opp).0.len() == cells.len(),
        forall|t: int|
            0 <= t < cells.len() ==> (#[trigger] capture_at(cells, n, p, k, opp).0[t]) == if region(
                cells,
                n,
                nb(n, p, k),
            )[t] {
                Stone::Empty
            } else {
                cells[t]
            },
{
}

/// A stone whose group has no liberty once the captures are done is never legal.
pub proof fn law_suicide_rejected(
    cells: Seq<Stone>,
    n: int,
    past: Seq<Seq<Stone>>,
    superko: bool,
    p: int,
    player: Player,
)
    requires
        !has_liberty_spec(play_result(cells, n, p, player).0, n, p),
    ensures
        !legal_spec(cells, n, past, superko, p, player),
{
}

/// A stone that would bring back the board from before the last move is never
/// legal, under simple ko and under superko alike.
pub proof fn law_ko_rejected(cells: Seq<Stone>, n: int, past: Seq<Seq<Stone>>, superko: bool, p: int, player: Player)
    requires
        past.len() > 0,
        play_result(cells, n, p, player).0 == past.last(),
    ensures
        !legal_spec(cells, n, past, superko, p, player),
{
    assert(past[past.len() - 1] == past.last());
}

/// Under superko, a stone that would bring back any earlier board is never legal.
pub proof fn law_superko_rejected(cells: Seq<Stone>, n: int, past: Seq<Seq<Stone>>, i: int, p: int, player: Player)
    requires
        0 <= i < past.len(),
        play_result(cells, n, p, player).0 == past[i],
    ensures
        !legal_spec(cells, n, past, true, p, player),
{
}

/// `c` is `placed` with some cells holding `opp` emptied.
pub open spec fn only_removed(c: Seq<Stone>, placed: Seq<Stone>, opp: Stone) -> bool {
    &&& c.len() == placed.len()
    &&& forall|t: int|
        0 <= t < c.len() ==> #[trigger] c[t] == placed[t] || (placed[t] == opp && c[t] == Stone::Empty)
}

/// Every marked cell holds `s` in `c`.
pub open spec fn all_hold(c: Seq<Stone>, g: Seq<bool>, s: Stone) -> bool {
    forall|t: int| 0 <= t < g.len() && #[trigger] g[t] ==> c[t] == s
}

proof fn lemma_capture_step_removes(c: Seq<Stone>, placed: Seq<Stone>, n: int, p: int, j: int, opp: Stone)
    requires
        only_removed(c, placed, opp),
        opp != Stone::Empty,
    ensures
        only_removed(capture_at(c, n, p, j, opp).0, placed, opp),
        forall|t: int|
            0 <= t < c.len() ==> #[trigger] capture_at(c, n, p, j, opp).0[t] == c[t]
                || capture_at(c, n, p, j, opp).0[t] == Stone::Empty,
{
    let c2 = capture_at(c, n, p, j, opp).0;
    if has_nb(n, c.len() as int, p, j) && c[nb(n, p, j)] == opp && !has_liberty_spec(c, n, nb(n, p, j)) {
        let r = region(c, n, nb(n, p, j));
        assert forall|t: int| 0 <= t < c.len() implies #[trigger] c2[t] == placed[t] || (placed[t] == opp
            && c2[t] == Stone::Empty) by {
            if r[t] {
                lemma_connected_same(c, n, nb(n, p, j), t);
            }
        }
    }
}

proof fn lemma_captures_only_empty(c: Seq<Stone>, placed: Seq<Stone>, n: int, p: int, opp: Stone, j: int, g: Seq<bool>)
    requires
        only_removed(c, placed, opp),
        opp != Stone::Empty,
        g.len() == c.len(),
        all_hold(c, g, Stone::Empty),
    ensures
        all_hold(captures_from(c, n, p, opp, j).0, g, Stone::Empty),
        only_removed(captures_from(c, n, p, opp, j).0, placed, opp),
    decreases 4 - j,
{
    if 0 <= j < 4 {
        let c1 = capture_at(c, n, p, j, opp).0;
        lemma_capture_step_removes(c, placed, n, p, j, opp);
        assert(all_hold(c1, g, Stone::Empty)) by {
            assert forall|t: int| 0 <= t < g.len() && #[trigger] g[t] implies c1[t] == Stone::Empty by {
                assert(c1[t] == c[t] || c1[t] == Stone::Empty);
            }
        }
        lemma_captures_only_empty(c1, placed, n, p, opp, j + 1, g);
    }
}

proof fn lemma_chain_prefix(cells: Seq<Stone>, n: int, p: Seq<int>, i: int)
    requires
        is_chain(cells, n, p),
        0 <= i < p.len(),
    ensures
        connected(cells, n, p[0], p[i]),
{
    let q = p.subrange(0, i + 1);
    assert forall|k: int| 0 <= k < q.len() implies 0 <= #[trigger] q[k] < cells.len() && cells[q[k]]
        == cells[q[0]] by {
        assert(q[k] == p[k]);
    }
    assert forall|k: int| 0 <= k < q.len() - 1 implies adj(n, #[trigger] q[k], q[k + 1]) by {
        assert(q[k] == p[k] && q[k + 1] == p[k + 1]);
        assert(adj(n, p[k], p[k + 1]));
    }
    assert(is_chain(cells, n, q));
    assert(q[0] == p[0] && q.last() == p[i]);
}

/// A dead opponent group that no earlier capture touched keeps its shape and stays dead.
proof fn lemma_dead_group_kept(c: Seq<Stone>, placed: Seq<Stone>, n: int, q: int, opp: Stone)
    requires
        only_removed(c, placed, opp),
        opp != Stone::Empty,
        0 <= q < placed.len(),
        placed[q] == opp,
        !has_liberty_spec(placed, n, q),
        all_hold(c, region(placed, n, q), opp),
    ensures
        region(c, n, q) == region(placed, n, q),
        !has_liberty_spec(c, n, q),
        c[q] == opp,
{
    let g = region(placed, n, q);
    lemma_connected_self(placed, n, q);
    assert(g[q]);
    assert forall|t: int| 0 <= t < c.len() implies region(c, n, q)[t] == g[t] by {
        if connected(c, n, q, t) {
            let p = choose|p: Seq<int>| #[trigger] is_chain(c, n, p) && p[0] == q && p.last() == t;
            assert forall|k: int| 0 <= k < p.len() implies 0 <= #[trigger] p[k] < placed.len() && placed[p[k]]
                == placed[p[0]] by {
                assert(c[p[k]] == c[p[0]]);
                assert(c[p[k]] == placed[p[k]] || (placed[p[k]] == opp && c[p[k]] == Stone::Empty));
            }
            assert forall|k: int| 0 <= k < p.len() - 1 implies adj(n, #[trigger] p[k], p[k + 1]) by {
                assert(adj(n, p[k], p[k + 1]));
            }
            assert(is_chain(placed, n, p));
        }
        if connected(placed, n, q, t) {
            let p = choose|p: Seq<int>| #[trigger] is_chain(placed, n, p) && p[0] == q && p.last() == t;
            assert forall|k: int| 0 <= k < p.len() implies 0 <= #[trigger] p[k] < c.len() && c[p[k]] == c[p[0]] by {
                lemma_chain_prefix(placed, n, p, k);
                assert(g[p[k]]);
            }
            assert forall|k: int| 0 <= k < p.len() - 1 implies adj(n, #[trigger] p[k], p[k + 1]) by {
                assert(adj(n, p[k], p[k + 1]));
            }
            assert(is_chain(c, n, p));
        }
    }
    assert(region(c, n, q) =~= g);
    if has_liberty_spec(c, n, q) {
        let (t, u) = choose|t: int, u: int|
            0 <= t < c.len() && 0 <= u < c.len() && g[t] && #[trigger] adj(n, t, u) && c[u] == Stone::Empty;
        assert(c[u] == placed[u] || (placed[u] == opp && c[u] == Stone::Empty));
        if placed[u] == Stone::Empty {
            assert(touches(placed, n, g, Stone::Empty));
        } else {
            lemma_connected_same(placed, n, q, t);
            lemma_connected_step(placed, n, q, t, u);
            assert(g[u]);
        }
    }
}

proof fn lemma_dead_group_captured(c: Seq<Stone>, placed: Seq<Stone>, n: int, p: int, opp: Stone, j: int, k: int)
    requires
        only_removed(c, placed, opp),
        opp != Stone::Empty,
        0 <= j <= k < 4,
        has_nb(n, placed.len() as int, p, k),
        0 <= nb(n, p, k) < placed.len(),
        placed[nb(n, p, k)] == opp,
        !has_liberty_spec(placed, n, nb(n, p, k)),
        all_hold(c, region(placed, n, nb(n, p, k)), opp),
    ensures
        all_hold(captures_from(c, n, p, opp, j).0, region(placed, n, nb(n, p, k)), Stone::Empty),
    decreases 4 - j,
{
    let q = nb(n, p, k);
    let g = region(placed, n, q);
    let c1 = capture_at(c, n, p, j, opp).0;
    lemma_capture_step_removes(c, placed, n, p, j, opp);
    lemma_dead_group_kept(c, placed, n, q, opp);
    if j == k {
        assert(all_hold(c1, g, Stone::Empty));
        lemma_captures_only_empty(c1, placed, n, p, opp, j + 1, g);
    } else {
        let qj = nb(n, p, j);
        if has_nb(n, c.len() as int, p, j) && c[qj] == opp && !has_liberty_spec(c, n, qj) {
            let r = region(c, n, qj);
            if exists|t: int| 0 <= t < c.len() && g[t] && r[t] {
                let t = choose|t: int| 0 <= t < c.len() && g[t] && r[t];
                assert forall|x: int| 0 <= x < c.len() && g[x] implies r[x] by {
                    assert(region(c, n, q)[t] && region(c, n, q)[x]);
                    lemma_connected_sym(c, n, q, t);
                    lemma_connected_trans(c, n, qj, t, q);
                    lemma_connected_trans(c, n, qj, q, x);
                }
                assert(all_hold(c1, g, Stone::Empty));
                lemma_captures_only_empty(c1, placed, n, p, opp, j + 1, g);
            } else {
                assert(all_hold(c1, g, opp));
                lemma_dead_group_captured(c1, placed, n, p, opp, j + 1, k);
            }
        } else {
            lemma_dead_group_captured(c1, placed, n, p, opp, j + 1, k);
        }
    }
}

/// A stone that takes the last liberty of an adjacent opponent group removes every
/// stone of that group: none of them is left on the board after the move.
pub proof fn law_dead_neighbour_removed(cells: Seq<Stone>, n: int, p: int, player: Player, k: int)
    requires
        0 <= p < cells.len(),
        0 <= k < 4,
        has_nb(n, cells.len() as int, p, k),
        0 <= nb(n, p, k) < cells.len(),
        cells.update(p, stone_of(player))[nb(n, p, k)] == stone_of(opponent(player)),
        !has_liberty_spec(cells.update(p, stone_of(player)), n, nb(n, p, k)),
    ensures
        forall|t: int|
            0 <= t < cells.len() && #[trigger] region(cells.update(p, stone_of(player)), n, nb(n, p, k))[t]
                ==> play_result(cells, n, p, player).0[t] == Stone::Empty,
{
    let placed = cells.update(p, stone_of(player));
    let opp = stone_of(opponent(player));
    let q = nb(n, p, k);
    assert forall|t: int| 0 <= t < placed.len() && #[trigger] region(placed, n, q)[t] implies placed[t] == opp by {
        lemma_connected_same(placed, n, q, t);
    }
    lemma_dead_group_captured(placed, placed, n, p, opp, 0, k);
}

/// The cells that held `opp` in `placed` and are empty in `c`.
pub open spec fn emptied(c: Seq<Stone>, placed: Seq<Stone>, opp: Stone) -> Seq<bool> {
    Seq::new(placed.len(), |t: int| placed[t] == opp && c[t] == Stone::Empty)
}

proof fn lemma_captures_count(c: Seq<Stone>, placed: Seq<Stone>, n: int, p: int, opp: Stone, j: int)
    requires
        only_removed(c, placed, opp),
        opp != Stone::Empty,
    ensures
        captures_from(c, n, p, opp, j).1 + count_marked(emptied(c, placed, opp)) == count_marked(
            emptied(captures_from(c, n, p, opp, j).0, placed, opp),
        ),
    decreases 4 - j,
{
    if 0 <= j < 4 {
        let c1 = capture_at(c, n, p, j, opp).0;
        lemma_capture_step_removes(c, placed, n, p, j, opp);
        let qj = nb(n, p, j);
        if has_nb(n, c.len() as int, p, j) && c[qj] == opp && !has_liberty_spec(c, n, qj) {
            let r = region(c, n, qj);
            let e = emptied(c, placed, opp);
            assert forall|t: int| 0 <= t < c.len() && r[t] implies c[t] == opp by {
                lemma_connected_same(c, n, qj, t);
            }
            assert forall|t: int| 0 <= t < e.len() implies !(e[t] && r[t]) by {}
            lemma_count_disjoint(e, r);
            assert forall|t: int| 0 <= t < c.len() implies emptied(c1, placed, opp)[t] == (e[t] || r[t]) by {
                assert(c[t] == placed[t] || (placed[t] == opp && c[t] == Stone::Empty));
            }
            assert(emptied(c1, placed, opp) =~= Seq::new(e.len(), |t: int| e[t] || r[t]));
        }
        lemma_captures_count(c1, placed, n, p, opp, j + 1);
    }
}

/// The stones a move captures, which its player gains as prisoners, are exactly the
/// opponent stones that leave the board.
pub proof fn law_prisoners_are_removed_stones(cells: Seq<Stone>, n: int, p: int, player: Player)
    requires
        0 <= p < cells.len(),
    ensures
        play_result(cells, n, p, player).1 == count_marked(
            emptied(
                play_result(cells, n, p, player).0,
                cells.update(p, stone_of(player)),
                stone_of(opponent(player)),
            ),
        ),
{
    let placed = cells.update(p, stone_of(player));
    let opp = stone_of(opponent(player));
    assert forall|t: int| 0 <= t < placed.len() implies !emptied(placed, placed, opp)[t] by {}
    lemma_count_none(emptied(placed, placed, opp));
    lemma_captures_count(placed, placed, n, p, opp, 0);
}

/// Cell `t` lies in an opponent group next to `p` that has no liberty on `placed`.
pub open spec fn in_dead_neighbour(placed: Seq<Stone>, n: int, p: int, opp: Stone, t: int) -> bool {
    exists|k: int|
        0 <= k < 4 && #[trigger] has_nb(n, placed.len() as int, p, k) && placed[nb(n, p, k)] == opp
            && !has_liberty_spec(placed, n, nb(n, p, k)) && region(placed, n, nb(n, p, k))[t]
}

/// The opponent groups next to `p` that have no liberty on `placed`, as marks.
pub open spec fn dead_neighbours(placed: Seq<Stone>, n: int, p: int, opp: Stone) -> Seq<bool> {
    Seq::new(placed.len(), |t: int| in_dead_neighbour(placed, n, p, opp, t))
}

proof fn lemma_region_within(c: Seq<Stone>, placed: Seq<Stone>, n: int, q: int, opp: Stone)
    requires
        only_removed(c, placed, opp),
        opp != Stone::Empty,
        0 <= q < c.len(),
        c[q] == opp,
    ensures
        forall|t: int| 0 <= t < c.len() && #[trigger] region(c, n, q)[t] ==> region(placed, n, q)[t],
{
    assert forall|t: int| 0 <= t < c.len() && #[trigger] region(c, n, q)[t] implies region(placed, n, q)[t] by {
        let p = choose|p: Seq<int>| #[trigger] is_chain(c, n, p) && p[0] == q && p.last() == t;
        assert forall|k: int| 0 <= k < p.len() implies 0 <= #[trigger] p[k] < placed.len() && placed[p[k]]
            == placed[p[0]] by {
            assert(c[p[k]] == c[p[0]]);
            assert(c[p[k]] == placed[p[k]] || (placed[p[k]] == opp && c[p[k]] == Stone::Empty));
            assert(c[p[0]] == placed[p[0]] || (placed[p[0]] == opp && c[p[0]] == Stone::Empty));
        }
        assert forall|k: int| 0 <= k < p.len() - 1 implies adj(n, #[trigger] p[k], p[k + 1]) by {
            assert(adj(n, p[k], p[k + 1]));
        }
        assert(is_chain(placed, n, p));
    }
}

proof fn lemma_removed_are_dead(c: Seq<Stone>, placed: Seq<Stone>, n: int, p: int, opp: Stone, j: int)
    requires
        only_removed(c, placed, opp),
        opp != Stone::Empty,
        1 <= n,
        0 <= p < c.len(),
        forall|t: int| 0 <= t < c.len() && #[trigger] emptied(c, placed, opp)[t] ==> in_dead_neighbour(placed, n, p, opp, t),
    ensures
        forall|t: int| 0 <= t < c.len() && #[trigger] emptied(captures_from(c, n, p, opp, j).0, placed, opp)[t]
            ==> in_dead_neighbour(placed, n, p, opp, t),
    decreases 4 - j,
{
    if 0 <= j < 4 {
        let c1 = capture_at(c, n, p, j, opp).0;
        lemma_capture_step_removes(c, placed, n, p, j, opp);
        let q = nb(n, p, j);
        if has_nb(n, c.len() as int, p, j) && c[q] == opp && !has_liberty_spec(c, n, q) {
            lemma_nb_adj_any(n, c.len() as int, p, j);
            let r = region(c, n, q);
            let g = region(placed, n, q);
            lemma_region_within(c, placed, n, q, opp);
            assert(c[q] == placed[q] || (placed[q] == opp && c[q] == Stone::Empty));
            // the group of q was already dead on `placed`
            if has_liberty_spec(placed, n, q) {
                if all_hold(c, g, opp) {
                    lemma_region_kept(c, placed, n, q, opp);
                    let (t, u) = choose|t: int, u: int|
                        0 <= t < placed.len() && 0 <= u < placed.len() && g[t] && #[trigger] adj(n, t, u)
                            && placed[u] == Stone::Empty;
                    assert(c[u] == placed[u] || (placed[u] == opp && c[u] == Stone::Empty));
                    assert(r[t]);
                    assert(touches(c, n, r, Stone::Empty));
                } else {
                    let x = choose|x: int| 0 <= x < g.len() && g[x] && c[x] != opp;
                    lemma_connected_same(placed, n, q, x);
                    assert(c[x] == placed[x] || (placed[x] == opp && c[x] == Stone::Empty));
                    assert(emptied(c, placed, opp)[x]);
                    let k = choose|k: int|
                        0 <= k < 4 && #[trigger] has_nb(n, placed.len() as int, p, k) && placed[nb(n, p, k)] == opp
                            && !has_liberty_spec(placed, n, nb(n, p, k)) && region(placed, n, nb(n, p, k))[x];
                    let qk = nb(n, p, k);
                    lemma_connected_sym(placed, n, qk, x);
                    lemma_connected_trans(placed, n, q, x, qk);
                    lemma_region_shared(placed, n, q, qk);
                }
            }
            assert forall|t: int| 0 <= t < c.len() && #[trigger] emptied(c1, placed, opp)[t] implies in_dead_neighbour(
                placed,
                n,
                p,
                opp,
                t,
            ) by {
                if r[t] {
                    assert(has_nb(n, placed.len() as int, p, j));
                } else {
                    assert(emptied(c, placed, opp)[t]);
                }
            }
        }
        lemma_removed_are_dead(c1, placed, n, p, opp, j + 1);
        assert(captures_from(c, n, p, opp, j).0 == captures_from(c1, n, p, opp, j + 1).0);
    }
}

proof fn lemma_region_kept(c: Seq<Stone>, placed: Seq<Stone>, n: int, q: int, opp: Stone)
    requires
        only_removed(c, placed, opp),
        opp != Stone::Empty,
        0 <= q < placed.len(),
        placed[q] == opp,
        all_hold(c, region(placed, n, q), opp),
    ensures
        region(c, n, q) == region(placed, n, q),
{
    let g = region(placed, n, q);
    lemma_connected_self(placed, n, q);
    assert(g[q]);
    lemma_region_within(c, placed, n, q, opp);
    assert forall|t: int| 0 <= t < c.len() && g[t] implies region(c, n, q)[t] by {
        let p = choose|p: Seq<int>| #[trigger] is_chain(placed, n, p) && p[0] == q && p.last() == t;
        assert forall|k: int| 0 <= k < p.len() implies 0 <= #[trigger] p[k] < c.len() && c[p[k]] == c[p[0]] by {
            lemma_chain_prefix(placed, n, p, k);
            assert(g[p[k]]);
        }
        assert forall|k: int| 0 <= k < p.len() - 1 implies adj(n, #[trigger] p[k], p[k + 1]) by {
            assert(adj(n, p[k], p[k + 1]));
        }
        assert(is_chain(c, n, p));
    }
    assert(region(c, n, q) =~= g);
}

/// Capture: a stone removes exactly the opponent groups next to it that it leaves
/// without liberty (and no other stone), and the number of stones it captures is
/// their total size.
pub proof fn law_capture(cells: Seq<Stone>, n: int, p: int, player: Player)
    requires
        1 <= n,
        0 <= p < cells.len(),
    ensures
        forall|t: int|
            0 <= t < cells.len() ==> #[trigger] emptied(
                play_result(cells, n, p, player).0,
                cells.update(p, stone_of(player)),
                stone_of(opponent(player)),
            )[t] == dead_neighbours(cells.update(p, stone_of(player)), n, p, stone_of(opponent(player)))[t],
        play_result(cells, n, p, player).1 == count_marked(
            dead_neighbours(cells.update(p, stone_of(player)), n, p, stone_of(opponent(player))),
        ),
{
    let placed = cells.update(p, stone_of(player));
    let opp = stone_of(opponent(player));
    let res = play_result(cells, n, p, player).0;
    let d = dead_neighbours(placed, n, p, opp);
    assert forall|t: int| 0 <= t < placed.len() && #[trigger] emptied(placed, placed, opp)[t] implies in_dead_neighbour(
        placed,
        n,
        p,
        opp,
        t,
    ) by {}
    lemma_removed_are_dead(placed, placed, n, p, opp, 0);
    assert forall|t: int| 0 <= t < cells.len() implies #[trigger] emptied(res, placed, opp)[t] == d[t] by {
        if d[t] {
            let k = choose|k: int|
                0 <= k < 4 && #[trigger] has_nb(n, placed.len() as int, p, k) && placed[nb(n, p, k)] == opp
                    && !has_liberty_spec(placed, n, nb(n, p, k)) && region(placed, n, nb(n, p, k))[t];
            law_dead_neighbour_removed(cells, n, p, player, k);
            lemma_nb_adj_any(n, placed.len() as int, p, k);
            lemma_connected_same(placed, n, nb(n, p, k), t);
        }
    }
    law_prisoners_are_removed_stones(cells, n, p, player);
    assert(emptied(res, placed, opp) =~= d);
}

proof fn lemma_nb_adj_any(n: int, total: int, t: int, k: int)
    requires
        1 <= n,
        has_nb(n, total, t, k),
        0 <= t < total,
    ensures
        0 <= nb(n, t, k) < total,
{
}

} // verus!
