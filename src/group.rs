use vstd::prelude::*;
use crate::board::{IGoban, Stone, MAX_SIZE, lemma_square_fits};

verus! {

/// Cells `i` and `j` of a row-major board of side `n` are orthogonal neighbours.
pub open spec fn adj(n: int, i: int, j: int) -> bool {
    ||| (j == i + 1 && j % n != 0)
    ||| (i == j + 1 && i % n != 0)
    ||| j == i + n
    ||| i == j + n
}

/// Whether cell `t` has a neighbour in direction `k` (right, left, down, up).
pub open spec fn has_nb(n: int, total: int, t: int, k: int) -> bool {
    if k == 0 {
        t + 1 < total && (t + 1) % n != 0
    } else if k == 1 {
        t >= 1 && t % n != 0
    } else if k == 2 {
        t + n < total
    } else {
        t >= n
    }
}

/// The neighbour of `t` in direction `k`.
pub open spec fn nb(n: int, t: int, k: int) -> int {
    if k == 0 {
        t + 1
    } else if k == 1 {
        t - 1
    } else if k == 2 {
        t + n
    } else {
        t - n
    }
}

/// `p` is a walk along neighbouring cells that all hold the same state as its first cell.
pub open spec fn is_chain(cells: Seq<Stone>, n: int, p: Seq<int>) -> bool {
    &&& p.len() >= 1
    &&& forall|k: int| 0 <= k < p.len() ==> 0 <= #[trigger] p[k] < cells.len()
    &&& forall|k: int| 0 <= k < p.len() ==> cells[#[trigger] p[k]] == cells[p[0]]
    &&& forall|k: int| 0 <= k < p.len() - 1 ==> adj(n, #[trigger] p[k], p[k + 1])
}

/// Cell `t` lies in the maximal connected same-state region of cell `s`.
pub open spec fn connected(cells: Seq<Stone>, n: int, s: int, t: int) -> bool {
    exists|p: Seq<int>| #[trigger] is_chain(cells, n, p) && p[0] == s && p.last() == t
}

/// The region (a group of stones, or an empty area) of cell `s`, as marks over the cells.
pub open spec fn region(cells: Seq<Stone>, n: int, s: int) -> Seq<bool> {
    Seq::new(cells.len(), |t: int| connected(cells, n, s, t))
}

/// Some marked cell has a neighbour holding `s`.
pub open spec fn touches(cells: Seq<Stone>, n: int, marks: Seq<bool>, s: Stone) -> bool {
    exists|t: int, u: int|
        0 <= t < cells.len() && 0 <= u < cells.len() && marks[t] && #[trigger] adj(n, t, u)
            && cells[u] == s
}

/// The region of `s` has at least one liberty.
pub open spec fn has_liberty_spec(cells: Seq<Stone>, n: int, s: int) -> bool {
    touches(cells, n, region(cells, n, s), Stone::Empty)
}

/// Number of marked cells.
pub open spec fn count_marked(marks: Seq<bool>) -> nat
    decreases marks.len(),
{
    if marks.len() == 0 {
        0
    } else {
        count_marked(marks.drop_last()) + if marks.last() {
            1nat
        } else {
            0nat
        }
    }
}

/// The cells with the marked ones emptied.
pub open spec fn without(cells: Seq<Stone>, marks: Seq<bool>) -> Seq<Stone> {
    Seq::new(cells.len(), |i: int| if marks[i] { Stone::Empty } else { cells[i] })
}

/// Marked cells all of whose neighbours in state `c` are marked.
pub open spec fn closed(cells: Seq<Stone>, n: int, c: Stone, marks: Seq<bool>) -> bool {
    forall|t: int, u: int|
        0 <= t < cells.len() && 0 <= u < cells.len() && marks[t] && #[trigger] adj(n, t, u)
            && cells[u] == c ==> marks[u]
}

pub proof fn lemma_nb_adj(n: int, total: int, t: int, k: int)
    requires
        1 <= n,
        total == n * n,
        0 <= t < total,
        has_nb(n, total, t, k),
    ensures
        0 <= nb(n, t, k) < total,
        adj(n, t, nb(n, t, k)),
{
}

pub proof fn lemma_adj_is_nb(n: int, total: int, t: int, u: int)
    requires
        1 <= n,
        0 <= t < total,
        0 <= u < total,
        adj(n, t, u),
    ensures
        exists|k: int| 0 <= k < 4 && #[trigger] has_nb(n, total, t, k) && nb(n, t, k) == u,
{
    if u == t + 1 && u % n != 0 {
        assert(has_nb(n, total, t, 0) && nb(n, t, 0) == u);
    } else if t == u + 1 && t % n != 0 {
        assert(has_nb(n, total, t, 1) && nb(n, t, 1) == u);
    } else if u == t + n {
        assert(has_nb(n, total, t, 2) && nb(n, t, 2) == u);
    } else {
        assert(has_nb(n, total, t, 3) && nb(n, t, 3) == u);
    }
}

pub proof fn lemma_connected_self(cells: Seq<Stone>, n: int, s: int)
    requires
        0 <= s < cells.len(),
    ensures
        connected(cells, n, s, s),
{
    let p = seq![s];
    assert(is_chain(cells, n, p));
}

pub proof fn lemma_connected_step(cells: Seq<Stone>, n: int, s: int, t: int, u: int)
    requires
        0 <= s < cells.len(),
        0 <= u < cells.len(),
        connected(cells, n, s, t),
        adj(n, t, u),
        cells[u] == cells[s],
    ensures
        connected(cells, n, s, u),
{
    let p = choose|p: Seq<int>| #[trigger] is_chain(cells, n, p) && p[0] == s && p.last() == t;
    let q = p.push(u);
    assert forall|k: int| 0 <= k < q.len() - 1 implies adj(n, #[trigger] q[k], q[k + 1]) by {
        if k < p.len() - 1 {
            assert(adj(n, p[k], p[k + 1]));
        }
    }
    assert forall|k: int| 0 <= k < q.len() implies 0 <= #[trigger] q[k] < cells.len() && cells[q[k]]
        == cells[q[0]] by {
        if k < p.len() {
            assert(q[k] == p[k]);
        }
    }
    assert(is_chain(cells, n, q));
    assert(q[0] == s && q.last() == u);
}

/// Connected cells hold the same state as the start.
pub proof fn lemma_connected_same(cells: Seq<Stone>, n: int, s: int, t: int)
    requires
        connected(cells, n, s, t),
    ensures
        0 <= s < cells.len(),
        0 <= t < cells.len(),
        cells[t] == cells[s],
{
    let p = choose|p: Seq<int>| #[trigger] is_chain(cells, n, p) && p[0] == s && p.last() == t;
    assert(p[p.len() - 1] == t);
    assert(0 <= p[0] < cells.len());
}

pub proof fn lemma_connected_sym(cells: Seq<Stone>, n: int, s: int, t: int)
    requires
        connected(cells, n, s, t),
    ensures
        connected(cells, n, t, s),
{
    let p = choose|p: Seq<int>| #[trigger] is_chain(cells, n, p) && p[0] == s && p.last() == t;
    lemma_connected_same(cells, n, s, t);
    let len = p.len() as int;
    let q = Seq::new(p.len(), |k: int| p[len - 1 - k]);
    assert forall|k: int| 0 <= k < q.len() implies 0 <= #[trigger] q[k] < cells.len() && cells[q[k]]
        == cells[q[0]] by {
        assert(q[k] == p[len - 1 - k]);
        assert(q[0] == p[len - 1]);
    }
    assert forall|k: int| 0 <= k < q.len() - 1 implies adj(n, #[trigger] q[k], q[k + 1]) by {
        assert(adj(n, p[len - 2 - k], p[len - 2 - k + 1]));
    }
    assert(is_chain(cells, n, q));
    assert(q[0] == t && q.last() == s);
}

pub proof fn lemma_connected_trans(cells: Seq<Stone>, n: int, s: int, t: int, u: int)
    requires
        connected(cells, n, s, t),
        connected(cells, n, t, u),
    ensures
        connected(cells, n, s, u),
{
    let p = choose|p: Seq<int>| #[trigger] is_chain(cells, n, p) && p[0] == s && p.last() == t;
    let q = choose|q: Seq<int>| #[trigger] is_chain(cells, n, q) && q[0] == t && q.last() == u;
    lemma_connected_same(cells, n, s, t);
    let r = p + q.subrange(1, q.len() as int);
    assert forall|k: int| 0 <= k < r.len() implies 0 <= #[trigger] r[k] < cells.len() && cells[r[k]]
        == cells[r[0]] by {
        if k < p.len() {
            assert(r[k] == p[k]);
        } else {
            assert(r[k] == q[k - p.len() + 1]);
        }
    }
    assert forall|k: int| 0 <= k < r.len() - 1 implies adj(n, #[trigger] r[k], r[k + 1]) by {
        if k < p.len() - 1 {
            assert(r[k] == p[k] && r[k + 1] == p[k + 1]);
            assert(adj(n, p[k], p[k + 1]));
        } else if k == p.len() - 1 {
            assert(r[k] == p[k] && p[k] == t && r[k + 1] == q[1]);
            assert(adj(n, q[0], q[1]));
        } else {
            let j = k - p.len() + 1;
            assert(r[k] == q[j] && r[k + 1] == q[j + 1]);
            assert(adj(n, q[j], q[j + 1]));
        }
    }
    assert(is_chain(cells, n, r));
    if q.len() == 1 {
        assert(r =~= p);
    }
    assert(r[0] == s && r.last() == u);
}

/// Cells of one region have that same region.
pub proof fn lemma_region_shared(cells: Seq<Stone>, n: int, s: int, t: int)
    requires
        connected(cells, n, s, t),
    ensures
        region(cells, n, s) == region(cells, n, t),
{
    lemma_connected_sym(cells, n, s, t);
    assert forall|u: int| 0 <= u < cells.len() implies region(cells, n, s)[u] == region(cells, n, t)[u] by {
        if connected(cells, n, s, u) {
            lemma_connected_trans(cells, n, t, s, u);
        }
        if connected(cells, n, t, u) {
            lemma_connected_trans(cells, n, s, t, u);
        }
    }
    assert(region(cells, n, s) =~= region(cells, n, t));
}

/// Marks of two disjoint sets count as many as the marks of their union.
pub proof fn lemma_count_disjoint(a: Seq<bool>, b: Seq<bool>)
    requires
        a.len() == b.len(),
        forall|k: int| 0 <= k < a.len() ==> !(a[k] && b[k]),
    ensures
        count_marked(Seq::new(a.len(), |k: int| a[k] || b[k])) == count_marked(a) + count_marked(b),
    decreases a.len(),
{
    let u = Seq::new(a.len(), |k: int| a[k] || b[k]);
    if a.len() > 0 {
        let a2 = a.drop_last();
        let b2 = b.drop_last();
        lemma_count_disjoint(a2, b2);
        assert(u.drop_last() =~= Seq::new(a2.len(), |k: int| a2[k] || b2[k]));
    }
}

proof fn lemma_chain_marked(cells: Seq<Stone>, n: int, marks: Seq<bool>, p: Seq<int>, j: int)
    requires
        is_chain(cells, n, p),
        marks.len() == cells.len(),
        closed(cells, n, cells[p[0]], marks),
        marks[p[0]],
        0 <= j < p.len(),
    ensures
        marks[p[j]],
    decreases j,
{
    if j > 0 {
        lemma_chain_marked(cells, n, marks, p, j - 1);
        assert(adj(n, p[j - 1], p[j]));
        assert(0 <= p[j] < cells.len());
        assert(cells[p[j]] == cells[p[0]]);
        assert(0 <= p[j - 1] < cells.len());
    }
}

/// A closed set of marks that holds `s` holds the whole region of `s`.
pub proof fn lemma_closed_holds_region(cells: Seq<Stone>, n: int, marks: Seq<bool>, s: int, t: int)
    requires
        0 <= s < cells.len(),
        marks.len() == cells.len(),
        closed(cells, n, cells[s], marks),
        marks[s],
        connected(cells, n, s, t),
    ensures
        marks[t],
{
    let p = choose|p: Seq<int>| #[trigger] is_chain(cells, n, p) && p[0] == s && p.last() == t;
    lemma_chain_marked(cells, n, marks, p, p.len() - 1);
}

proof fn lemma_count_marked_set(m: Seq<bool>, u: int)
    requires
        0 <= u < m.len(),
        !m[u],
    ensures
        count_marked(m.update(u, true)) == count_marked(m) + 1,
    decreases m.len(),
{
    let m2 = m.update(u, true);
    if u < m.len() - 1 {
        assert(m2.drop_last() =~= m.drop_last().update(u, true));
        lemma_count_marked_set(m.drop_last(), u);
    } else {
        assert(m2.drop_last() =~= m.drop_last());
    }
}

pub proof fn lemma_count_marked_bound(m: Seq<bool>)
    ensures
        count_marked(m) <= m.len(),
    decreases m.len(),
{
    if m.len() > 0 {
        lemma_count_marked_bound(m.drop_last());
    }
}

/// The neighbour of cell `t` in direction `k`, if there is one.
pub fn neighbor(n: usize, total: usize, t: usize, k: usize) -> (r: Option<usize>)
    requires
        1 <= n <= MAX_SIZE,
        total == n * n,
        t < total,
    ensures
        r is Some <==> has_nb(n as int, total as int, t as int, k as int),
        r is Some ==> r->Some_0 == nb(n as int, t as int, k as int),
{
    proof {
        lemma_square_fits(n as int);
    }
    if k == 0 {
        if t + 1 < total && (t + 1) % n != 0 {
            Some(t + 1)
        } else {
            None
        }
    } else if k == 1 {
        if t >= 1 && t % n != 0 {
            Some(t - 1)
        } else {
            None
        }
    } else if k == 2 {
        if t + n < total {
            Some(t + n)
        } else {
            None
        }
    } else {
        if t >= n {
            Some(t - n)
        } else {
            None
        }
    }
}

/// Flood fill: marks the maximal connected region of cells in the same state as
/// `seed` (its group, or the empty area it lies in). Each cell is pushed at most once.
pub fn flood(g: &IGoban, seed: usize) -> (marks: Vec<bool>)
    requires
        g.wf(),
        seed < g.cells@.len(),
    ensures
        marks@ == region(g.cells@, g.size as int, seed as int),
        marks@[seed as int],
{
    let n = g.size;
    let total = g.cells.len();
    let ghost cells = g.cells@;
    let c = g.cells[seed];
    let mut marks: Vec<bool> = Vec::new();
    let mut i: usize = 0;
    while i < total
        invariant
            i <= total,
            marks@.len() == i,
            forall|k: int| 0 <= k < i ==> !marks@[k],
        decreases total - i,
    {
        marks.push(false);
        i = i + 1;
    }
    marks.set(seed, true);
    let mut stack: Vec<usize> = Vec::new();
    stack.push(seed);
    proof {
        lemma_connected_self(cells, n as int, seed as int);
        lemma_count_marked_bound(marks@);
        assert(stack@[0] == seed);
        assert forall|t: int| 0 <= t < total && #[trigger] marks@[t] implies t == seed by {}
    }
    while stack.len() > 0
        invariant
            g.wf(),
            n == g.size,
            cells == g.cells@,
            total == cells.len(),
            seed < total,
            c == cells[seed as int],
            marks@.len() == total,
            marks@[seed as int],
            forall|t: int| 0 <= t < total && #[trigger] marks@[t] ==> connected(cells, n as int, seed as int, t),
            forall|k: int| 0 <= k < stack@.len() ==> #[trigger] stack@[k] < total && marks@[stack@[k] as int],
            forall|t: int, u: int|
                0 <= t < total && 0 <= u < total && marks@[t] && #[trigger] adj(n as int, t, u)
                    && cells[u] == c && !marks@[u] ==> stack@.contains(t as usize),
            count_marked(marks@) <= total,
        decreases 2 * (total - count_marked(marks@)) + stack@.len(),
    {
        let ghost full = stack@;
        let t = stack.pop().unwrap();
        assert(marks@[t as int]);
        let ghost stack_before = stack@;
        let ghost marks_before = marks@;
        let mut k: usize = 0;
        while k < 4
            invariant
                g.wf(),
                n == g.size,
                cells == g.cells@,
                total == cells.len(),
                seed < total,
                t < total,
                c == cells[seed as int],
                k <= 4,
                marks@.len() == total,
                marks@[seed as int],
                marks@[t as int],
                count_marked(marks@) >= count_marked(marks_before),
                stack@.len() - stack_before.len() == count_marked(marks@) - count_marked(marks_before),
                stack@.subrange(0, stack_before.len() as int) == stack_before,
                forall|j: int| 0 <= j < total && marks_before[j] ==> #[trigger] marks@[j],
                forall|j: int| 0 <= j < total && #[trigger] marks@[j] ==> connected(cells, n as int, seed as int, j),
                forall|j: int| 0 <= j < stack@.len() ==> #[trigger] stack@[j] < total && marks@[stack@[j] as int],
                forall|j: int| 0 <= j < total && marks@[j] && !marks_before[j] ==> #[trigger] stack@.contains(j as usize),
                forall|d: int| 0 <= d < k && #[trigger] has_nb(n as int, total as int, t as int, d)
                    && cells[nb(n as int, t as int, d)] == c ==> marks@[nb(n as int, t as int, d)],
            decreases 4 - k,
        {
            match neighbor(n, total, t, k) {
                Some(u) => {
                    proof {
                        lemma_nb_adj(n as int, total as int, t as int, k as int);
                    }
                    if g.cells[u] == c && !marks[u] {
                        proof {
                            lemma_connected_step(cells, n as int, seed as int, t as int, u as int);
                            lemma_count_marked_set(marks@, u as int);
                        }
                        let ghost pre = stack@;
                        marks.set(u, true);
                        stack.push(u);
                        proof {
                            assert forall|j: int| 0 <= j < total && marks@[j] && !marks_before[j] implies #[trigger] stack@.contains(j as usize) by {
                                if j != u {
                                    assert(pre.contains(j as usize));
                                    let w = choose|w: int| 0 <= w < pre.len() && pre[w] == j as usize;
                                    assert(stack@[w] == j as usize);
                                } else {
                                    assert(stack@[stack@.len() - 1] == u);
                                }
                            }
                            assert(stack@.subrange(0, stack_before.len() as int) =~= stack_before);
                        }
                    }
                },
                None => {},
            }
            k = k + 1;
        }
        proof {
            assert forall|a: int, u: int|
                0 <= a < total && 0 <= u < total && marks@[a] && #[trigger] adj(n as int, a, u)
                    && cells[u] == c && !marks@[u] implies stack@.contains(a as usize) by {
                if a == t {
                    lemma_adj_is_nb(n as int, total as int, t as int, u);
                } else if marks_before[a] {
                    assert(full.contains(a as usize));
                    let w = choose|w: int| 0 <= w < full.len() && full[w] == a as usize;
                    assert(w != full.len() - 1);
                    assert(stack_before[w] == a as usize);
                    assert(stack@[w] == a as usize);
                } else {
                }
            }
            lemma_count_marked_bound(marks@);
        }
    }
    proof {
        assert(closed(cells, n as int, c, marks@));
        assert forall|t: int| 0 <= t < total implies marks@[t] == connected(cells, n as int, seed as int, t) by {
            if connected(cells, n as int, seed as int, t) {
                lemma_closed_holds_region(cells, n as int, marks@, seed as int, t);
            }
        }
        assert(marks@ =~= region(cells, n as int, seed as int));
    }
    marks
}

/// Whether some marked cell has a neighbour holding `s`.
pub fn borders(g: &IGoban, marks: &Vec<bool>, s: Stone) -> (r: bool)
    requires
        g.wf(),
        marks@.len() == g.cells@.len(),
    ensures
        r == touches(g.cells@, g.size as int, marks@, s),
{
    let n = g.size;
    let total = g.cells.len();
    let mut t: usize = 0;
    while t < total
        invariant
            g.wf(),
            n == g.size,
            total == g.cells@.len(),
            marks@.len() == total,
            t <= total,
            forall|a: int, u: int|
                0 <= a < t && 0 <= u < total && marks@[a] && #[trigger] adj(n as int, a, u)
                    ==> g.cells@[u] != s,
        decreases total - t,
    {
        if marks[t] {
            let mut k: usize = 0;
            while k < 4
                invariant
                    g.wf(),
                    n == g.size,
                    total == g.cells@.len(),
                    t < total,
                    k <= 4,
                    marks@.len() == total,
                    marks@[t as int],
                    forall|d: int| 0 <= d < k && #[trigger] has_nb(n as int, total as int, t as int, d)
                        ==> g.cells@[nb(n as int, t as int, d)] != s,
                decreases 4 - k,
            {
                match neighbor(n, total, t, k) {
                    Some(u) => {
                        proof {
                            lemma_nb_adj(n as int, total as int, t as int, k as int);
                        }
                        if g.cells[u] == s {
                            proof {
                                assert(marks@[t as int] && adj(n as int, t as int, u as int));
                            }
                            return true;
                        }
                    },
                    None => {},
                }
                k = k + 1;
            }
            proof {
                assert forall|u: int| 0 <= u < total && #[trigger] adj(n as int, t as int, u) implies g.cells@[u] != s by {
                    lemma_adj_is_nb(n as int, total as int, t as int, u);
                }
            }
        }
        t = t + 1;
    }
    false
}

/// Whether the group (or empty area) of `seed` has a liberty.
pub fn has_liberty(g: &IGoban, seed: usize) -> (r: bool)
    requires
        g.wf(),
        seed < g.cells@.len(),
    ensures
        r == has_liberty_spec(g.cells@, g.size as int, seed as int),
{
    let marks = flood(g, seed);
    borders(g, &marks, Stone::Empty)
}

/// Empties every marked cell and returns how many cells were marked.
pub fn remove_marked(g: &mut IGoban, marks: &Vec<bool>) -> (removed: usize)
    requires
        old(g).wf(),
        marks@.len() == old(g).cells@.len(),
    ensures
        final(g).wf(),
        final(g).size == old(g).size,
        final(g).cells@ == without(old(g).cells@, marks@),
        removed == count_marked(marks@),
{
    let total = g.cells.len();
    let ghost before = g.cells@;
    let mut removed: usize = 0;
    let mut i: usize = 0;
    while i < total
        invariant
            g.wf(),
            g.size == old(g).size,
            before == old(g).cells@,
            total == before.len(),
            marks@.len() == total,
            i <= total,
            g.cells@.len() == total,
            forall|k: int| 0 <= k < i ==> g.cells@[k] == (if marks@[k] { Stone::Empty } else { before[k] }),
            forall|k: int| i <= k < total ==> g.cells@[k] == before[k],
            removed == count_marked(marks@.subrange(0, i as int)),
            removed <= i,
        decreases total - i,
    {
        proof {
            assert(marks@.subrange(0, i + 1).drop_last() =~= marks@.subrange(0, i as int));
        }
        if marks[i] {
            g.cells.set(i, Stone::Empty);
            removed = removed + 1;
        }
        i = i + 1;
    }
    proof {
        assert(marks@.subrange(0, total as int) =~= marks@);
        assert(g.cells@ =~= without(before, marks@));
    }
    removed
}

/// The liberties of the region of `s`: empty cells next to one of its cells.
pub open spec fn liberty_marks(cells: Seq<Stone>, n: int, s: int) -> Seq<bool> {
    Seq::new(
        cells.len(),
        |u: int|
            cells[u] == Stone::Empty && exists|t: int|
                0 <= t < cells.len() && region(cells, n, s)[t] && #[trigger] adj(n, t, u),
    )
}

/// Number of distinct liberties of the group of `seed`.
pub fn liberties(g: &IGoban, seed: usize) -> (r: usize)
    requires
        g.wf(),
        seed < g.cells@.len(),
    ensures
        r == count_marked(liberty_marks(g.cells@, g.size as int, seed as int)),
{
    let n = g.size;
    let total = g.cells.len();
    let marks = flood(g, seed);
    let ghost libs = liberty_marks(g.cells@, n as int, seed as int);
    let mut count: usize = 0;
    let mut u: usize = 0;
    while u < total
        invariant
            g.wf(),
            n == g.size,
            total == g.cells@.len(),
            seed < total,
            marks@ == region(g.cells@, n as int, seed as int),
            libs == liberty_marks(g.cells@, n as int, seed as int),
            u <= total,
            count == count_marked(libs.subrange(0, u as int)),
            count <= u,
        decreases total - u,
    {
        proof {
            assert(libs.subrange(0, u + 1).drop_last() =~= libs.subrange(0, u as int));
        }
        if g.cells[u] == Stone::Empty {
            let mut found = false;
            let mut k: usize = 0;
            while k < 4
                invariant
                    g.wf(),
                    n == g.size,
                    total == g.cells@.len(),
                    u < total,
                    k <= 4,
                    marks@ == region(g.cells@, n as int, seed as int),
                    found ==> exists|t: int|
                        0 <= t < total && marks@[t] && #[trigger] adj(n as int, t, u as int),
                    !found ==> forall|d: int| 0 <= d < k && #[trigger] has_nb(n as int, total as int, u as int, d)
                        ==> !marks@[nb(n as int, u as int, d)],
                decreases 4 - k,
            {
                match neighbor(n, total, u, k) {
                    Some(t) => {
                        proof {
                            lemma_nb_adj(n as int, total as int, u as int, k as int);
                        }
                        if marks[t] {
                            found = true;
                            proof {
                                assert(adj(n as int, t as int, u as int));
                            }
                        }
                    },
                    None => {},
                }
                k = k + 1;
            }
            proof {
                if !found {
                    assert forall|t: int| 0 <= t < total && marks@[t] implies !#[trigger] adj(n as int, t, u as int) by {
                        if adj(n as int, t, u as int) {
                            lemma_adj_is_nb(n as int, total as int, u as int, t);
                        }
                    }
                }
                assert(libs[u as int] == found);
            }
            if found {
                count = count + 1;
            }
        }
        u = u + 1;
    }
    proof {
        assert(libs.subrange(0, total as int) =~= libs);
    }
    count
}

} // verus!
