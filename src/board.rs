use vstd::prelude::*;

verus! {

/// Largest side length a board may have.
pub const MAX_SIZE: usize = 1024;

/// The content of one intersection.
#[derive(Clone, Copy, PartialEq, Eq, Structural, Debug)]
pub enum Stone {
    Empty,
    Black,
    White,
}

/// One side of the game.
#[derive(Clone, Copy, PartialEq, Eq, Structural, Debug)]
pub enum Player {
    Black,
    White,
}

/// Traversal order of a flattened stone array.
#[derive(Clone, Copy, PartialEq, Eq, Structural, Debug)]
pub enum Order {
    RowMajor,
    ColumnMajor,
}

/// Why a board could not be built from a flattened array.
#[derive(Clone, Copy, PartialEq, Eq, Structural, Debug)]
pub enum BoardError {
    /// The array does not hold `size * size` codes.
    WrongLength,
    /// A code is neither 0 (empty), 1 (black) nor 2 (white).
    BadCode,
    /// The side length is zero or larger than `MAX_SIZE`.
    BadSize,
}

pub open spec fn opponent(p: Player) -> Player {
    match p {
        Player::Black => Player::White,
        Player::White => Player::Black,
    }
}

pub open spec fn stone_of(p: Player) -> Stone {
    match p {
        Player::Black => Stone::Black,
        Player::White => Stone::White,
    }
}

/// The numeric code of a stone in a flattened array.
pub open spec fn code_of(s: Stone) -> u8 {
    match s {
        Stone::Empty => 0u8,
        Stone::Black => 1u8,
        Stone::White => 2u8,
    }
}

pub open spec fn stone_of_code(c: u8) -> Stone {
    if c == 1 {
        Stone::Black
    } else if c == 2 {
        Stone::White
    } else {
        Stone::Empty
    }
}

/// The flat row-major index of the intersection `(x, y)` (line `x`, column `y`).
pub open spec fn index_of(n: int, x: int, y: int) -> int {
    x * n + y
}

/// The character that shows a stone in the text form of a board.
pub open spec fn glyph(s: Stone) -> u8 {
    match s {
        Stone::Empty => 46u8,
        Stone::Black => 88u8,
        Stone::White => 79u8,
    }
}

/// A board of side `n` has `len` cells.
pub open spec fn side_of(n: int, len: int) -> bool {
    n * n == len
}

/// Where the cell `(x, y)` lies in a flattened array read in `order`.
pub open spec fn source_index(n: int, order: Order, x: int, y: int) -> int {
    match order {
        Order::RowMajor => index_of(n, x, y),
        Order::ColumnMajor => index_of(n, y, x),
    }
}

/// Number of cells of `cells` that hold `s`.
pub open spec fn count_stone(cells: Seq<Stone>, s: Stone) -> nat
    decreases cells.len(),
{
    if cells.len() == 0 {
        0
    } else {
        count_stone(cells.drop_last(), s) + if cells.last() == s {
            1nat
        } else {
            0nat
        }
    }
}

/// The presence view of one colour: cell `i` is `true` where the grid holds `s`.
pub open spec fn presence(cells: Seq<Stone>, s: Stone) -> Seq<bool> {
    Seq::new(cells.len(), |i: int| cells[i] == s)
}

/// A square grid of stones, stored row-major.
pub struct IGoban {
    pub size: usize,
    pub cells: Vec<Stone>,
}

impl IGoban {
    pub open spec fn wf(&self) -> bool {
        &&& 1 <= self.size <= MAX_SIZE
        &&& self.cells@.len() == self.size * self.size
    }

    /// The stone at `(x, y)`.
    pub open spec fn at(&self, x: int, y: int) -> Stone {
        self.cells@[index_of(self.size as int, x, y)]
    }

    /// An empty board of side `size`.
    pub fn empty(size: usize) -> (r: IGoban)
        requires
            1 <= size <= MAX_SIZE,
        ensures
            r.wf(),
            r.size == size,
            forall|i: int| 0 <= i < r.cells@.len() ==> r.cells@[i] == Stone::Empty,
    {
        proof {
            lemma_square_fits(size as int);
        }
        let total: usize = size * size;
        let mut cells: Vec<Stone> = Vec::new();
        let mut i: usize = 0;
        while i < total
            invariant
                i <= total,
                cells@.len() == i,
                forall|k: int| 0 <= k < i ==> cells@[k] == Stone::Empty,
            decreases total - i,
        {
            cells.push(Stone::Empty);
            i = i + 1;
        }
        IGoban { size, cells }
    }

    /// Builds a board of side `size` from a flattened array of codes
    /// (0 empty, 1 black, 2 white) read in the given order.
    pub fn from_array(size: usize, arr: &Vec<u8>, order: Order) -> (r: Result<IGoban, BoardError>)
        ensures
            size < 1 || size > MAX_SIZE <==> r == Err::<IGoban, BoardError>(BoardError::BadSize),
            1 <= size <= MAX_SIZE && arr@.len() != size * size <==> r == Err::<IGoban, BoardError>(
                BoardError::WrongLength,
            ),
            1 <= size <= MAX_SIZE && arr@.len() == size * size && (exists|i: int|
                0 <= i < arr@.len() && arr@[i] > 2) <==> r == Err::<IGoban, BoardError>(
                BoardError::BadCode,
            ),
            r is Ok ==> {
                let g = r->Ok_0;
                &&& g.wf()
                &&& g.size == size
                &&& forall|x: int, y: int|
                    0 <= x < size && 0 <= y < size ==> g.at(x, y) == stone_of_code(
                        #[trigger] arr@[source_index(size as int, order, x, y)],
                    )
            },
    {
        if size < 1 || size > MAX_SIZE {
            return Err(BoardError::BadSize);
        }
        proof {
            lemma_square_fits(size as int);
        }
        if arr.len() != size * size {
            return Err(BoardError::WrongLength);
        }
        let total: usize = size * size;
        let mut k: usize = 0;
        while k < total
            invariant
                1 <= size <= MAX_SIZE,
                k <= total,
                total == size * size,
                total == arr@.len(),
                forall|j: int| 0 <= j < k ==> arr@[j] <= 2,
            decreases total - k,
        {
            if arr[k] > 2 {
                return Err(BoardError::BadCode);
            }
            k = k + 1;
        }
        let mut cells: Vec<Stone> = Vec::new();
        let mut x: usize = 0;
        while x < size
            invariant
                1 <= size <= MAX_SIZE,
                x <= size,
                total == size * size,
                arr@.len() == total,
                cells@.len() == x * size,
                forall|a: int, b: int|
                    0 <= a < x && 0 <= b < size ==> cells@[index_of(size as int, a, b)]
                        == stone_of_code(
                        #[trigger] arr@[source_index(size as int, order, a, b)],
                    ),
            decreases size - x,
        {
            let mut y: usize = 0;
            while y < size
                invariant
                    1 <= size <= MAX_SIZE,
                    x < size,
                    y <= size,
                    total == size * size,
                    arr@.len() == total,
                    cells@.len() == x * size + y,
                    forall|a: int, b: int|
                        (0 <= a < x && 0 <= b < size) || (a == x && 0 <= b < y)
                            ==> cells@[index_of(size as int, a, b)] == stone_of_code(
                            #[trigger] arr@[source_index(size as int, order, a, b)],
                        ),
                decreases size - y,
            {
                let src: usize = match order {
                    Order::RowMajor => {
                        proof {
                            lemma_index_in_range(size as int, x as int, y as int);
                        }
                        x * size + y
                    },
                    Order::ColumnMajor => {
                        proof {
                            lemma_index_in_range(size as int, y as int, x as int);
                        }
                        y * size + x
                    },
                };
                let code = arr[src];
                let s = if code == 1 {
                    Stone::Black
                } else if code == 2 {
                    Stone::White
                } else {
                    Stone::Empty
                };
                proof {
                    lemma_index_in_range(size as int, x as int, y as int);
                    assert forall|a: int, b: int|
                        (0 <= a < x && 0 <= b < size) || (a == x && 0 <= b < y) implies
                            index_of(size as int, a, b) < x * size + y by {
                        lemma_index_before(size as int, a, b, x as int, y as int);
                    }
                }
                cells.push(s);
                y = y + 1;
            }
            proof {
                assert(x * size + size == (x + 1) * size) by (nonlinear_arith);
            }
            x = x + 1;
        }
        Ok(IGoban { size, cells })
    }

    /// Builds a square board from a row-major array of codes whose length is the
    /// square of the side.
    pub fn new(arr: &Vec<u8>) -> (r: Result<IGoban, BoardError>)
        ensures
            (forall|n: int| 1 <= n <= MAX_SIZE ==> !#[trigger] side_of(n, arr@.len() as int)) <==> r == Err::<IGoban, BoardError>(
                BoardError::WrongLength,
            ),
            r is Ok || r == Err::<IGoban, BoardError>(BoardError::WrongLength) || r == Err::<
                IGoban,
                BoardError,
            >(BoardError::BadCode),
            forall|n: int|
                1 <= n <= MAX_SIZE && #[trigger] side_of(n, arr@.len() as int) ==> {
                    &&& (exists|i: int| 0 <= i < arr@.len() && arr@[i] > 2) <==> r
                        == Err::<IGoban, BoardError>(BoardError::BadCode)
                    &&& r is Ok ==> {
                        let g = r->Ok_0;
                        &&& g.wf()
                        &&& g.size == n
                        &&& forall|x: int, y: int|
                            0 <= x < n && 0 <= y < n ==> g.at(x, y) == stone_of_code(
                                #[trigger] arr@[index_of(n, x, y)],
                            )
                    }
                },
    {
        let len = arr.len();
        let mut n: usize = 1;
        let mut sq: usize = 1;
        while n < MAX_SIZE && sq < len
            invariant
                1 <= n <= MAX_SIZE,
                sq == n * n,
                len == arr@.len(),
                forall|m: int| 1 <= m < n ==> #[trigger] (m * m) < len,
            decreases MAX_SIZE - n,
        {
            proof {
                assert((n + 1) * (n + 1) == n * n + 2 * n + 1) by (nonlinear_arith);
                lemma_square_fits(n as int + 1);
            }
            sq = sq + 2 * n + 1;
            n = n + 1;
        }
        proof {
            assert forall|m: int| 1 <= m <= MAX_SIZE && #[trigger] side_of(m, len as int) implies m == n || (n == MAX_SIZE && sq < len) by {
                if m < n {
                    assert(m * m < len);
                } else if m > n {
                    assert(n * n < m * m) by (nonlinear_arith)
                        requires
                            1 <= n < m,
                    ;
                    if sq >= len {
                    } else {
                        assert(n == MAX_SIZE);
                    }
                }
            }
        }
        if sq != len {
            return Err(BoardError::WrongLength);
        }
        proof {
            assert(side_of(n as int, len as int));
        }
        let r = IGoban::from_array(n, arr, Order::RowMajor);
        proof {
            assert(1 <= n <= MAX_SIZE);
            if let Err(e) = r {
                assert(e != BoardError::BadSize);
            }
            if r is Ok {
                let g = r->Ok_0;
                assert forall|x: int, y: int| 0 <= x < n && 0 <= y < n implies g.at(x, y) == stone_of_code(
                    #[trigger] arr@[index_of(n as int, x, y)],
                ) by {
                    assert(arr@[source_index(n as int, Order::RowMajor, x, y)] == arr@[index_of(n as int, x, y)]);
                }
            }
        }
        r
    }

    /// The grid as a flattened row-major array of codes.
    pub fn raw(&self) -> (r: Vec<u8>)
        requires
            self.wf(),
        ensures
            r@.len() == self.cells@.len(),
            forall|i: int| 0 <= i < r@.len() ==> r@[i] == code_of(#[trigger] self.cells@[i]),
    {
        let mut r: Vec<u8> = Vec::new();
        let mut i: usize = 0;
        while i < self.cells.len()
            invariant
                i <= self.cells@.len(),
                r@.len() == i,
                forall|k: int| 0 <= k < i ==> r@[k] == code_of(#[trigger] self.cells@[k]),
            decreases self.cells@.len() - i,
        {
            let c: u8 = match self.cells[i] {
                Stone::Empty => 0,
                Stone::Black => 1,
                Stone::White => 2,
            };
            r.push(c);
            i = i + 1;
        }
        r
    }

    /// The presence view of one colour, row-major.
    pub fn stones_of(&self, s: Stone) -> (r: Vec<bool>)
        ensures
            r@ == presence(self.cells@, s),
    {
        let mut r: Vec<bool> = Vec::new();
        let mut i: usize = 0;
        while i < self.cells.len()
            invariant
                i <= self.cells@.len(),
                r@ == presence(self.cells@, s).subrange(0, i as int),
            decreases self.cells@.len() - i,
        {
            r.push(self.cells[i] == s);
            i = i + 1;
            assert(r@ =~= presence(self.cells@, s).subrange(0, i as int));
        }
        assert(r@ =~= presence(self.cells@, s));
        r
    }

    /// The two presence views `(black, white)`, row-major.
    pub fn raw_split(&self) -> (r: (Vec<bool>, Vec<bool>))
        ensures
            r.0@ == presence(self.cells@, Stone::Black),
            r.1@ == presence(self.cells@, Stone::White),
    {
        (self.stones_of(Stone::Black), self.stones_of(Stone::White))
    }

    /// The stone at `(x, y)`.
    pub fn get(&self, x: usize, y: usize) -> (r: Stone)
        requires
            self.wf(),
            x < self.size,
            y < self.size,
        ensures
            r == self.at(x as int, y as int),
    {
        proof {
            lemma_index_in_range(self.size as int, x as int, y as int);
        }
        self.cells[x * self.size + y]
    }

    /// Puts `s` at `(x, y)` with no legality check.
    pub fn set(&mut self, x: usize, y: usize, s: Stone)
        requires
            old(self).wf(),
            x < old(self).size,
            y < old(self).size,
        ensures
            final(self).wf(),
            final(self).size == old(self).size,
            final(self).cells@ == old(self).cells@.update(
                index_of(old(self).size as int, x as int, y as int),
                s,
            ),
    {
        proof {
            lemma_index_in_range(self.size as int, x as int, y as int);
        }
        let i = x * self.size + y;
        self.cells.set(i, s);
    }

    /// Whether the board is well formed.
    pub fn is_valid(&self) -> (r: bool)
        ensures
            r == self.wf(),
    {
        if self.size < 1 || self.size > MAX_SIZE {
            return false;
        }
        proof {
            lemma_square_fits(self.size as int);
        }
        self.cells.len() == self.size * self.size
    }

    /// The board as text: one line per row, ending in a line feed, with `.` for an
    /// empty point, `X` for black and `O` for white.
    pub fn pretty_bytes(&self) -> (r: Vec<u8>)
        requires
            self.wf(),
        ensures
            r@.len() == self.size * (self.size + 1),
            forall|x: int, y: int|
                0 <= x < self.size && 0 <= y <= self.size ==> #[trigger] r@[x * (self.size + 1) + y]
                    == if y == self.size {
                    10u8
                } else {
                    glyph(self.at(x, y))
                },
    {
        let n = self.size;
        let mut r: Vec<u8> = Vec::new();
        let mut x: usize = 0;
        while x < n
            invariant
                self.wf(),
                n == self.size,
                x <= n,
                r@.len() == x * (n + 1),
                forall|a: int, b: int|
                    0 <= a < x && 0 <= b <= n ==> #[trigger] r@[a * (n + 1) + b] == if b == n {
                        10u8
                    } else {
                        glyph(self.at(a, b))
                    },
            decreases n - x,
        {
            let mut y: usize = 0;
            while y < n
                invariant
                    self.wf(),
                    n == self.size,
                    x < n,
                    y <= n,
                    r@.len() == x * (n + 1) + y,
                    forall|a: int, b: int|
                        0 <= a < x && 0 <= b <= n ==> #[trigger] r@[a * (n + 1) + b] == if b == n {
                            10u8
                        } else {
                            glyph(self.at(a, b))
                        },
                    forall|b: int| 0 <= b < y ==> #[trigger] r@[x * (n + 1) + b] == glyph(self.at(x as int, b)),
                decreases n - y,
            {
                let c: u8 = match self.get(x, y) {
                    Stone::Empty => 46,
                    Stone::Black => 88,
                    Stone::White => 79,
                };
                proof {
                    lemma_row_before(n as int, x as int, y as int);
                }
                let ghost pre = r@;
                r.push(c);
                proof {
                    assert forall|a: int, b: int| 0 <= a < x && 0 <= b <= n implies #[trigger] r@[a * (n + 1) + b] == if b == n {
                        10u8
                    } else {
                        glyph(self.at(a, b))
                    } by {
                        lemma_earlier_row(n as int, a, b, x as int);
                        assert(r@[a * (n + 1) + b] == pre[a * (n + 1) + b]);
                    }
                }
                y = y + 1;
            }
            proof {
                lemma_row_before(n as int, x as int, n as int);
            }
            r.push(10);
            proof {
                assert forall|a: int, b: int| 0 <= a < x + 1 && 0 <= b <= n implies #[trigger] r@[a * (n + 1) + b] == if b == n {
                    10u8
                } else {
                    glyph(self.at(a, b))
                } by {
                    if a == x {
                        assert(a * (n + 1) + b == x * (n + 1) + b);
                    } else {
                        lemma_earlier_row(n as int, a, b, x as int);
                    }
                }
                assert((x + 1) * (n + 1) == x * (n + 1) + n + 1) by (nonlinear_arith);
            }
            x = x + 1;
        }
        r
    }

    /// An independent copy of the board.
    pub fn copy(&self) -> (r: IGoban)
        ensures
            r.size == self.size,
            r.cells@ == self.cells@,
    {
        let mut cells: Vec<Stone> = Vec::new();
        let mut i: usize = 0;
        while i < self.cells.len()
            invariant
                i <= self.cells@.len(),
                cells@ == self.cells@.subrange(0, i as int),
            decreases self.cells@.len() - i,
        {
            cells.push(self.cells[i]);
            i = i + 1;
            assert(cells@ =~= self.cells@.subrange(0, i as int));
        }
        assert(cells@ =~= self.cells@);
        IGoban { size: self.size, cells }
    }

    /// Whether two boards hold the same stones.
    pub fn same_as(&self, other: &IGoban) -> (r: bool)
        ensures
            r == (self.cells@ == other.cells@),
    {
        if self.cells.len() != other.cells.len() {
            return false;
        }
        let mut i: usize = 0;
        while i < self.cells.len()
            invariant
                i <= self.cells@.len(),
                self.cells@.len() == other.cells@.len(),
                forall|k: int| 0 <= k < i ==> self.cells@[k] == other.cells@[k],
            decreases self.cells@.len() - i,
        {
            if self.cells[i] != other.cells[i] {
                return false;
            }
            i = i + 1;
        }
        assert(self.cells@ =~= other.cells@);
        true
    }
}

pub proof fn lemma_square_fits(n: int)
    requires
        1 <= n <= MAX_SIZE,
    ensures
        n * n <= MAX_SIZE * MAX_SIZE,
        n <= n * n,
{
    assert(n * n <= MAX_SIZE * MAX_SIZE) by (nonlinear_arith)
        requires
            1 <= n <= MAX_SIZE,
    ;
    assert(n <= n * n) by (nonlinear_arith)
        requires
            1 <= n,
    ;
}

pub proof fn lemma_index_in_range(n: int, x: int, y: int)
    requires
        1 <= n <= MAX_SIZE,
        0 <= x < n,
        0 <= y < n,
    ensures
        0 <= index_of(n, x, y) < n * n,
        n * n <= MAX_SIZE * MAX_SIZE,
{
    lemma_square_fits(n);
    assert(0 <= x * n + y < n * n) by (nonlinear_arith)
        requires
            0 <= x < n,
            0 <= y < n,
    ;
}

/// Cells before `(x, y)` in row-major order have smaller indices.
pub proof fn lemma_index_before(n: int, a: int, b: int, x: int, y: int)
    requires
        0 <= b < n,
        0 <= y,
        (0 <= a < x) || (a == x && b < y),
    ensures
        index_of(n, a, b) < index_of(n, x, y),
{
    if a < x {
        assert(a * n + b < x * n + y) by (nonlinear_arith)
            requires
                0 <= a < x,
                0 <= b < n,
                0 <= y,
        ;
    }
}

/// Every cell holds exactly one of the three states.
pub proof fn lemma_counts_cover(cells: Seq<Stone>)
    ensures
        count_stone(cells, Stone::Black) + count_stone(cells, Stone::White) + count_stone(
            cells,
            Stone::Empty,
        ) == cells.len(),
    decreases cells.len(),
{
    if cells.len() > 0 {
        lemma_counts_cover(cells.drop_last());
    }
}

/// On a well-formed board of side `n`, the black, white and empty cells number `n * n`.
pub proof fn law_counts_sum_to_area(g: IGoban)
    requires
        g.wf(),
    ensures
        count_stone(g.cells@, Stone::Black) + count_stone(g.cells@, Stone::White) + count_stone(
            g.cells@,
            Stone::Empty,
        ) == g.size * g.size,
{
    lemma_counts_cover(g.cells@);
}

/// The black and white presence views agree with the grid: a cell is marked in the
/// black view exactly when it holds a black stone, in the white view exactly when it
/// holds a white stone, and never in both.
pub proof fn law_presence_views_agree(g: IGoban)
    requires
        g.wf(),
    ensures
        presence(g.cells@, Stone::Black).len() == g.size * g.size,
        presence(g.cells@, Stone::White).len() == g.size * g.size,
        forall|x: int, y: int|
            0 <= x < g.size && 0 <= y < g.size ==> {
                let i = index_of(g.size as int, x, y);
                &&& presence(g.cells@, Stone::Black)[i] == ((#[trigger] g.at(x, y)) == Stone::Black)
                &&& presence(g.cells@, Stone::White)[i] == (g.at(x, y) == Stone::White)
                &&& !(presence(g.cells@, Stone::Black)[i] && presence(g.cells@, Stone::White)[i])
            },
{
    assert forall|x: int, y: int| 0 <= x < g.size && 0 <= y < g.size implies {
        let i = index_of(g.size as int, x, y);
        &&& presence(g.cells@, Stone::Black)[i] == ((#[trigger] g.at(x, y)) == Stone::Black)
        &&& presence(g.cells@, Stone::White)[i] == (g.at(x, y) == Stone::White)
        &&& !(presence(g.cells@, Stone::Black)[i] && presence(g.cells@, Stone::White)[i])
    } by {
        lemma_index_in_range(g.size as int, x, y);
    }
}

proof fn lemma_row_before(n: int, x: int, y: int)
    requires
        0 <= x,
        0 <= y <= n,
    ensures
        0 <= x * (n + 1) + y <= x * (n + 1) + n,
        x * (n + 1) >= 0,
{
    assert(x * (n + 1) >= 0) by (nonlinear_arith)
        requires
            0 <= x,
            0 <= n,
    ;
}

proof fn lemma_earlier_row(n: int, a: int, b: int, x: int)
    requires
        0 <= a < x,
        0 <= b <= n,
    ensures
        0 <= a * (n + 1) + b < x * (n + 1),
{
    assert(0 <= a * (n + 1) + b < x * (n + 1)) by (nonlinear_arith)
        requires
            0 <= a < x,
            0 <= b <= n,
    ;
}

} // verus!
