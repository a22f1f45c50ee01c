use std::collections::HashSet;
use vstd::prelude::*;

verus! {

/// The number of rows, and of columns, of the board.
pub const SIZE: usize = 9;

#[verifier::external_type_specification]
#[verifier::external_body]
pub struct ExThreadRng(rand::rngs::ThreadRng);

/// Relies on `rand::thread_rng`: it hands out a handle to the thread's
/// generator (seeding it from the operating system on first use, and
/// panicking only where the system offers no randomness); no property of the
/// handle is assumed.
#[verifier::external_body]
fn thread_rng_handle() -> (r: rand::rngs::ThreadRng) {
    rand::thread_rng()
}

/// The character shown for a cell value: `'1'` to `'9'` for a digit, none for
/// anything else (`0` is the empty cell).
pub open spec fn digit_char(v: u8) -> Option<char> {
    if v == 1 {
        Some('1')
    } else if v == 2 {
        Some('2')
    } else if v == 3 {
        Some('3')
    } else if v == 4 {
        Some('4')
    } else if v == 5 {
        Some('5')
    } else if v == 6 {
        Some('6')
    } else if v == 7 {
        Some('7')
    } else if v == 8 {
        Some('8')
    } else if v == 9 {
        Some('9')
    } else {
        None
    }
}

/// `after` is `before` with the cell in column `col` of row `row` set to `v`,
/// every other cell kept.
pub open spec fn cells_written(
    before: [[u8; SIZE]; SIZE],
    after: [[u8; SIZE]; SIZE],
    col: int,
    row: int,
    v: u8,
) -> bool {
    &&& after[row][col] == v
    &&& forall|j: int, i: int|
        0 <= j < 9 && 0 <= i < 9 && (j != row || i != col) ==> #[trigger] after[j][i]
            == before[j][i]
}

/// A 9×9 grid of rows, each a sequence of 9 cell values.
pub open spec fn is_grid(g: Seq<Seq<u8>>) -> bool {
    &&& g.len() == 9
    &&& forall|j: int| 0 <= j < 9 ==> #[trigger] g[j].len() == 9
}

/// Every cell holds `0` (empty) or a digit `1..=9`.
pub open spec fn cells_in_range(g: Seq<Seq<u8>>) -> bool {
    forall|j: int, i: int| 0 <= j < 9 && 0 <= i < 9 ==> #[trigger] g[j][i] <= 9
}

/// The grid with the cell in column `col` of row `row` replaced by `v`.
pub open spec fn grid_with(g: Seq<Seq<u8>>, col: int, row: int, v: u8) -> Seq<Seq<u8>> {
    g.update(row, g[row].update(col, v))
}

/// The values in row `row` at the columns below `n`, leaving out column `col`.
pub open spec fn row_values_below(g: Seq<Seq<u8>>, row: int, col: int, n: int) -> Set<u8> {
    Set::new(|v: u8| exists|i: int| 0 <= i < n && i != col && #[trigger] g[row][i] == v)
}

/// The values of row `row`, all columns but `col`.
pub open spec fn row_peers(g: Seq<Seq<u8>>, row: int, col: int) -> Set<u8> {
    row_values_below(g, row, col, 9)
}

/// The values in column `col` at the rows below `n`, leaving out row `row`.
pub open spec fn column_values_below(g: Seq<Seq<u8>>, col: int, row: int, n: int) -> Set<u8> {
    Set::new(|v: u8| exists|j: int| 0 <= j < n && j != row && #[trigger] g[j][col] == v)
}

/// The values of column `col`, all rows but `row`.
pub open spec fn column_peers(g: Seq<Seq<u8>>, col: int, row: int) -> Set<u8> {
    column_values_below(g, col, row, 9)
}

/// The values of the 3×3 block whose top-left cell is at column `c0`, row
/// `r0`, taken over its full rows above `j` and the cells of row `j` left of
/// column `i`.
pub open spec fn block_values_before(g: Seq<Seq<u8>>, c0: int, r0: int, j: int, i: int) -> Set<u8> {
    Set::new(
        |v: u8|
            exists|jj: int, ii: int|
                #![trigger g[jj][ii]]
                ((r0 <= jj < j && c0 <= ii < c0 + 3) || (jj == j && c0 <= ii < i)) && g[jj][ii]
                    == v,
    )
}

/// The values of the 3×3 box that holds the cell at column `col`, row `row`:
/// the box at `(col / 3, row / 3)`, the cell itself included.
pub open spec fn box_peers(g: Seq<Seq<u8>>, col: int, row: int) -> Set<u8> {
    Set::new(
        |v: u8|
            exists|jj: int, ii: int|
                #![trigger g[jj][ii]]
                (row / 3) * 3 <= jj < (row / 3) * 3 + 3 && (col / 3) * 3 <= ii < (col / 3) * 3 + 3
                    && g[jj][ii] == v,
    )
}

/// Writing `value` into a cell and reading that cell back gives the
/// character form of `value`: the decimal digit for `1..=9`, none for `0`.
pub proof fn lemma_set_then_char(g: Seq<Seq<u8>>, col: int, row: int, value: u8)
    requires
        is_grid(g),
        0 <= col < 9,
        0 <= row < 9,
        value <= 9,
    ensures
        value == 0 ==> digit_char(grid_with(g, col, row, value)[row][col]) is None,
        1 <= value <= 9 ==> digit_char(grid_with(g, col, row, value)[row][col]) == Some(
            ((48 + value) as u8) as char,
        ),
{
    assert(grid_with(g, col, row, value)[row][col] == value);
}

/// A row's peer set reads that row alone, and never the excluded cell:
/// writing any value into a cell of another row, or into the excluded cell,
/// leaves it as it was. The same holds of a column's peer set.
pub proof fn lemma_peers_ignore_outside_cells(
    g: Seq<Seq<u8>>,
    col: int,
    row: int,
    c2: int,
    r2: int,
    v: u8,
)
    requires
        is_grid(g),
        0 <= col < 9,
        0 <= row < 9,
        0 <= c2 < 9,
        0 <= r2 < 9,
    ensures
        (r2 != row || c2 == col) ==> row_peers(grid_with(g, c2, r2, v), row, col) == row_peers(
            g,
            row,
            col,
        ),
        (c2 != col || r2 == row) ==> column_peers(grid_with(g, c2, r2, v), col, row)
            == column_peers(g, col, row),
{
    let h = grid_with(g, c2, r2, v);
    if r2 != row || c2 == col {
        assert forall|i: int| 0 <= i < 9 && i != col implies #[trigger] h[row][i] == g[row][i] by {
            if r2 == row {
                assert(h[row] == g[row].update(c2, v));
            }
        }
        assert forall|w: u8| #[trigger] row_peers(h, row, col).contains(w) <==> row_peers(
            g,
            row,
            col,
        ).contains(w) by {
            if row_peers(h, row, col).contains(w) {
                let i = choose|i: int| 0 <= i < 9 && i != col && #[trigger] h[row][i] == w;
                assert(g[row][i] == w);
            }
            if row_peers(g, row, col).contains(w) {
                let i = choose|i: int| 0 <= i < 9 && i != col && #[trigger] g[row][i] == w;
                assert(h[row][i] == w);
            }
        }
        assert(row_peers(h, row, col) =~= row_peers(g, row, col));
    }
    if c2 != col || r2 == row {
        assert forall|j: int| 0 <= j < 9 && j != row implies #[trigger] h[j][col] == g[j][col] by {
            if r2 == j {
                assert(h[j] == g[j].update(c2, v));
            }
        }
        assert forall|w: u8| #[trigger] column_peers(h, col, row).contains(w) <==> column_peers(
            g,
            col,
            row,
        ).contains(w) by {
            if column_peers(h, col, row).contains(w) {
                let j = choose|j: int| 0 <= j < 9 && j != row && #[trigger] h[j][col] == w;
                assert(g[j][col] == w);
            }
            if column_peers(g, col, row).contains(w) {
                let j = choose|j: int| 0 <= j < 9 && j != row && #[trigger] g[j][col] == w;
                assert(h[j][col] == w);
            }
        }
        assert(column_peers(h, col, row) =~= column_peers(g, col, row));
    }
}

/// The digits `1..=9`.
pub open spec fn digits() -> Set<u8> {
    Set::new(|v: u8| 1 <= v <= 9)
}

/// `s` holds each digit `1..=9` once, in some order.
pub open spec fn is_digit_permutation(s: Seq<u8>) -> bool {
    &&& s.len() == 9
    &&& s.no_duplicates()
    &&& s.to_set() == digits()
}

/// How far each row's index order is rotated against the seed. Row by row
/// the orders are:
///
/// ```text
/// row 0: 0 1 2 3 4 5 6 7 8
/// row 1: 3 4 5 6 7 8 0 1 2
/// row 2: 6 7 8 0 1 2 3 4 5
/// row 3: 7 8 0 1 2 3 4 5 6
/// row 4: 1 2 3 4 5 6 7 8 0
/// row 5: 4 5 6 7 8 0 1 2 3
/// row 6: 5 6 7 8 0 1 2 3 4
/// row 7: 8 0 1 2 3 4 5 6 7
/// row 8: 2 3 4 5 6 7 8 0 1
/// ```
pub open spec fn row_shift(j: int) -> int {
    if j == 0 {
        0
    } else if j == 1 {
        3
    } else if j == 2 {
        6
    } else if j == 3 {
        7
    } else if j == 4 {
        1
    } else if j == 5 {
        4
    } else if j == 6 {
        5
    } else if j == 7 {
        8
    } else {
        2
    }
}

/// The index into the seed that fills column `i` of row `j`.
pub open spec fn seed_index(j: int, i: int) -> int {
    (i + row_shift(j)) % 9
}

/// The grid that the fill derives from a seed sequence: cell `(row j, col i)`
/// is `seed[seed_index(j, i)]`.
pub open spec fn derived_grid(seed: Seq<u8>) -> Seq<Seq<u8>> {
    Seq::new(9, |j: int| Seq::new(9, |i: int| seed[seed_index(j, i)]))
}

/// Every row of a grid derived from a permutation of the digits holds each
/// digit `1..=9`: as a set, each row is exactly the digits.
pub proof fn lemma_derived_rows_are_digits(seed: Seq<u8>)
    requires
        is_digit_permutation(seed),
    ensures
        is_grid(derived_grid(seed)),
        cells_in_range(derived_grid(seed)),
        forall|j: int| 0 <= j < 9 ==> (#[trigger] derived_grid(seed)[j]).to_set() == digits(),
{
    let g = derived_grid(seed);
    assert forall|k: int| 0 <= k < 9 implies 1 <= #[trigger] seed[k] <= 9 by {
        assert(seed.to_set().contains(seed[k]));
    }
    assert forall|j: int| 0 <= j < 9 implies (#[trigger] g[j]).to_set() == digits() by {
        assert forall|v: u8| #[trigger] g[j].to_set().contains(v) <==> digits().contains(v) by {
            if digits().contains(v) {
                assert(seed.to_set().contains(v));
                let k = choose|k: int| 0 <= k < 9 && seed[k] == v;
                let i = (k - row_shift(j) + 9) % 9;
                assert(seed_index(j, i) == k);
                assert(g[j][i] == v);
            }
            if g[j].to_set().contains(v) {
                let i = choose|i: int| 0 <= i < 9 && g[j][i] == v;
                assert(0 <= seed_index(j, i) < 9);
            }
        }
        assert(g[j].to_set() =~= digits());
    }
}

/// The digits `1..=9` in increasing order: the candidates of the first draw.
pub open spec fn digit_seq() -> Seq<u8> {
    seq![1u8, 2u8, 3u8, 4u8, 5u8, 6u8, 7u8, 8u8, 9u8]
}

/// Picks from `candidates` by `draws`: each draw takes the candidate at its
/// index and removes it, and the next draw picks from those left.
pub open spec fn pick(candidates: Seq<u8>, draws: Seq<usize>) -> Seq<u8>
    decreases draws.len(),
{
    if draws.len() == 0 || draws[0] >= candidates.len() {
        Seq::empty()
    } else {
        seq![candidates[draws[0] as int]] + pick(
            candidates.remove(draws[0] as int),
            draws.drop_first(),
        )
    }
}

/// Nine draws, the `k`-th an index among the `9 - k` digits still left.
pub open spec fn valid_draws(draws: Seq<usize>) -> bool {
    &&& draws.len() == 9
    &&& forall|k: int| 0 <= k < 9 ==> #[trigger] draws[k] < 9 - k
}

/// The seed that the draws pick from the digits.
pub open spec fn seed_of_draws(draws: Seq<usize>) -> Seq<u8> {
    pick(digit_seq(), draws)
}

/// The digits in increasing order.
fn fullset() -> (r: Vec<u8>)
    ensures
        r@ == digit_seq(),
{
    let mut fullset: Vec<u8> = Vec::new();
    let mut d: u8 = 1;
    while d <= 9
        invariant
            1 <= d <= 10,
            fullset@.len() == d - 1,
            forall|k: int| 0 <= k < d - 1 ==> #[trigger] fullset@[k] == k + 1,
        decreases 10 - d,
    {
        fullset.push(d);
        d += 1;
    }
    assert(fullset@ =~= digit_seq());
    fullset
}

/// The rotation of row `j`'s index order (see [`row_shift`]).
fn row_shift_of(j: usize) -> (r: usize)
    requires
        j < 9,
    ensures
        r == row_shift(j as int),
{
    match j {
        0 => 0,
        1 => 3,
        2 => 6,
        3 => 7,
        4 => 1,
        5 => 4,
        6 => 5,
        7 => 8,
        _ => 2,
    }
}

/// Relies on `rand::Rng::gen_range` (rand 0.7): a value in `[low, high)`
/// drawn from the thread's generator; it panics when `low >= high`, which
/// `requires` rules out.
#[verifier::external_body]
fn gen_index(rng: &mut rand::rngs::ThreadRng, n: usize) -> (r: usize)
    requires
        0 < n,
    ensures
        r < n,
{
    rand::Rng::gen_range(rng, 0, n)
}

/// Draws the seed from the digits `1..=9` in increasing order: draw `k` picks
/// the digit at index `draws[k]` among those not yet picked, and removes it.
pub fn seed_from_draws(draws: &[usize; 9]) -> (seed: Vec<u8>)
    requires
        valid_draws(draws@),
    ensures
        seed@ == seed_of_draws(draws@),
        is_digit_permutation(seed@),
{
        let mut seed: Vec<u8> = Vec::new();
        let mut possibilities = fullset();
        proof {
            assert(seed@ + pick(possibilities@, draws@.subrange(0, 9)) =~= seed_of_draws(draws@)) by {
                assert(draws@.subrange(0, 9) =~= draws@);
            }
        }
        let mut k: usize = 0;
        while k < 9
            invariant
                k <= 9,
                seed@.len() == k,
                possibilities@.len() == 9 - k,
                seed@.no_duplicates(),
                possibilities@.no_duplicates(),
                forall|v: u8| #![trigger seed@.contains(v)] #![trigger possibilities@.contains(v)]
                    1 <= v <= 9 <==> (seed@.contains(v) || possibilities@.contains(v)),
                forall|v: u8| #![trigger seed@.contains(v), possibilities@.contains(v)]
                    !(seed@.contains(v) && possibilities@.contains(v)),
                seed@ + pick(possibilities@, draws@.subrange(k as int, 9)) == seed_of_draws(draws@),
                valid_draws(draws@),
            decreases 9 - k,
        {
            let index = draws[k];
            proof {
                assert(draws@.subrange(k as int, 9).drop_first() =~= draws@.subrange(k + 1, 9));
            }
            let ghost before = possibilities@;
            let ghost seed_before = seed@;
            let d = possibilities.remove(index);
            seed.push(d);
            proof {
                assert(seed@ + pick(possibilities@, draws@.subrange(k + 1, 9)) =~= seed_before + pick(
                    before,
                    draws@.subrange(k as int, 9),
                ));
                assert(before.contains(d));
                assert forall|v: u8| #[trigger] before.contains(v) && v != d implies possibilities@.contains(v) by {
                    let m = choose|m: int| 0 <= m < before.len() && before[m] == v;
                    if m < index {
                        assert(possibilities@[m] == v);
                    } else {
                        assert(m != index);
                        assert(possibilities@[m - 1] == v);
                    }
                }
                assert forall|v: u8| #[trigger] possibilities@.contains(v) implies before.contains(v) && v != d by {
                    let m = choose|m: int| 0 <= m < possibilities@.len() && possibilities@[m] == v;
                    if m < index {
                        assert(before[m] == v);
                        assert(m != index as int);
                    } else {
                        assert(before[m + 1] == v);
                        assert(m + 1 != index as int);
                    }
                }
                assert forall|v: u8| #[trigger] seed@.contains(v) <==> (seed_before.contains(v) || v == d) by {
                    if seed@.contains(v) {
                        let m = choose|m: int| 0 <= m < seed@.len() && seed@[m] == v;
                        if m < k {
                            assert(seed_before[m] == v);
                        }
                    }
                    if seed_before.contains(v) {
                        let m = choose|m: int| 0 <= m < seed_before.len() && seed_before[m] == v;
                        assert(seed@[m] == v);
                    }
                    assert(seed@[k as int] == d);
                }
                assert forall|a: int, b: int| 0 <= a < b < possibilities@.len() implies possibilities@[a]
                    != possibilities@[b] by {
                    let a2 = if a < index { a } else { a + 1 };
                    let b2 = if b < index { b } else { b + 1 };
                    assert(possibilities@[a] == before[a2]);
                    assert(possibilities@[b] == before[b2]);
                }
                assert forall|a: int, b: int| 0 <= a < b < seed@.len() implies seed@[a] != seed@[b] by {
                    if b == k {
                        assert(seed_before.contains(seed@[a]));
                    } else {
                        assert(seed@[a] == seed_before[a]);
                        assert(seed@[b] == seed_before[b]);
                    }
                }
            }
            k += 1;
        }
        proof {
            assert forall|v: u8| #[trigger] seed@.to_set().contains(v) <==> digits().contains(v) by {
                if digits().contains(v) {
                    assert(!possibilities@.contains(v));
                    assert(seed@.contains(v));
                }
                if seed@.to_set().contains(v) {
                    assert(seed@.contains(v));
                }
            }
            assert(seed@.to_set() =~= digits());
            assert(draws@.subrange(9, 9) =~= Seq::<usize>::empty());
            assert(seed@ =~= seed@ + pick(possibilities@, draws@.subrange(9, 9)));
        }
        seed
}

pub struct Gameboard {
    /// The cells, indexed `cells[row][col]`; `0` is empty.
    pub cells: [[u8; SIZE]; SIZE],
    /// The random source that `populate` draws from.
    pub rng: rand::rngs::ThreadRng,
}

impl View for Gameboard {
    type V = Seq<Seq<u8>>;

    /// The rows of the board, top to bottom: row `j` is `cells[j]`, and its
    /// entry `i` is the cell in column `i`.
    open spec fn view(&self) -> Seq<Seq<u8>> {
        Seq::new(9, |j: int| Seq::new(9, |i: int| self.cells[j][i]))
    }
}

impl Gameboard {
    /// The board's invariant: it is a 9×9 grid, and every cell is empty or
    /// holds a digit.
    pub open spec fn wf(&self) -> bool {
        is_grid(self@) && cells_in_range(self@)
    }

    /// Every board is a 9×9 grid, and its view reads the `cells` array.
    pub proof fn lemma_view_is_grid(&self)
        ensures
            is_grid(self@),
            forall|j: int, i: int|
                0 <= j < 9 && 0 <= i < 9 ==> #[trigger] self@[j][i] == self.cells[j][i],
    {
    }

    /// An empty board.
    pub fn new() -> (r: Gameboard)
        ensures
            is_grid(r@),
            forall|j: int, i: int| 0 <= j < 9 && 0 <= i < 9 ==> #[trigger] r@[j][i] == 0,
            r.wf(),
    {
        Gameboard { cells: [[0u8; SIZE]; SIZE], rng: thread_rng_handle() }
    }

    /// The character at cell `[col, row]`, or none where the cell is empty.
    pub fn char(&self, ind: [usize; 2]) -> (r: Option<char>)
        requires
            ind[0] < 9,
            ind[1] < 9,
        ensures
            r == digit_char(self@[ind[1] as int][ind[0] as int]),
    {
        let v = self.cells[ind[1]][ind[0]];
        match v {
            1 => Some('1'),
            2 => Some('2'),
            3 => Some('3'),
            4 => Some('4'),
            5 => Some('5'),
            6 => Some('6'),
            7 => Some('7'),
            8 => Some('8'),
            9 => Some('9'),
            _ => None,
        }
    }

    /// Overwrites cell `[col, row]` with `val`.
    pub fn set(&mut self, ind: [usize; 2], val: u8)
        requires
            ind[0] < 9,
            ind[1] < 9,
            val <= 9,
        ensures
            final(self)@ == grid_with(old(self)@, ind[0] as int, ind[1] as int, val),
            is_grid(final(self)@),
            final(self)@[ind[1] as int][ind[0] as int] == val,
            forall|j: int, i: int|
                0 <= j < 9 && 0 <= i < 9 && (j != ind[1] || i != ind[0]) ==> final(self)@[j][i]
                    == old(self)@[j][i],
            cells_written(old(self).cells, final(self).cells, ind[0] as int, ind[1] as int, val),
            final(self).rng == old(self).rng,
            old(self).wf() ==> final(self).wf(),
    {
        let mut row = self.cells[ind[1]];
        row[ind[0]] = val;
        self.cells[ind[1]] = row;
        let ghost g = grid_with(old(self)@, ind[0] as int, ind[1] as int, val);
        assert forall|j: int| 0 <= j < 9 implies #[trigger] self@[j] =~= g[j] by {
            if j != ind[1] {
                assert(self.cells[j] == old(self).cells[j]);
            }
        }
        assert(self@ =~= g);
    }
    /// The values in row `y`, every column but `x`.
    pub fn leftright(&self, x: usize, y: usize) -> (r: HashSet<u8>)
        requires
            x < 9,
            y < 9,
        ensures
            r@ == row_peers(self@, y as int, x as int),
    {
        broadcast use vstd::std_specs::hash::group_hash_axioms;

        let ghost g = self@;
        let mut leftright: HashSet<u8> = HashSet::new();
        proof {
            assert(leftright@ =~= row_values_below(g, y as int, x as int, 0));
        }
        let mut i: usize = 0;
        while i < x
            invariant
                i <= x < 9,
                y < 9,
                g == self@,
                leftright@ == row_values_below(g, y as int, x as int, i as int),
            decreases x - i,
        {
            let v = self.cells[y][i];
            leftright.insert(v);
            proof {
                assert(g[y as int][i as int] == v);
                assert(leftright@ =~= row_values_below(g, y as int, x as int, i + 1));
            }
            i += 1;
        }
        proof {
            assert(row_values_below(g, y as int, x as int, x as int) =~= row_values_below(
                g,
                y as int,
                x as int,
                x + 1,
            ));
        }
        let mut i: usize = x + 1;
        while i < 9
            invariant
                x < i <= 9,
                y < 9,
                g == self@,
                leftright@ == row_values_below(g, y as int, x as int, i as int),
            decreases 9 - i,
        {
            let v = self.cells[y][i];
            leftright.insert(v);
            proof {
                assert(g[y as int][i as int] == v);
                assert(leftright@ =~= row_values_below(g, y as int, x as int, i + 1));
            }
            i += 1;
        }
        leftright
    }

    /// The values in column `x`, every row but `y`.
    pub fn updown(&self, x: usize, y: usize) -> (r: HashSet<u8>)
        requires
            x < 9,
            y < 9,
        ensures
            r@ == column_peers(self@, x as int, y as int),
    {
        broadcast use vstd::std_specs::hash::group_hash_axioms;

        let ghost g = self@;
        let mut updown: HashSet<u8> = HashSet::new();
        proof {
            assert(updown@ =~= column_values_below(g, x as int, y as int, 0));
        }
        let mut j: usize = 0;
        while j < y
            invariant
                j <= y < 9,
                x < 9,
                g == self@,
                updown@ == column_values_below(g, x as int, y as int, j as int),
            decreases y - j,
        {
            let v = self.cells[j][x];
            updown.insert(v);
            proof {
                assert(g[j as int][x as int] == v);
                assert(updown@ =~= column_values_below(g, x as int, y as int, j + 1));
            }
            j += 1;
        }
        proof {
            assert(column_values_below(g, x as int, y as int, y as int) =~= column_values_below(
                g,
                x as int,
                y as int,
                y + 1,
            ));
        }
        let mut j: usize = y + 1;
        while j < 9
            invariant
                y < j <= 9,
                x < 9,
                g == self@,
                updown@ == column_values_below(g, x as int, y as int, j as int),
            decreases 9 - j,
        {
            let v = self.cells[j][x];
            updown.insert(v);
            proof {
                assert(g[j as int][x as int] == v);
                assert(updown@ =~= column_values_below(g, x as int, y as int, j + 1));
            }
            j += 1;
        }
        updown
    }

    /// The values of the 3×3 box that holds cell `[x, y]`, that cell included.
    pub fn inbox(&self, x: usize, y: usize) -> (r: HashSet<u8>)
        requires
            x < 9,
            y < 9,
        ensures
            r@ == box_peers(self@, x as int, y as int),
    {
        broadcast use vstd::std_specs::hash::group_hash_axioms;

        let ghost g = self@;
        let mut inbox: HashSet<u8> = HashSet::new();
        let grid_x: usize = x / 3;
        let grid_y: usize = y / 3;
        let ghost c0 = grid_x * 3;
        let ghost r0 = grid_y * 3;
        proof {
            assert(inbox@ =~= block_values_before(g, c0, r0, r0, c0));
        }
        let mut j: usize = grid_y * 3;
        while j < (grid_y + 1) * 3
            invariant
                grid_x < 3,
                grid_y < 3,
                c0 == grid_x * 3,
                r0 == grid_y * 3,
                r0 <= j <= r0 + 3,
                g == self@,
                inbox@ == block_values_before(g, c0, r0, j as int, c0),
            decreases r0 + 3 - j,
        {
            let mut i: usize = grid_x * 3;
            while i < (grid_x + 1) * 3
                invariant
                    grid_x < 3,
                    grid_y < 3,
                    c0 == grid_x * 3,
                    r0 == grid_y * 3,
                    r0 <= j < r0 + 3,
                    c0 <= i <= c0 + 3,
                    g == self@,
                    inbox@ == block_values_before(g, c0, r0, j as int, i as int),
                decreases c0 + 3 - i,
            {
                let v = self.cells[j][i];
                inbox.insert(v);
                proof {
                    assert(g[j as int][i as int] == v);
                    assert(inbox@ =~= block_values_before(g, c0, r0, j as int, i + 1));
                }
                i += 1;
            }
            proof {
                assert(inbox@ =~= block_values_before(g, c0, r0, j + 1, c0));
            }
            j += 1;
        }
        proof {
            assert(inbox@ =~= box_peers(g, x as int, y as int));
        }
        inbox
    }
    /// Fills the whole board from the nine draws of a seed (see
    /// [`seed_from_draws`]): row `j` is the seed read in the order of
    /// [`row_shift`]. Nothing of the earlier cells is kept.
    pub fn fill_from_draws(&mut self, draws: &[usize; 9])
        requires
            valid_draws(draws@),
        ensures
            final(self)@ == derived_grid(seed_of_draws(draws@)),
            forall|j: int, i: int|
                0 <= j < 9 && 0 <= i < 9 ==> #[trigger] final(self).cells[j][i] == seed_of_draws(
                    draws@,
                )[seed_index(j, i)],
            final(self).wf(),
            forall|j: int| 0 <= j < 9 ==> (#[trigger] final(self)@[j]).to_set() == digits(),
            final(self).rng == old(self).rng,
    {
        let seed = seed_from_draws(draws);
        let ghost seed_view = seed@;
        let mut j: usize = 0;
        while j < 9
            invariant
                j <= 9,
                seed@ == seed_view,
                is_digit_permutation(seed_view),
                self.rng == old(self).rng,
                forall|jj: int| 0 <= jj < j ==> #[trigger] self@[jj] == derived_grid(seed_view)[jj],
            decreases 9 - j,
        {
            let shift = row_shift_of(j);
            let mut row: [u8; SIZE] = [0u8; SIZE];
            let mut i: usize = 0;
            while i < 9
                invariant
                    i <= 9,
                    j < 9,
                    shift == row_shift(j as int),
                    seed@ == seed_view,
                    seed_view.len() == 9,
                    forall|ii: int| 0 <= ii < i ==> #[trigger] row@[ii] == seed_view[seed_index(j as int, ii)],
                decreases 9 - i,
            {
                row[i] = seed[(i + shift) % 9];
                i += 1;
            }
            let ghost before = self@;
            self.cells[j] = row;
            proof {
                assert(self@[j as int] =~= derived_grid(seed_view)[j as int]);
                assert forall|jj: int| 0 <= jj < j implies #[trigger] self@[jj] == derived_grid(seed_view)[jj] by {
                    assert(self@[jj] == before[jj]);
                }
            }
            j += 1;
        }
        proof {
            lemma_derived_rows_are_digits(seed_view);
            assert(self@ =~= derived_grid(seed_view));
            assert forall|j: int, i: int| 0 <= j < 9 && 0 <= i < 9 implies #[trigger] self.cells[j][i]
                == seed_view[seed_index(j, i)] by {
                assert(self@[j][i] == derived_grid(seed_view)[j][i]);
            }
        }
    }


    /// Fills the whole board: nine draws from the random source, the `k`-th
    /// in `[0, 9 - k)`, pick a random permutation of the digits as the seed
    /// (see [`fill_from_draws`]).
    pub fn populate(&mut self)
        ensures
            exists|draws: Seq<usize>|
                valid_draws(draws) && final(self)@ == derived_grid(#[trigger] seed_of_draws(draws)),
            final(self).wf(),
            forall|j: int| 0 <= j < 9 ==> (#[trigger] final(self)@[j]).to_set() == digits(),
    {
        let mut draws: [usize; 9] = [0usize; 9];
        let mut k: usize = 0;
        while k < 9
            invariant
                k <= 9,
                forall|m: int| 0 <= m < k ==> #[trigger] draws@[m] < 9 - m,
            decreases 9 - k,
        {
            draws[k] = gen_index(&mut self.rng, 9 - k);
            k += 1;
        }
        self.fill_from_draws(&draws);
    }

    /// Whether the board is solved. No solved check is made: the answer is
    /// always `false`.
    pub fn solved(&self) -> (r: bool)
        ensures
            !r,
    {
        false
    }
}

} // verus!
