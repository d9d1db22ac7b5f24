//! Square matrices stored row by row, with the operations that only move
//! entries: element access, transposition and taking a submatrix.

use vstd::prelude::*;
use vstd::arithmetic::div_mod::lemma_fundamental_div_mod_converse;

verus! {

/// Whether every row of `g` has as many entries as `g` has rows.
pub open spec fn is_square<T>(g: Seq<Seq<T>>) -> bool {
    forall|i: int| 0 <= i < g.len() ==> #[trigger] g[i].len() == g.len()
}

/// The transpose of the square grid `g`.
pub open spec fn transposed<T>(g: Seq<Seq<T>>) -> Seq<Seq<T>> {
    Seq::new(g.len(), |i: int| Seq::new(g.len(), |j: int| g[j][i]))
}

/// The index into `g` of entry `i` of a grid that lacks entry `skip`.
pub open spec fn skip_index(i: int, skip: int) -> int {
    if i < skip {
        i
    } else {
        i + 1
    }
}

/// The square grid `g` without row `row` and column `col`.
pub open spec fn without_row_col<T>(g: Seq<Seq<T>>, row: int, col: int) -> Seq<Seq<T>> {
    Seq::new(
        (g.len() - 1) as nat,
        |i: int| Seq::new((g.len() - 1) as nat, |j: int| g[skip_index(i, row)][skip_index(j, col)]),
    )
}

/// `n` squared.
pub open spec fn square(n: nat) -> nat {
    n * n
}

/// Entry (`i`, `j`) of the `n` x `n` grid held row by row in `s`.
pub open spec fn flat_entry<T>(s: Seq<T>, n: int, i: int, j: int) -> T {
    s[i * n + j]
}

/// A square matrix.
#[derive(Clone, Debug, PartialEq)]
pub struct Matrix<T> {
    size: usize,
    elements: Vec<T>,
}

impl<T> View for Matrix<T> {
    type V = Seq<Seq<T>>;

    /// The rows of the matrix.
    closed spec fn view(&self) -> Seq<Seq<T>> {
        Seq::new(
            self.size as nat,
            |i: int| Seq::new(self.size as nat, |j: int| flat_entry(self.elements@, self.size as int, i, j)),
        )
    }
}

proof fn lemma_flat_position(i: int, j: int, n: int)
    requires
        0 <= i < n,
        0 <= j < n,
    ensures
        0 <= i * n + j < n * n,
        (i * n + j) / n == i,
        (i * n + j) % n == j,
{
    assert(0 <= i * n + j < n * n) by (nonlinear_arith)
        requires
            0 <= i < n,
            0 <= j < n,
    ;
    lemma_fundamental_div_mod_converse(i * n + j, n, i, j);
}

impl<T: Copy> Matrix<T> {
    /// The element buffer holds one entry per position.
    pub closed spec fn wf(&self) -> bool {
        self.elements@.len() == self.size * self.size
    }

    /// The matrix whose entries, row by row, are `elements`.
    pub fn new(elements: &[T]) -> (r: Matrix<T>)
        requires
            exists|n: nat| #[trigger] square(n) == elements@.len(),
        ensures
            r.wf(),
            is_square(r@),
            r@.len() * r@.len() == elements@.len(),
            forall|i: int, j: int|
                0 <= i < r@.len() && 0 <= j < r@.len() ==> #[trigger] r@[i][j]
                    == flat_entry(elements@, r@.len() as int, i, j),
    {
        let ghost k = choose|n: nat| #[trigger] square(n) == elements@.len();
        let len = elements.len();
        let mut n: usize = 0;
        while n * n < len
            invariant
                len == elements@.len(),
                n <= k,
                k * k == elements@.len(),
                n * n <= k * k,
            decreases k - n,
        {
            proof {
                assert(n < k) by (nonlinear_arith)
                    requires
                        n * n < k * k,
                        n <= k,
                ;
                assert(n + 1 <= (n + 1) * (n + 1) <= k * k) by (nonlinear_arith)
                    requires
                        n < k,
                ;
            }
            n += 1;
        }
        let mut v: Vec<T> = Vec::new();
        let mut i: usize = 0;
        while i < elements.len()
            invariant
                i <= elements@.len(),
                v@ == elements@.take(i as int),
            decreases elements@.len() - i,
        {
            v.push(elements[i]);
            i += 1;
            assert(v@ =~= elements@.take(i as int));
        }
        assert(v@ =~= elements@);
        Matrix { size: n, elements: v }
    }

    /// The number of rows (and of columns).
    pub fn size(&self) -> (r: usize)
        ensures
            r == self@.len(),
    {
        self.size
    }

    fn index(&self, x: usize, y: usize) -> (r: usize)
        requires
            self.wf(),
            y < self@.len(),
            x < self@.len(),
        ensures
            r == y * self@.len() + x,
            r < self.elements@.len(),
    {
        let _count = self.elements.len();
        proof {
            lemma_flat_position(y as int, x as int, self.size as int);
        }
        y * self.size + x
    }

    /// The entry in row `y` and column `x`.
    pub fn at(&self, y: usize, x: usize) -> (r: T)
        requires
            self.wf(),
            y < self@.len(),
            x < self@.len(),
        ensures
            r == self@[y as int][x as int],
    {
        let index = self.index(x, y);
        self.elements[index]
    }

    /// The transpose: entry (`i`, `j`) of the result is entry (`j`, `i`).
    pub fn transpose(&self) -> (r: Matrix<T>)
        requires
            self.wf(),
        ensures
            r.wf(),
            r@ == transposed(self@),
    {
        let n = self.size;
        let total = self.elements.len();
        let mut v: Vec<T> = Vec::new();
        let mut idx: usize = 0;
        while idx < total
            invariant
                self.wf(),
                n == self.size,
                n == self@.len(),
                total == n * n,
                idx <= total,
                v@.len() == idx,
                forall|p: int| 0 <= p < idx ==> #[trigger] v@[p] == self@[p % n as int][p / n as int],
            decreases total - idx,
        {
            proof {
                vstd::arithmetic::div_mod::lemma_fundamental_div_mod(idx as int, n as int);
                assert(idx / n < n) by (nonlinear_arith)
                    requires
                        idx < n * n,
                        idx == n * (idx / n) + idx % n,
                        0 <= idx % n,
                ;
            }
            v.push(self.at(idx % n, idx / n));
            idx += 1;
        }
        let r = Matrix { size: n, elements: v };
        assert forall|i: int, j: int| 0 <= i < n && 0 <= j < n implies #[trigger] r@[i][j]
            == transposed(self@)[i][j] by {
            lemma_flat_position(i, j, n as int);
        }
        assert(r@ =~~= transposed(self@));
        r
    }

    /// The matrix without row `row` and column `col`.
    pub fn submatrix(&self, row: usize, col: usize) -> (r: Matrix<T>)
        requires
            self.wf(),
            row < self@.len(),
            col < self@.len(),
        ensures
            r.wf(),
            r@ == without_row_col(self@, row as int, col as int),
    {
        let n = self.size;
        let count = self.elements.len();
        let m = n - 1;
        proof {
            assert(m * m <= n * n) by (nonlinear_arith)
                requires
                    m + 1 == n,
            ;
        }
        let total = m * m;
        let mut v: Vec<T> = Vec::new();
        let mut idx: usize = 0;
        while idx < total
            invariant
                self.wf(),
                n == self.size,
                n == self@.len(),
                m + 1 == n,
                row < n,
                col < n,
                total == m * m,
                idx <= total,
                v@.len() == idx,
                forall|p: int|
                    0 <= p < idx ==> #[trigger] v@[p] == self@[skip_index(p / m as int, row as int)][skip_index(
                        p % m as int,
                        col as int,
                    )],
            decreases total - idx,
        {
            proof {
                vstd::arithmetic::div_mod::lemma_fundamental_div_mod(idx as int, m as int);
                assert(idx / m < m) by (nonlinear_arith)
                    requires
                        idx < m * m,
                        idx == m * (idx / m) + idx % m,
                        0 <= idx % m,
                ;
            }
            let i = idx / m;
            let j = idx % m;
            let si = if i < row { i } else { i + 1 };
            let sj = if j < col { j } else { j + 1 };
            v.push(self.at(si, sj));
            idx += 1;
        }
        let r = Matrix { size: m, elements: v };
        assert forall|i: int, j: int| 0 <= i < m && 0 <= j < m implies #[trigger] r@[i][j]
            == without_row_col(self@, row as int, col as int)[i][j] by {
            lemma_flat_position(i, j, m as int);
        }
        assert(r@ =~~= without_row_col(self@, row as int, col as int));
        r
    }
}

/// Transposing twice gives back the matrix.
pub proof fn lemma_transpose_twice<T>(m: Matrix<T>)
    ensures
        transposed(transposed(m@)) == m@,
{
    assert(transposed(transposed(m@)) =~~= m@);
}

} // verus!
