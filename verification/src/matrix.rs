//! Dense matrices of a fixed shape over a generic element type.
//!
//! A matrix stores its `NROW * NCOL` cells as one flat vector in row-major
//! order (the row index varies slower). The shape is part of the type, so
//! addition and multiplication of mismatched shapes are rejected at compile
//! time. The element type is anything with an additive identity and the
//! arithmetic the operation at hand needs; its operator contracts carry the
//! cell-level guarantees through the matrix-level ones.

use crate::common::Zero;
use vstd::arithmetic::mul::lemma_mul_inequality;
use vstd::prelude::*;
use vstd::std_specs::cmp::PartialEqSpec;
use vstd::std_specs::ops::{AddSpec, MulSpec};

verus! {

/// A dense `NROW x NCOL` grid of elements, flattened row-major.
#[derive(Clone, Debug)]
pub struct Matrix<const NROW: usize, const NCOL: usize, ELEMENT> {
    elements: Vec<ELEMENT>,
}

/// The value of one cell of the product of `a` and `b`, accumulated over the
/// first `k` terms of the dot product of row `i` of `a` and column `j` of
/// `b`, starting from the element type's additive identity.
pub open spec fn product_cell_prefix<
    const NROW: usize,
    const M: usize,
    const NCOL: usize,
    ELEMENT: Zero + core::ops::Add<Output = ELEMENT> + core::ops::Mul<Output = ELEMENT>,
>(a: Matrix<NROW, M, ELEMENT>, b: Matrix<M, NCOL, ELEMENT>, i: int, j: int, k: int) -> ELEMENT
    decreases k,
{
    if k <= 0 {
        ELEMENT::zero_spec()
    } else {
        product_cell_prefix(a, b, i, j, k - 1).add_spec(a.cell(i, k - 1).mul_spec(b.cell(k - 1, j)))
    }
}

impl<const NROW: usize, const NCOL: usize, ELEMENT> Matrix<NROW, NCOL, ELEMENT> {
    /// The flat row-major sequence of cells.
    pub closed spec fn view(self) -> Seq<ELEMENT> {
        self.elements@
    }

    /// A well-formed matrix holds exactly `NROW * NCOL` cells.
    pub open spec fn wf(self) -> bool {
        self@.len() == NROW * NCOL
    }

    /// The cell in row `i` and column `j`.
    pub open spec fn cell(self, i: int, j: int) -> ELEMENT {
        self@[i * NCOL + j]
    }

    /// The number of cells.
    fn size() -> (r: usize)
        requires
            NROW * NCOL <= usize::MAX,
        ensures
            r == NROW * NCOL,
    {
        NROW * NCOL
    }

    /// Reads the cell in row `row` and column `col`.
    pub fn get(&self, row: usize, col: usize) -> (r: ELEMENT) where ELEMENT: Copy
        requires
            self.wf(),
            row < NROW,
            col < NCOL,
        ensures
            r == self.cell(row as int, col as int),
    {
        let len = self.elements.len();
        proof {
            lemma_flat_index_in_range::<NROW, NCOL>(row as int, col as int);
            assert(len == NROW * NCOL);
        }
        self.elements[row * NCOL + col]
    }

    /// Replaces the cell in row `row` and column `col`.
    pub fn set(&mut self, row: usize, col: usize, value: ELEMENT)
        requires
            old(self).wf(),
            row < NROW,
            col < NCOL,
        ensures
            final(self)@ == old(self)@.update(row * NCOL + col, value),
            final(self).wf(),
    {
        let len = self.elements.len();
        proof {
            lemma_flat_index_in_range::<NROW, NCOL>(row as int, col as int);
            assert(len == NROW * NCOL);
        }
        let index = row * NCOL + col;
        self.elements.set(index, value);
    }
}

impl<const NROW: usize, const NCOL: usize, ELEMENT: Zero> Matrix<NROW, NCOL, ELEMENT> {
    /// The matrix with every cell set to the element type's additive
    /// identity.
    pub fn zero() -> (r: Self)
        requires
            NROW * NCOL <= usize::MAX,
        ensures
            r.wf(),
            forall|i: int| 0 <= i < NROW * NCOL ==> r@[i] == ELEMENT::zero_spec(),
    {
        let size = Self::size();
        let mut elements: Vec<ELEMENT> = Vec::new();
        let mut i: usize = 0;
        while i < size
            invariant
                i <= size,
                size == NROW * NCOL,
                elements@.len() == i,
                forall|j: int| 0 <= j < i ==> elements@[j] == ELEMENT::zero_spec(),
            decreases size - i,
        {
            elements.push(ELEMENT::zero());
            i = i + 1;
        }
        Matrix { elements }
    }
}

impl<const NROW: usize, const NCOL: usize, ELEMENT: Copy> Matrix<NROW, NCOL, ELEMENT> {
    /// Copies a flat row-major sequence of exactly `NROW * NCOL` cells into
    /// a matrix.
    pub fn new(elements: &Vec<ELEMENT>) -> (r: Self)
        requires
            elements@.len() == NROW * NCOL,
        ensures
            r.wf(),
            r@ == elements@,
    {
        let len = elements.len();
        let mut copied: Vec<ELEMENT> = Vec::new();
        let mut i: usize = 0;
        while i < len
            invariant
                i <= len,
                len == elements@.len(),
                copied@ =~= elements@.take(i as int),
            decreases len - i,
        {
            copied.push(elements[i]);
            i = i + 1;
        }
        proof {
            assert(copied@ =~= elements@);
        }
        Matrix { elements: copied }
    }

    /// The transpose: a `NCOL x NROW` matrix whose cell in row `i` and
    /// column `j` is this matrix's cell in row `j` and column `i`.
    pub fn t(&self) -> (r: Matrix<NCOL, NROW, ELEMENT>)
        requires
            self.wf(),
        ensures
            r.wf(),
            forall|i: int, j: int|
                0 <= i < NCOL && 0 <= j < NROW ==> r.cell(i, j) == self.cell(j, i),
    {
        let mut elements: Vec<ELEMENT> = Vec::new();
        let mut new_row: usize = 0;
        while new_row < NCOL
            invariant
                self.wf(),
                new_row <= NCOL,
                elements@.len() == new_row * NROW,
                forall|i: int, j: int|
                    0 <= i < new_row && 0 <= j < NROW ==> elements@[i * NROW + j] == self.cell(
                        j,
                        i,
                    ),
            decreases NCOL - new_row,
        {
            let mut new_col: usize = 0;
            while new_col < NROW
                invariant
                    self.wf(),
                    new_row < NCOL,
                    new_col <= NROW,
                    elements@.len() == new_row * NROW + new_col,
                    forall|i: int, j: int|
                        0 <= i < new_row && 0 <= j < NROW ==> elements@[i * NROW + j] == self.cell(
                            j,
                            i,
                        ),
                    forall|j: int|
                        0 <= j < new_col ==> elements@[new_row * NROW + j] == self.cell(
                            j,
                            new_row as int,
                        ),
                decreases NROW - new_col,
            {
                elements.push(self.get(new_col, new_row));
                proof {
                    assert forall|i: int, j: int| 0 <= i < new_row && 0 <= j < NROW implies
                        elements@[i * NROW + j] == self.cell(j, i) by {
                        lemma_flat_index_below::<NROW>(i, j, new_row as int);
                    }
                    assert forall|j: int| 0 <= j < new_col + 1 implies
                        elements@[new_row as int * NROW + j] == self.cell(j, new_row as int) by {
                        lemma_flat_index_below::<NROW>(new_row as int, j, new_row + 1);
                    }
                }
                new_col = new_col + 1;
            }
            proof {
                assert((new_row + 1) * (NROW as int) == new_row * NROW + NROW) by (nonlinear_arith);
            }
            new_row = new_row + 1;
        }
        proof {
            assert forall|i: int, j: int| 0 <= i < NCOL && 0 <= j < NROW implies
                elements@[i * NROW + j] == self.cell(j, i) by {
                lemma_flat_index_below::<NROW>(i, j, NCOL as int);
            }
        }
        Matrix { elements }
    }
}

impl<
    const NROW: usize,
    const NCOL: usize,
    ELEMENT: Copy + core::ops::Add<Output = ELEMENT>,
> Matrix<NROW, NCOL, ELEMENT> {
    /// The element-wise sum of two matrices of the same shape.
    pub fn add(self, rhs: Self) -> (r: Self)
        requires
            self.wf(),
            rhs.wf(),
            forall|x: ELEMENT, y: ELEMENT| #[trigger] x.add_req(y),
        ensures
            r.wf(),
            ELEMENT::obeys_add_spec() ==> forall|i: int|
                0 <= i < NROW * NCOL ==> r@[i] == self@[i].add_spec(#[trigger] rhs@[i]),
    {
        let len = self.elements.len();
        let mut elements: Vec<ELEMENT> = Vec::new();
        let mut i: usize = 0;
        while i < len
            invariant
                i <= len,
                len == NROW * NCOL,
                self.wf(),
                rhs.wf(),
                forall|x: ELEMENT, y: ELEMENT| #[trigger] x.add_req(y),
                elements@.len() == i,
                ELEMENT::obeys_add_spec() ==> forall|j: int|
                    0 <= j < i ==> elements@[j] == self@[j].add_spec(#[trigger] rhs@[j]),
            decreases len - i,
        {
            let sum = self.elements[i] + rhs.elements[i];
            elements.push(sum);
            i = i + 1;
        }
        Matrix { elements }
    }
}

impl<
    const NROW: usize,
    const M: usize,
    ELEMENT: Zero + Copy + core::ops::Add<Output = ELEMENT> + core::ops::Mul<Output = ELEMENT>,
> Matrix<NROW, M, ELEMENT> {
    /// The matrix product: the cell in row `i` and column `j` of the result
    /// is the dot product of row `i` of `self` and column `j` of `rhs`,
    /// accumulated from the element type's additive identity.
    pub fn mul<const NCOL: usize>(self, rhs: Matrix<M, NCOL, ELEMENT>) -> (r: Matrix<
        NROW,
        NCOL,
        ELEMENT,
    >)
        requires
            self.wf(),
            rhs.wf(),
            NROW * NCOL <= usize::MAX,
            forall|x: ELEMENT, y: ELEMENT| #[trigger] x.add_req(y),
            forall|x: ELEMENT, y: ELEMENT| #[trigger] x.mul_req(y),
        ensures
            r.wf(),
            ELEMENT::obeys_add_spec() && ELEMENT::obeys_mul_spec() ==> forall|i: int, j: int|
                0 <= i < NROW && 0 <= j < NCOL ==> r.cell(i, j) == product_cell_prefix(
                    self,
                    rhs,
                    i,
                    j,
                    M as int,
                ),
    {
        let mut result: Matrix<NROW, NCOL, ELEMENT> = Matrix::zero();
        let mut i: usize = 0;
        while i < NROW
            invariant
                i <= NROW,
                self.wf(),
                rhs.wf(),
                result.wf(),
                forall|x: ELEMENT, y: ELEMENT| #[trigger] x.add_req(y),
                forall|x: ELEMENT, y: ELEMENT| #[trigger] x.mul_req(y),
                ELEMENT::obeys_add_spec() && ELEMENT::obeys_mul_spec() ==> forall|
                    i0: int,
                    j0: int,
                |
                    0 <= i0 < i && 0 <= j0 < NCOL ==> result.cell(i0, j0) == product_cell_prefix(
                        self,
                        rhs,
                        i0,
                        j0,
                        M as int,
                    ),
            decreases NROW - i,
        {
            let mut j: usize = 0;
            while j < NCOL
                invariant
                    i < NROW,
                    j <= NCOL,
                    self.wf(),
                    rhs.wf(),
                    result.wf(),
                    forall|x: ELEMENT, y: ELEMENT| #[trigger] x.add_req(y),
                    forall|x: ELEMENT, y: ELEMENT| #[trigger] x.mul_req(y),
                    ELEMENT::obeys_add_spec() && ELEMENT::obeys_mul_spec() ==> forall|
                        i0: int,
                        j0: int,
                    |
                        0 <= i0 < i && 0 <= j0 < NCOL ==> result.cell(i0, j0)
                            == product_cell_prefix(self, rhs, i0, j0, M as int),
                    ELEMENT::obeys_add_spec() && ELEMENT::obeys_mul_spec() ==> forall|j0: int|
                        0 <= j0 < j ==> result.cell(i as int, j0) == product_cell_prefix(
                            self,
                            rhs,
                            i as int,
                            j0,
                            M as int,
                        ),
                decreases NCOL - j,
            {
                let mut sum = ELEMENT::zero();
                let mut k: usize = 0;
                while k < M
                    invariant
                        i < NROW,
                        j < NCOL,
                        k <= M,
                        self.wf(),
                        rhs.wf(),
                        forall|x: ELEMENT, y: ELEMENT| #[trigger] x.add_req(y),
                        forall|x: ELEMENT, y: ELEMENT| #[trigger] x.mul_req(y),
                        ELEMENT::obeys_add_spec() && ELEMENT::obeys_mul_spec() ==> sum
                            == product_cell_prefix(self, rhs, i as int, j as int, k as int),
                    decreases M - k,
                {
                    sum = sum + self.get(i, k) * rhs.get(k, j);
                    k = k + 1;
                }
                let ghost prev = result;
                result.set(i, j, sum);
                proof {
                    lemma_flat_index_in_range::<NROW, NCOL>(i as int, j as int);
                    assert(result.cell(i as int, j as int) == sum);
                    assert forall|i0: int, j0: int|
                        0 <= i0 < NROW && 0 <= j0 < NCOL && !(i0 == i as int && j0 == j as int)
                        implies result.cell(i0, j0) == prev.cell(i0, j0) by {
                        lemma_flat_index_in_range::<NROW, NCOL>(i0, j0);
                        lemma_flat_index_distinct::<NROW, NCOL>(i0, j0, i as int, j as int);
                    }
                }
                j = j + 1;
            }
            i = i + 1;
        }
        result
    }
}

impl<const NROW: usize, const NCOL: usize, ELEMENT: PartialEq> PartialEq for Matrix<
    NROW,
    NCOL,
    ELEMENT,
> {
    /// Two matrices are equal when all their cells compare equal.
    fn eq(&self, other: &Self) -> (r: bool) {
        let len = self.elements.len();
        if len != other.elements.len() {
            return false;
        }
        let mut i: usize = 0;
        while i < len
            invariant
                i <= len,
                len == self@.len(),
                len == other@.len(),
                ELEMENT::obeys_eq_spec() ==> forall|j: int|
                    0 <= j < i ==> self@[j].eq_spec(&other@[j]),
            decreases len - i,
        {
            if !(self.elements[i] == other.elements[i]) {
                return false;
            }
            i = i + 1;
        }
        true
    }
}

impl<const NROW: usize, const NCOL: usize, ELEMENT: PartialEq> vstd::std_specs::cmp::PartialEqSpecImpl for Matrix<
    NROW,
    NCOL,
    ELEMENT,
> {
    open spec fn obeys_eq_spec() -> bool {
        ELEMENT::obeys_eq_spec()
    }

    open spec fn eq_spec(&self, other: &Self) -> bool {
        self@.len() == other@.len() && forall|i: int|
            0 <= i < self@.len() ==> self@[i].eq_spec(&#[trigger] other@[i])
    }
}

/// A row index strictly below `rows` keeps the row-major flat index strictly
/// below the first index of row `rows`.
proof fn lemma_flat_index_below<const NCOL: usize>(i: int, j: int, rows: int)
    requires
        0 <= i < rows,
        0 <= j < NCOL,
    ensures
        0 <= i * NCOL + j < rows * NCOL,
        i * NCOL + j < i * NCOL + NCOL,
{
    lemma_mul_inequality(i + 1, rows, NCOL as int);
    assert((i + 1) * NCOL == i * NCOL + NCOL) by (nonlinear_arith);
    assert(i * NCOL >= 0) by (nonlinear_arith)
        requires
            i >= 0,
    ;
}

/// A row-major flat index stays inside a well-formed matrix's storage.
proof fn lemma_flat_index_in_range<const NROW: usize, const NCOL: usize>(i: int, j: int)
    requires
        0 <= i < NROW,
        0 <= j < NCOL,
    ensures
        0 <= i * NCOL + j < NROW * NCOL,
{
    lemma_flat_index_below::<NCOL>(i, j, NROW as int);
}

/// Distinct in-range cell coordinates map to distinct row-major flat
/// indices.
proof fn lemma_flat_index_distinct<const NROW: usize, const NCOL: usize>(
    i1: int,
    j1: int,
    i2: int,
    j2: int,
)
    requires
        0 <= i1 < NROW,
        0 <= j1 < NCOL,
        0 <= i2 < NROW,
        0 <= j2 < NCOL,
        i1 != i2 || j1 != j2,
    ensures
        i1 * NCOL + j1 != i2 * NCOL + j2,
{
    if i1 < i2 {
        lemma_flat_index_below::<NCOL>(i1, j1, i2);
        assert(i2 * NCOL + j2 >= i2 * NCOL);
    } else if i2 < i1 {
        lemma_flat_index_below::<NCOL>(i2, j2, i1);
        assert(i1 * NCOL + j1 >= i1 * NCOL);
    }
}

} // verus!
