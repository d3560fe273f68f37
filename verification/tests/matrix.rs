use ntt_algebra::{Matrix, PrimeField};

fn fp11(n: u64) -> PrimeField<11> {
    PrimeField::new(n)
}

type M = Matrix<2, 2, PrimeField<11>>;

fn m2(values: [u64; 4]) -> M {
    let cells: Vec<PrimeField<11>> = values.iter().map(|x| fp11(*x)).collect();
    Matrix::new(&cells)
}

#[test]
fn matrix_test_matrix() {
    let matrix_a: M = m2([3, 4, 5, 6]);
    let matrix_b: M = m2([7, 8, 9, 10]);
    let matrix_b_t: M = m2([7, 9, 8, 10]);
    let a_plus_b: M = m2([10, 1, 3, 5]);
    let a_mul_b = m2([2, 9, 1, 1]);
    println!("Matrix a {:?}", matrix_a);
    assert_eq!(matrix_a.clone().add(matrix_b.clone()), a_plus_b);
    assert_eq!(matrix_a.mul(matrix_b.clone()), a_mul_b);
    assert_eq!(matrix_b.t(), matrix_b_t);
}

#[test]
fn main_test_matrix() {
    let matrix_a: M = m2([3, 4, 5, 6]);
    let matrix_b: M = m2([7, 8, 9, 10]);
    let a_plus_b: M = m2([10, 1, 3, 5]);
    let a_mul_b = m2([2, 9, 1, 1]);
    println!("Matrix a {:?}", matrix_a);
    assert_eq!(matrix_a.clone().add(matrix_b.clone()), a_plus_b);
    assert_eq!(matrix_a.mul(matrix_b), a_mul_b)
}

#[test]
fn test_matrix_zero() {
    let z: Matrix<2, 3, PrimeField<11>> = Matrix::zero();
    for row in 0..2 {
        for col in 0..3 {
            assert_eq!(z.get(row, col), fp11(0));
        }
    }
    assert_eq!(z, Matrix::new(&vec![fp11(0); 6]));
}

#[test]
fn test_matrix_get_set() {
    let mut m: M = m2([1, 2, 3, 4]);
    assert_eq!(m.get(0, 1), fp11(2));
    assert_eq!(m.get(1, 0), fp11(3));
    m.set(1, 0, fp11(9));
    assert_eq!(m.get(1, 0), fp11(9));
    assert_eq!(m, m2([1, 2, 9, 4]));
}

#[test]
fn test_matrix_rectangular_product() {
    // A 1x3 row vector times a 3x1 column vector: a dot product mod 11.
    let row: Matrix<1, 3, PrimeField<11>> = Matrix::new(&vec![fp11(1), fp11(2), fp11(3)]);
    let col: Matrix<3, 1, PrimeField<11>> = Matrix::new(&vec![fp11(4), fp11(5), fp11(6)]);
    // 4 + 10 + 18 = 32, and 32 mod 11 = 10.
    let product: Matrix<1, 1, PrimeField<11>> = row.mul(col);
    assert_eq!(product.get(0, 0), fp11(10));
}

#[test]
fn test_matrix_transpose_rectangular() {
    let m: Matrix<2, 3, PrimeField<11>> = Matrix::new(&vec![
        fp11(1),
        fp11(2),
        fp11(3),
        fp11(4),
        fp11(5),
        fp11(6),
    ]);
    let t: Matrix<3, 2, PrimeField<11>> = m.t();
    assert_eq!(t, Matrix::new(&vec![fp11(1), fp11(4), fp11(2), fp11(5), fp11(3), fp11(6)]));
}
