use spmat::csr::CSR;
use spmat::matmul::matmat;

fn dense_values(m: &CSR) -> Vec<f64> {
    m.to_dense().iter().map(|b| f64::from_bits(*b)).collect()
}

#[test]
fn worked_example_identity_times_single_entry() {
    // identity(3) times a matrix holding only (0,0) = 1.0 renders as
    // [[1,0,0],[0,0,0],[0,0,0]].
    let a = CSR::identity(3);
    let mut d = CSR::new(3, 3);
    d.insert(0, 0, (1.0f64).to_bits());
    let c = matmat(&a, &d).unwrap();
    assert_eq!(c.nrows(), 3);
    assert_eq!(c.ncols(), 3);
    assert_eq!(
        dense_values(&c),
        vec![1.0, 0.0, 0.0, 0.0, 0.0, 0.0, 0.0, 0.0, 0.0]
    );
}

#[test]
fn concrete_multiply_example() {
    // Row 0 of A is [(0,1.0),(1,2.0)], row 1 is [(1,3.0)]; B maps every
    // column to column 0 with weight 1.0. Each output row collapses to one
    // sum at column 0.
    let mut a = CSR::new(2, 3);
    a.insert(0, 0, (1.0f64).to_bits());
    a.insert(0, 1, (2.0f64).to_bits());
    a.insert(1, 1, (3.0f64).to_bits());
    let mut b = CSR::new(3, 1);
    b.insert(0, 0, (1.0f64).to_bits());
    b.insert(1, 0, (1.0f64).to_bits());
    b.insert(2, 0, (1.0f64).to_bits());
    let c = matmat(&a, &b).unwrap();
    assert_eq!(c.nrows(), 2);
    assert_eq!(c.ncols(), 1);
    assert_eq!(dense_values(&c), vec![3.0, 3.0]);
    assert_eq!(c.indices(), vec![0, 0]);
    assert_eq!(c.indptr(), vec![0, 1, 2]);
}

#[test]
fn identity_multiplication_preserves_dense_form() {
    // Multiplying by the identity on the left keeps every cell's value; a
    // stored explicit zero is dropped from the product but still renders as
    // zero.
    let mut m = CSR::new(3, 3);
    m.insert(0, 1, (5.0f64).to_bits());
    m.insert(1, 0, (0.0f64).to_bits());
    m.insert(2, 2, (7.0f64).to_bits());
    let id = CSR::identity(3);
    let c = matmat(&id, &m).unwrap();
    assert_eq!(dense_values(&c), dense_values(&m));
    // The stored zero itself is gone from the product's entries.
    assert_eq!(m.indices().len(), 3);
    assert_eq!(c.indices().len(), 2);
}

#[test]
fn exact_zero_results_are_dropped_and_near_zero_kept() {
    // 1.0 - 1.0 cancels exactly and is dropped; a tiny nonzero sum is kept.
    let mut a = CSR::new(2, 2);
    a.insert(0, 0, (1.0f64).to_bits());
    a.insert(0, 1, (1.0f64).to_bits());
    a.insert(1, 0, (1.0f64).to_bits());
    let mut b = CSR::new(2, 1);
    b.insert(0, 0, (1.0f64).to_bits());
    b.insert(1, 0, (-1.0f64).to_bits());
    let c = matmat(&a, &b).unwrap();
    // Row 0: 1.0*1.0 + 1.0*(-1.0) == 0.0 exactly: dropped.
    // Row 1: 1.0*1.0 == 1.0: kept.
    assert_eq!(c.indptr(), vec![0, 0, 1]);
    assert_eq!(c.indices(), vec![0]);
    assert_eq!(dense_values(&c), vec![0.0, 1.0]);

    let mut tiny = CSR::new(2, 1);
    tiny.insert(0, 0, (1e-300f64).to_bits());
    tiny.insert(1, 0, (1e-300f64).to_bits());
    let d = matmat(&a, &tiny).unwrap();
    // Row 0: 1e-300 + 1e-300 is near zero but not exactly zero: kept.
    assert_eq!(d.indices().len(), 2);
    assert_eq!(f64::from_bits(d.data()[0]), 2e-300);
}

#[test]
fn product_row_order_is_reverse_of_first_touch() {
    // One row of A touching columns 0 then 1 of B emits the product row in
    // reverse touch order.
    let mut a = CSR::new(1, 2);
    a.insert(0, 0, (1.0f64).to_bits());
    a.insert(0, 1, (1.0f64).to_bits());
    let mut b = CSR::new(2, 2);
    b.insert(0, 0, (2.0f64).to_bits());
    b.insert(1, 1, (3.0f64).to_bits());
    let c = matmat(&a, &b).unwrap();
    assert_eq!(c.indices(), vec![1, 0]);
    assert_eq!(
        c.data(),
        vec![(3.0f64).to_bits(), (2.0f64).to_bits()]
    );
}

#[test]
fn multiply_with_empty_operands() {
    let a = CSR::new(0, 0);
    let b = CSR::new(0, 5);
    let c = matmat(&a, &b).unwrap();
    assert_eq!(c.nrows(), 0);
    assert_eq!(c.ncols(), 5);
    assert_eq!(c.indptr(), vec![0]);
    assert_eq!(c.indices(), Vec::<usize>::new());
}

#[test]
fn scalar_arithmetic_reaches_the_product() {
    // 2.5 * 4.0 == 10.0 through the multiplication engine: fails if either
    // arithmetic wrapper handed an argument back unchanged.
    let mut a = CSR::new(1, 1);
    a.insert(0, 0, (2.5f64).to_bits());
    let mut b = CSR::new(1, 1);
    b.insert(0, 0, (4.0f64).to_bits());
    let c = matmat(&a, &b).unwrap();
    assert_eq!(dense_values(&c), vec![10.0]);
}
