use spmat::csr::CSR;

#[test]
fn test_csr_identity() {
    let csr = CSR::identity(3);
    assert_eq!(csr.nrows(), 3);
    assert_eq!(csr.ncols(), 3);
    assert_eq!(csr.indptr(), vec![0, 1, 2, 3]);
    assert_eq!(csr.indices(), vec![0, 1, 2]);
    assert_eq!(csr.data(), vec![(1.0f64).to_bits(); 3]);
}

#[test]
fn test_csr_insert() {
    let mut csr = CSR::new(3, 3);
    csr.insert(0, 0, (1.0f64).to_bits());
    csr.insert(0, 1, (2.0f64).to_bits());
    csr.insert(1, 1, (3.0f64).to_bits());
    csr.insert(2, 2, (4.0f64).to_bits());
    assert_eq!(csr.indptr(), vec![0, 2, 3, 4]);
    assert_eq!(csr.indices(), vec![0, 1, 1, 2]);
    assert_eq!(
        csr.data(),
        vec![
            (1.0f64).to_bits(),
            (2.0f64).to_bits(),
            (3.0f64).to_bits(),
            (4.0f64).to_bits(),
        ]
    );
}

#[test]
fn new_matrix_is_empty() {
    let csr = CSR::new(4, 7);
    assert_eq!(csr.nrows(), 4);
    assert_eq!(csr.ncols(), 7);
    assert_eq!(csr.indptr(), vec![0, 0, 0, 0, 0]);
    assert_eq!(csr.indices(), Vec::<usize>::new());
    assert_eq!(csr.data(), Vec::<u64>::new());
}

#[test]
fn zero_sized_matrices() {
    let e = CSR::new(0, 0);
    assert_eq!(e.indptr(), vec![0]);
    assert_eq!(e.to_dense(), Vec::<u64>::new());
    let i0 = CSR::identity(0);
    assert_eq!(i0.indptr(), vec![0]);
    assert_eq!(i0.indices(), Vec::<usize>::new());
}

#[test]
fn insert_then_read_round_trip() {
    // One entry in an otherwise empty matrix: that cell reads back the
    // value, every other cell reads zero.
    let mut m = CSR::new(3, 4);
    m.insert(1, 2, (6.5f64).to_bits());
    let dense = m.to_dense();
    assert_eq!(dense.len(), 12);
    for r in 0..3 {
        for c in 0..4 {
            let got = f64::from_bits(dense[r * 4 + c]);
            if (r, c) == (1, 2) {
                assert_eq!(got, 6.5);
            } else {
                assert_eq!(got, 0.0);
            }
        }
    }
}

#[test]
fn upsert_overwrites_in_place() {
    // Inserting twice at one key keeps one entry, holding the second value.
    let mut m = CSR::new(2, 2);
    m.insert(0, 1, (1.5f64).to_bits());
    let before = m.indices().len();
    m.insert(0, 1, (9.25f64).to_bits());
    assert_eq!(m.indices().len(), before);
    assert_eq!(m.indices(), vec![1]);
    assert_eq!(m.data(), vec![(9.25f64).to_bits()]);
    assert_eq!(m.indptr(), vec![0, 1, 1]);
}

#[test]
fn indptr_stays_monotone_under_insertions() {
    let mut m = CSR::new(4, 4);
    let order = [(2usize, 3usize, 1.0f64), (0, 1, 2.0), (2, 0, 3.0), (3, 3, 4.0), (0, 0, 5.0)];
    for &(r, c, v) in order.iter() {
        m.insert(r, c, v.to_bits());
        let ptr = m.indptr();
        for w in 1..ptr.len() {
            assert!(ptr[w - 1] <= ptr[w]);
        }
        assert_eq!(*ptr.last().unwrap(), m.indices().len());
        assert_eq!(m.indices().len(), m.data().len());
    }
    assert_eq!(m.indices().len(), 5);
}

#[test]
fn stored_zero_is_kept_by_container() {
    // The container does not filter zeros on insert.
    let mut m = CSR::new(1, 2);
    m.insert(0, 0, (0.0f64).to_bits());
    assert_eq!(m.indices(), vec![0]);
    assert_eq!(m.data(), vec![(0.0f64).to_bits()]);
}
