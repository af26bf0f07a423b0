use permanent::chain_state;
use permanent::cooling_state;

#[test]
fn chain_state_bitmatrix_test() {
    let mut diagnal = chain_state::BitMatrix::new(10);
    for i in 0..10 {
        diagnal.set(i, i, true);
    }
    for i in 0..10 {
        for j in 0..10 {
            assert_eq!(diagnal.get(i, j), i == j);
        }
    }
}

#[test]
fn cooling_state_bitmatrix_test() {
    let mut diagnal = cooling_state::BitMatrix::new(10);
    for i in 0..10 {
        diagnal.set(i, i, true);
    }
    for i in 0..10 {
        for j in 0..10 {
            assert_eq!(diagnal.get(i, j), i == j);
        }
    }
}

#[test]
fn bitmatrix_clear_bit() {
    let mut m = chain_state::BitMatrix::new(70);
    m.set(69, 69, true);
    assert!(m.get(69, 69));
    m.set(69, 69, false);
    assert!(!m.get(69, 69));
    assert!(!m.get(0, 0));
    assert_eq!(m.dimension(), 70);
}
