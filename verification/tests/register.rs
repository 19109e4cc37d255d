use qmem::register::QError;
use qmem::register::QMem;
use qmem::register::PROB_DENOM;
use qmem::register::PROB_HALF;

#[test]
fn test_fresh_register() {
    let m = QMem::new();
    assert_eq!(m.get_state(), 0);
    assert_eq!(m.get_superposition(), u64::MAX);
    for i in 0..64 {
        assert_eq!(m.get_probability(i), Ok(PROB_HALF));
        assert_eq!(m.get_entangled_pair(i), Ok(None));
        assert_eq!(m.get_entangled_group(i), Ok(0));
    }
}

#[test]
fn test_default_matches_new() {
    let m = QMem::default();
    assert_eq!(m.get_state(), 0);
    assert_eq!(m.get_superposition(), u64::MAX);
    assert_eq!(m.get_probability(63), Ok(PROB_HALF));
}

#[test]
fn test_set_qubit_definite() {
    let mut m = QMem::new();
    assert_eq!(m.set_qubit(5, Some(true), None), Ok(()));
    assert_eq!(m.get_state() & (1 << 5), 1 << 5);
    assert_eq!(m.get_superposition() & (1 << 5), 0);
    assert_eq!(m.set_qubit(5, Some(false), None), Ok(()));
    assert_eq!(m.get_state() & (1 << 5), 0);
}

#[test]
fn test_set_qubit_superposed_records_probability() {
    let mut m = QMem::new();
    assert_eq!(m.set_qubit(9, Some(true), None), Ok(()));
    assert_eq!(m.set_qubit(9, None, Some(123_456)), Ok(()));
    assert_eq!(m.get_superposition() & (1 << 9), 1 << 9);
    assert_eq!(m.get_probability(9), Ok(123_456));
    // without an explicit probability the default is one half
    assert_eq!(m.set_qubit(9, None, None), Ok(()));
    assert_eq!(m.get_probability(9), Ok(PROB_HALF));
}

#[test]
fn test_measure_idempotent() {
    let mut m = QMem::new();
    assert_eq!(m.set_qubit(5, Some(true), None), Ok(()));
    let before = m.get_state();
    for _ in 0..3 {
        assert_eq!(m.measure(5), Ok(true));
    }
    assert_eq!(m.get_state(), before);
    assert_eq!(m.set_qubit(6, Some(false), None), Ok(()));
    for _ in 0..3 {
        assert_eq!(m.measure(6), Ok(false));
    }
}

#[test]
fn test_measure_prob_extremes() {
    let mut m = QMem::new();
    assert_eq!(m.set_qubit(2, None, Some(0)), Ok(()));
    assert_eq!(m.measure(2), Ok(false));
    assert_eq!(m.set_qubit(2, None, Some(PROB_DENOM)), Ok(()));
    assert_eq!(m.measure(2), Ok(true));
}

#[test]
fn test_measure_collapses() {
    let mut m = QMem::new();
    let v = m.measure(17).unwrap();
    // the drawn value is persisted, not re-drawn
    assert_eq!(m.get_superposition() & (1 << 17), 0);
    assert_eq!(m.measure(17), Ok(v));
}

#[test]
fn test_pair_correlation() {
    let mut m = QMem::new();
    assert_eq!(m.entangle(1, 2), Ok(()));
    assert_eq!(m.get_entangled_pair(1), Ok(Some(2)));
    assert_eq!(m.get_entangled_pair(2), Ok(Some(1)));
    assert_eq!(m.set_qubit(1, Some(true), None), Ok(()));
    assert_eq!(m.get_superposition() & (1 << 2), 0);
    assert_eq!(m.measure(2), Ok(true));
}

#[test]
fn test_entangle_releases_old_partner() {
    let mut m = QMem::new();
    assert_eq!(m.entangle(1, 2), Ok(()));
    assert_eq!(m.entangle(2, 3), Ok(()));
    assert_eq!(m.get_entangled_pair(1), Ok(None));
    assert_eq!(m.get_entangled_pair(2), Ok(Some(3)));
    assert_eq!(m.get_entangled_pair(3), Ok(Some(2)));
}

#[test]
fn test_entangle_self_is_noop() {
    let mut m = QMem::new();
    assert_eq!(m.entangle(5, 5), Ok(()));
    assert_eq!(m.get_entangled_pair(5), Ok(None));
}

#[test]
fn test_group_union_merge() {
    let mut m = QMem::new();
    assert_eq!(m.entangle_group(&vec![3, 4]), Ok(()));
    assert_eq!(m.get_entangled_group(3), Ok((1 << 3) | (1 << 4)));
    assert_eq!(m.entangle_group(&vec![4, 5]), Ok(()));
    let merged = (1u64 << 3) | (1 << 4) | (1 << 5);
    assert_eq!(m.get_entangled_group(3), Ok(merged));
    assert_eq!(m.get_entangled_group(4), Ok(merged));
    assert_eq!(m.get_entangled_group(5), Ok(merged));
    // collapsing one member forces the others to the same value
    assert_eq!(m.set_qubit(5, Some(true), None), Ok(()));
    assert_eq!(m.measure(3), Ok(true));
    assert_eq!(m.measure(4), Ok(true));
}

#[test]
fn test_group_too_small_is_noop() {
    let mut m = QMem::new();
    assert_eq!(m.entangle_group(&vec![7]), Ok(()));
    assert_eq!(m.get_entangled_group(7), Ok(0));
    assert_eq!(m.entangle_group(&vec![]), Ok(()));
}

#[test]
fn test_out_of_range_rejected() {
    let mut m = QMem::new();
    let e = Err(QError::IndexOutOfRange);
    assert_eq!(m.set_qubit(64, Some(true), None), e);
    assert_eq!(m.measure(64), Err(QError::IndexOutOfRange));
    assert_eq!(m.hadamard(70), e);
    assert_eq!(m.pauli_x(64), e);
    assert_eq!(m.swap(64, 1), e);
    assert_eq!(m.swap(1, 64), e);
    assert_eq!(m.swap(64, 64), e);
    assert_eq!(m.cnot(64, 1), e);
    assert_eq!(m.cnot(1, 100), e);
    assert_eq!(m.entangle(0, 64), e);
    assert_eq!(m.entangle_group(&vec![1, 64]), e);
    assert_eq!(m.bells_test(64, 0), Err(QError::IndexOutOfRange));
    assert_eq!(m.get_probability(64), Err(QError::IndexOutOfRange));
    assert_eq!(m.get_entangled_pair(64), Err(QError::IndexOutOfRange));
    assert_eq!(m.get_entangled_group(64), Err(QError::IndexOutOfRange));
    // nothing was mutated by any of the rejected calls
    assert_eq!(m.get_state(), 0);
    assert_eq!(m.get_superposition(), u64::MAX);
    for i in 0..64 {
        assert_eq!(m.get_probability(i), Ok(PROB_HALF));
        assert_eq!(m.get_entangled_pair(i), Ok(None));
        assert_eq!(m.get_entangled_group(i), Ok(0));
    }
}

#[test]
fn test_entangled_pair_scenario() {
    let mut m = QMem::new();
    assert_eq!(m.entangle(0, 63), Ok(()));
    assert_eq!(m.set_qubit(0, Some(true), None), Ok(()));
    assert_eq!(m.measure(63), Ok(true));
    assert_eq!(m.get_superposition() & (1 << 63), 0);
}
