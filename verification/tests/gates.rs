use qmem::register::QError;
use qmem::register::QMem;
use qmem::register::PROB_HALF;

#[test]
fn test_hadamard_resets_to_even_superposition() {
    let mut m = QMem::new();
    assert_eq!(m.set_qubit(3, Some(true), None), Ok(()));
    assert_eq!(m.hadamard(3), Ok(()));
    assert_eq!(m.get_superposition() & (1 << 3), 1 << 3);
    assert_eq!(m.get_probability(3), Ok(PROB_HALF));
    // a biased superposition is also reset to one half
    assert_eq!(m.set_qubit(4, None, Some(1)), Ok(()));
    assert_eq!(m.hadamard(4), Ok(()));
    assert_eq!(m.get_probability(4), Ok(PROB_HALF));
}

#[test]
fn test_pauli_x_flips_collapsed() {
    let mut m = QMem::new();
    assert_eq!(m.set_qubit(7, Some(false), None), Ok(()));
    assert_eq!(m.pauli_x(7), Ok(()));
    assert_eq!(m.measure(7), Ok(true));
    assert_eq!(m.pauli_x(7), Ok(()));
    assert_eq!(m.measure(7), Ok(false));
}

#[test]
fn test_pauli_x_twice_restores_measured_value() {
    let mut m = QMem::new();
    // collapsed qubit: two NOTs give back the original bit
    assert_eq!(m.set_qubit(7, Some(false), None), Ok(()));
    assert_eq!(m.pauli_x(7), Ok(()));
    assert_eq!(m.pauli_x(7), Ok(()));
    assert_eq!(m.measure(7), Ok(false));
    // superposed qubit at probability 0 measures false, so two NOTs
    // leave it collapsed at false
    assert_eq!(m.set_qubit(8, None, Some(0)), Ok(()));
    assert_eq!(m.pauli_x(8), Ok(()));
    assert_eq!(m.pauli_x(8), Ok(()));
    assert_eq!(m.get_superposition() & (1 << 8), 0);
    assert_eq!(m.measure(8), Ok(false));
}

#[test]
fn test_swap_exchanges_measured_values() {
    let mut m = QMem::new();
    assert_eq!(m.set_qubit(1, Some(true), None), Ok(()));
    assert_eq!(m.set_qubit(2, Some(false), None), Ok(()));
    assert_eq!(m.swap(1, 2), Ok(()));
    assert_eq!(m.measure(1), Ok(false));
    assert_eq!(m.measure(2), Ok(true));
}

#[test]
fn test_swap_self_is_noop() {
    let mut m = QMem::new();
    assert_eq!(m.set_qubit(4, None, Some(250_000)), Ok(()));
    let state = m.get_state();
    let sup = m.get_superposition();
    assert_eq!(m.swap(4, 4), Ok(()));
    assert_eq!(m.get_state(), state);
    assert_eq!(m.get_superposition(), sup);
    assert_eq!(m.get_probability(4), Ok(250_000));
}

#[test]
fn test_cnot_control_false_leaves_target() {
    let mut m = QMem::new();
    assert_eq!(m.set_qubit(0, Some(false), None), Ok(()));
    assert_eq!(m.set_qubit(9, None, Some(123)), Ok(()));
    assert_eq!(m.cnot(0, 9), Ok(()));
    // the target is still superposed with its probability untouched
    assert_eq!(m.get_superposition() & (1 << 9), 1 << 9);
    assert_eq!(m.get_probability(9), Ok(123));
}

#[test]
fn test_cnot_control_true_negates_target() {
    let mut m = QMem::new();
    assert_eq!(m.set_qubit(0, Some(true), None), Ok(()));
    assert_eq!(m.set_qubit(9, Some(false), None), Ok(()));
    assert_eq!(m.cnot(0, 9), Ok(()));
    assert_eq!(m.measure(9), Ok(true));
    assert_eq!(m.cnot(0, 9), Ok(()));
    assert_eq!(m.measure(9), Ok(false));
}

#[test]
fn test_bells_test_entangled_pair_correlates() {
    let mut m = QMem::new();
    assert_eq!(m.entangle(10, 11), Ok(()));
    let (a, b, correlated) = m.bells_test(10, 11).unwrap();
    assert_eq!(a, b);
    assert!(correlated);
    assert_eq!(m.get_superposition() & ((1 << 10) | (1 << 11)), 0);
}

#[test]
fn test_bells_test_reports_outcomes() {
    let mut m = QMem::new();
    assert_eq!(m.set_qubit(20, Some(true), None), Ok(()));
    assert_eq!(m.set_qubit(21, Some(false), None), Ok(()));
    assert_eq!(m.bells_test(20, 21), Ok((true, false, false)));
    assert_eq!(m.bells_test(20, 20), Ok((true, true, true)));
    assert_eq!(m.bells_test(21, 64), Err(QError::IndexOutOfRange));
}
