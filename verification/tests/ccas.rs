use canal::sync::ccas::CondAtomicPtr;
use canal::sync::utils::is_descriptor;

#[test]
fn test_ccas() {
    let mut cell = CondAtomicPtr::new(27);

    let old = cell.conditional_compare_and_swap(27, 36, 0);
    assert_eq!(old, 27);

    assert_eq!(cell.load(), 36);
}

#[test]
fn test_ccas_cond_false() {
    let mut cell = CondAtomicPtr::new(27);

    // The condition word is non-zero: the swap must not happen.
    cell.conditional_compare_and_swap(27, 36, 1);

    assert_eq!(cell.load(), 27);
}

#[test]
fn test_ccas_wrong_current() {
    let mut cell = CondAtomicPtr::new(27);

    // The cell does not hold the expected word: the swap must not happen,
    // and the previous word is reported.
    let old = cell.conditional_compare_and_swap(28, 36, 0);
    assert_eq!(old, 27);
    assert_eq!(cell.load(), 27);
}

#[test]
fn test_ccas_many_threads() {
    // Many handles race the same swap; here their attempts run in
    // sequence.  Exactly one attempt wins, so the cell no longer holds the
    // starting word afterwards.
    let mut cell = CondAtomicPtr::new(27);
    for _i in 0..20 {
        cell.conditional_compare_and_swap(27, 1, 0);
        cell.load();
    }
    assert!(cell.load() != 27);
}

#[test]
fn test_is_descriptor() {
    assert!(!is_descriptor(0));
    assert!(is_descriptor(1));
    assert!(!is_descriptor(8));
    assert!(is_descriptor(9));
}
