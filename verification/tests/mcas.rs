use canal::sync::mcas::{MCASError, McasPtrs};

#[test]
fn test_mcas_success() {
    let mut words = McasPtrs::new(vec![1, 2]);

    let expected = vec![words.get(0), words.get(1)];
    let update = vec![3, 4];

    assert!(words.compare_and_swap(expected, update).is_ok());

    assert_eq!(words.get(0), 3);
    assert_eq!(words.get(1), 4);
}

#[test]
fn test_mcas_unequal_lengths() {
    let mut words = McasPtrs::new(vec![1, 2]);

    let expected = vec![words.get(0), words.get(1)];
    let update = vec![3];

    let res = words.compare_and_swap(expected, update);
    match res {
        Ok(_) => assert!(false, "received Ok value, expected error"),
        Err(MCASError::UnequalLengths) => {}
        Err(e) => assert!(false, "received wrong error type {:?}", e),
    }
}

#[test]
fn test_mcas_mismatch() {
    let mut words = McasPtrs::new(vec![1, 2]);

    // The second word does not hold its expected value: the swap fails and
    // no word changes.
    let res = words.compare_and_swap(vec![1, 9], vec![3, 4]);
    assert_eq!(res, Err(MCASError::Other));
    assert_eq!(words.get(0), 1);
    assert_eq!(words.get(1), 2);
}
