use tonic_xds::ConnectBackoff;

const SECOND: u128 = 1_000_000_000;

#[test]
fn waits_double_up_to_the_bound() {
    let mut backoff = ConnectBackoff::new(SECOND, 10 * SECOND);
    let mut waits = Vec::new();
    for _ in 0..6 {
        waits.push(backoff.failed() / SECOND);
    }
    assert_eq!(waits, vec![1, 2, 4, 8, 10, 10]);
}

#[test]
fn first_wait_is_not_bounded() {
    let mut backoff = ConnectBackoff::new(7 * SECOND, 3 * SECOND);
    assert_eq!(backoff.failed(), 7 * SECOND);
    assert_eq!(backoff.wait(), 3 * SECOND);
}

#[test]
fn exact_doubling_reaches_the_bound() {
    let mut backoff = ConnectBackoff::new(5, 10);
    assert_eq!(backoff.failed(), 5);
    assert_eq!(backoff.failed(), 10);
    assert_eq!(backoff.failed(), 10);
}
