use monarch::sync::semaphore::Semaphore;

#[test]
fn units_are_taken_and_given_back() {
    let s = Semaphore::new(1);
    assert!(s.try_acquire());
    assert!(!s.try_acquire());
    s.release();
    assert!(s.try_acquire());
}

#[test]
fn a_semaphore_at_zero_refuses() {
    let s = Semaphore::new(0);
    assert!(!s.try_acquire());
    assert!(!s.try_acquire());
    s.release();
    s.release();
    assert!(s.try_acquire());
    assert!(s.try_acquire());
    assert!(!s.try_acquire());
}
