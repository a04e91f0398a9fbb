use cao_queue::atomic_option::AtomicOption;

#[test]
fn set_fills_once() {
    let mut o: AtomicOption<u32> = AtomicOption::new();
    assert!(o.is_none());
    assert!(o.as_ref().is_none());
    assert!(o.set(5));
    assert!(o.is_some());
    assert!(!o.set(6));
    assert_eq!(o.as_ref(), Some(&5));
}

#[test]
fn insert_with_only_when_empty() {
    let mut o: AtomicOption<u32> = AtomicOption::default();
    assert_eq!(*o.as_ref_or_insert_with(|| 9), 9);
    assert_eq!(*o.as_ref_or_insert_with(|| 10), 9);
    let mut f = AtomicOption::new_fill(3u32);
    assert_eq!(*f.as_ref_or_insert_with(|| 4), 3);
    if let Some(x) = f.as_mut() {
        *x = 7;
    }
    assert_eq!(f.as_ref(), Some(&7));
    let mut e: AtomicOption<u32> = AtomicOption::new();
    assert!(e.as_mut().is_none());
}
