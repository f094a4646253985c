use algods::order::{less, less_eq};

#[test]
fn less_is_strict() {
    assert!(less(&1, &2));
    assert!(!less(&2, &1));
    assert!(!less(&2, &2));
    assert!(less(&-5, &0));
    assert!(less(&"apple", &"pear"));
    assert!(!less(&"pear", &"apple"));
}

#[test]
fn less_eq_admits_equals() {
    assert!(less_eq(&1, &2));
    assert!(!less_eq(&2, &1));
    assert!(less_eq(&2, &2));
    assert!(less_eq(&i32::MIN, &i32::MAX));
    assert!(less_eq(&(1, 'a'), &(1, 'b')));
    assert!(!less_eq(&(2, 'a'), &(1, 'b')));
}

#[test]
fn less_and_less_eq_complement_each_other() {
    for a in -3..=3 {
        for b in -3..=3 {
            assert_eq!(less(&a, &b), !less_eq(&b, &a));
            assert_eq!(less(&a, &b), a < b);
            assert_eq!(less_eq(&a, &b), a <= b);
        }
    }
}
