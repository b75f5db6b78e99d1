use roma::solution::Solution;

#[test]
fn quality_helpers_work_as_expected() {
    let mut s: Solution<i32, f64> = Solution::new(vec![1, 2, 3]);
    assert!(!s.has_quality());
    assert_eq!(s.quality(), None);

    s.set_quality(4.0);
    assert!(s.has_quality());
    assert_eq!(s.quality().copied(), Some(4.0));

    s.invalidate();
    assert!(!s.has_quality());
    assert_eq!(s.quality(), None);
}

#[test]
fn invalidate_clears_quality() {
    let mut s: Solution<bool, f64> = Solution::new(vec![true, false]);
    s.set_quality(10.0);
    assert_eq!(s.quality().copied(), Some(10.0));
    s.invalidate();
    assert_eq!(s.quality(), None);
}

#[test]
fn fill_and_set_variable_work() {
    let mut s: Solution<i32, f64> = Solution::new(vec![0, 0, 0]);
    s.set_quality(1.0);
    assert!(s.set_variable(1, 7));
    assert_eq!(s.variables(), &[0, 7, 0]);
    assert!(!s.has_quality());

    s.set_quality(2.0);
    assert!(!s.set_variable(3, 9));
    assert_eq!(s.variables(), &[0, 7, 0]);
    assert_eq!(s.quality().copied(), Some(2.0));
}

#[test]
fn swap_variables_checks_bounds_and_clears_quality() {
    let mut s: Solution<i32, f64> = Solution::new(vec![1, 2, 3]);
    s.set_quality(5.0);
    assert!(s.swap_variables(0, 2));
    assert_eq!(s.variables(), &[3, 2, 1]);
    assert!(!s.has_quality());

    s.set_quality(6.0);
    assert!(!s.swap_variables(0, 3));
    assert_eq!(s.variables(), &[3, 2, 1]);
    assert!(s.has_quality());
}

#[test]
fn get_variable_and_variable_count() {
    let s: Solution<i32, f64> = Solution::new(vec![4, 5]);
    assert_eq!(s.num_variables(), 2);
    assert_eq!(s.get_variable(1), Some(&5));
    assert_eq!(s.get_variable(2), None);
}

#[test]
fn mutable_access_invalidates_quality() {
    let mut s: Solution<i32, f64> = Solution::new(vec![4, 5]);
    s.set_quality(1.0);
    if let Some(v) = s.get_variable_mut(0) {
        *v = 9;
    }
    assert_eq!(s.variables(), &[9, 5]);
    assert!(!s.has_quality());

    s.set_quality(1.0);
    assert!(s.get_variable_mut(5).is_none());
    assert!(!s.has_quality());

    s.set_quality(1.0);
    s.variables_mut()[1] = 0;
    assert_eq!(s.variables(), &[9, 0]);
    assert!(!s.has_quality());
}

#[test]
fn set_variables_replaces_all_and_clears_quality() {
    let mut s: Solution<i32, f64> = Solution::new(vec![1]);
    s.set_quality(3.0);
    s.set_variables(vec![2, 3, 4]);
    assert_eq!(s.variables(), &[2, 3, 4]);
    assert!(!s.has_quality());
}

#[test]
fn quality_mut_updates_cached_quality() {
    let mut s: Solution<i32, f64> = Solution::new(vec![1]);
    assert!(s.quality_mut().is_none());
    s.set_quality(1.5);
    if let Some(q) = s.quality_mut() {
        *q = 2.5;
    }
    assert_eq!(s.quality().copied(), Some(2.5));
    assert_eq!(s.variables(), &[1]);
}

#[test]
fn copy_keeps_variables_and_quality() {
    let mut s: Solution<i32, f64> = Solution::new(vec![1, 2]);
    s.set_quality(8.0);
    let c = s.copy();
    assert_eq!(c.variables(), &[1, 2]);
    assert_eq!(c.quality().copied(), Some(8.0));
    let d = s.clone();
    assert_eq!(d.variables(), &[1, 2]);
}
