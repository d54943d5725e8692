use s2_utils::delegate::{Delegate, DelegateError, Resolution};

type Cb = Box<dyn Fn(i32) -> i32 + Send>;

#[test]
fn test_delegate() {
    let mut d: Delegate<i32, i32, Cb> = Delegate::new();
    d.add(Box::new(|x: i32| x + 1));
    let h2 = d.add(Box::new(|x: i32| x + 2));
    d.add(Box::new(|x: i32| x + 3));
    assert_eq!(d.invoke(0), vec![1, 2, 3]);

    assert_eq!(d.remove(h2), Ok(()));
    assert_eq!(d.invoke(0), vec![1, 3]);
    assert_eq!(d.len(), 2);

    let h2 = d.add(Box::new(|x: i32| x + 2));
    assert_eq!(h2.pos(), 1);
    assert_eq!(d.invoke(0), vec![1, 3, 2]);
}

#[test]
fn new_dispatcher_is_empty() {
    let d: Delegate<i32, i32, Cb> = Delegate::new();
    assert_eq!(d.len(), 0);
    assert_eq!(d.invoke(7), Vec::<i32>::new());
}

#[test]
fn adds_without_removal_run_in_add_order() {
    let mut d: Delegate<i32, i32, Cb> = Delegate::new();
    let h0 = d.add(Box::new(|x: i32| x * 10));
    let h1 = d.add(Box::new(|x: i32| x - 1));
    let h2 = d.add(Box::new(|x: i32| x + 100));
    let h3 = d.add(Box::new(|x: i32| -x));
    assert_eq!((h0.pos(), h1.pos(), h2.pos(), h3.pos()), (0, 1, 2, 3));
    assert_eq!(d.invoke(5), vec![50, 4, 105, -5]);
    assert_eq!(d.len(), 4);
}

#[test]
fn readd_reuses_lowest_freed_slot_and_runs_last() {
    let mut d: Delegate<i32, i32, Cb> = Delegate::new();
    let h0 = d.add(Box::new(|x: i32| x + 1));
    d.add(Box::new(|x: i32| x + 2));
    let h2 = d.add(Box::new(|x: i32| x + 3));
    assert_eq!(d.remove(h2), Ok(()));
    assert_eq!(d.remove(h0), Ok(()));
    let a = d.add(Box::new(|x: i32| x + 4));
    assert_eq!(a.pos(), 0);
    assert_eq!(d.invoke(0), vec![2, 4]);
    let b = d.add(Box::new(|x: i32| x + 5));
    assert_eq!(b.pos(), 2);
    assert_eq!(d.invoke(0), vec![2, 4, 5]);
    let c = d.add(Box::new(|x: i32| x + 6));
    assert_eq!(c.pos(), 3);
    assert_eq!(d.invoke(0), vec![2, 4, 5, 6]);
}

#[test]
fn len_is_adds_minus_removes() {
    let mut d: Delegate<i32, i32, Cb> = Delegate::new();
    let mut handles = Vec::new();
    for k in 0..6 {
        handles.push(d.add(Box::new(move |x: i32| x + k)));
    }
    assert_eq!(d.len(), 6);
    let h = handles.remove(4);
    assert_eq!(d.remove(h), Ok(()));
    let h = handles.remove(0);
    assert_eq!(d.remove(h), Ok(()));
    assert_eq!(d.len(), 4);
    d.add(Box::new(|x: i32| x));
    assert_eq!(d.len(), 5);
    assert_eq!(d.invoke(0), vec![1, 2, 3, 5, 0]);
}

#[test]
fn foreign_handle_is_refused_and_leaves_table_alone() {
    let mut a: Delegate<i32, i32, Cb> = Delegate::new();
    let mut b: Delegate<i32, i32, Cb> = Delegate::new();
    a.add(Box::new(|x: i32| x + 1));
    let from_a = a.add(Box::new(|x: i32| x + 2));
    b.add(Box::new(|x: i32| x * 2));
    let from_b = b.add(Box::new(|x: i32| x * 3));
    assert_eq!(b.remove(from_a), Err(DelegateError::ForeignHandle));
    assert_eq!(b.len(), 2);
    assert_eq!(b.invoke(1), vec![2, 3]);
    assert_eq!(a.remove(from_b), Err(DelegateError::ForeignHandle));
    assert_eq!(a.invoke(1), vec![2, 3]);
}

#[test]
fn handle_of_dropped_dispatcher_is_stale() {
    let mut first: Delegate<i32, i32, Cb> = Delegate::new();
    let h = first.add(Box::new(|x: i32| x + 1));
    drop(first);
    let mut other: Delegate<i32, i32, Cb> = Delegate::new();
    other.add(Box::new(|x: i32| x + 9));
    assert_eq!(other.remove(h), Err(DelegateError::StaleHandle));
    assert_eq!(other.invoke(1), vec![10]);
}

#[test]
fn stale_check_comes_before_bounds_check() {
    let mut first: Delegate<i32, i32, Cb> = Delegate::new();
    first.add(Box::new(|x: i32| x));
    first.add(Box::new(|x: i32| x));
    let h = first.add(Box::new(|x: i32| x));
    drop(first);
    let mut empty: Delegate<i32, i32, Cb> = Delegate::new();
    assert_eq!(empty.remove(h), Err(DelegateError::StaleHandle));
}

#[test]
fn position_beyond_table_is_out_of_bounds() {
    let mut a: Delegate<i32, i32, Cb> = Delegate::new();
    a.add(Box::new(|x: i32| x));
    a.add(Box::new(|x: i32| x));
    let far = a.add(Box::new(|x: i32| x));
    let mut b: Delegate<i32, i32, Cb> = Delegate::new();
    b.add(Box::new(|x: i32| x + 1));
    assert_eq!(b.remove(far), Err(DelegateError::OutOfBounds));
    assert_eq!(b.invoke(0), vec![1]);
}

#[test]
fn every_callback_gets_its_own_copy_of_the_argument() {
    let mut d: Delegate<String, usize, Box<dyn Fn(String) -> usize + Send>> = Delegate::new();
    d.add(Box::new(|s: String| s.len()));
    d.add(Box::new(|mut s: String| {
        s.push_str("xyz");
        s.len()
    }));
    d.add(Box::new(|s: String| s.len() * 2));
    assert_eq!(d.invoke(String::from("ab")), vec![2, 5, 4]);
}

#[test]
fn removing_then_invoking_skips_removed_callback() {
    let mut d: Delegate<u8, u8, Box<dyn Fn(u8) -> u8 + Send>> = Delegate::new();
    let h = d.add(Box::new(|x: u8| x));
    assert_eq!(d.remove(h), Ok(()));
    assert_eq!(d.len(), 0);
    assert_eq!(d.invoke(3), Vec::<u8>::new());
    let again = d.add(Box::new(|x: u8| x + 1));
    assert_eq!(again.pos(), 0);
    assert_eq!(d.invoke(3), vec![4]);
}

#[test]
fn one_closure_type_needs_no_box() {
    let mut d = Delegate::new();
    let h = d.add(|x: i32| x * 7);
    assert_eq!(d.invoke(3), vec![21]);
    assert_eq!(d.remove(h), Ok(()));
    assert_eq!(d.len(), 0);
}

#[test]
fn settle_stale_comes_first() {
    let mut d: Delegate<i32, i32, Cb> = Delegate::new();
    d.add(Box::new(|x: i32| x));
    assert_eq!(d.settle(0, Resolution::Dropped), Err(DelegateError::StaleHandle));
    assert_eq!(d.settle(5, Resolution::Dropped), Err(DelegateError::StaleHandle));
    assert_eq!(d.len(), 1);
}

#[test]
fn settle_checks_bounds_before_owner() {
    let mut d: Delegate<i32, i32, Cb> = Delegate::new();
    d.add(Box::new(|x: i32| x));
    assert_eq!(d.settle(1, Resolution::Foreign), Err(DelegateError::OutOfBounds));
    assert_eq!(d.settle(1, Resolution::Own), Err(DelegateError::OutOfBounds));
    assert_eq!(d.len(), 1);
}

#[test]
fn settle_refuses_foreign_in_bounds() {
    let mut d: Delegate<i32, i32, Cb> = Delegate::new();
    d.add(Box::new(|x: i32| x + 1));
    assert_eq!(d.settle(0, Resolution::Foreign), Err(DelegateError::ForeignHandle));
    assert_eq!(d.invoke(0), vec![1]);
}

#[test]
fn settle_own_empties_the_slot() {
    let mut d: Delegate<i32, i32, Cb> = Delegate::new();
    d.add(Box::new(|x: i32| x + 1));
    d.add(Box::new(|x: i32| x + 2));
    assert_eq!(d.settle(0, Resolution::Own), Ok(()));
    assert_eq!(d.invoke(0), vec![2]);
    assert_eq!(d.len(), 1);
    let h = d.add(Box::new(|x: i32| x + 3));
    assert_eq!(h.pos(), 0);
    assert_eq!(d.invoke(0), vec![2, 3]);
}
