use solver::bitstring::BitString;
use solver::helper::BitMask;

#[test]
fn set_reset_and_query() {
    let mut b = BitString::new();
    assert!(b.is_clear());
    b.set(0);
    b.set(4);
    assert!(b.is_set(0));
    assert!(b.is_set(4));
    assert!(!b.is_set(1));
    assert_eq!(*b.get(), 0b1_0001);
    assert_eq!(b.count(), 2);
    b.reset(0);
    assert!(!b.is_set(0));
    assert_eq!(b.count(), 1);
    b.clear();
    assert!(b.is_clear());
}

#[test]
fn digits_map_to_positions() {
    let mut b = BitString::new();
    b.dirty_set(9);
    assert!(b.is_dirty(9));
    assert!(!b.is_dirty(8));
    assert_eq!(*b.get(), 1 << 8);
}

#[test]
fn all_set_needs_exactly_the_low_positions() {
    let mut b = BitString::new();
    for i in 0..9 {
        b.set(i);
    }
    assert!(b.is_all_set(9));
    assert!(!b.is_all_set(8));
    assert!(!b.is_all_set(10));
}

#[test]
fn union_and_conflict() {
    let mut a = BitString::new();
    let mut b = BitString::new();
    a.set(1);
    b.set(2);
    assert!(!a.is_conflicting(&b));
    let u = a.union(&b);
    assert_eq!(*u.get(), 0b110);
    assert!(u.is_conflicting(&a));
    a.union_with(&b);
    assert_eq!(*a.get(), 0b110);
}

#[test]
fn empty_mask_marks_zero_cells() {
    let mut e = BitString::new();
    e.set_value(0, 0);
    e.set_value(1, 5);
    e.set_value(2, 0);
    assert_eq!(*e.get(), 0b101);
}

#[test]
fn bitmask_words() {
    assert_eq!(BitMask::all_set(9), 511);
    assert_eq!(BitMask::all_set(4), 15);
    assert_eq!(BitMask::get(1), 1);
    assert_eq!(BitMask::get(3), 4);
}

#[test]
fn next_yields_positions_lowest_first() {
    let mut b = BitString::new();
    b.set(7);
    b.set(2);
    b.set(30);
    assert_eq!(b.next(), Some(2));
    assert_eq!(b.next(), Some(7));
    assert_eq!(b.next(), Some(30));
    assert_eq!(b.next(), None);
    assert!(b.is_clear());
}
