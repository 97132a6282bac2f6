use idlecore::qty::Qty;

#[test]
fn add_exact() {
    // 1/2 + 1/3 = 5/6, represented exactly by cross-multiplication.
    let a = Qty::new(1, 2);
    let b = Qty::new(1, 3);
    let c = a.try_add(b).unwrap();
    assert_eq!(c, Qty::new(5, 6));
    assert!(c.eq_val(Qty::new(10, 12)));
    // Results come back reduced: 1/2 + 1/2 is 1/1, not 4/4.
    assert_eq!(a.try_add(a).unwrap(), Qty::new(1, 1));
}

#[test]
fn sub_exact_and_below_zero() {
    let a = Qty::new(3, 4);
    let b = Qty::new(1, 2);
    let c = a.try_sub(b).unwrap();
    assert_eq!(c, Qty::new(1, 4));
    assert!(c.eq_val(Qty::new(1, 4)));
    // A difference of zero reduces to the canonical 0/1.
    assert_eq!(b.try_sub(b).unwrap(), Qty::new(0, 1));
    // Subtracting a larger value yields no (negative) quantity.
    assert_eq!(b.try_sub(a), None);
}

#[test]
fn div_by_ticks() {
    // 3/2 over 3 ticks is 1/2 per tick, reduced.
    let a = Qty::new(3, 2);
    let d = a.div_by(3).unwrap();
    assert_eq!(d, Qty::new(1, 2));
    assert!(d.eq_val(Qty::new(1, 2)));
    // A share whose reduced denominator cannot be represented is refused.
    let tiny = Qty::new(1, u64::MAX);
    assert_eq!(tiny.div_by(2), None);
}

#[test]
fn add_overflow_is_none() {
    let big = Qty::new(u64::MAX, 1);
    assert_eq!(big.try_add(big), None);
}

#[test]
fn comparisons_are_exact() {
    let half = Qty::new(1, 2);
    let third = Qty::new(1, 3);
    assert!(half.ge(third));
    assert!(!third.ge(half));
    assert!(half.ge(Qty::new(2, 4)));
    assert!(half.eq_val(Qty::new(2, 4)));
    assert!(!half.eq_val(third));
    assert!(Qty::zero().eq_val(Qty::new(0, 7)));
    assert_eq!(Qty::from_units(3), Qty::new(3, 1));
}
