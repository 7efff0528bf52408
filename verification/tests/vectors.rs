use fractran::state_diff::{Bound, StateDiff, StateDiffBound};
use infinitable::Infinitable;

fn sd(xs: &[i64]) -> StateDiff {
    StateDiff::new(xs.to_vec())
}

#[test]
fn test_add_sub() {
    let mut a = sd(&[9, -4, 5, 6, -4]);
    let b = sd(&[0, -2, -9, 0, 6]);

    let c = sd(&[9, -6, -4, 6, 2]);
    assert_eq!(&a + &b, c);

    let d = sd(&[9, -2, 14, 6, -10]);
    assert_eq!(&a - &b, d);

    a.add_assign(&b);
    assert_eq!(a, c);
}

#[test]
fn test_min_max() {
    let a = sd(&[9, -4, 5, -6, -4]);
    let b = sd(&[0, -2, 9, 0, 6]);

    let min = sd(&[0, -4, 5, -6, -4]);
    assert_eq!(a.pointwise_min(&b), min);
    assert_eq!(b.pointwise_min(&a), min);

    let max = sd(&[9, -2, 9, 0, 6]);
    assert_eq!(a.pointwise_max(&b), max);
    assert_eq!(b.pointwise_max(&a), max);
}

#[test]
fn test_order() {
    let a = sd(&[0, 0, 0]);
    let b = sd(&[0, 0, 1]);
    let c = sd(&[0, 1, 0]);

    assert!(a <= b);
    assert!(a <= c);
    // b and c are not comparible
    assert!(!(b <= c));
    assert!(!(c <= b));

    let d = sd(&[1, 2, 3]);
    assert!(a <= d);
    assert!(b <= d);
    assert!(c <= d);
}

#[test]
fn test_order_bound() {
    let min = StateDiffBound::new_min(3);
    let max = StateDiffBound::new_max(3);
    let x = StateDiffBound::from(&sd(&[10, -20, 0]));
    assert!(min <= max);
    assert!(min <= x);
    assert!(x <= max);
}

#[test]
fn scalar_multiple() {
    let a = sd(&[9, -4, 0]);
    assert_eq!(&a * 3, sd(&[27, -12, 0]));
    assert_eq!(&a * 0, sd(&[0, 0, 0]));
}

#[test]
fn bound_order_and_difference() {
    assert!(Bound::NegativeInfinity.le(&Bound::Finite(i64::MIN)));
    assert!(Bound::Finite(i64::MAX).le(&Bound::Infinity));
    assert!(Bound::Infinity.le(&Bound::Infinity));
    assert!(!Bound::Infinity.le(&Bound::Finite(0)));
    assert!(Bound::Finite(3).le(&Bound::Finite(3)));
    assert!(!Bound::Finite(4).le(&Bound::Finite(3)));
    assert_eq!(Bound::Finite(4).min(Bound::Infinity), Bound::Finite(4));
    assert_eq!(Bound::Finite(4).max(Bound::Infinity), Bound::Infinity);
    assert_eq!(Bound::Finite(5).sub(Bound::Finite(2)), Bound::Finite(3));
    assert_eq!(Bound::Infinity.sub(Bound::Finite(1)), Bound::Infinity);
    assert_eq!(Bound::Finite(1).sub(Bound::NegativeInfinity), Bound::Infinity);
    assert_eq!(Bound::NegativeInfinity.sub(Bound::Finite(1)), Bound::NegativeInfinity);
    assert_eq!(Bound::Finite(1).sub(Bound::Infinity), Bound::NegativeInfinity);
}

#[test]
fn bound_vectors_pointwise() {
    let a = StateDiffBound::new(vec![Bound::Finite(1), Bound::Infinity, Bound::Finite(7)]);
    let b = StateDiffBound::new(vec![Bound::Finite(2), Bound::Finite(5), Bound::NegativeInfinity]);
    assert_eq!(
        a.pointwise_min(&b),
        StateDiffBound::new(vec![Bound::Finite(1), Bound::Finite(5), Bound::NegativeInfinity])
    );
    assert_eq!(
        a.pointwise_max(&b),
        StateDiffBound::new(vec![Bound::Finite(2), Bound::Infinity, Bound::Finite(7)])
    );
    let shift = StateDiffBound::from_diff(&sd(&[1, 1, 1]));
    assert_eq!(
        &a - &shift,
        StateDiffBound::new(vec![Bound::Finite(0), Bound::Infinity, Bound::Finite(6)])
    );
}

#[test]
fn order_of_equal_and_empty_vectors() {
    let a = sd(&[1, 2]);
    assert!(a <= a.clone());
    assert!(a >= a.clone());
    assert_eq!(a.partial_cmp(&sd(&[1, 2])), Some(std::cmp::Ordering::Equal));
    assert_eq!(a.partial_cmp(&sd(&[0, 2])), Some(std::cmp::Ordering::Greater));
    assert_eq!(a.partial_cmp(&sd(&[0, 3])), None);
    let e = sd(&[]);
    assert_eq!(e.partial_cmp(&sd(&[])), None);
}

fn as_infinitable(b: Bound) -> Infinitable<i64> {
    match b {
        Bound::Finite(n) => Infinitable::Finite(n),
        Bound::Infinity => Infinitable::Infinity,
        Bound::NegativeInfinity => Infinitable::NegativeInfinity,
    }
}

#[test]
fn bounds_agree_with_infinitable() {
    let all = [
        Bound::NegativeInfinity,
        Bound::Finite(i64::MIN),
        Bound::Finite(-3),
        Bound::Finite(0),
        Bound::Finite(4),
        Bound::Finite(i64::MAX),
        Bound::Infinity,
    ];
    for a in all {
        for b in all {
            let (x, y) = (as_infinitable(a), as_infinitable(b));
            assert_eq!(a.le(&b), x <= y);
            assert_eq!(as_infinitable(a.min(b)), std::cmp::min(x, y));
            assert_eq!(as_infinitable(a.max(b)), std::cmp::max(x, y));
            let defined = match (a, b) {
                (Bound::Infinity, Bound::Infinity) => false,
                (Bound::NegativeInfinity, Bound::NegativeInfinity) => false,
                (Bound::Finite(p), Bound::Finite(q)) => p.checked_sub(q).is_some(),
                _ => true,
            };
            if defined {
                assert_eq!(as_infinitable(a.sub(b)), x - y);
            }
        }
    }
}
