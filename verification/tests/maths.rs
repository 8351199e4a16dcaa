use matlib::maths::{lcd, lcm};
use matlib::utils::merge_sorted;

#[test]
fn lcm_of_coprimes() {
    assert_eq!(lcm(4, 9), Some(36));
}

#[test]
fn lcm_with_common_factor() {
    assert_eq!(lcm(4, 6), Some(12));
    assert_eq!(lcm(6, 4), Some(12));
}

#[test]
fn lcm_of_negatives_is_positive() {
    assert_eq!(lcm(-4, 6), Some(12));
    assert_eq!(lcm(-3, -5), Some(15));
}

#[test]
fn lcm_with_zero_is_none() {
    assert_eq!(lcm(0, 5), None);
    assert_eq!(lcm(5, 0), None);
    assert_eq!(lcm(0, 0), None);
}

#[test]
fn lcm_of_equal_values() {
    assert_eq!(lcm(7, 7), Some(7));
    assert_eq!(lcm(1, 1), Some(1));
}

#[test]
fn lcm_large() {
    assert_eq!(lcm(i64::MAX, 1), Some(i64::MAX));
    assert_eq!(lcm(-i64::MAX, i64::MAX), Some(i64::MAX));
}

#[test]
fn lcd_matches_lcm() {
    assert_eq!(lcd(4, 6), Some(12));
    assert_eq!(lcd(-8, 12), Some(24));
    assert_eq!(lcd(0, 3), None);
    for a in -12i64..=12 {
        for b in -12i64..=12 {
            assert_eq!(lcd(a, b), lcm(a, b));
        }
    }
}

#[test]
fn lcm_divisible_by_both() {
    for a in 1i64..=20 {
        for b in 1i64..=20 {
            let l = lcm(a, b).unwrap();
            assert_eq!(l % a, 0);
            assert_eq!(l % b, 0);
            for c in 1..l {
                assert!(c % a != 0 || c % b != 0);
            }
        }
    }
}

#[test]
fn merge_interleaves() {
    assert_eq!(merge_sorted(vec![1, 4, 6], vec![2, 3, 7, 9]), vec![1, 2, 3, 4, 6, 9]);
}

#[test]
fn merge_drops_the_pending_head() {
    // when the first side runs out, the drawn head of the second is lost
    assert_eq!(merge_sorted(vec![1], vec![2]), vec![1]);
    assert_eq!(merge_sorted(vec![2], vec![1]), vec![1]);
}

#[test]
fn merge_ties_take_second() {
    assert_eq!(merge_sorted(vec![5, 6], vec![5, 8]), vec![5, 5, 6]);
}

#[test]
fn merge_length_and_order() {
    let a = vec![-3, 0, 0, 4, 10];
    let b = vec![-5, 1, 2, 11];
    let m = merge_sorted(a.clone(), b.clone());
    assert_eq!(m.len(), a.len() + b.len() - 1);
    assert!(m.windows(2).all(|w| w[0] <= w[1]));
}
