use collatz_viz::collatz::{collatz_predecessors, collatz_sequence, CollatzError};

#[test]
fn test_collatz_sequence() {
    assert_eq!(collatz_sequence(1), Ok(vec![1]));
    assert_eq!(collatz_sequence(2), Ok(vec![2, 1]));
    assert_eq!(collatz_sequence(3), Ok(vec![3, 10, 5, 16, 8, 4, 2, 1]));
}

#[test]
fn test_collatz_predecessors() {
    let preds = collatz_predecessors(1).unwrap();
    assert!(preds.contains(&2));

    let preds = collatz_predecessors(4).unwrap();
    assert!(preds.contains(&8));
}

#[test]
fn sequence_of_six() {
    assert_eq!(collatz_sequence(6), Ok(vec![6, 3, 10, 5, 16, 8, 4, 2, 1]));
}

#[test]
fn sequence_of_a_power_of_two_only_halves() {
    assert_eq!(collatz_sequence(32), Ok(vec![32, 16, 8, 4, 2, 1]));
}

#[test]
fn sequence_of_twenty_seven_has_112_elements() {
    let seq = collatz_sequence(27).unwrap();
    assert_eq!(seq.len(), 112);
    assert_eq!(seq[0], 27);
    assert_eq!(seq[1], 82);
    assert_eq!(seq.iter().copied().max(), Some(9232));
}

#[test]
fn sequence_follows_the_rule_and_ends_in_one() {
    for n in 1u64..200 {
        let seq = collatz_sequence(n).unwrap();
        assert_eq!(seq[0], n);
        assert_eq!(*seq.last().unwrap(), 1);
        for i in 1..seq.len() {
            let prev = seq[i - 1];
            let expected = if prev % 2 == 0 { prev / 2 } else { 3 * prev + 1 };
            assert_eq!(seq[i], expected);
        }
        for i in 0..seq.len() - 1 {
            assert_ne!(seq[i], 1);
        }
    }
}

#[test]
fn sequence_refuses_zero() {
    assert_eq!(collatz_sequence(0), Err(CollatzError::InvalidInput));
}

#[test]
fn sequence_reports_overflow_of_the_largest_odd_number() {
    assert_eq!(collatz_sequence(u64::MAX), Err(CollatzError::ArithmeticOverflow));
}

#[test]
fn sequence_reports_overflow_of_the_smallest_odd_number_that_cannot_be_tripled() {
    // 3 * 6148914691236517205 + 1 = 2^64
    let first: u64 = 6_148_914_691_236_517_205;
    assert_eq!(first.checked_mul(3).and_then(|t| t.checked_add(1)), None);
    assert!((first - 2).checked_mul(3).and_then(|t| t.checked_add(1)).is_some());
    assert_eq!(collatz_sequence(first), Err(CollatzError::ArithmeticOverflow));
}

#[test]
fn sequence_reports_overflow_met_after_halving() {
    // even, so the first step halves; the half is odd and too large to triple
    let start: u64 = u64::MAX - 1;
    assert_eq!((start / 2) % 2, 1);
    assert_eq!(collatz_sequence(start), Err(CollatzError::ArithmeticOverflow));
}

#[test]
fn predecessors_of_one() {
    assert_eq!(collatz_predecessors(1), Ok(vec![2]));
}

#[test]
fn predecessors_of_four() {
    assert_eq!(collatz_predecessors(4), Ok(vec![8, 1]));
}

#[test]
fn predecessors_even_first_then_odd() {
    assert_eq!(collatz_predecessors(10), Ok(vec![20, 3]));
    assert_eq!(collatz_predecessors(16), Ok(vec![32, 5]));
    assert_eq!(collatz_predecessors(22), Ok(vec![44, 7]));
}

#[test]
fn predecessors_without_an_odd_one() {
    // 7 = 3 * 2 + 1, but 2 is even
    assert_eq!(collatz_predecessors(7), Ok(vec![14]));
    // 5 leaves 2 when divided by 3
    assert_eq!(collatz_predecessors(5), Ok(vec![10]));
    // divisible by 3
    assert_eq!(collatz_predecessors(9), Ok(vec![18]));
}

#[test]
fn predecessors_of_zero() {
    assert_eq!(collatz_predecessors(0), Ok(vec![0]));
}

#[test]
fn predecessors_report_overflow() {
    assert_eq!(collatz_predecessors(u64::MAX), Err(CollatzError::ArithmeticOverflow));
    assert_eq!(collatz_predecessors(u64::MAX / 2 + 1), Err(CollatzError::ArithmeticOverflow));
}

#[test]
fn predecessors_at_the_largest_number_that_doubles() {
    let n: u64 = u64::MAX / 2;
    assert_eq!(collatz_predecessors(n), Ok(vec![u64::MAX - 1]));
}

#[test]
fn every_predecessor_steps_to_its_number() {
    for n in 1u64..500 {
        for p in collatz_predecessors(n).unwrap() {
            let next = if p % 2 == 0 { p / 2 } else { 3 * p + 1 };
            assert_eq!(next, n);
        }
    }
}

#[test]
fn every_number_is_a_predecessor_of_its_step() {
    for p in 1u64..500 {
        let next = if p % 2 == 0 { p / 2 } else { 3 * p + 1 };
        assert!(collatz_predecessors(next).unwrap().contains(&p));
    }
}
