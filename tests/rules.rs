use oct::{rules_from_str, Rules};

#[test]
fn it_works() {
    assert!(rules_from_str("0.137").is_some());
}

#[test]
fn dawsons_chess_rules() {
    let r = rules_from_str("0.137").unwrap();
    assert_eq!(
        r,
        Rules {
            all: vec![1, 2, 3],
            some: vec![2, 3],
            divide_all: vec![3],
            divide: [vec![], vec![3]],
            len: 3,
        }
    );
}

#[test]
fn rules_split_divide_by_parity() {
    let r = rules_from_str("0.4444").unwrap();
    assert_eq!(r.all, Vec::<usize>::new());
    assert_eq!(r.some, Vec::<usize>::new());
    assert_eq!(r.divide_all, vec![1, 2, 3, 4]);
    assert_eq!(r.divide, [vec![2, 4], vec![1, 3]]);
    assert_eq!(r.len, 4);
}

#[test]
fn rules_ignore_the_separator_and_digit_zero() {
    let a = rules_from_str("7.6").unwrap();
    let b = rules_from_str("76").unwrap();
    assert_eq!(a, b);
    assert_eq!(a.all, Vec::<usize>::new());
    assert_eq!(a.some, vec![1]);
    assert_eq!(a.divide_all, vec![1]);
    assert_eq!(a.len, 1);
}

#[test]
fn rules_high_bits_of_a_digit_are_ignored() {
    let r = rules_from_str("0.9").unwrap();
    assert_eq!(r.all, vec![1]);
    assert_eq!(r.some, Vec::<usize>::new());
    assert_eq!(r.divide_all, Vec::<usize>::new());
}

#[test]
fn rules_reject_bad_codes() {
    assert!(rules_from_str("0.1x4").is_none());
    assert!(rules_from_str("").is_none());
    assert!(rules_from_str(".").is_none());
    assert!(rules_from_str("0,6").is_none());
    assert!(rules_from_str("0.é").is_none());
}
