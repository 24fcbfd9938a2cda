use ch06_regex::helper::{safe_add, to_chars, SafeAdd};

#[test]
fn test_safe_add() {
    let n: usize = 10;
    assert_eq!(Some(30), n.safe_add(&20));

    let n: usize = !0; // 2^64 - 1 (64 bits CPU)
    assert_eq!(None, n.safe_add(&1));

    let mut n: usize = 10;
    assert!(safe_add(&mut n, &20, || ()).is_ok());

    let mut n: usize = !0;
    assert!(safe_add(&mut n, &1, || ()).is_err());
}

#[test]
fn safe_add_keeps_value_on_overflow() {
    let mut n: usize = 10;
    assert!(safe_add(&mut n, &20, || 0u8).is_ok());
    assert_eq!(n, 30);
    let mut m: usize = usize::MAX - 1;
    assert_eq!(safe_add(&mut m, &2, || 7u8), Err(7));
    assert_eq!(m, usize::MAX - 1);
}

#[test]
fn to_chars_splits_code_points() {
    assert_eq!(to_chars("aあ💥"), vec!['a', 'あ', '💥']);
    assert_eq!(to_chars(""), Vec::<char>::new());
}
