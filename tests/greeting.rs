use ch06_regex::greeting::hello;

#[test]
fn test_hello() {
    let mut buf = Vec::new();

    hello(&mut buf);

    assert_eq!(buf, b"Hello, world!\nThis is ykyki.\n");
}
