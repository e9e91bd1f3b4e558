#[test]
fn ensure_binary_ops() {
    assert_eq!(6 & 4, 4);
    assert_eq!(6 & 2, 2);

    assert_eq!(3 & 2, 2);
    assert_eq!(3 & 1, 1);
}

