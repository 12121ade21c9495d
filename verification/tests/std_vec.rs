#[test]
fn vec_drain() {
    let mut v = vec![1, 2, 3, 4];
    v.drain(0..1);
    assert_eq!(vec![2, 3, 4], v);
}
