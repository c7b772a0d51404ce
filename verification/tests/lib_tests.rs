use deepnest::add;
use deepnest::sum;

#[test]
fn lib_it_works() {
    let result = add(2, 2);
    assert_eq!(result, 4);
}

#[test]
fn sum_adds_signed() {
    assert_eq!(sum(-3, 5), 2);
    assert_eq!(sum(i32::MAX, 0), i32::MAX);
}
