use strokefit::polynomial::{Axis, Polynomial, diamondize};

#[derive(Debug)]
struct TestAxis;

impl Axis for TestAxis {
    fn axis() -> &'static str {
        "T"
    }
}

#[test]
fn polynomial_add() {
    let a = Polynomial::<TestAxis>::from_array([1, 2, 3]);
    let b = Polynomial::<TestAxis>::from_array([1, 1, 1, 1, 1, 1]);
    let c = Polynomial::<TestAxis>::from_array([2, 3, 4, 1, 1, 1]);

    assert_eq!(a.add(b), c);
}

#[test]
fn polynomial_sub() {
    let a = Polynomial::<TestAxis>::from_array([1, 2, 3]);
    let b = Polynomial::<TestAxis>::from_array([1, 1, 1, 1, 1, 1]);
    let c = Polynomial::<TestAxis>::from_array([0, 1, 2, -1, -1, -1]);

    assert_eq!(a.sub(b), c);
}

#[test]
fn polynomial_mult() {
    let a = Polynomial::<TestAxis>::new(vec![1, 2, 1]);
    let b = Polynomial::<TestAxis>::new(vec![3, 5, 5, 9]);
    let c = Polynomial::<TestAxis>::new(vec![3, 11, 18, 24, 23, 9]);

    assert_eq!(a.mul(b), c)
}

#[test]
fn diamond_test() {
    let data: Vec<Vec<i64>> = vec![vec![1, 2, 3], vec![4, 5, 6], vec![7, 8, 9]];

    let res = diamondize(&data);
    let desired_res: Vec<Vec<i64>> =
        vec![vec![1], vec![2, 4], vec![3, 5, 7], vec![6, 8], vec![9]];

    assert_eq!(res, desired_res);
}

#[test]
fn polynomial_get_and_len() {
    let p = Polynomial::<TestAxis>::from_array([7, 0, -4]);
    assert_eq!(p.len(), 3);
    assert_eq!(p.get(0), Some(7));
    assert_eq!(p.get(2), Some(-4));
    assert_eq!(p.get(3), None);
}

#[test]
fn axis_marker() {
    assert_eq!(TestAxis::axis(), "T");
}
