use csaps::arrayfuncs::{diff, RatArray};
use csaps::rational::Rat;

fn ri(v: i64) -> Rat {
    Rat::from_int(v)
}

fn arr(shape: Vec<usize>, vals: Vec<i64>) -> RatArray {
    let data: Vec<Rat> = vals.into_iter().map(ri).collect();
    RatArray::new(shape, data).unwrap()
}

fn assert_arr_eq(a: &RatArray, shape: Vec<usize>, vals: Vec<i64>) {
    assert_eq!(a.shape, shape);
    assert_eq!(a.data.len(), vals.len());
    for (i, v) in vals.into_iter().enumerate() {
        assert!(a.data[i].equiv(ri(v)));
    }
}

#[test]
fn test_diff_1d() {
    let a = arr(vec![5], vec![1, 2, 3, 4, 5]);

    assert_arr_eq(&diff(&a, None).unwrap(), vec![4], vec![1, 1, 1, 1]);

    assert_arr_eq(&diff(&a, Some(0)).unwrap(), vec![4], vec![1, 1, 1, 1]);
}

#[test]
fn test_diff_2d() {
    let a = arr(vec![2, 4], vec![1, 2, 3, 4, 1, 2, 3, 4]);

    assert_arr_eq(&diff(&a, None).unwrap(), vec![2, 3], vec![1, 1, 1, 1, 1, 1]);

    assert_arr_eq(&diff(&a, Some(0)).unwrap(), vec![1, 4], vec![0, 0, 0, 0]);

    assert_arr_eq(&diff(&a, Some(1)).unwrap(), vec![2, 3], vec![1, 1, 1, 1, 1, 1]);
}

#[test]
fn test_diff_3d() {
    let a = arr(vec![2, 2, 3], vec![1, 2, 3, 1, 2, 3, 1, 2, 3, 1, 2, 3]);

    assert_arr_eq(&diff(&a, None).unwrap(), vec![2, 2, 2], vec![1, 1, 1, 1, 1, 1, 1, 1]);

    assert_arr_eq(&diff(&a, Some(0)).unwrap(), vec![1, 2, 3], vec![0, 0, 0, 0, 0, 0]);

    assert_arr_eq(&diff(&a, Some(1)).unwrap(), vec![2, 1, 3], vec![0, 0, 0, 0, 0, 0]);

    assert_arr_eq(&diff(&a, Some(2)).unwrap(), vec![2, 2, 2], vec![1, 1, 1, 1, 1, 1, 1, 1]);
}
