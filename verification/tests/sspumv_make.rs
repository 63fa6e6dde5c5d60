use csaps::arrayfuncs::RatArray;
use csaps::rational::Rat;
use csaps::sspumv::CubicSmoothingSpline;

fn ri(v: i64) -> Rat {
    Rat::from_int(v)
}

fn rats(vals: &[i64]) -> Vec<Rat> {
    vals.iter().map(|&v| ri(v)).collect()
}

fn arr(shape: Vec<usize>, vals: &[i64]) -> RatArray {
    RatArray::new(shape, rats(vals)).unwrap()
}

fn test_driver_make_nd_npt(
    x: Vec<Rat>,
    y: RatArray,
    order: usize,
    pieces: usize,
    coeffs: Vec<Vec<i64>>,
) {
    let s = CubicSmoothingSpline::new(x.clone(), y).make().unwrap();

    let spline = s.spline();

    assert_eq!(spline.order(), order);
    assert_eq!(spline.pieces(), pieces);
    assert_eq!(spline.breaks(), &x);
    let cm = spline.coeffs();
    assert_eq!(cm.rows, coeffs.len());
    for (i, row) in coeffs.iter().enumerate() {
        assert_eq!(cm.cols, row.len());
        for (j, &v) in row.iter().enumerate() {
            assert!(cm.get(i, j).equiv(ri(v)));
        }
    }
}

fn test_driver_make_nd_2pt(x: Vec<Rat>, y: RatArray, coeffs: Vec<Vec<i64>>) {
    test_driver_make_nd_npt(x, y, 2, 1, coeffs);
}

fn test_driver_make_nd_4pt(x: Vec<Rat>, y: RatArray, coeffs: Vec<Vec<i64>>) {
    test_driver_make_nd_npt(x, y, 4, 3, coeffs);
}

#[test]
fn test_make_1d_2pt() {
    test_driver_make_nd_2pt(rats(&[1, 2]), arr(vec![2], &[1, 2]), vec![vec![1, 1]]);
}

#[test]
fn test_make_2d_2pt() {
    test_driver_make_nd_2pt(
        rats(&[1, 2]),
        arr(vec![2, 2], &[1, 2, 3, 5]),
        vec![vec![1, 1], vec![2, 3]],
    );
}

#[test]
fn test_make_3d_2pt() {
    test_driver_make_nd_2pt(
        rats(&[1, 2]),
        arr(vec![2, 2, 2], &[1, 2, 3, 5, 2, 4, 4, 7]),
        vec![vec![1, 1], vec![2, 3], vec![2, 2], vec![3, 4]],
    );
}

#[test]
fn test_make_1d_4pt() {
    test_driver_make_nd_4pt(
        rats(&[1, 2, 3, 4]),
        arr(vec![4], &[1, 2, 3, 4]),
        vec![vec![0, 0, 0, 0, 0, 0, 1, 1, 1, 1, 2, 3]],
    );
}

#[test]
fn test_make_2d_4pt() {
    test_driver_make_nd_4pt(
        rats(&[1, 2, 3, 4]),
        arr(vec![2, 4], &[1, 2, 3, 4, 1, 3, 5, 7]),
        vec![
            vec![0, 0, 0, 0, 0, 0, 1, 1, 1, 1, 2, 3],
            vec![0, 0, 0, 0, 0, 0, 2, 2, 2, 1, 3, 5],
        ],
    );
}

#[test]
fn test_make_3d_4pt() {
    test_driver_make_nd_4pt(
        rats(&[1, 2, 3, 4]),
        arr(vec![2, 2, 4], &[1, 2, 3, 4, 1, 3, 5, 7, 2, 4, 6, 8, 3, 4, 5, 6]),
        vec![
            vec![0, 0, 0, 0, 0, 0, 1, 1, 1, 1, 2, 3],
            vec![0, 0, 0, 0, 0, 0, 2, 2, 2, 1, 3, 5],
            vec![0, 0, 0, 0, 0, 0, 2, 2, 2, 2, 4, 6],
            vec![0, 0, 0, 0, 0, 0, 1, 1, 1, 3, 4, 5],
        ],
    );
}
