use csaps::arrayfuncs::RatArray;
use csaps::rational::Rat;
use csaps::sspumv::CubicSmoothingSpline;
use csaps::CsapsError;

fn ri(v: i64) -> Rat {
    Rat::from_int(v)
}

fn rq(n: i64, d: i64) -> Rat {
    Rat::new(n, d).unwrap()
}

fn rats(vals: &[i64]) -> Vec<Rat> {
    vals.iter().map(|&v| ri(v)).collect()
}

fn arr1(vals: &[i64]) -> RatArray {
    RatArray::new(vec![vals.len()], rats(vals)).unwrap()
}

#[test]
fn interpolation_reproduces_values_at_sites() {
    // with p = 1 the spline interpolates: evaluating at the sites gives the
    // data back exactly
    let x = rats(&[0, 1, 2, 3]);
    let y = [0i64, 1, 0, 1];
    let s = CubicSmoothingSpline::new(x.clone(), arr1(&y))
        .with_smooth(ri(1))
        .make()
        .unwrap();
    let out = s.evaluate(&x).unwrap();
    assert_eq!(out.shape, vec![4]);
    for (i, &v) in y.iter().enumerate() {
        assert!(out.data[i].equiv(ri(v)));
    }
}

#[test]
fn zero_smoothing_gives_least_squares_line() {
    // with p = 0 the fit is the least-squares line: for these points it is
    // y = (6/5) x - 3/10
    let x = rats(&[0, 1, 2, 3]);
    let s = CubicSmoothingSpline::new(x.clone(), arr1(&[0, 0, 3, 3]))
        .with_smooth(ri(0))
        .make()
        .unwrap();
    let cm = s.spline().coeffs();
    let expected = [
        (0i64, 1i64),
        (0, 1),
        (0, 1),
        (0, 1),
        (0, 1),
        (0, 1),
        (6, 5),
        (6, 5),
        (6, 5),
        (-3, 10),
        (9, 10),
        (21, 10),
    ];
    for (j, &(n, d)) in expected.iter().enumerate() {
        assert!(cm.get(0, j).equiv(rq(n, d)));
    }
    let out = s.evaluate(&x).unwrap();
    let vals = [(-3i64, 10i64), (9, 10), (21, 10), (33, 10)];
    for (i, &(n, d)) in vals.iter().enumerate() {
        assert!(out.data[i].equiv(rq(n, d)));
    }
}

#[test]
fn default_smoothing_is_deterministic() {
    // the fixed default policy on unit spacing gives p = 9/10
    let s = CubicSmoothingSpline::new(rats(&[1, 2, 3, 4]), arr1(&[1, 2, 3, 4]))
        .make()
        .unwrap();
    assert!(s.smooth().equiv(rq(9, 10)));
}

#[test]
fn evaluate_twice_is_identical() {
    let x = rats(&[1, 2, 3, 4]);
    let s = CubicSmoothingSpline::new(x.clone(), arr1(&[3, 1, 4, 1]))
        .make()
        .unwrap();
    let xi = vec![rq(3, 2), rq(5, 2), ri(0), ri(7)];
    let a = s.evaluate(&xi).unwrap();
    let b = s.evaluate(&xi).unwrap();
    assert_eq!(a.shape, b.shape);
    assert_eq!(a.data, b.data);
}

#[test]
fn configuration_invalidates_spline() {
    let x = rats(&[1, 2, 3, 4]);
    let y = [1i64, 2, 3, 4];

    let s = CubicSmoothingSpline::new(x.clone(), arr1(&y)).make().unwrap();
    let s = s.with_axis(0);
    assert_eq!(s.evaluate(&x).err(), Some(CsapsError::SplineNotComputed));

    let s = CubicSmoothingSpline::new(x.clone(), arr1(&y)).make().unwrap();
    let s = s.with_weights(rats(&[1, 1, 1, 1]));
    assert_eq!(s.evaluate(&x).err(), Some(CsapsError::SplineNotComputed));

    let s = CubicSmoothingSpline::new(x.clone(), arr1(&y)).make().unwrap();
    let s = s.with_smooth(rq(1, 2));
    assert_eq!(s.evaluate(&x).err(), Some(CsapsError::SplineNotComputed));

    // a fresh make after reconfiguration works again
    let s = s.make().unwrap();
    assert!(s.evaluate(&x).is_ok());
}

#[test]
fn evaluate_before_make_fails() {
    let x = rats(&[1, 2, 3, 4]);
    let s = CubicSmoothingSpline::new(x.clone(), arr1(&[1, 2, 3, 4]));
    assert_eq!(s.evaluate(&x).err(), Some(CsapsError::SplineNotComputed));
}

#[test]
fn non_increasing_sites_fail() {
    let y = [1i64, 2, 3, 4];
    let r = CubicSmoothingSpline::new(rats(&[1, 2, 2, 3]), arr1(&y)).make();
    assert_eq!(r.err(), Some(CsapsError::InvalidSites));

    let r = CubicSmoothingSpline::new(rats(&[3, 2, 1]), arr1(&[1, 2, 3])).make();
    assert_eq!(r.err(), Some(CsapsError::InvalidSites));

    let r = CubicSmoothingSpline::new(rats(&[1]), arr1(&[1])).make();
    assert_eq!(r.err(), Some(CsapsError::InvalidSites));
}

#[test]
fn axis_mismatch_fails() {
    let r = CubicSmoothingSpline::new(rats(&[1, 2]), arr1(&[1, 2, 3])).make();
    assert_eq!(r.err(), Some(CsapsError::AxisMismatch));

    let r = CubicSmoothingSpline::new(rats(&[1, 2]), arr1(&[1, 2]))
        .with_axis(5)
        .make();
    assert_eq!(r.err(), Some(CsapsError::AxisMismatch));
}

#[test]
fn weights_mismatch_fails() {
    let r = CubicSmoothingSpline::new(rats(&[1, 2]), arr1(&[1, 2]))
        .with_weights(rats(&[1, 1, 1]))
        .make();
    assert_eq!(r.err(), Some(CsapsError::WeightsMismatch));
}

#[test]
fn smoothing_out_of_range_fails() {
    let r = CubicSmoothingSpline::new(rats(&[1, 2]), arr1(&[1, 2]))
        .with_smooth(rq(3, 2))
        .make();
    assert_eq!(r.err(), Some(CsapsError::InvalidSmoothing));

    let r = CubicSmoothingSpline::new(rats(&[1, 2]), arr1(&[1, 2]))
        .with_smooth(rq(-1, 2))
        .make();
    assert_eq!(r.err(), Some(CsapsError::InvalidSmoothing));
}

#[test]
fn boundary_pieces_extrapolate() {
    // the collinear fit degenerates to the line y = x, which extends past
    // both ends
    let x = rats(&[1, 2, 3, 4]);
    let s = CubicSmoothingSpline::new(x, arr1(&[1, 2, 3, 4])).make().unwrap();
    let out = s.evaluate(&vec![ri(0), ri(7), rq(5, 2)]).unwrap();
    assert!(out.data[0].equiv(ri(0)));
    assert!(out.data[1].equiv(ri(7)));
    assert!(out.data[2].equiv(rq(5, 2)));
}

#[test]
fn axis_zero_fits_columns() {
    // shape [4, 2] with axis 0: the two columns are independent channels
    let x = rats(&[1, 2, 3, 4]);
    let y = RatArray::new(vec![4, 2], rats(&[1, 1, 2, 3, 3, 5, 4, 7])).unwrap();
    let s = CubicSmoothingSpline::new(x.clone(), y)
        .with_axis(0)
        .make()
        .unwrap();
    let cm = s.spline().coeffs();
    assert_eq!(cm.rows, 2);
    assert_eq!(cm.cols, 12);
    let row1 = [0i64, 0, 0, 0, 0, 0, 1, 1, 1, 1, 2, 3];
    let row2 = [0i64, 0, 0, 0, 0, 0, 2, 2, 2, 1, 3, 5];
    for j in 0..12 {
        assert!(cm.get(0, j).equiv(ri(row1[j])));
        assert!(cm.get(1, j).equiv(ri(row2[j])));
    }
    // the result keeps the channel axis and resizes the fitted one
    let out = s.evaluate(&vec![rq(3, 2), ri(4)]).unwrap();
    assert_eq!(out.shape, vec![2, 2]);
    assert!(out.data[0].equiv(rq(3, 2)));
    assert!(out.data[1].equiv(ri(2)));
    assert!(out.data[2].equiv(ri(4)));
    assert!(out.data[3].equiv(ri(7)));
}

#[test]
fn unit_weights_match_default() {
    let x = rats(&[1, 2, 3, 4]);
    let s = CubicSmoothingSpline::new(x.clone(), arr1(&[1, 2, 3, 4]))
        .with_weights(rats(&[1, 1, 1, 1]))
        .make()
        .unwrap();
    let cm = s.spline().coeffs();
    let row = [0i64, 0, 0, 0, 0, 0, 1, 1, 1, 1, 2, 3];
    for j in 0..12 {
        assert!(cm.get(0, j).equiv(ri(row[j])));
    }
}

#[test]
fn zero_weights_are_rejected() {
    let x = rats(&[1, 2, 3, 4]);
    let r = CubicSmoothingSpline::new(x, arr1(&[1, 2, 3, 4]))
        .with_weights(rats(&[0, 0, 0, 0]))
        .make();
    assert_eq!(r.err(), Some(CsapsError::SingularSystem));
}

#[test]
fn rational_arithmetic_is_exact() {
    let a = rq(1, 3);
    let b = rq(1, 6);
    assert!(a.add(b).unwrap().equiv(rq(1, 2)));
    assert!(a.sub(b).unwrap().equiv(rq(1, 6)));
    assert!(a.mul(b).unwrap().equiv(rq(1, 18)));
    assert!(a.div(b).unwrap().equiv(ri(2)));
    assert!(a.neg().equiv(rq(-1, 3)));
    assert!(rq(2, 4) == rq(1, 2));
    assert!(a.lt(rq(1, 2)));
    assert!(a.le(a));
    assert!(ri(0).is_zero());
}
