use amescii::ieee::{Double, Single};

fn s(x: f32) -> Single {
    Single::from_bits(x.to_bits())
}

fn d(x: f64) -> Double {
    Double::from_bits(x.to_bits())
}

const SINGLES: [f32; 16] = [
    0.0,
    -0.0,
    1.0,
    -1.0,
    0.1,
    -0.1,
    f32::MIN_POSITIVE,
    1.0e-45,
    -1.0e-45,
    f32::MAX,
    f32::MIN,
    f32::INFINITY,
    f32::NEG_INFINITY,
    f32::NAN,
    80.0,
    79.999,
];

#[test]
fn singles_compare_as_numbers() {
    for a in SINGLES {
        for b in SINGLES {
            assert_eq!(s(a).lt(s(b)), a < b, "{a} < {b}");
            assert_eq!(s(a).le(s(b)), a <= b, "{a} <= {b}");
            assert_eq!(s(a).eq_num(s(b)), a == b, "{a} == {b}");
        }
        assert_eq!(s(a).is_nan(), a.is_nan());
        assert_eq!(s(a).is_finite(), a.is_finite());
    }
}

#[test]
fn doubles_compare_as_numbers() {
    let all = [
        0.0,
        -0.0,
        1.0,
        -1.0,
        85.0,
        -85.0,
        180.0,
        5.0e-324,
        -5.0e-324,
        f64::MIN_POSITIVE,
        f64::MAX,
        f64::MIN,
        f64::INFINITY,
        f64::NEG_INFINITY,
        f64::NAN,
    ];
    for a in all {
        for b in all {
            assert_eq!(d(a).lt(d(b)), a < b, "{a} < {b}");
        }
        assert_eq!(d(a).is_nan(), a.is_nan());
    }
}
