use sonny::math_utils::kinematics_math::{approx_eq, Matrix3, Quaternion, Vector3, EPSILON};
use sonny::numeric::binary32::Binary32;
use sonny::numeric::binary64::Binary64;
use sonny::numeric::parse_text::{parse_bounded, parse_index, parse_number, trim};
use sonny::text::{has_word, is_blank, lowered_chars, signed_string};

fn num(x: f32) -> Binary32 {
    Binary32::from_bits(x.to_bits())
}

fn val(x: Binary32) -> f32 {
    f32::from_bits(x.to_bits())
}

fn double(x: f64) -> Binary64 {
    Binary64::from_bits(x.to_bits())
}

/// Numbers of every size, and bit patterns from a generator with a fixed seed.
fn samples() -> Vec<f32> {
    let mut v = vec![
        0.0,
        -0.0,
        1.0,
        -1.0,
        0.1,
        -0.3,
        3.1415927,
        1e-45,
        -1e-45,
        1.1754942e-38,
        1.1754944e-38,
        3.4028235e38,
        -3.4028235e38,
        f32::INFINITY,
        f32::NEG_INFINITY,
        f32::NAN,
        16777216.0,
        16777217.0,
        0.5,
        0.0000005,
        0.00000050000006,
        2.5,
        1e10,
        123456.79,
    ];
    let mut seed: u64 = 42;
    for _ in 0..40 {
        seed = seed.wrapping_mul(6364136223846793005).wrapping_add(1442695040888963407);
        v.push(f32::from_bits((seed >> 32) as u32));
        v.push(((seed >> 40) as f32 - 8388608.0) / 65536.0);
    }
    v
}

fn same(a: Binary32, b: f32) -> bool {
    if b.is_nan() {
        a.is_nan()
    } else {
        a.to_bits() == b.to_bits()
    }
}

#[test]
fn arithmetic_agrees_with_the_processor() {
    let v = samples();
    for &a in &v {
        for &b in &v {
            assert!(same(num(a).plus(num(b)), a + b), "{} + {}", a, b);
            assert!(same(num(a).minus(num(b)), a - b), "{} - {}", a, b);
            assert!(same(num(a).times(num(b)), a * b), "{} * {}", a, b);
            assert!(same(num(a).divided_by(num(b)), a / b), "{} / {}", a, b);
            assert_eq!(num(a).less_than(num(b)), a < b);
            assert_eq!(num(a).at_most(num(b)), a <= b);
            assert_eq!(num(a).equals(num(b)), a == b);
            if !(a == 0.0 && b == 0.0) {
                assert!(same(num(a).larger(num(b)), a.max(b)));
                assert!(same(num(a).smaller(num(b)), a.min(b)));
            }
        }
        assert!(same(num(a).square_root(), a.sqrt()), "root of {}", a);
        assert!(same(num(a).absolute_value(), a.abs()));
        assert!(same(num(a).negated(), -a));
        assert_eq!(num(a).is_finite(), a.is_finite());
        assert_eq!(num(a).is_nan(), a.is_nan());
        assert_eq!(num(a).is_infinite(), a.is_infinite());
        assert_eq!(num(a).to_le_bytes(), a.to_le_bytes());
        let b = a.to_le_bytes();
        assert_eq!(Binary32::from_le_bytes(b[0], b[1], b[2], b[3]), num(a));
    }
}

#[test]
fn whole_numbers_are_rounded_to_the_nearest() {
    for n in [0u64, 1, 7, 255, 16777217, 16777219, 33554435, u64::MAX, 1 << 63, 65535] {
        assert_eq!(val(Binary32::from_whole(n)), n as f32);
        assert_eq!(f64::from_bits(Binary64::from_whole(n).to_bits()), n as f64);
    }
}

#[test]
fn doubles_divide_and_truncate_as_the_processor_does() {
    let v = [0.0, 1.0, 3.0, 1e6, 1000.0, 100.0, 1e-300, 5e-324, f64::MAX, f64::INFINITY, -2.5];
    for a in v {
        for b in v {
            let q = double(a).divided_by(double(b));
            let want: f64 = a / b;
            if want.is_nan() {
                assert!(q.is_nan());
            } else {
                assert_eq!(q.to_bits(), want.to_bits(), "{} / {}", a, b);
            }
        }
        assert_eq!(double(a).to_whole(), a as u64);
        assert_eq!(double(a).narrow().to_bits(), (a as f32).to_bits());
    }
    assert_eq!(double(f64::NAN).to_whole(), 0);
    assert!(double(f64::NAN).narrow().is_nan());
}

#[test]
fn numbers_are_written_with_decimals() {
    for x in samples() {
        for p in [1u32, 2, 3, 6] {
            let mut out = Vec::new();
            num(x).push_text(&mut out, p);
            assert_eq!(String::from_utf8(out).unwrap(), format!("{:.*}", p as usize, x));
            let mut out = Vec::new();
            double(x as f64).push_text(&mut out, p);
            assert_eq!(String::from_utf8(out).unwrap(), format!("{:.*}", p as usize, x as f64));
        }
    }
}

#[test]
fn numbers_are_read_as_the_nearest() {
    let texts = [
        "0", "-0", "1", "+1.5", "-.5", "5.", ".", "", "+", "-", "1e", "1e5", "1E-5", "1e+05", "inf",
        "-inf", "Infinity", "nan", "NaN", "-NAN", "1.2.3", "1 ", " 1", "0x10", "1e400", "-1e400",
        "1e-400", "16777217", "16777219", "3.4028236e38", "3.4028235677973366e38", "1.0e-45",
        "7.006492321624085e-46", "7.006492321624086e-46", "0.000000000000000000000000000000000000000000001",
        "123456789012345678901234567890", "0.1", "1e99999999999999999999", "1e-99999999999999999999",
        "0e99999999999999999999", "00000000000000000000001.5", "infin", "e5", "--1", "1-", "1,5",
    ];
    for t in texts {
        let want = t.parse::<f32>().ok();
        let got = parse_number(t.as_bytes());
        match (got, want) {
            (Some(g), Some(w)) => assert!(same(g, w), "{}", t),
            (None, None) => {}
            (g, w) => panic!("{}: {:?} {:?}", t, g, w),
        }
    }
}

#[test]
fn a_number_reads_back_from_its_text() {
    for x in samples() {
        let mut out = Vec::new();
        num(x).push_text(&mut out, 6);
        let want: f32 = format!("{:.6}", x).parse().unwrap();
        assert!(same(parse_number(&out).unwrap(), want), "{}", x);
    }
}

#[test]
fn whole_numbers_are_read_within_bounds() {
    for t in ["0", "7", "+12", "-1", "", "+", "4294967295", "4294967296", "12a", "007", " 1"] {
        assert_eq!(parse_bounded(t.as_bytes(), u32::MAX as u64), t.parse::<u32>().ok().map(|n| n as u64));
        assert_eq!(parse_index(t.as_bytes()), t.parse::<usize>().ok());
    }
    assert_eq!(parse_index(b"99999999999999999999999"), None);
}

#[test]
fn white_space_is_trimmed() {
    for t in ["", " ", "\t a b \r\n", "\u{a0}x\u{3000}", "\u{2003}\u{85}y", "z"] {
        assert_eq!(trim(t.as_bytes()), t.trim().as_bytes());
        assert_eq!(is_blank(t), t.trim().is_empty());
    }
}

#[test]
fn words_are_found_in_lower_case() {
    let s = lowered_chars("Universal ROBOTS É");
    assert_eq!(s.iter().collect::<String>(), "Universal ROBOTS É".to_ascii_lowercase());
    assert!(has_word(&s, "robots"));
    assert!(has_word(&s, ""));
    assert!(!has_word(&s, "robotsx"));
    assert!(!has_word(&vec![], "a"));
}

#[test]
fn a_sign_is_shown_also_where_it_is_positive() {
    for x in [0.0f32, -0.0, 1.5, -1.5, 0.0005, f32::INFINITY, f32::NAN, -123.4567] {
        assert_eq!(signed_string(num(x), 3), format!("{:+.3}", x));
    }
}

fn vector(x: f32, y: f32, z: f32) -> Vector3 {
    Vector3::new(num(x), num(y), num(z))
}

fn floats(v: &Vector3) -> [f32; 3] {
    [val(v.x), val(v.y), val(v.z)]
}

#[test]
fn vectors_are_computed_to_the_last_bit() {
    let a = vector(0.1, -2.3, 4.7);
    let b = vector(1.9, 0.02, -3.3);
    assert_eq!(val(a.dot(&b)), 0.1f32 * 1.9 + -2.3f32 * 0.02 + 4.7f32 * -3.3);
    assert_eq!(
        floats(&a.cross(&b)),
        [
            -2.3f32 * -3.3 - 4.7f32 * 0.02,
            4.7f32 * 1.9 - 0.1f32 * -3.3,
            0.1f32 * 0.02 - -2.3f32 * 1.9
        ]
    );
    let n = (0.1f32 * 0.1 + -2.3f32 * -2.3 + 4.7f32 * 4.7).sqrt();
    assert_eq!(val(a.norm()), n);
    assert_eq!(floats(&a.normalized()), [0.1 * (1.0 / n), -2.3 * (1.0 / n), 4.7 * (1.0 / n)]);
    assert_eq!(floats(&(a + b)), [0.1f32 + 1.9, -2.3f32 + 0.02, 4.7f32 + -3.3]);
    assert_eq!(floats(&(a - b)), [0.1f32 - 1.9, -2.3f32 - 0.02, 4.7f32 - -3.3]);
    assert_eq!(floats(&(a * num(3.0))), [0.1f32 * 3.0, -2.3f32 * 3.0, 4.7f32 * 3.0]);
    assert_eq!(val(a.dot(&b)), val(b.dot(&a)));
    assert_eq!(floats(&b.cross(&a)), floats(&a.cross(&b)).map(|x| -x));
    assert_eq!(a.to_array(), [num(0.1), num(-2.3), num(4.7)]);
    assert!(vector(0.0, 1.0, 2.0) == vector(-0.0, 1.0, 2.0));
    assert!(vector(f32::NAN, 0.0, 0.0) != vector(f32::NAN, 0.0, 0.0));
}

#[test]
fn a_vanishing_vector_has_no_direction() {
    let tiny = vector(1e-8, 0.0, 0.0);
    assert_eq!(floats(&tiny.normalized()), [0.0, 0.0, 0.0]);
    assert_eq!(floats(&Vector3::zero()), [0.0, 0.0, 0.0]);
    assert_eq!(f32::from_bits(EPSILON), 1e-6);
    assert!(approx_eq(num(1.0), num(1.0000005)));
    assert!(!approx_eq(num(1.0), num(1.00001)));
}

#[test]
fn matrices_rotate_vectors() {
    let angle = std::f32::consts::FRAC_PI_2;
    let m = Matrix3::rotation_z(num(angle.cos()), num(angle.sin()));
    let r = floats(&m.mul_vector(&vector(1.0, 0.0, 0.0)));
    assert!((r[0]).abs() < 1e-6 && (r[1] - 1.0).abs() < 1e-6 && r[2] == 0.0);
    let m = Matrix3::rotation_x(num(angle.cos()), num(angle.sin()));
    let r = floats(&m.mul_vector(&vector(0.0, 1.0, 0.0)));
    assert!((r[2] - 1.0).abs() < 1e-6 && r[1].abs() < 1e-6);
    let m = Matrix3::rotation_y(num(angle.cos()), num(angle.sin()));
    let r = floats(&m.mul_vector(&vector(0.0, 0.0, 1.0)));
    assert!((r[0] - 1.0).abs() < 1e-6 && r[2].abs() < 1e-6);
    let i = Matrix3::identity();
    assert!(i * i == i);
    assert_eq!(floats(&i.mul_vector(&vector(0.1, 0.2, 0.3))), [0.1, 0.2, 0.3]);
    let a = Matrix3::new([
        [num(1.0), num(2.0), num(3.0)],
        [num(4.0), num(5.0), num(6.0)],
        [num(7.0), num(8.0), num(9.0)],
    ]);
    let p = a * a;
    assert_eq!(val(p.data[0][0]), 30.0);
    assert_eq!(val(p.data[1][2]), 96.0);
    assert_eq!(val(p.data[2][1]), 126.0);
}

#[test]
fn quaternions_rotate_vectors() {
    let half = Quaternion::half_angle(num(std::f32::consts::PI));
    let h = val(half);
    assert_eq!(h, std::f32::consts::PI * 0.5);
    let q = Quaternion::from_axis_angle(&vector(0.0, 0.0, 2.0), num(h.cos()), num(h.sin()));
    let r = floats(&q.rotate_vector(&vector(1.0, 0.0, 0.0)));
    assert!((r[0] + 1.0).abs() < 1e-5 && r[1].abs() < 1e-5);
    let m = floats(&q.to_matrix().mul_vector(&vector(1.0, 0.0, 0.0)));
    assert!((m[0] + 1.0).abs() < 1e-5);
    assert!((val(q.norm()) - 1.0).abs() < 1e-6);
    let e = Quaternion::identity();
    assert!(e * e == e);
    assert!(q.conjugate().conjugate() == q);
    let back = q * q.inverse();
    assert!(approx_eq(back.w, num(1.0)) && approx_eq(back.x, num(0.0)));
    let s = Quaternion::new(num(2.0), num(0.0), num(0.0), num(0.0));
    assert!(s.normalized() == e);
    let p = Quaternion::new(num(0.0), num(1.0), num(0.0), num(0.0))
        * Quaternion::new(num(0.0), num(0.0), num(1.0), num(0.0));
    assert!(p == Quaternion::new(num(0.0), num(0.0), num(0.0), num(1.0)));
}
