use gaussfuse::dist::{Distribution, DensityValue, EngineError};
use gaussfuse::rat::Rat;
use gaussfuse::sampler::{curve_points, fill_polygon, PolyHeight};
use std::f64::consts::PI;

const EPSILON: f64 = 1e-10;

fn rat(n: i64, d: i64) -> Rat {
    Rat::new(n, d).unwrap()
}

fn f(r: &Rat) -> f64 {
    r.num as f64 / r.den as f64
}

fn dist(id: u32, name: &str, mean: Rat, sd: Rat) -> Distribution {
    Distribution::new(id, name.to_string(), mean, sd).unwrap()
}

fn density(dv: &DensityValue) -> f64 {
    let sd = f(&dv.std_dev);
    f(&dv.exponent).exp() / (sd * (2.0 * PI).sqrt())
}

fn pdf(d: &Distribution, x: Rat) -> f64 {
    density(&d.evaluate(x).unwrap())
}

/// The corner-padded curve sampling some of the reference scenarios build
/// by hand: corner, `n` curve samples (inclusive spacing), corner.
fn padded_curve(d: &Distribution, x_min: Rat, x_max: Rat, n: usize) -> Vec<[f64; 2]> {
    let curve = curve_points(d, x_min, x_max, n).unwrap();
    let mut points = Vec::with_capacity(n + 2);
    points.push([f(&x_min), 0.0]);
    for p in &curve {
        points.push([f(&p.x), density(&p.y)]);
    }
    points.push([f(&x_max), 0.0]);
    points
}

#[test]
fn test_generate_shading_polygon() {
    let d = dist(1, "Test", rat(0, 1), rat(1, 1));

    let num_points = 5;
    let expected_points = padded_curve(&d, rat(-2, 1), rat(2, 1), num_points);

    assert_eq!(expected_points.len(), num_points + 2);

    assert!((expected_points[0][0] - -2.0).abs() < EPSILON);
    assert!((expected_points[0][1] - 0.0).abs() < EPSILON);

    let last_idx = expected_points.len() - 1;
    assert!((expected_points[last_idx][0] - 2.0).abs() < EPSILON);
    assert!((expected_points[last_idx][1] - 0.0).abs() < EPSILON);

    for i in 1..expected_points.len() - 1 {
        let point = expected_points[i];
        assert!(point[1] > 0.0, "Point {} should be above x-axis, got y={}", i, point[1]);
        assert!(
            point[0] >= -2.0 && point[0] <= 2.0,
            "Point {} x-coordinate should be in range",
            i
        );
    }

    for i in 1..expected_points.len() {
        assert!(
            expected_points[i][0] >= expected_points[i - 1][0],
            "Points should be ordered by x-coordinate"
        );
    }

    let center_idx = expected_points.len() / 2;
    let center_y = expected_points[center_idx][1];
    let edge_y = expected_points[1][1];
    assert!(center_y >= edge_y, "Center of distribution should be at least as high as edges");
}

#[test]
fn test_shading_polygon_different_distributions() {
    let distributions = vec![
        dist(1, "Narrow", rat(0, 1), rat(1, 2)),
        dist(2, "Wide", rat(0, 1), rat(2, 1)),
        dist(3, "Shifted", rat(3, 1), rat(1, 1)),
    ];

    let num_points = 100;

    for d in &distributions {
        let expected_points = padded_curve(d, rat(-6, 1), rat(6, 1), num_points);

        assert_eq!(expected_points.len(), num_points + 2);

        assert!((expected_points[0][1] - 0.0).abs() < EPSILON);
        assert!((expected_points[expected_points.len() - 1][1] - 0.0).abs() < EPSILON);

        let max_y = expected_points.iter().map(|p| p[1]).fold(0.0, f64::max);
        let expected_max_y = pdf(d, d.mean);

        let tolerance = expected_max_y * 0.01;
        assert!(
            (max_y - expected_max_y).abs() < tolerance,
            "Distribution {}: polygon max y={:.6}, expected max y={:.6}",
            d.name,
            max_y,
            expected_max_y
        );
    }
}

#[test]
fn test_shading_polygon_edge_cases() {
    let d = dist(1, "Test", rat(0, 1), rat(1, 1));

    let points = fill_polygon(&d, rat(-1, 1), rat(1, 1), 2).unwrap();
    assert_eq!(points.len(), 4);

    let points = fill_polygon(&d, rat(-10, 1), rat(10, 1), 1000).unwrap();
    assert_eq!(points.len(), 1002);

    let points = fill_polygon(&d, rat(-1, 1), rat(1, 1), 1).unwrap();
    assert_eq!(points.len(), 3);

    for test_points in [2usize, 1000, 1] {
        let mut expected_points: Vec<[f64; 2]> = Vec::with_capacity(test_points + 2);
        expected_points.push([-2.0, 0.0]);

        if test_points == 1 {
            let x = rat(0, 1);
            expected_points.push([f(&x), pdf(&d, x)]);
        } else {
            let m = (test_points - 1) as i64;
            for i in 0..test_points as i64 {
                // x_i = -2 + 4 i / m
                let x = rat(-2 * m + 4 * i, m);
                expected_points.push([f(&x), pdf(&d, x)]);
            }
        }
        expected_points.push([2.0, 0.0]);

        assert!((expected_points[0][1] - 0.0).abs() < EPSILON);
        assert!((expected_points[expected_points.len() - 1][1] - 0.0).abs() < EPSILON);

        for i in 0..expected_points.len() {
            assert!(
                expected_points[i][1] >= 0.0,
                "Point {} has negative y value: ({}, {}) for test_points={}",
                i,
                expected_points[i][0],
                expected_points[i][1],
                test_points
            );
        }
    }
}

#[test]
fn test_shading_polygon_area_approximation() {
    let d = dist(1, "Test", rat(0, 1), rat(1, 1));

    let num_points: i64 = 1000;
    let m = num_points - 1;

    let mut expected_points: Vec<[f64; 2]> = Vec::with_capacity(num_points as usize + 2);
    expected_points.push([-3.0, 0.0]);
    for i in 0..num_points {
        // x_i = -3 + 6 i / m
        let x = rat(-3 * m + 6 * i, m);
        expected_points.push([f(&x), pdf(&d, x)]);
    }
    expected_points.push([3.0, 0.0]);

    let mut polygon_area = 0.0;
    for i in 0..expected_points.len() - 1 {
        let x1 = expected_points[i][0];
        let y1 = expected_points[i][1];
        let x2 = expected_points[i + 1][0];
        let y2 = expected_points[i + 1][1];
        polygon_area += (x2 - x1) * (y1 + y2) * 0.5;
    }

    let mut theoretical_area = 0.0;
    for i in 0..(num_points - 1) {
        let x1 = rat(-3 * m + 6 * i, m);
        let x2 = rat(-3 * m + 6 * (i + 1), m);
        let y1 = pdf(&d, x1);
        let y2 = pdf(&d, x2);
        theoretical_area += (f(&x2) - f(&x1)) * (y1 + y2) * 0.5;
    }

    let relative_error = (polygon_area - theoretical_area).abs() / theoretical_area;
    assert!(
        relative_error < 0.01,
        "Polygon area {:.6} should closely match theoretical area {:.6}, relative error: {:.6}",
        polygon_area,
        theoretical_area,
        relative_error
    );

    assert!(theoretical_area > 0.995, "Should capture most of the distribution area");
    assert!(polygon_area > 0.995, "Polygon should capture most of the distribution area");
}

#[test]
fn test_shading_polygon_product_distributions() {
    let parent1 = dist(1, "Parent1", rat(-1, 1), rat(1, 1));
    let parent2 = dist(2, "Parent2", rat(1, 1), rat(1, 1));

    let parents = vec![parent1, parent2];
    let product =
        Distribution::new_product(3, "Product".to_string(), vec![1, 2], &parents).unwrap();

    let num_points = 100;
    let expected_points = padded_curve(&product, rat(-4, 1), rat(4, 1), num_points);

    assert_eq!(expected_points.len(), num_points + 2);

    assert!((expected_points[0][1] - 0.0).abs() < EPSILON);
    assert!((expected_points[expected_points.len() - 1][1] - 0.0).abs() < EPSILON);

    for i in 1..expected_points.len() - 1 {
        assert!(expected_points[i][1] > 0.0);
    }

    let max_y = expected_points.iter().map(|p| p[1]).fold(0.0, f64::max);
    let expected_max_y = pdf(&product, product.mean);
    let tolerance = expected_max_y * 0.05;

    assert!(
        (max_y - expected_max_y).abs() < tolerance,
        "Product distribution polygon max should be close to theoretical max"
    );
}

#[test]
fn test_shading_consistency_with_curve_points() {
    let d = dist(1, "Test", rat(2, 1), rat(3, 2));

    let num_points = 50;
    let curve = curve_points(&d, rat(-2, 1), rat(6, 1), num_points).unwrap();
    let expected_curve_points: Vec<[f64; 2]> =
        curve.iter().map(|p| [f(&p.x), density(&p.y)]).collect();

    let expected_polygon_points = padded_curve(&d, rat(-2, 1), rat(6, 1), num_points);

    assert_eq!(expected_polygon_points.len(), expected_curve_points.len() + 2);

    for i in 0..expected_curve_points.len() {
        let curve_point = expected_curve_points[i];
        let polygon_point = expected_polygon_points[i + 1];

        assert!((curve_point[0] - polygon_point[0]).abs() < EPSILON);
        assert!((curve_point[1] - polygon_point[1]).abs() < EPSILON);
    }
}

#[test]
fn test_shading_polygon_no_duplicate_boundary_points() {
    let d = dist(1, "Test", rat(0, 1), rat(1, 1));

    let num_points = 5;
    let polygon = fill_polygon(&d, rat(-2, 1), rat(2, 1), num_points).unwrap();
    let expected_points: Vec<[f64; 2]> = polygon
        .iter()
        .map(|v| {
            let y = match &v.y {
                PolyHeight::Zero => 0.0,
                PolyHeight::Curve(dv) => density(dv),
            };
            [f(&v.x), y]
        })
        .collect();

    assert_eq!(expected_points.len(), num_points + 2);

    for i in 1..expected_points.len() {
        assert!(
            expected_points[i][0] > expected_points[i - 1][0],
            "Point {} x-coord ({}) should be greater than previous point x-coord ({})",
            i,
            expected_points[i][0],
            expected_points[i - 1][0]
        );
    }

    assert!((expected_points[0][0] - -2.0).abs() < EPSILON);
    assert!((expected_points[0][1] - 0.0).abs() < EPSILON);

    let last_idx = expected_points.len() - 1;
    assert!((expected_points[last_idx][0] - 2.0).abs() < EPSILON);
    assert!((expected_points[last_idx][1] - 0.0).abs() < EPSILON);

    for i in 1..expected_points.len() - 1 {
        let x = expected_points[i][0];
        assert!(
            x > -2.0 && x < 2.0,
            "Curve point {} x-coordinate should be strictly between boundaries",
            i
        );
        assert!(expected_points[i][1] > 0.0, "Curve point {} should be above x-axis", i);
    }

    let single = fill_polygon(&d, rat(-2, 1), rat(2, 1), 1).unwrap();
    assert_eq!(single.len(), 3);
    assert!(f(&single[1].x) > -2.0 && f(&single[1].x) < 2.0);
    match &single[1].y {
        PolyHeight::Curve(dv) => assert!(density(dv) > 0.0),
        PolyHeight::Zero => panic!("midpoint vertex must sit on the curve"),
    }
}

#[test]
fn test_curve_endpoints_and_length() {
    let d = dist(1, "Ends", rat(1, 2), rat(1, 1));
    let curve = curve_points(&d, rat(-1, 1), rat(3, 1), 7).unwrap();
    assert_eq!(curve.len(), 7);
    assert_eq!(curve[0].x.num * 1, -1 * curve[0].x.den);
    assert_eq!(curve[6].x.num * 1, 3 * curve[6].x.den);
    for i in 0..6 {
        assert!(f(&curve[i].x) < f(&curve[i + 1].x));
    }
}

#[test]
fn test_curve_rejects_small_sample_count() {
    let d = dist(1, "Few", rat(0, 1), rat(1, 1));
    assert!(matches!(
        curve_points(&d, rat(-1, 1), rat(1, 1), 1),
        Err(EngineError::InvalidSampleCount)
    ));
    assert!(matches!(
        curve_points(&d, rat(-1, 1), rat(1, 1), 0),
        Err(EngineError::InvalidSampleCount)
    ));
}

#[test]
fn test_fill_and_curve_use_different_spacings() {
    let d = dist(1, "Spacing", rat(0, 1), rat(1, 1));
    let n = 5;
    let fill = fill_polygon(&d, rat(-2, 1), rat(2, 1), n).unwrap();
    let curve = curve_points(&d, rat(-2, 1), rat(2, 1), n).unwrap();

    // interior fill vertex i sits at -2 + 4 i / (n + 1); the curve sample i
    // sits at -2 + 4 i / (n - 1): strictly to its right for 1 <= i <= n - 1
    for i in 1..n {
        let fx = f(&fill[i].x);
        let expected_fill = -2.0 + 4.0 * i as f64 / (n + 1) as f64;
        assert!((fx - expected_fill).abs() < EPSILON);
        let cx = f(&curve[i].x);
        let expected_curve = -2.0 + 4.0 * i as f64 / (n - 1) as f64;
        assert!((cx - expected_curve).abs() < EPSILON);
        assert!(fx < cx);
    }
    // and the fill vertices lie exactly on the density curve
    for i in 1..=n {
        match &fill[i].y {
            PolyHeight::Curve(dv) => {
                assert!((density(dv) - pdf(&d, fill[i].x)).abs() < EPSILON);
            }
            PolyHeight::Zero => panic!("interior vertex must sit on the curve"),
        }
    }
}
