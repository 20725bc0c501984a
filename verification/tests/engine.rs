use gaussfuse::dist::{multiply_gaussians, DensityValue, Distribution, EngineError};
use gaussfuse::rat::Rat;
use std::f64::consts::PI;

const EPSILON: f64 = 1e-10;
const APPROX_EPSILON: f64 = 1e-6;

fn rat(n: i64, d: i64) -> Rat {
    Rat::new(n, d).unwrap()
}

fn f(r: &Rat) -> f64 {
    r.num as f64 / r.den as f64
}

fn dist(id: u32, name: &str, mean: Rat, sd: Rat) -> Distribution {
    Distribution::new(id, name.to_string(), mean, sd).unwrap()
}

fn density(dv: &DensityValue) -> f64 {
    let sd = f(&dv.std_dev);
    f(&dv.exponent).exp() / (sd * (2.0 * PI).sqrt())
}

fn pdf(d: &Distribution, x: Rat) -> f64 {
    density(&d.evaluate(x).unwrap())
}

fn close(a: f64, b: f64, eps: f64) -> bool {
    (a - b).abs() < eps
}

#[test]
fn test_gaussian_distribution_creation() {
    let d = dist(1, "Test", rat(0, 1), rat(1, 1));
    assert_eq!(d.id, 1);
    assert_eq!(d.name, "Test");
    assert_eq!(f(&d.mean), 0.0);
    assert_eq!(f(&d.std_dev), 1.0);
    assert!(d.parent_ids.is_empty());
    assert!(!d.is_product);
}

#[test]
fn test_gaussian_pdf_evaluation() {
    let d = dist(1, "Standard Normal", rat(0, 1), rat(1, 1));

    let at_mean = pdf(&d, rat(0, 1));
    let expected_at_mean = 1.0 / (2.0 * PI).sqrt();
    assert!(close(at_mean, expected_at_mean, APPROX_EPSILON));

    let at_one_std = pdf(&d, rat(1, 1));
    let expected_at_one_std = (1.0 / (2.0 * PI).sqrt()) * (-0.5_f64).exp();
    assert!(close(at_one_std, expected_at_one_std, APPROX_EPSILON));

    assert!(close(pdf(&d, rat(-1, 1)), pdf(&d, rat(1, 1)), EPSILON));
}

#[test]
fn test_gaussian_pdf_different_parameters() {
    let d = dist(1, "Custom", rat(2, 1), rat(1, 2));

    let at_mean = pdf(&d, rat(2, 1));
    let expected = 1.0 / (0.5 * (2.0 * PI).sqrt());
    assert!(close(at_mean, expected, APPROX_EPSILON));

    assert!(close(pdf(&d, rat(3, 2)), pdf(&d, rat(5, 2)), APPROX_EPSILON));
}

#[test]
fn test_gaussian_multiplication_two_distributions() {
    let d1 = dist(1, "Dist1", rat(0, 1), rat(1, 1));
    let d2 = dist(2, "Dist2", rat(2, 1), rat(1, 1));

    let parents = vec![d1, d2];
    let (mean, variance) = multiply_gaussians(&parents).unwrap();

    assert!(close(f(&mean), 1.0, EPSILON));
    assert!(close(f(&variance), 0.5, EPSILON));
}

#[test]
fn test_gaussian_multiplication_three_distributions() {
    let d1 = dist(1, "D1", rat(0, 1), rat(1, 1));
    let d2 = dist(2, "D2", rat(3, 1), rat(1, 1));
    let d3 = dist(3, "D3", rat(6, 1), rat(2, 1));

    let parents = vec![d1, d2, d3];
    let (mean, variance) = multiply_gaussians(&parents).unwrap();

    assert!(close(f(&mean), 2.0, APPROX_EPSILON));
    assert!(close(f(&variance), 4.0 / 9.0, APPROX_EPSILON));
}

#[test]
fn test_gaussian_multiplication_empty_list() {
    let parents: Vec<Distribution> = vec![];
    let (mean, variance) = multiply_gaussians(&parents).unwrap();
    assert_eq!(f(&mean), 0.0);
    assert_eq!(f(&variance), 1.0);
}

#[test]
fn test_gaussian_product_creation() {
    let d1 = dist(1, "Parent1", rat(1, 1), rat(2, 1));
    let d2 = dist(2, "Parent2", rat(3, 1), rat(1, 1));

    let parents = vec![d1, d2];
    let parent_ids = vec![1, 2];
    let product =
        Distribution::new_product(10, "Product".to_string(), parent_ids.clone(), &parents)
            .unwrap();

    assert_eq!(product.id, 10);
    assert_eq!(product.name, "Product");
    assert_eq!(product.parent_ids, parent_ids);
    assert!(product.is_product);

    assert!(close(f(&product.mean), 2.6, APPROX_EPSILON));
    assert!(close(f(&product.std_dev), (0.8_f64).sqrt(), APPROX_EPSILON));
}

#[test]
fn test_generate_points_basic() {
    let d = dist(1, "Test", rat(0, 1), rat(1, 1));

    let x_values = [rat(-2, 1), rat(-1, 1), rat(0, 1), rat(1, 1), rat(2, 1)];
    let y_values: Vec<f64> = x_values.iter().map(|x| pdf(&d, *x)).collect();

    assert_eq!(y_values.len(), 5);

    for &y in &y_values {
        assert!(y > 0.0);
    }

    assert!(y_values[2] > y_values[0]);
    assert!(y_values[2] > y_values[4]);

    assert!(close(y_values[0], y_values[4], APPROX_EPSILON));
    assert!(close(y_values[1], y_values[3], APPROX_EPSILON));
}

#[test]
fn test_std_markers() {
    let d = dist(1, "Test", rat(5, 1), rat(2, 1));
    let markers = d.get_std_markers().unwrap();

    assert_eq!(markers.len(), 7);

    let expected = vec![-1.0, 1.0, 3.0, 5.0, 7.0, 9.0, 11.0];

    for (i, marker) in markers.iter().enumerate() {
        assert!(close(f(marker), expected[i], EPSILON));
    }
}

#[test]
fn test_very_small_std_dev() {
    let d = dist(1, "Narrow", rat(0, 1), rat(1, 100));
    let at_mean = pdf(&d, rat(0, 1));

    assert!(at_mean > 30.0);

    // integrate over [-1/20, 1/20] with 100 exact grid points
    let num_points: i64 = 100;
    let dx = 0.1 / (num_points - 1) as f64;
    let mut integral = 0.0;

    for i in 0..(num_points - 1) {
        // x_i = -1/20 + i / 990 = (2 i - 99) / 1980
        let x1 = rat(2 * i - 99, 1980);
        let x2 = rat(2 * (i + 1) - 99, 1980);
        let y1 = pdf(&d, x1);
        let y2 = pdf(&d, x2);
        integral += (y1 + y2) * dx * 0.5;
    }

    assert!(integral > 0.8);
}

#[test]
fn test_large_std_dev() {
    let d = dist(1, "Wide", rat(0, 1), rat(10, 1));
    let at_mean = pdf(&d, rat(0, 1));

    assert!(at_mean < 0.05);

    assert!(close(pdf(&d, rat(-5, 1)), pdf(&d, rat(5, 1)), APPROX_EPSILON));
}

#[test]
fn test_mathematical_properties() {
    let d = dist(1, "Original", rat(3, 1), rat(2, 1));
    let parents = vec![d.duplicate(), d];
    let (mean, variance) = multiply_gaussians(&parents).unwrap();

    assert!(close(f(&mean), 3.0, APPROX_EPSILON));
    assert!(close(f(&variance), 2.0, APPROX_EPSILON));
}

#[test]
fn test_precision_edge_case() {
    let high_precision = dist(1, "HP", rat(1, 1), rat(1, 10));
    let low_precision = dist(2, "LP", rat(5, 1), rat(10, 1));

    let parents = vec![high_precision, low_precision];
    let (mean, _variance) = multiply_gaussians(&parents).unwrap();

    assert!(f(&mean) > 1.0);
    assert!(f(&mean) < 1.1);
}

#[test]
fn test_creation_rejects_nonpositive_std_dev() {
    let r = Distribution::new(1, "Bad".to_string(), rat(0, 1), rat(0, 1));
    assert!(matches!(r, Err(EngineError::InvalidParameter)));
    let r2 = Distribution::new(1, "Bad".to_string(), rat(0, 1), rat(-1, 2));
    assert!(matches!(r2, Err(EngineError::InvalidParameter)));
}

#[test]
fn test_evaluate_rejects_nonpositive_std_dev() {
    let mut d = dist(1, "Test", rat(0, 1), rat(1, 1));
    d.std_dev = Rat { num: -1, den: 1 };
    assert!(matches!(d.evaluate(rat(0, 1)), Err(EngineError::InvalidParameter)));
}

#[test]
fn test_markers_overflow_reported() {
    let mut d = dist(1, "Huge", rat(0, 1), rat(1, 1));
    d.mean = Rat { num: i64::MAX, den: 1 };
    assert!(matches!(d.get_std_markers(), Err(EngineError::Overflow)));
}

#[test]
fn test_fusion_pulls_toward_high_precision() {
    // a much narrower belief dominates the fused mean almost completely
    let sharp = dist(1, "Sharp", rat(0, 1), rat(1, 100));
    let broad = dist(2, "Broad", rat(10, 1), rat(10, 1));
    let (mean, variance) = multiply_gaussians(&vec![sharp, broad]).unwrap();
    assert!(f(&mean).abs() < 1e-4);
    assert!(f(&variance) < 1e-4 + 0.0001);
}

#[test]
fn test_fusion_overflow_reported() {
    // two coprime billion-scale deviations make the exact precision sum
    // unrepresentable in 64-bit fractions
    let a = dist(1, "A", rat(0, 1), rat(999999937, 1));
    let b = dist(2, "B", rat(0, 1), rat(999999929, 1));
    let r = multiply_gaussians(&vec![a, b]);
    assert!(matches!(r, Err(EngineError::Overflow)));
}

#[test]
fn test_markers_evenly_spaced_and_centered() {
    let d = dist(1, "Spacing", rat(-7, 2), rat(3, 4));
    let markers = d.get_std_markers().unwrap();
    assert_eq!(markers.len(), 7);
    for i in 0..6 {
        let step = f(&markers[i + 1]) - f(&markers[i]);
        assert!(close(step, 0.75, EPSILON));
        assert!(f(&markers[i]) < f(&markers[i + 1]));
    }
    assert!(close(f(&markers[3]), -3.5, EPSILON));
}
