use pointcloud::transform::{Logarithmic, NewTransform, Normalize, Quantile, TransformationType};

#[test]
fn test_normalize() {
    let data = vec![1_000_000i64, 2_000_000, 3_000_000];
    let mut transform = Normalize::new();
    transform.calibrate(&data);
    assert_eq!(transform.transform(1_000_000), Some(0));
    assert_eq!(transform.transform(2_000_000), Some(500_000));
    assert_eq!(transform.inverse(0), Some(1_000_000));
    assert_eq!(transform.inverse(500_000), Some(2_000_000));
}

#[test]
fn test_logarithmic() {
    let transform = Logarithmic::new();
    assert_eq!(transform.transform(0), None);
    assert_eq!(transform.transform(-5), None);
    // round trip of 123.0: the loss is below one canonical step of the octave
    let v = 123_000_000i64;
    let t = transform.transform(v).unwrap();
    let w = transform.inverse(t).unwrap();
    assert!(v - w >= 0);
    assert!(v - w <= 68);
}

#[test]
fn test_normalized_logarithmic() {
    let data = vec![0i64, 1_000_000, 2_000_000, 3_000_000];
    let mut transform = TransformationType::Logarithmic.to_transform();
    transform.calibrate(&data);
    assert_eq!(transform.transform(0), None);
    assert_eq!(transform.transform(1_000_000), Some(0));
    assert_eq!(transform.transform(3_000_000), Some(1_000_000));
    let v = 123_000_000i64;
    let mut unclamped = TransformationType::Logarithmic.to_transform();
    unclamped.calibrate(&vec![1_000_000i64, 200_000_000]);
    let t = unclamped.transform(v).unwrap();
    let w = unclamped.inverse(t).unwrap();
    assert!((v - w).abs() <= 20_000);
}

#[test]
fn test_quantile() {
    let data = vec![10_000_000i64, 1_000_000, 2_000_000];
    let mut transform = Quantile::new();
    transform.calibrate(&data);
    assert_eq!(transform.transform(0), Some(0));
    assert_eq!(transform.transform(1_000_000), Some(0));
    assert_eq!(transform.transform(1_500_000), Some(250_000));
    assert_eq!(transform.transform(10_000_000), Some(1_000_000));
    let t = transform.transform(3_000_000).unwrap();
    let w = transform.inverse(t).unwrap();
    assert!((w - 3_000_000i64).abs() <= 10);
}

#[test]
fn quantile_transform_is_monotone() {
    let data = vec![5_000_000i64, 1_000_000, 9_000_000, 3_000_000, 7_000_000];
    let mut transform = Quantile::with_size(2);
    transform.calibrate(&data);
    let mut previous = transform.transform(-2_000_000).unwrap();
    let mut x = -2_000_000i64;
    while x <= 11_000_000 {
        let t = transform.transform(x).unwrap();
        assert!(t >= previous);
        previous = t;
        x += 250_000;
    }
}

#[test]
fn transformation_type_names() {
    assert_eq!(TransformationType::Linear.text(), "Linear");
    assert_eq!(TransformationType::from_text("Quantile"), Some(TransformationType::Quantile));
    assert_eq!(TransformationType::from_text("Nonsense"), None);
}
