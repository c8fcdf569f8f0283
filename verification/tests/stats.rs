use pointcloud::highlight::HighlightFilterVariants;
use pointcloud::measures::NumericStatistics;
use pointcloud::pipeline::{Pipeline, HIGHLIGHTED};
use pointcloud::pointdata::PointData;

const UNIT: i64 = 1_000_000;

#[test]
fn merge_agrees_with_accumulating_at_once() {
    let chunk1 = vec![1 * UNIT, 2 * UNIT];
    let chunk2 = vec![3 * UNIT, -1 * UNIT];
    let mut a1 = NumericStatistics::new();
    a1.add(&chunk1);
    let mut a2 = NumericStatistics::new();
    a2.add(&chunk2);
    a1.add_analyzer(&a2);
    let mut whole = NumericStatistics::new();
    whole.add(&vec![1 * UNIT, 2 * UNIT, 3 * UNIT, -1 * UNIT]);
    assert_eq!(a1.sum_of_values, whole.sum_of_values);
    assert_eq!(a1.sum_of_values2, whole.sum_of_values2);
    assert_eq!(a1.sum_of_values3, whole.sum_of_values3);
    assert_eq!(a1.sum_of_values4, whole.sum_of_values4);
    assert_eq!(a1.sum_of_weights, whole.sum_of_weights);
    assert_eq!(a1.count, whole.count);
    assert_eq!(a1.minimum, whole.minimum);
    assert_eq!(a1.maximum, whole.maximum);
}

#[test]
fn merge_is_associative_and_commutative() {
    let mut a = NumericStatistics::new();
    a.add(&vec![1 * UNIT]);
    let mut b = NumericStatistics::new();
    b.add(&vec![2 * UNIT, 5 * UNIT]);
    let mut c = NumericStatistics::new();
    c.add(&vec![-3 * UNIT]);
    // (a + b) + c
    let mut left = NumericStatistics::new();
    left.add_analyzer(&a);
    left.add_analyzer(&b);
    left.add_analyzer(&c);
    // a + (c + b)
    let mut inner = NumericStatistics::new();
    inner.add_analyzer(&c);
    inner.add_analyzer(&b);
    let mut right = NumericStatistics::new();
    right.add_analyzer(&a);
    right.add_analyzer(&inner);
    assert_eq!(left.sum_of_values, right.sum_of_values);
    assert_eq!(left.sum_of_values4, right.sum_of_values4);
    assert_eq!(left.sum_of_weights, right.sum_of_weights);
    assert_eq!(left.minimum, right.minimum);
    assert_eq!(left.maximum, right.maximum);
}

#[test]
fn derived_measures_on_a_small_sample() {
    let mut stat = NumericStatistics::new();
    stat.add(&vec![1 * UNIT, 2 * UNIT, 3 * UNIT]);
    assert_eq!(stat.count, 3);
    assert_eq!(stat.minimum, Some(1 * UNIT));
    assert_eq!(stat.maximum, Some(3 * UNIT));
    assert_eq!(stat.mean(), Some(2 * UNIT));
    // variance of {1, 2, 3} is 2/3, truncated in micro-units
    assert_eq!(stat.variance(), Some(666_666));
    // standard deviation is the floor square root of the rescaled variance
    assert_eq!(stat.stddev(), Some(816_496));
}

#[test]
fn empty_accumulator_has_no_measures() {
    let stat = NumericStatistics::new();
    assert_eq!(stat.mean(), None);
    assert_eq!(stat.variance(), None);
    assert_eq!(stat.stddev(), None);
    assert_eq!(stat.skewness(), None);
    assert_eq!(stat.kurtosis(), None);
}

#[test]
fn weighted_selection_skips_out_of_range_rows() {
    let values = vec![1 * UNIT, 2 * UNIT, 3 * UNIT];
    let weights = vec![UNIT, UNIT, UNIT];
    let mut stat = NumericStatistics::new();
    stat.add_weighted_selection(&values, &weights, &vec![0usize, 2, 99]);
    assert_eq!(stat.count, 2);
    assert_eq!(stat.minimum, Some(1 * UNIT));
    assert_eq!(stat.maximum, Some(3 * UNIT));
    assert_eq!(stat.mean(), Some(2 * UNIT));
}

#[test]
fn symmetric_sample_has_zero_skewness() {
    let mut stat = NumericStatistics::new();
    stat.add(&vec![-1 * UNIT, 0, 1 * UNIT]);
    assert_eq!(stat.mean(), Some(0));
    assert_eq!(stat.skewness(), Some(0));
}

#[test]
fn selection_restricts_the_statistics_block() {
    let headers = vec!["x".to_string()];
    let records = vec![
        vec!["1".to_string()],
        vec!["2".to_string()],
        vec!["3".to_string()],
        vec!["4".to_string()],
    ];
    let data = PointData::from_records(&headers, records);
    let above = HighlightFilterVariants::GreaterThan("x".to_string(), 2_500_000);
    let bv = above.filter(&data);
    let mut pipeline = Pipeline::new();
    pipeline.load(data);
    let table = pipeline.statistics_table(HIGHLIGHTED, Some(&bv));
    // only the rows above the threshold contribute
    assert_eq!(table[2][0], "2");
    assert_eq!(table[2][1], "3");
    assert_eq!(table[2][2], "4");
    assert_eq!(table[2][3], "3.5");
}
