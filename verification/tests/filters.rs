use pointcloud::column_filter::{ColumnFilter, Interpretation, Operator};
use pointcloud::highlight::{CombinedHighlightFilter, HighlightFilterVariants};
use pointcloud::pointdata::PointData;

fn band_table() -> PointData {
    let headers = vec!["x".to_string()];
    let records = vec![
        vec!["0.4".to_string()],
        vec!["0.8".to_string()],
        vec!["1.2".to_string()],
        vec!["1.6".to_string()],
    ];
    PointData::from_records(&headers, records)
}

#[test]
fn band_selects_the_inner_rows() {
    let data = band_table();
    let filter = HighlightFilterVariants::Band("x".to_string(), 1_000_000, 500_000);
    let bv = filter.filter(&data);
    assert!(!bv.contains(0));
    assert!(bv.contains(1));
    assert!(bv.contains(2));
    assert!(!bv.contains(3));
}

#[test]
fn combinator_intersects_and_unions() {
    let data = band_table();
    let above = HighlightFilterVariants::GreaterThan("x".to_string(), 500_000);
    let below = HighlightFilterVariants::LessThan("x".to_string(), 1_500_000);
    let both = CombinedHighlightFilter {
        operator: Operator::And,
        filters: vec![above.clone_leaf(), below.clone_leaf()],
    };
    let bv = both.filter(&data);
    assert!(!bv.contains(0));
    assert!(bv.contains(1));
    assert!(bv.contains(2));
    assert!(!bv.contains(3));
    let either = CombinedHighlightFilter {
        operator: Operator::Or,
        filters: vec![above, below],
    };
    let bv2 = either.filter(&data);
    assert!(bv2.contains(0));
    assert!(bv2.contains(1));
    assert!(bv2.contains(2));
    assert!(bv2.contains(3));
}

#[test]
fn empty_combinator_selects_all_under_and_none_under_or() {
    let data = band_table();
    let everything = CombinedHighlightFilter { operator: Operator::And, filters: Vec::new() };
    let bv = everything.filter(&data);
    assert!(bv.contains(0) && bv.contains(1) && bv.contains(2) && bv.contains(3));
    let nothing = CombinedHighlightFilter { operator: Operator::Or, filters: Vec::new() };
    let bv2 = nothing.filter(&data);
    assert!(!bv2.contains(0) && !bv2.contains(1) && !bv2.contains(2) && !bv2.contains(3));
}

#[test]
fn selection_matches_text_and_numbers() {
    let headers = vec!["x".to_string(), "label".to_string()];
    let records = vec![
        vec!["1".to_string(), "a".to_string()],
        vec!["2".to_string(), "b".to_string()],
    ];
    let data = PointData::from_records(&headers, records);
    let by_number = HighlightFilterVariants::Selection("x".to_string(), "2".to_string());
    let bv = by_number.filter(&data);
    assert!(!bv.contains(0));
    assert!(bv.contains(1));
    let by_text = HighlightFilterVariants::Selection("label".to_string(), "a".to_string());
    let bv2 = by_text.filter(&data);
    assert!(bv2.contains(0));
    assert!(!bv2.contains(1));
}

#[test]
fn tidy_prunes_deleted_filters() {
    let mut combined = CombinedHighlightFilter {
        operator: Operator::And,
        filters: vec![
            HighlightFilterVariants::Empty,
            HighlightFilterVariants::GreaterThan("x".to_string(), 0),
            HighlightFilterVariants::Empty,
        ],
    };
    combined.tidy();
    assert_eq!(combined.filters.len(), 1);
}

#[test]
fn column_filter_matching() {
    let filter = ColumnFilter::from_text("len wid", Interpretation::Contains, Operator::Or, false);
    assert!(filter.filter("Sepal.Length"));
    assert!(filter.filter("petal_width"));
    assert!(!filter.filter("species"));
    let prefix = ColumnFilter::from_text("Sep", Interpretation::Prefix, Operator::And, true);
    assert!(prefix.filter("Sepal.Length"));
    assert!(!prefix.filter("sepal.length"));
    let postfix =
        ColumnFilter::from_text("gth", Interpretation::Postfix, Operator::And, true);
    assert!(postfix.filter("Sepal.Length"));
    assert!(!postfix.filter("Sepal.Width"));
    let empty = ColumnFilter::new();
    assert!(empty.filter("anything"));
}
