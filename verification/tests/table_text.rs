use pointcloud::column_filter::{ColumnFilter, Interpretation, Operator};
use pointcloud::pipeline::{Pipeline, SimpleTable};
use pointcloud::pointdata::PointData;
use pointcloud::text::{fx_to_text, parse_fixed};

#[test]
fn decimal_text_round_trips() {
    assert_eq!(parse_fixed("1.5"), Some(1_500_000));
    assert_eq!(parse_fixed("-0.25"), Some(-250_000));
    assert_eq!(parse_fixed("2"), Some(2_000_000));
    assert_eq!(parse_fixed("0.001230"), Some(1_230));
    assert_eq!(parse_fixed("abc"), None);
    assert_eq!(parse_fixed("1e5"), None);
    assert_eq!(parse_fixed(""), None);
    assert_eq!(parse_fixed("-"), None);
    assert_eq!(parse_fixed("1."), None);
    // beyond the admitted value range
    assert_eq!(parse_fixed("99999999"), None);

    assert_eq!(fx_to_text(1_500_000), "1.5");
    assert_eq!(fx_to_text(-250_000), "-0.25");
    assert_eq!(fx_to_text(2_000_000), "2");
    assert_eq!(fx_to_text(1_230), "0.00123");
    assert_eq!(fx_to_text(0), "0");
}

#[test]
fn records_classify_into_numeric_and_text_columns() {
    let headers = vec!["x".to_string(), "label".to_string()];
    let records = vec![
        vec!["1.5".to_string(), "a".to_string()],
        vec!["2".to_string(), "b".to_string()],
    ];
    let data = PointData::from_records(&headers, records);
    assert_eq!(data.len(), 2);
    assert_eq!(data.get("x", 0), "1.5");
    assert_eq!(data.get("x", 1), "2");
    assert_eq!(data.get("label", 0), "a");
    assert_eq!(data.get("label", 1), "b");
    assert_eq!(data.get("missing", 0), "");
    assert_eq!(data.get("x", 99), "");
}

#[test]
fn header_filtering_narrows_the_display() {
    let headers = vec!["alpha".to_string(), "beta".to_string(), "gamma".to_string()];
    let records = vec![vec!["1".to_string(), "2".to_string(), "3".to_string()]];
    let mut data = PointData::from_records(&headers, records);
    let filter = ColumnFilter::from_text("ma", Interpretation::Postfix, Operator::And, true);
    data.filter_headers(&filter);
    assert_eq!(data.headers.len(), 1);
    assert_eq!(data.headers[0], "gamma");
    data.reset_headers();
    assert_eq!(data.headers.len(), 3);
}

#[test]
fn statistics_table_lays_out_groups_and_measures() {
    let headers = vec!["x".to_string(), "label".to_string()];
    let records = vec![
        vec!["1".to_string(), "a".to_string()],
        vec!["2".to_string(), "b".to_string()],
        vec!["3".to_string(), "c".to_string()],
    ];
    let data = PointData::from_records(&headers, records);
    let mut pipeline = Pipeline::new();
    pipeline.load(data);
    let table = pipeline.statistics_table("All", None);
    assert_eq!(table.len(), 4);
    assert_eq!(table[0], vec!["All"; 8]);
    assert_eq!(
        table[1],
        vec!["Count", "Minimum", "Maximum", "Mean", "Variance", "StdDev", "Skewness", "Kurtosis"]
    );
    // the numeric column's measures
    assert_eq!(table[2][0], "3");
    assert_eq!(table[2][1], "1");
    assert_eq!(table[2][2], "3");
    assert_eq!(table[2][3], "2");
    // the text column renders empty measures
    assert_eq!(table[3], vec![""; 8]);
}

#[test]
fn transpose_swaps_rows_and_columns() {
    let table = vec![
        vec!["a".to_string(), "b".to_string()],
        vec!["c".to_string(), "d".to_string()],
        vec!["e".to_string(), "f".to_string()],
    ];
    let flipped = table.transpose();
    assert_eq!(flipped.len(), 2);
    assert_eq!(flipped[0], vec!["a", "c", "e"]);
    assert_eq!(flipped[1], vec!["b", "d", "f"]);
}

#[test]
fn statistics_panel_has_a_header_row() {
    let headers = vec!["x".to_string(), "y".to_string()];
    let records = vec![
        vec!["1".to_string(), "4".to_string()],
        vec!["2".to_string(), "5".to_string()],
    ];
    let data = PointData::from_records(&headers, records);
    let mut pipeline = Pipeline::new();
    pipeline.load(data);
    pipeline.set_xcolumn("x".to_string());
    pipeline.set_ycolumn("y".to_string());
    pipeline.run();
    let panel = pipeline.statistics(-1_000_000, -1_000_000);
    assert!(panel.len() >= 1);
    assert_eq!(panel[0].len(), 4);
    assert_eq!(panel[0][2], "x");
    assert_eq!(panel[0][3], "y");
}

#[test]
fn cells_can_be_set_and_columns_created() {
    let headers = vec!["x".to_string()];
    let records = vec![vec!["1".to_string()], vec!["2".to_string()]];
    let mut data = PointData::from_records(&headers, records);
    data.set_data("x", 1, 5_000_000);
    assert_eq!(data.get("x", 1), "5");
    // a fresh numeric column starts from zeros
    data.set_data("w", 0, 2_500_000);
    assert_eq!(data.get("w", 0), "2.5");
    assert_eq!(data.get("w", 1), "0");
    // a fresh text column starts from empty cells
    data.set_aux("tag", 1, "beta".to_string());
    assert_eq!(data.get("tag", 0), "");
    assert_eq!(data.get("tag", 1), "beta");
}

#[test]
fn unique_values_deduplicate_in_first_appearance_order() {
    let headers = vec!["x".to_string(), "label".to_string()];
    let records = vec![
        vec!["1".to_string(), "b".to_string()],
        vec!["1".to_string(), "a".to_string()],
        vec!["2".to_string(), "b".to_string()],
    ];
    let data = PointData::from_records(&headers, records);
    assert_eq!(data.unique_values("label"), vec!["b", "a"]);
    assert_eq!(data.unique_values("x"), vec!["1", "2"]);
    assert_eq!(data.unique_values("missing"), Vec::<String>::new());
}

#[test]
fn rows_render_with_quoted_text_cells() {
    let headers = vec!["x".to_string(), "label".to_string()];
    let records = vec![vec!["1.5".to_string(), "a".to_string()]];
    let data = PointData::from_records(&headers, records);
    assert_eq!(data.row(0), vec!["1.5", "\"a\""]);
    assert_eq!(data.row(7), Vec::<String>::new());
}

#[test]
fn point_iteration_pairs_coordinates_with_row_indices() {
    let headers = vec!["x".to_string(), "y".to_string(), "w".to_string()];
    let records = vec![
        vec!["1".to_string(), "4".to_string(), "0.5".to_string()],
        vec!["2".to_string(), "5".to_string(), "1".to_string()],
    ];
    let data = PointData::from_records(&headers, records);
    let pts = data.points("x", "y").unwrap();
    assert_eq!(pts, vec![(1_000_000, 4_000_000, 0), (2_000_000, 5_000_000, 1)]);
    let wpts = data.weighted_points("x", "y", "w").unwrap();
    assert_eq!(wpts[0], (1_000_000, 4_000_000, 500_000, 0));
    assert!(data.points("x", "missing").is_none());
}

#[test]
fn fixture_table_holds_the_unit_square() {
    let data = pointcloud::pointdata::test_point_data();
    assert_eq!(data.len(), 5);
    assert_eq!(data.headers, vec!["x", "y", "label"]);
    assert_eq!(data.get("x", 4), "0.5");
    assert_eq!(data.get("y", 1), "1");
    assert_eq!(data.get("label", 2), "C");
}

#[test]
fn csv_rendering_joins_headers_and_rows() {
    let headers = vec!["x".to_string(), "label".to_string()];
    let records = vec![
        vec!["1.5".to_string(), "a".to_string()],
        vec!["2".to_string(), "b".to_string()],
    ];
    let data = PointData::from_records(&headers, records);
    assert_eq!(data.to_csv_simple(), "x,label\n1.5,\"a\"\n2,\"b\"");

    let empty = PointData::from_records(&Vec::new(), Vec::new());
    assert_eq!(empty.to_csv_simple(), "\n");
}

#[test]
fn duplicate_headers_keep_the_first_occurrence() {
    let headers = vec!["x".to_string(), "x".to_string(), "y".to_string()];
    let records = vec![vec!["1".to_string(), "oops".to_string(), "2".to_string()]];
    let data = PointData::from_records(&headers, records);
    assert_eq!(data.headers, vec!["x", "y"]);
    // the first "x" column is numeric, so "x" parses as a number
    assert_eq!(data.get("x", 0), "1");
    assert_eq!(data.get("y", 0), "2");
}

#[test]
fn statistics_panel_carries_the_transposed_all_block() {
    let headers = vec!["x".to_string(), "y".to_string()];
    let records = vec![
        vec!["1".to_string(), "4".to_string()],
        vec!["2".to_string(), "5".to_string()],
        vec!["3".to_string(), "6".to_string()],
    ];
    let data = PointData::from_records(&headers, records);
    let mut pipeline = Pipeline::new();
    pipeline.load(data);
    pipeline.set_xcolumn("x".to_string());
    pipeline.set_ycolumn("y".to_string());
    pipeline.run();
    let panel = pipeline.statistics(-1_000_000, -1_000_000);
    let block = pipeline.statistics_table("All", None).transpose();
    // no cursor hit and no highlight: the header row, then the eight
    // measure-major rows of the whole-table block
    assert_eq!(panel.len(), 9);
    for m in 0..8 {
        assert_eq!(panel[1 + m], block[m]);
    }
    assert_eq!(panel[1][0], "All");
    assert_eq!(panel[1][1], "Count");
    assert_eq!(panel[1][2], "3");
}
