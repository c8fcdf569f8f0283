use pointcloud::mesh::{HighlightType, Mesh, Parameters};
use pointcloud::pipeline::{Pipeline, Stage};
use pointcloud::pointdata::PointData;

const UNIT: i64 = 1_000_000;

fn unit_mesh(w: usize, h: usize) -> Mesh {
    let mut mesh = Mesh::new();
    mesh.resize(w, h);
    mesh.xmin = 0;
    mesh.xmax = UNIT;
    mesh.ymin = 0;
    mesh.ymax = UNIT;
    mesh
}

#[test]
fn plain_deposit_conserves_weight() {
    let mut mesh = unit_mesh(2, 2);
    let points = vec![
        (250_000i64, 250_000i64, 2 * UNIT, 1usize, false),
        (750_000, 250_000, 3 * UNIT, 2, false),
        (250_000, 750_000, 5 * UNIT, 3, true),
    ];
    mesh.add_points(&points, false);
    let total: i64 = mesh.mesh.iter().sum::<i64>() + mesh.highlight_mesh.iter().sum::<i64>();
    assert_eq!(total, 10 * UNIT);
}

#[test]
fn out_of_bounds_points_are_dropped() {
    let mut mesh = unit_mesh(2, 2);
    let points = vec![
        (-250_000i64, 250_000i64, 2 * UNIT, 1usize, false),
        (250_000, 1_500_000, 3 * UNIT, 2, false),
        (250_000, 250_000, 5 * UNIT, 3, false),
    ];
    mesh.add_points(&points, false);
    let total: i64 = mesh.mesh.iter().sum();
    assert_eq!(total, 5 * UNIT);
}

#[test]
fn hit_testing_returns_the_last_touching_row() {
    let mut mesh = unit_mesh(2, 2);
    mesh.point(250_000, 250_000, UNIT, 5, false);
    assert_eq!(mesh.get_index(0, 0), Some(4));
    assert_eq!(mesh.get_index(1, 1), None);
    // the wide probe reaches back one cell
    assert_eq!(mesh.get_index_wide(0, 0), Some(4));
    mesh.point(250_000, 250_000, UNIT, 7, false);
    assert_eq!(mesh.get_index(0, 0), Some(6));
}

#[test]
fn antialiased_deposit_adds_at_most_the_weight() {
    let mut mesh = unit_mesh(8, 8);
    let points = vec![(500_000i64, 500_000i64, 4 * UNIT, 1usize, false)];
    mesh.add_points(&points, true);
    let total: i64 = mesh.mesh.iter().sum();
    assert!(total <= 4 * UNIT);
    assert!(total > 0);
}

#[test]
fn parameters_zoom_fits_the_values() {
    let mut params = Parameters::new();
    params.mesh_width = 100;
    params.mesh_height = 100;
    let values = vec![0i64, 10 * UNIT];
    params.zoom_all_x(&values);
    // margin is three cells of the ten-unit span
    assert_eq!(params.xmin, -300_000);
    assert_eq!(params.xmax, 10 * UNIT + 300_000);
}

#[test]
fn end_to_end_run_renders_the_surviving_cell() {
    let headers = vec!["x".to_string(), "y".to_string()];
    let records = vec![
        vec!["0".to_string(), "0".to_string()],
        vec!["1".to_string(), "1".to_string()],
        vec!["2".to_string(), "0".to_string()],
        vec!["3".to_string(), "1".to_string()],
    ];
    let data = PointData::from_records(&headers, records);
    let mut pipeline = Pipeline::new();
    pipeline.load(data);
    pipeline.set_xcolumn("x".to_string());
    pipeline.set_ycolumn("y".to_string());
    pipeline.parameters.mesh_width = 2;
    pipeline.parameters.mesh_height = 2;
    pipeline.run();
    assert_eq!(pipeline.stage, Stage::Stage4Texture);
    // canonical coordinates: x spreads to {0, 1/3, 2/3, 1}, y flips to
    // {1, 0, 1, 0}; a coordinate of exactly one maps past the last cell and
    // the point is dropped, so only the row at (1/3, 0) lands, in cell (0, 0)
    assert_eq!(pipeline.mesh.mesh[0], UNIT);
    assert_eq!(pipeline.mesh.mesh[1], 0);
    assert_eq!(pipeline.mesh.mesh[2], 0);
    assert_eq!(pipeline.mesh.mesh[3], 0);
    // that cell colorizes to full cyan, the rest stay dark, alpha is opaque
    assert_eq!(pipeline.mesh.rgba8[1], 255);
    assert_eq!(pipeline.mesh.rgba8[2], 255);
    assert_eq!(pipeline.mesh.rgba8[3], 255);
    assert_eq!(pipeline.mesh.rgba8[4 + 2], 0);
    assert_eq!(pipeline.mesh.rgba8[8 + 2], 0);
    assert_eq!(pipeline.mesh.rgba8[12 + 2], 0);
    // hit-testing the surviving cell finds the landing row
    assert_eq!(pipeline.mesh.get_index(0, 0), Some(1));
}

#[test]
fn demotion_is_a_meet_whatever_the_order() {
    let headers = vec!["x".to_string(), "y".to_string()];
    let records = vec![vec!["0".to_string(), "1".to_string()]];
    let data = PointData::from_records(&headers, records);

    let mut first = Pipeline::new();
    first.load(data);
    first.set_xcolumn("x".to_string());
    first.set_ycolumn("y".to_string());
    first.run();
    assert_eq!(first.stage, Stage::Stage4Texture);
    // a post-processing edit then a view edit
    first.set_contrast(2_000_000);
    assert_eq!(first.stage, Stage::Stage2Mesh);
    first.set_zoom(2_000_000);
    assert_eq!(first.stage, Stage::Stage1XYI);

    // the same edits in the other order land on the same stage
    let mut second = Pipeline::new();
    second.run();
    assert_eq!(second.stage, Stage::Stage4Texture);
    second.set_zoom(2_000_000);
    assert_eq!(second.stage, Stage::Stage1XYI);
    second.set_contrast(2_000_000);
    assert_eq!(second.stage, Stage::Stage1XYI);
}

#[test]
fn rendering_modes_route_the_channels() {
    let mut mesh = unit_mesh(1, 1);
    mesh.point(500_000, 500_000, UNIT, 1, true);
    let mut pipeline = Pipeline::new();
    pipeline.parameters.mesh_width = 1;
    pipeline.parameters.mesh_height = 1;
    pipeline.mesh = mesh;
    pipeline.set_highlight_type(HighlightType::HighlighedOnly);
    pipeline.to_processed_mesh();
    pipeline.to_rgba8();
    // only the red highlight channel is painted
    assert_eq!(pipeline.mesh.rgba8[0], 255);
    assert_eq!(pipeline.mesh.rgba8[1], 0);
    assert_eq!(pipeline.mesh.rgba8[2], 0);
    assert_eq!(pipeline.mesh.rgba8[3], 255);
}
