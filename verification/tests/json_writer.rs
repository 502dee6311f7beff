use improc::json_writer::{frame_schemas, PartsType, RenderMode};

#[test]
fn parts_and_modes_names() {
    assert_eq!(PartsType::Image.as_str(), "image");
    assert_eq!(PartsType::Point.as_str(), "point");
    assert_eq!(PartsType::Line.as_str(), "line");
    assert_eq!(RenderMode::Points.as_str(), "POINTS");
    assert_eq!(RenderMode::Lines.as_str(), "LINES");
    assert_eq!(RenderMode::LineLoop.as_str(), "LINE_LOOP");
    assert_eq!(RenderMode::Triangles.as_str(), "TRIANGLES");
    assert_eq!(RenderMode::TriangleStrip.as_str(), "TRIANGLE_STRIP");
    assert_eq!(RenderMode::TriangleFan.as_str(), "TRIANGLE_FAN");
}

#[test]
fn frame_schemas_joins_with_commas() {
    assert_eq!(frame_schemas(&vec![]), "[\n\n]");
    assert_eq!(frame_schemas(&vec!["{}".to_string()]), "[\n{}\n]");
    assert_eq!(
        frame_schemas(&vec!["{\"a\": 1}".to_string(), "{}".to_string()]),
        "[\n{\"a\": 1},\n{}\n]"
    );
}
