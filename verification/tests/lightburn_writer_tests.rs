use deepnest::lightburn::PathCommand;
use deepnest::lightburn::ShapeType;
use deepnest::lightburn_writer::generate_v1;
use deepnest::lightburn_writer::generate_v2;
use deepnest::lightburn_writer::PathText;
use deepnest::lightburn_writer::PointText;
use deepnest::lightburn_writer::ShapeText;
use deepnest::lightburn_writer::SvgFileText;
use deepnest::lightburn_writer::TransformText;

fn bare(kind: ShapeType) -> ShapeText {
    ShapeText {
        shape_type: kind,
        transform: None,
        width: None,
        height: None,
        corner_radius: None,
        rx: None,
        ry: None,
        path: None,
        children: None,
    }
}

#[test]
fn empty_project_v1_and_v2() {
    let f = SvgFileText { shapes: Vec::new() };
    let v1 = generate_v1(&f).unwrap();
    let v2 = generate_v2(&f).unwrap();
    assert!(v1.starts_with("<?xml version=\"1.0\" encoding=\"UTF-8\"?>"));
    assert!(v1.contains("<LightBurnProject"));
    assert!(v1.contains("FormatVersion=\"0\""));
    assert!(v2.contains("FormatVersion=\"1\""));
    assert_eq!(v1.replace("FormatVersion=\"0\"", "FormatVersion=\"1\""), v2);
    assert!(v1.contains("<Optimize_OverlapDist Value=\"0.025\"/>"));
    assert!(v1.contains("<name Value=\"Schneiden\"/>"));
    assert!(v1.trim_end().ends_with("</LightBurnProject>"));
}

#[test]
fn shapes_are_written_by_kind() {
    let mut ellipse = bare(ShapeType::Ellipse);
    ellipse.rx = Some("40".to_string());
    ellipse.ry = Some("30".to_string());
    let mut rect = bare(ShapeType::Rect);
    rect.width = Some("10".to_string());
    rect.height = Some("20".to_string());
    rect.transform = Some(TransformText {
        a: "1".to_string(),
        b: "0".to_string(),
        c: "0".to_string(),
        d: "1".to_string(),
        e: "5".to_string(),
        f: "6".to_string(),
    });
    let mut path = bare(ShapeType::Path);
    path.path = Some(PathText {
        points: vec![
            PointText { x: "0".to_string(), y: "0".to_string(), c0x: None, c0y: None, c1x: None, c1y: None },
            PointText {
                x: "10".to_string(),
                y: "5".to_string(),
                c0x: Some("1".to_string()),
                c0y: None,
                c1x: None,
                c1y: None,
            },
        ],
        commands: vec![PathCommand::LineTo(0, 1), PathCommand::Close],
    });
    let mut group = bare(ShapeType::Group);
    group.children = Some(vec![bare(ShapeType::Other("Text".to_string()))]);
    let f = SvgFileText { shapes: vec![ellipse, rect, path, group] };
    let v1 = generate_v1(&f).unwrap();
    assert!(v1.contains("<Shape Type=\"Ellipse\" CutIndex=\"0\">"));
    assert!(v1.contains("<Rx Value=\"40\"/>"));
    assert!(v1.contains("<Shape Type=\"Rect\" CutIndex=\"0\">"));
    assert!(v1.contains("<W Value=\"10\"/>"));
    assert!(v1.contains("1 0 0 1 5 6"));
    assert!(v1.contains("V0 0 V10 5 c0x1 c0y0 "));
    assert!(v1.contains("L0 1 Z "));
    assert!(v1.contains("<Shape Type=\"Text\">"));
    assert!(v1.contains("<Children>"));
}
