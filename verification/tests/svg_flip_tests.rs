use deepnest::svg_flip::flip_svg_string;
use deepnest::svg_flip::wrap_svg_with_flip;
use deepnest::svg_flip::flip_transform;
use deepnest::svg_flip::FlipDirection;

const SIMPLE_SVG: &str = r#"<svg width="100" height="200" xmlns="http://www.w3.org/2000/svg">
<rect width="100" height="200" fill="red"/>
</svg>"#;

#[test]
fn test_flip_svg_string_horizontal() {
    let result = flip_svg_string(SIMPLE_SVG.to_string(), FlipDirection::Horizontal);
    assert!(result.success, "Flip operation should succeed");
    assert!(result.result.contains("<g transform=\"matrix(-1,0,0,1,"), "Output should include horizontal flip matrix");
    println!("{}", result.result);
}

#[test]
fn test_flip_svg_string_vertical() {
    let result = flip_svg_string(SIMPLE_SVG.to_string(), FlipDirection::Vertical);
    assert!(result.success, "Flip operation should succeed");
    assert!(result.result.contains("<g transform=\"matrix(1,0,0,-1,0,"), "Output should include vertical flip matrix");
    println!("{}", result.result);
}

#[test]
fn flip_rejects_invalid_xml() {
    let result = flip_svg_string("<invalid-xml>".to_string(), FlipDirection::Horizontal);
    assert!(!result.success);
    assert!(result.result.starts_with("Error parsing SVG: "));
}

#[test]
fn wrap_inserts_group_inside_root() {
    let s = wrap_svg_with_flip("<svg a=\"1\"><p/></svg>", "T");
    assert_eq!(s, "<svg a=\"1\"><g transform=\"T\"><p/></g></svg>");
}

#[test]
fn wrap_uses_last_closing_tag() {
    let s = wrap_svg_with_flip("<svg><svg></svg></svg>", "X");
    assert_eq!(s, "<svg><g transform=\"X\"><svg></svg></g></svg>");
}

#[test]
fn wrap_leaves_text_without_tags() {
    assert_eq!(wrap_svg_with_flip("no tags", "T"), "no tags");
    assert_eq!(wrap_svg_with_flip("<svg>open", "T"), "<svg>open");
}

#[test]
fn transforms_for_both_directions() {
    assert_eq!(flip_transform(FlipDirection::Horizontal, "100", "200"), "matrix(-1,0,0,1,100,0)");
    assert_eq!(flip_transform(FlipDirection::Vertical, "100", "200"), "matrix(1,0,0,-1,0,200)");
}

use deepnest::svg_load::load_svg_data;
use deepnest::svg_load::load_svg_string;

#[test]
fn load_normalizes_valid_svg() {
    let r = load_svg_string(SIMPLE_SVG.to_string());
    assert!(r.success);
    assert!(r.result.contains("<svg"));
    let d = load_svg_data(&SIMPLE_SVG.as_bytes().to_vec());
    assert!(d.success);
    assert_eq!(d.result, r.result);
}

#[test]
fn load_reports_parse_errors() {
    let r = load_svg_string("<invalid-xml>".to_string());
    assert!(!r.success);
    assert!(r.result.starts_with("Fehler beim Parsen der SVG: "));
    let d = load_svg_data(&vec![0xff, 0xfe]);
    assert!(!d.success);
}
