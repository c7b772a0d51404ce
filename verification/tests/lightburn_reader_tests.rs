use deepnest::lightburn::{ConversionError, ShapeType};
use deepnest::lightburn_reader::parse;

#[test]
fn test_parse_invalid_xml() {
    let result = parse("<invalid-xml>");
    assert!(result.is_err());
    assert!(matches!(result, Err(ConversionError::XmlParseError(_))));
}

#[test]
fn parse_rejects_other_root() {
    match parse("<Project FormatVersion=\"1\"/>") {
        Err(ConversionError::XmlParseError(m)) => assert_eq!(m, "Root element is not <LightBurnProject>"),
        _ => panic!("expected an XmlParseError"),
    }
}

#[test]
fn parse_uses_defaults() {
    let f = parse("<LightBurnProject/>").unwrap();
    assert_eq!(f.version, "0");
    assert_eq!(f.app_version, "unknown");
    assert_eq!(f.device_name, "unknown");
    assert_eq!(f.material_height, "0");
    assert!(!f.mirror_x);
    assert!(!f.mirror_y);
    assert!(f.thumbnail.is_none());
    assert!(f.cut_settings.is_empty());
    assert!(f.shapes.is_empty());
}

#[test]
fn parse_reads_project() {
    let text = r#"<?xml version="1.0" encoding="UTF-8"?>
<LightBurnProject AppVersion="1.4.03" FormatVersion="1" MaterialHeight="2.5" MirrorX="True" MirrorY="False">
    <Thumbnail Source="abc"/>
    <CutSetting type="Cut">
        <index Value="3"/>
        <name Value="C03"/>
        <minPower Value="10"/>
        <maxPower Value="20"/>
        <speed Value="100"/>
    </CutSetting>
    <Shape Type="Rect" CutIndex="0" W="10" H="5" Cr="1">
        <XForm>1 0 0 1 2 3</XForm>
    </Shape>
    <Shape Type="Ellipse" CutIndex="1" Rx="4" Ry="6"/>
    <Shape Type="Path" CutIndex="0">
        <VertList>V0 0V10 0V10 10</VertList>
        <PrimList>L0 1L1 2</PrimList>
    </Shape>
    <Shape Type="Group">
        <Children>
            <Shape Type="Text"/>
            <Shape Type="Rect" W="1" H="2"/>
        </Children>
    </Shape>
</LightBurnProject>"#;
    let f = parse(text).unwrap();
    assert_eq!(f.version, "1");
    assert_eq!(f.app_version, "1.4.03");
    assert_eq!(f.device_name, "unknown");
    assert_eq!(f.material_height, "2.5");
    assert!(f.mirror_x);
    assert!(!f.mirror_y);
    assert_eq!(f.thumbnail.as_deref(), Some("abc"));
    assert_eq!(f.cut_settings.len(), 1);
    let c = &f.cut_settings[0];
    assert!(c.index.is_none());
    assert_eq!(c.name, "");
    assert_eq!(c.min_power.as_deref(), Some("10"));
    assert_eq!(c.max_power.as_deref(), Some("20"));
    assert_eq!(c.speed.as_deref(), Some("100"));
    assert_eq!(c.properties.len(), 5);
    assert_eq!(c.properties[0], ("index".to_string(), "3".to_string()));
    assert_eq!(f.shapes.len(), 4);
    let r = &f.shapes[0];
    assert_eq!(r.shape_type, ShapeType::Rect);
    assert_eq!(r.cut_index.as_deref(), Some("0"));
    assert_eq!(r.transform.as_deref(), Some("1 0 0 1 2 3"));
    assert_eq!(r.width.as_deref(), Some("10"));
    assert_eq!(r.corner_radius.as_deref(), Some("1"));
    assert!(r.rx.is_none());
    let e = &f.shapes[1];
    assert_eq!(e.shape_type, ShapeType::Ellipse);
    assert_eq!(e.rx.as_deref(), Some("4"));
    assert!(e.width.is_none());
    let p = &f.shapes[2];
    assert_eq!(p.vert_list.as_deref(), Some("V0 0V10 0V10 10"));
    assert_eq!(p.prim_list.as_deref(), Some("L0 1L1 2"));
    assert!(p.transform.is_none());
    let g = &f.shapes[3];
    assert_eq!(g.shape_type, ShapeType::Group);
    let cs = g.children.as_ref().unwrap();
    assert_eq!(cs.len(), 2);
    assert_eq!(cs[0].shape_type, ShapeType::Other("Text".to_string()));
    assert_eq!(cs[1].height.as_deref(), Some("2"));
    assert!(p.children.is_none());
}

#[test]
fn parse_path_without_lists_reads_empty_texts() {
    let f = parse("<LightBurnProject><Shape Type=\"Path\"/></LightBurnProject>").unwrap();
    assert_eq!(f.shapes[0].vert_list.as_deref(), Some(""));
    assert_eq!(f.shapes[0].prim_list.as_deref(), Some(""));
}
