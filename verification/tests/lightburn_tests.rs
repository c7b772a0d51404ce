use deepnest::lightburn::parse_prim_list;
use deepnest::lightburn::prim_list_text;
use deepnest::lightburn::shape_type_from_name;
use deepnest::lightburn::PathCommand;
use deepnest::lightburn::ShapeType;

#[test]
fn shape_type_names() {
    assert_eq!(shape_type_from_name("Rect"), ShapeType::Rect);
    assert_eq!(shape_type_from_name("Ellipse"), ShapeType::Ellipse);
    assert_eq!(shape_type_from_name("Path"), ShapeType::Path);
    assert_eq!(shape_type_from_name("Group"), ShapeType::Group);
    assert_eq!(shape_type_from_name("Text"), ShapeType::Other("Text".to_string()));
    assert_eq!(shape_type_from_name("rect"), ShapeType::Other("rect".to_string()));
    assert_eq!(shape_type_from_name(""), ShapeType::Other(String::new()));
}

#[test]
fn prim_list_text_writes_each_command() {
    let cmds = vec![
        PathCommand::MoveTo(0, 1),
        PathCommand::LineTo(1, 2),
        PathCommand::BezierTo(12, 305),
        PathCommand::Close,
    ];
    assert_eq!(prim_list_text(&cmds), "M0 1 L1 2 B12 305 Z ");
    assert_eq!(prim_list_text(&Vec::new()), "");
}

#[test]
fn prim_list_reads_only_close_words() {
    // words are split at white space, so the indices never stay with their letter
    assert_eq!(parse_prim_list("M0 1 L1 2 B12 305 Z "), Vec::<PathCommand>::new());
    // a word of two or more characters that begins with Z is a close command
    assert_eq!(parse_prim_list("Z0 L1 Zz\tZ"), vec![PathCommand::Close, PathCommand::Close]);
    assert_eq!(parse_prim_list(""), Vec::<PathCommand>::new());
    assert_eq!(parse_prim_list("   \n "), Vec::<PathCommand>::new());
}

#[test]
fn prim_list_written_then_read() {
    let cmds = vec![PathCommand::LineTo(3, 4), PathCommand::Close, PathCommand::Close];
    let text = prim_list_text(&cmds);
    assert_eq!(parse_prim_list(&text), Vec::<PathCommand>::new());
}
