//! Writing LightBurn project files: the XML events of a project (prolog,
//! root attributes, default settings, one element per shape) and their
//! indented text, written by `quick_xml`.
use vstd::prelude::*;
use std::io::Cursor;
use quick_xml::Writer;
use quick_xml::events::{BytesDecl, BytesEnd, BytesStart, BytesText, Event};
use crate::lightburn::{ConversionError, PathCommand, ShapeType, prim_list_text, commands_text};
use crate::path_data::string_of_range;
use crate::text::{decimal, push_decimal};
use self::XmlEvent::{Decl, Empty, End, Start, Text};

verus! {

broadcast use vstd::string::group_string_axioms;

/// The `quick_xml` writer.
#[verifier::external_type_specification]
#[verifier::external_body]
#[verifier::reject_recursive_types(W)]
pub struct ExXmlWriter<W>(Writer<W>);

/// An in-memory cursor, the writer's target.
#[verifier::external_type_specification]
#[verifier::external_body]
#[verifier::reject_recursive_types(T)]
pub struct ExCursor<T>(Cursor<T>);

/// An XML event: the prolog (version, encoding), a start tag or an empty
/// element (name, attributes), an end tag, or text.
#[derive(Debug)]
pub enum XmlEvent {
    Decl(String, String),
    Start(String, Vec<(String, String)>),
    Empty(String, Vec<(String, String)>),
    End(String),
    Text(String),
}

/// An XML event with its texts as character sequences.
pub enum XmlEventView {
    Decl(Seq<char>, Seq<char>),
    Start(Seq<char>, Seq<(Seq<char>, Seq<char>)>),
    Empty(Seq<char>, Seq<(Seq<char>, Seq<char>)>),
    End(Seq<char>),
    Text(Seq<char>),
}

/// Attributes with their texts as character sequences.
pub open spec fn attrs_view(a: Seq<(String, String)>) -> Seq<(Seq<char>, Seq<char>)> {
    a.map_values(|p: (String, String)| (p.0@, p.1@))
}

impl View for XmlEvent {
    type V = XmlEventView;

    open spec fn view(&self) -> XmlEventView {
        match self {
            XmlEvent::Decl(v, e) => XmlEventView::Decl(v@, e@),
            XmlEvent::Start(n, a) => XmlEventView::Start(n@, attrs_view(a@)),
            XmlEvent::Empty(n, a) => XmlEventView::Empty(n@, attrs_view(a@)),
            XmlEvent::End(n) => XmlEventView::End(n@),
            XmlEvent::Text(t) => XmlEventView::Text(t@),
        }
    }
}

/// Events with their texts as character sequences.
pub open spec fn events_view(v: Seq<XmlEvent>) -> Seq<XmlEventView> {
    v.map_values(|e: XmlEvent| e@)
}

/// The events a `quick_xml` writer has been given, in order.
pub uninterp spec fn xml_written(w: Writer<Cursor<Vec<u8>>>) -> Seq<XmlEventView>;

/// The text `quick_xml` writes for a sequence of events with an indent of
/// four spaces per level (names as given, attribute values and text
/// escaped).
pub uninterp spec fn indented_xml(events: Seq<XmlEventView>) -> Seq<char>;

/// `Writer::new_with_indent` on an empty in-memory buffer, indenting by four
/// spaces: a writer that has been given no events.
#[verifier::external_body]
fn xml_writer_new() -> (w: Writer<Cursor<Vec<u8>>>)
    ensures
        xml_written(w) == Seq::<XmlEventView>::empty(),
{
    Writer::new_with_indent(Cursor::new(Vec::new()), b' ', 4)
}

/// `Writer::write_event` with the event, which becomes the last one given.
/// The writer's only errors are those of its target, and writing to an
/// in-memory `Cursor<Vec<u8>>` does not fail, so the result is `Ok`.
#[verifier::external_body]
fn xml_write(w: &mut Writer<Cursor<Vec<u8>>>, ev: &XmlEvent) -> (r: Result<(), String>)
    ensures
        r is Ok,
        xml_written(*final(w)) == xml_written(*old(w)).push(ev@),
{
    match ev {
        Decl(v, e) => w.write_event(Event::Decl(BytesDecl::new(v, Some(e), None))),
        Start(n, a) => w.write_event(Event::Start(BytesStart::new(n).with_attributes(a.iter().map(|p| (&*p.0, &*p.1))))),
        Empty(n, a) => w.write_event(Event::Empty(BytesStart::new(n).with_attributes(a.iter().map(|p| (&*p.0, &*p.1))))),
        End(n) => w.write_event(Event::End(BytesEnd::new(n))),
        Text(t) => w.write_event(Event::Text(BytesText::new(t))),
    }.map_err(|e| e.to_string())
}

/// The text written (`into_inner` twice, then `String::from_utf8`): the
/// indented text of the events given. Every byte written comes from a
/// `&str` or is an ASCII indent or markup character, so the bytes are UTF-8
/// and the result is `Ok`.
#[verifier::external_body]
fn xml_finish(w: Writer<Cursor<Vec<u8>>>) -> (r: Result<String, String>)
    ensures
        r is Ok,
        r matches Ok(s) ==> s@ == indented_xml(xml_written(w)),
{
    String::from_utf8(w.into_inner().into_inner()).map_err(|e| e.to_string())
}


/// A path vertex as written: its coordinates and control points as text.
#[derive(Debug)]
pub struct PointText {
    pub x: String,
    pub y: String,
    pub c0x: Option<String>,
    pub c0y: Option<String>,
    pub c1x: Option<String>,
    pub c1y: Option<String>,
}

/// A path as written: its vertices and its commands.
#[derive(Debug)]
pub struct PathText {
    pub points: Vec<PointText>,
    pub commands: Vec<PathCommand>,
}

/// A transformation matrix as written: its six entries as text.
#[derive(Debug)]
pub struct TransformText {
    pub a: String,
    pub b: String,
    pub c: String,
    pub d: String,
    pub e: String,
    pub f: String,
}

/// A shape as written: its kind, its transform, the sizes of its kind as
/// text, and its path or children.
#[derive(Debug)]
pub struct ShapeText {
    pub shape_type: ShapeType,
    pub transform: Option<TransformText>,
    pub width: Option<String>,
    pub height: Option<String>,
    pub corner_radius: Option<String>,
    pub rx: Option<String>,
    pub ry: Option<String>,
    pub path: Option<PathText>,
    pub children: Option<Vec<ShapeText>>,
}

/// The shapes of an SVG document to be written as a project.
#[derive(Debug)]
pub struct SvgFileText {
    pub shapes: Vec<ShapeText>,
}

/// An element with a single `Value` attribute.
pub open spec fn value_elem(name: Seq<char>, value: Seq<char>) -> XmlEventView {
    XmlEventView::Empty(name, seq![("Value"@, value)])
}

/// A `Value` element for a size that is there, nothing otherwise.
pub open spec fn opt_value_elem(name: Seq<char>, v: Option<String>) -> Seq<XmlEventView> {
    match v {
        Some(t) => seq![value_elem(name, t@)],
        None => seq![],
    }
}

/// The text of a transform: its entries separated by spaces, or the
/// identity.
pub open spec fn transform_text(t: Option<TransformText>) -> Seq<char> {
    match t {
        Some(m) => m.a@ + " "@ + m.b@ + " "@ + m.c@ + " "@ + m.d@ + " "@ + m.e@ + " "@ + m.f@,
        None => "1 0 0 1 0 0"@,
    }
}

/// The `XForm` element of a shape.
pub open spec fn transform_events(t: Option<TransformText>) -> Seq<XmlEventView> {
    seq![
        XmlEventView::Start("XForm"@, seq![]),
        XmlEventView::Text(transform_text(t)),
        XmlEventView::End("XForm"@),
    ]
}

/// A control coordinate that is there, or `0`.
pub open spec fn text_or_zero(o: Option<String>) -> Seq<char> {
    match o {
        Some(t) => t@,
        None => "0"@,
    }
}

/// The text of a vertex: `V`, its coordinates, then each control point
/// whose x is there.
pub open spec fn point_vert_text(p: PointText) -> Seq<char> {
    "V"@ + p.x@ + " "@ + p.y@ + " "@ + match p.c0x {
        Some(c) => "c0x"@ + c@ + " c0y"@ + text_or_zero(p.c0y) + " "@,
        None => seq![],
    } + match p.c1x {
        Some(c) => "c1x"@ + c@ + " c1y"@ + text_or_zero(p.c1y) + " "@,
        None => seq![],
    }
}

/// The texts of the vertices, one after another.
pub open spec fn vert_text(ps: Seq<PointText>) -> Seq<char>
    decreases ps.len(),
{
    if ps.len() == 0 {
        seq![]
    } else {
        vert_text(ps.drop_last()) + point_vert_text(ps.last())
    }
}

/// The vertex and command lists of a path with vertices; nothing otherwise.
pub open spec fn path_events(p: Option<PathText>) -> Seq<XmlEventView> {
    match p {
        Some(pt) => if pt.points@.len() > 0 {
            seq![
                XmlEventView::Start("VertList"@, seq![]),
                XmlEventView::Text(vert_text(pt.points@)),
                XmlEventView::End("VertList"@),
                XmlEventView::Start("PrimList"@, seq![]),
                XmlEventView::Text(commands_text(pt.commands@)),
                XmlEventView::End("PrimList"@),
            ]
        } else {
            seq![]
        },
        None => seq![],
    }
}

/// The start tag of a shape of a kind that carries a cut index.
pub open spec fn cut_shape_start(kind: Seq<char>, cut: usize) -> XmlEventView {
    XmlEventView::Start("Shape"@, seq![("Type"@, kind), ("CutIndex"@, decimal(cut as nat))])
}

/// The events of a shape written with cut index `cut`: its start tag, the
/// sizes of its kind, its transform, its path lists or its children, and
/// its end tag.
pub open spec fn shape_events(s: ShapeText, cut: usize) -> Seq<XmlEventView>
    decreases s,
{
    match s.shape_type {
        ShapeType::Rect => seq![cut_shape_start("Rect"@, cut)] + opt_value_elem("W"@, s.width)
            + opt_value_elem("H"@, s.height) + opt_value_elem("Cr"@, s.corner_radius)
            + transform_events(s.transform) + seq![XmlEventView::End("Shape"@)],
        ShapeType::Ellipse => seq![cut_shape_start("Ellipse"@, cut)] + opt_value_elem("Rx"@, s.rx)
            + opt_value_elem("Ry"@, s.ry) + transform_events(s.transform) + seq![
            XmlEventView::End("Shape"@),
        ],
        ShapeType::Path => seq![cut_shape_start("Path"@, cut)] + transform_events(s.transform)
            + path_events(s.path) + seq![XmlEventView::End("Shape"@)],
        ShapeType::Group => seq![XmlEventView::Start("Shape"@, seq![("Type"@, "Group"@)])]
            + transform_events(s.transform) + match s.children {
            Some(cs) => seq![XmlEventView::Start("Children"@, seq![])] + shapes_events(cs@, cut)
                + seq![XmlEventView::End("Children"@)],
            None => seq![],
        } + seq![XmlEventView::End("Shape"@)],
        ShapeType::Other(n) => seq![
            XmlEventView::Start("Shape"@, seq![("Type"@, n@)]),
            XmlEventView::End("Shape"@),
        ],
    }
}

/// The events of shapes, one after another.
pub open spec fn shapes_events(cs: Seq<ShapeText>, cut: usize) -> Seq<XmlEventView>
    decreases cs,
{
    if cs.len() == 0 {
        seq![]
    } else {
        shapes_events(cs.drop_last(), cut) + shape_events(cs.last(), cut)
    }
}


fn text_of(t: &str) -> (r: String)
    ensures
        r@ == t@,
{
    t.to_string()
}

fn push_ev(out: &mut Vec<XmlEvent>, e: XmlEvent)
    ensures
        events_view(final(out)@) == events_view(old(out)@).push(e@),
{
    let ghost v = e@;
    out.push(e);
    proof {
        assert(events_view(out@) =~= events_view(old(out)@).push(v));
    }
}

fn no_attrs() -> (r: Vec<(String, String)>)
    ensures
        attrs_view(r@) == Seq::<(Seq<char>, Seq<char>)>::empty(),
{
    let r: Vec<(String, String)> = Vec::new();
    assert(attrs_view(r@) =~= Seq::<(Seq<char>, Seq<char>)>::empty());
    r
}

fn push_attr(a: &mut Vec<(String, String)>, k: &str, v: String)
    ensures
        attrs_view(final(a)@) == attrs_view(old(a)@).push((k@, v@)),
{
    let ghost vv = v@;
    a.push((k.to_string(), v));
    proof {
        assert(attrs_view(a@) =~= attrs_view(old(a)@).push((k@, vv)));
    }
}

fn push_start(out: &mut Vec<XmlEvent>, name: &str, attrs: Vec<(String, String)>)
    ensures
        events_view(final(out)@) == events_view(old(out)@).push(XmlEventView::Start(name@, attrs_view(attrs@))),
{
    push_ev(out, XmlEvent::Start(name.to_string(), attrs));
}

fn push_end(out: &mut Vec<XmlEvent>, name: &str)
    ensures
        events_view(final(out)@) == events_view(old(out)@).push(XmlEventView::End(name@)),
{
    push_ev(out, XmlEvent::End(name.to_string()));
}

fn push_text(out: &mut Vec<XmlEvent>, t: String)
    ensures
        events_view(final(out)@) == events_view(old(out)@).push(XmlEventView::Text(t@)),
{
    push_ev(out, XmlEvent::Text(t));
}

fn push_value(out: &mut Vec<XmlEvent>, name: &str, v: String)
    ensures
        events_view(final(out)@) == events_view(old(out)@).push(value_elem(name@, v@)),
{
    let mut a = no_attrs();
    push_attr(&mut a, "Value", v);
    push_ev(out, XmlEvent::Empty(name.to_string(), a));
}

fn push_opt_value(out: &mut Vec<XmlEvent>, name: &str, v: &Option<String>)
    ensures
        events_view(final(out)@) == events_view(old(out)@) + opt_value_elem(name@, *v),
{
    match v {
        Some(t) => {
            push_value(out, name, t.clone());
            assert(events_view(out@) =~= events_view(old(out)@) + opt_value_elem(name@, *v));
        },
        None => {
            assert(events_view(out@) =~= events_view(old(out)@) + opt_value_elem(name@, *v));
        },
    }
}

/// The decimal text of `n`.
fn decimal_string(n: usize) -> (r: String)
    ensures
        r@ == decimal(n as nat),
{
    let mut v: Vec<char> = Vec::new();
    push_decimal(&mut v, n as u64);
    assert(v@ =~= decimal(n as nat));
    let len = v.len();
    string_of_range(&v, 0, len)
}

fn transform_string(t: &Option<TransformText>) -> (r: String)
    ensures
        r@ == transform_text(*t),
{
    match t {
        Some(m) => m.a.clone().concat(" ").concat(m.b.as_str()).concat(" ").concat(m.c.as_str()).concat(
            " ",
        ).concat(m.d.as_str()).concat(" ").concat(m.e.as_str()).concat(" ").concat(m.f.as_str()),
        None => text_of("1 0 0 1 0 0"),
    }
}

fn push_transform(out: &mut Vec<XmlEvent>, t: &Option<TransformText>)
    ensures
        events_view(final(out)@) == events_view(old(out)@) + transform_events(*t),
{
    push_start(out, "XForm", no_attrs());
    push_text(out, transform_string(t));
    push_end(out, "XForm");
    assert(events_view(out@) =~= events_view(old(out)@) + transform_events(*t));
}

fn point_vert_string(p: &PointText) -> (r: String)
    ensures
        r@ == point_vert_text(*p),
{
    let mut s = text_of("V").concat(p.x.as_str()).concat(" ").concat(p.y.as_str()).concat(" ");
    match &p.c0x {
        Some(c) => {
            let z = match &p.c0y {
                Some(y) => y.clone(),
                None => text_of("0"),
            };
            s = s.concat("c0x").concat(c.as_str()).concat(" c0y").concat(z.as_str()).concat(" ");
        },
        None => {},
    }
    match &p.c1x {
        Some(c) => {
            let z = match &p.c1y {
                Some(y) => y.clone(),
                None => text_of("0"),
            };
            s = s.concat("c1x").concat(c.as_str()).concat(" c1y").concat(z.as_str()).concat(" ");
        },
        None => {},
    }
    assert(s@ =~= point_vert_text(*p));
    s
}

fn vert_string(ps: &Vec<PointText>) -> (r: String)
    ensures
        r@ == vert_text(ps@),
{
    let mut s = String::new();
    let mut i: usize = 0;
    while i < ps.len()
        invariant
            i <= ps@.len(),
            s@ == vert_text(ps@.take(i as int)),
        decreases ps@.len() - i,
    {
        let t = point_vert_string(&ps[i]);
        s = s.concat(t.as_str());
        proof {
            assert(ps@.take(i + 1).drop_last() =~= ps@.take(i as int));
        }
        i += 1;
    }
    assert(ps@.take(ps@.len() as int) =~= ps@);
    s
}

fn push_path(out: &mut Vec<XmlEvent>, p: &Option<PathText>)
    ensures
        events_view(final(out)@) == events_view(old(out)@) + path_events(*p),
{
    match p {
        Some(pt) => {
            if pt.points.len() > 0 {
                push_start(out, "VertList", no_attrs());
                push_text(out, vert_string(&pt.points));
                push_end(out, "VertList");
                push_start(out, "PrimList", no_attrs());
                push_text(out, prim_list_text(&pt.commands));
                push_end(out, "PrimList");
            }
        },
        None => {},
    }
    assert(events_view(out@) =~= events_view(old(out)@) + path_events(*p));
}

fn cut_attrs(kind: &str, cut: usize) -> (r: Vec<(String, String)>)
    ensures
        attrs_view(r@) == seq![("Type"@, kind@), ("CutIndex"@, decimal(cut as nat))],
{
    let mut a = no_attrs();
    push_attr(&mut a, "Type", kind.to_string());
    push_attr(&mut a, "CutIndex", decimal_string(cut));
    assert(attrs_view(a@) =~= seq![("Type"@, kind@), ("CutIndex"@, decimal(cut as nat))]);
    a
}

/// Appends the events of `shape` written with cut index `cut` (see
/// `shape_events`).
fn write_shape(out: &mut Vec<XmlEvent>, shape: &ShapeText, cut: usize)
    ensures
        events_view(final(out)@) == events_view(old(out)@) + shape_events(*shape, cut),
    decreases shape,
{
    let ghost o = events_view(out@);
    match &shape.shape_type {
        ShapeType::Rect => {
            push_start(out, "Shape", cut_attrs("Rect", cut));
            push_opt_value(out, "W", &shape.width);
            push_opt_value(out, "H", &shape.height);
            push_opt_value(out, "Cr", &shape.corner_radius);
            push_transform(out, &shape.transform);
            push_end(out, "Shape");
        },
        ShapeType::Ellipse => {
            push_start(out, "Shape", cut_attrs("Ellipse", cut));
            push_opt_value(out, "Rx", &shape.rx);
            push_opt_value(out, "Ry", &shape.ry);
            push_transform(out, &shape.transform);
            push_end(out, "Shape");
        },
        ShapeType::Path => {
            push_start(out, "Shape", cut_attrs("Path", cut));
            push_transform(out, &shape.transform);
            push_path(out, &shape.path);
            push_end(out, "Shape");
        },
        ShapeType::Group => {
            let mut a = no_attrs();
            push_attr(&mut a, "Type", text_of("Group"));
            push_start(out, "Shape", a);
            push_transform(out, &shape.transform);
            let ghost mid = events_view(out@);
            match &shape.children {
                Some(cs) => {
                    push_start(out, "Children", no_attrs());
                    let ghost before = events_view(out@);
                    let mut i: usize = 0;
                    while i < cs.len()
                        invariant
                            shape.children == Some(*cs),
                            i <= cs@.len(),
                            events_view(out@) == before + shapes_events(cs@.take(i as int), cut),
                        decreases cs@.len() - i,
                    {
                        proof {
                            assert(decreases_to!(*shape => shape.children));
                            assert(decreases_to!(shape.children => shape.children->0));
                            assert(decreases_to!(shape.children->0 => cs@));
                            assert(decreases_to!(cs@ => cs@[i as int]));
                            assert(decreases_to!(*shape => cs@[i as int]));
                        }
                        write_shape(out, &cs[i], cut);
                        proof {
                            assert(cs@.take(i + 1).drop_last() =~= cs@.take(i as int));
                        }
                        i += 1;
                    }
                    assert(cs@.take(cs@.len() as int) =~= cs@);
                    push_end(out, "Children");
                },
                None => {},
            }
            push_end(out, "Shape");
        },
        ShapeType::Other(n) => {
            let mut a = no_attrs();
            push_attr(&mut a, "Type", n.clone());
            push_start(out, "Shape", a);
            push_end(out, "Shape");
        },
    }
    assert(events_view(out@) =~= o + shape_events(*shape, cut));
}


/// `Value` elements for name and value pairs, in order.
pub open spec fn value_elems(pairs: Seq<(Seq<char>, Seq<char>)>) -> Seq<XmlEventView> {
    pairs.map_values(|p: (Seq<char>, Seq<char>)| value_elem(p.0, p.1))
}

/// Text pairs with their texts as character sequences.
pub open spec fn str_pairs(pairs: Seq<(&str, &str)>) -> Seq<(Seq<char>, Seq<char>)> {
    pairs.map_values(|p: (&str, &str)| (p.0@, p.1@))
}

/// The settings of the variable text placeholder.
pub open spec fn variable_text_pairs() -> Seq<(Seq<char>, Seq<char>)> {
    seq![("Start"@, "0"@), ("End"@, "999"@), ("Current"@, "0"@), ("Increment"@, "1"@), ("AutoAdvance"@, "0"@)]
}

/// The default user interface preferences.
pub open spec fn ui_pref_pairs() -> Seq<(Seq<char>, Seq<char>)> {
    seq![
        ("Optimize_ByLayer"@, "0"@),
        ("Optimize_ByGroup"@, "-1"@),
        ("Optimize_ByPriority"@, "1"@),
        ("Optimize_WhichDirection"@, "0"@),
        ("Optimize_InnerToOuter"@, "1"@),
        ("Optimize_ByDirection"@, "0"@),
        ("Optimize_ReduceTravel"@, "1"@),
        ("Optimize_HideBacklash"@, "0"@),
        ("Optimize_ReduceDirChanges"@, "0"@),
        ("Optimize_ChooseCorners"@, "0"@),
        ("Optimize_AllowReverse"@, "1"@),
        ("Optimize_RemoveOverlaps"@, "0"@),
        ("Optimize_OptimalEntryPoint"@, "1"@),
        ("Optimize_OverlapDist"@, "0.025"@),
    ]
}

/// The values of the default cut setting.
pub open spec fn cut_setting_pairs() -> Seq<(Seq<char>, Seq<char>)> {
    seq![
        ("index"@, "0"@),
        ("name"@, "Schneiden"@),
        ("minPower"@, "17.5"@),
        ("maxPower"@, "90"@),
        ("maxPower2"@, "20"@),
        ("speed"@, "4.16667"@),
        ("angle"@, "90"@),
        ("priority"@, "0"@),
        ("tabCount"@, "1"@),
        ("tabCountMax"@, "1"@),
        ("tabSpacing"@, "50.04"@),
    ]
}

/// The attributes of the root element for a format version.
pub open spec fn root_attrs(format_version: Seq<char>) -> Seq<(Seq<char>, Seq<char>)> {
    seq![
        ("AppVersion"@, "1.7.08"@),
        ("DeviceName"@, "GRBL-PicoCNC"@),
        ("FormatVersion"@, format_version),
        ("MaterialHeight"@, "0"@),
        ("MirrorX"@, "False"@),
        ("MirrorY"@, "False"@),
    ]
}

/// The events of a project of the given format version holding the shapes
/// of `svg`: the prolog, the root element with its attributes, a thumbnail
/// placeholder, the variable text, user interface preferences and cut
/// setting defaults, a group with the identity transform holding each
/// shape (cut index 0), and empty notes.
pub open spec fn project_events(format_version: Seq<char>, svg: SvgFileText) -> Seq<XmlEventView> {
    seq![
        XmlEventView::Decl("1.0"@, "UTF-8"@),
        XmlEventView::Start("LightBurnProject"@, root_attrs(format_version)),
        XmlEventView::Empty("Thumbnail"@, seq![("Source"@, ""@)]),
        XmlEventView::Start("VariableText"@, seq![]),
    ] + value_elems(variable_text_pairs()) + seq![
        XmlEventView::End("VariableText"@),
        XmlEventView::Start("UIPrefs"@, seq![]),
    ] + value_elems(ui_pref_pairs()) + seq![
        XmlEventView::End("UIPrefs"@),
        XmlEventView::Start("CutSetting"@, seq![("type"@, "Cut"@)]),
    ] + value_elems(cut_setting_pairs()) + seq![
        XmlEventView::End("CutSetting"@),
        XmlEventView::Start("Shape"@, seq![("Type"@, "Group"@)]),
        XmlEventView::Start("XForm"@, seq![]),
        XmlEventView::Text("1 0 0 1 0 0"@),
        XmlEventView::End("XForm"@),
        XmlEventView::Start("Children"@, seq![]),
    ] + shapes_events(svg.shapes@, 0) + seq![
        XmlEventView::End("Children"@),
        XmlEventView::End("Shape"@),
        XmlEventView::Empty("Notes"@, seq![("ShowOnLoad"@, "0"@), ("Notes"@, ""@)]),
        XmlEventView::End("LightBurnProject"@),
    ]
}

/// The text of a format 1 project (`FormatVersion` 0).
pub open spec fn lightburn_v1_text(svg: SvgFileText) -> Seq<char> {
    indented_xml(project_events("0"@, svg))
}

/// The text of a format 2 project (`FormatVersion` 1).
pub open spec fn lightburn_v2_text(svg: SvgFileText) -> Seq<char> {
    indented_xml(project_events("1"@, svg))
}

fn push_value_pairs(out: &mut Vec<XmlEvent>, pairs: &Vec<(&str, &str)>)
    ensures
        events_view(final(out)@) == events_view(old(out)@) + value_elems(str_pairs(pairs@)),
{
    let ghost o = events_view(out@);
    let mut i: usize = 0;
    while i < pairs.len()
        invariant
            i <= pairs@.len(),
            events_view(out@) == o + value_elems(str_pairs(pairs@.take(i as int))),
        decreases pairs@.len() - i,
    {
        let (k, v) = pairs[i];
        push_value(out, k, text_of(v));
        proof {
            assert(value_elems(str_pairs(pairs@.take(i + 1))) =~= value_elems(str_pairs(pairs@.take(i as int))).push(
                value_elem(k@, v@),
            ));
        }
        i += 1;
    }
    assert(pairs@.take(pairs@.len() as int) =~= pairs@);
}

fn push_root(out: &mut Vec<XmlEvent>, format_version: &str)
    ensures
        events_view(final(out)@) == events_view(old(out)@).push(
            XmlEventView::Start("LightBurnProject"@, root_attrs(format_version@)),
        ),
{
    let mut a = no_attrs();
    push_attr(&mut a, "AppVersion", text_of("1.7.08"));
    push_attr(&mut a, "DeviceName", text_of("GRBL-PicoCNC"));
    push_attr(&mut a, "FormatVersion", text_of(format_version));
    push_attr(&mut a, "MaterialHeight", text_of("0"));
    push_attr(&mut a, "MirrorX", text_of("False"));
    push_attr(&mut a, "MirrorY", text_of("False"));
    assert(attrs_view(a@) =~= root_attrs(format_version@));
    push_start(out, "LightBurnProject", a);
}

/// The events of a project of the given format version (see
/// `project_events`).
fn project_event_list(format_version: &str, svg_file: &SvgFileText) -> (r: Vec<XmlEvent>)
    ensures
        events_view(r@) == project_events(format_version@, *svg_file),
{
    let mut out: Vec<XmlEvent> = Vec::new();
    push_ev(&mut out, XmlEvent::Decl(text_of("1.0"), text_of("UTF-8")));
    push_root(&mut out, format_version);
    let mut th = no_attrs();
    push_attr(&mut th, "Source", text_of(""));
    assert(attrs_view(th@) =~= seq![("Source"@, ""@)]);
    push_ev(&mut out, XmlEvent::Empty(text_of("Thumbnail"), th));
    push_start(&mut out, "VariableText", no_attrs());
    let vt = vec![("Start", "0"), ("End", "999"), ("Current", "0"), ("Increment", "1"), ("AutoAdvance", "0")];
    assert(str_pairs(vt@) =~= variable_text_pairs());
    push_value_pairs(&mut out, &vt);
    push_end(&mut out, "VariableText");
    push_start(&mut out, "UIPrefs", no_attrs());
    let ui = vec![
        ("Optimize_ByLayer", "0"),
        ("Optimize_ByGroup", "-1"),
        ("Optimize_ByPriority", "1"),
        ("Optimize_WhichDirection", "0"),
        ("Optimize_InnerToOuter", "1"),
        ("Optimize_ByDirection", "0"),
        ("Optimize_ReduceTravel", "1"),
        ("Optimize_HideBacklash", "0"),
        ("Optimize_ReduceDirChanges", "0"),
        ("Optimize_ChooseCorners", "0"),
        ("Optimize_AllowReverse", "1"),
        ("Optimize_RemoveOverlaps", "0"),
        ("Optimize_OptimalEntryPoint", "1"),
        ("Optimize_OverlapDist", "0.025"),
    ];
    assert(str_pairs(ui@) =~= ui_pref_pairs());
    push_value_pairs(&mut out, &ui);
    push_end(&mut out, "UIPrefs");
    let mut ca = no_attrs();
    push_attr(&mut ca, "type", text_of("Cut"));
    assert(attrs_view(ca@) =~= seq![("type"@, "Cut"@)]);
    push_start(&mut out, "CutSetting", ca);
    let cs = vec![
        ("index", "0"),
        ("name", "Schneiden"),
        ("minPower", "17.5"),
        ("maxPower", "90"),
        ("maxPower2", "20"),
        ("speed", "4.16667"),
        ("angle", "90"),
        ("priority", "0"),
        ("tabCount", "1"),
        ("tabCountMax", "1"),
        ("tabSpacing", "50.04"),
    ];
    assert(str_pairs(cs@) =~= cut_setting_pairs());
    push_value_pairs(&mut out, &cs);
    push_end(&mut out, "CutSetting");
    let mut ga = no_attrs();
    push_attr(&mut ga, "Type", text_of("Group"));
    assert(attrs_view(ga@) =~= seq![("Type"@, "Group"@)]);
    push_start(&mut out, "Shape", ga);
    push_start(&mut out, "XForm", no_attrs());
    push_text(&mut out, text_of("1 0 0 1 0 0"));
    push_end(&mut out, "XForm");
    push_start(&mut out, "Children", no_attrs());
    let ghost before = events_view(out@);
    let mut i: usize = 0;
    while i < svg_file.shapes.len()
        invariant
            i <= svg_file.shapes@.len(),
            events_view(out@) == before + shapes_events(svg_file.shapes@.take(i as int), 0),
        decreases svg_file.shapes@.len() - i,
    {
        write_shape(&mut out, &svg_file.shapes[i], 0);
        proof {
            assert(svg_file.shapes@.take(i + 1).drop_last() =~= svg_file.shapes@.take(i as int));
        }
        i += 1;
    }
    assert(svg_file.shapes@.take(svg_file.shapes@.len() as int) =~= svg_file.shapes@);
    push_end(&mut out, "Children");
    push_end(&mut out, "Shape");
    let mut na = no_attrs();
    push_attr(&mut na, "ShowOnLoad", text_of("0"));
    push_attr(&mut na, "Notes", text_of(""));
    assert(attrs_view(na@) =~= seq![("ShowOnLoad"@, "0"@), ("Notes"@, ""@)]);
    push_ev(&mut out, XmlEvent::Empty(text_of("Notes"), na));
    push_end(&mut out, "LightBurnProject");
    assert(events_view(out@) =~= project_events(format_version@, *svg_file));
    out
}

/// Writes events through `quick_xml` (an in-memory writer, which does not
/// fail); a write error would become an `XmlGenerateError` with its text.
fn write_events(events: &Vec<XmlEvent>) -> (r: Result<String, ConversionError>)
    ensures
        r matches Ok(s) && s@ == indented_xml(events_view(events@)),
{
    let mut w = xml_writer_new();
    let mut i: usize = 0;
    while i < events.len()
        invariant
            i <= events@.len(),
            xml_written(w) == events_view(events@.take(i as int)),
        decreases events@.len() - i,
    {
        match xml_write(&mut w, &events[i]) {
            Ok(()) => {},
            Err(m) => {
                return Err(ConversionError::XmlGenerateError(m));
            },
        }
        proof {
            assert(events_view(events@.take(i + 1)) =~= events_view(events@.take(i as int)).push(events@[i as int]@));
        }
        i += 1;
    }
    assert(events@.take(events@.len() as int) =~= events@);
    match xml_finish(w) {
        Ok(s) => Ok(s),
        Err(m) => Err(ConversionError::XmlGenerateError(m)),
    }
}

/// Writes the shapes as a format 1 LightBurn project (see
/// `lightburn_v1_text`); writing in memory always succeeds.
pub fn generate_v1(svg_file: &SvgFileText) -> (r: Result<String, ConversionError>)
    ensures
        r matches Ok(s) && s@ == lightburn_v1_text(*svg_file),
{
    let events = project_event_list("0", svg_file);
    write_events(&events)
}

/// Writes the shapes as a format 2 LightBurn project (see
/// `lightburn_v2_text`); writing in memory always succeeds.
pub fn generate_v2(svg_file: &SvgFileText) -> (r: Result<String, ConversionError>)
    ensures
        r matches Ok(s) && s@ == lightburn_v2_text(*svg_file),
{
    let events = project_event_list("1", svg_file);
    write_events(&events)
}

} // verus!
