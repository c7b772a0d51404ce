//! Reading LightBurn project files: the document's elements, read by
//! `roxmltree`, become the project's settings and shapes, with every number
//! kept as the text the file holds.
use vstd::prelude::*;
use crate::lightburn::{ConversionError, ShapeType, shape_type_from_name};
use crate::path_data::{chars_of, chars_equal};

verus! {

/// A node of a parsed document, in document order: its depth (the number of
/// its ancestors, itself included), whether it is an element, its local
/// name, its attributes (namespace, local name, value) and its text.
#[derive(Debug)]
pub struct XmlItem {
    pub depth: usize,
    pub is_element: bool,
    pub name: String,
    pub attrs: Vec<(Option<String>, String, String)>,
    pub text: Option<String>,
}

/// A document node with its texts as character sequences.
pub struct XmlItemView {
    pub depth: nat,
    pub is_element: bool,
    pub name: Seq<char>,
    pub attrs: Seq<(Option<Seq<char>>, Seq<char>, Seq<char>)>,
    pub text: Option<Seq<char>>,
}

/// An optional text as an optional character sequence.
pub open spec fn opt_chars(o: Option<String>) -> Option<Seq<char>> {
    match o {
        Some(t) => Some(t@),
        None => None,
    }
}

impl View for XmlItem {
    type V = XmlItemView;

    open spec fn view(&self) -> XmlItemView {
        XmlItemView {
            depth: self.depth as nat,
            is_element: self.is_element,
            name: self.name@,
            attrs: self.attrs@.map_values(|a: (Option<String>, String, String)| (opt_chars(a.0), a.1@, a.2@)),
            text: opt_chars(self.text),
        }
    }
}

/// Document nodes with their texts as character sequences.
pub open spec fn items_view(v: Seq<XmlItem>) -> Seq<XmlItemView> {
    v.map_values(|it: XmlItem| it@)
}

/// What `roxmltree` reads from a text: the root element and the nodes
/// below it in document order, or the text of its parse error.
pub uninterp spec fn xml_items_of(content: Seq<char>) -> Result<Seq<XmlItemView>, Seq<char>>;

/// `roxmltree::Document::parse` of the text, then the root element's
/// descendants (itself first, in document order), each converted one for
/// one; a parse error becomes its text.
#[verifier::external_body]
fn xml_items(content: &str) -> (r: Result<Vec<XmlItem>, String>)
    ensures
        r matches Ok(v) ==> (xml_items_of(content@) matches Ok(w) && w == items_view(v@)),
        r matches Ok(v) ==> v@.len() > 0 && v@[0].is_element,
        r matches Err(m) ==> (xml_items_of(content@) matches Err(e) && e == m@),
{
    let doc = roxmltree::Document::parse(content).map_err(|e| e.to_string())?;
    Ok(doc.root_element().descendants().map(|n| XmlItem {
        depth: n.ancestors().count(),
        is_element: n.is_element(),
        name: n.tag_name().name().to_string(),
        attrs: n.attributes().map(|a| (a.namespace().map(|s| s.to_string()), a.name().to_string(), a.value().to_string())).collect(),
        text: n.text().map(|t| t.to_string()),
    }).collect())
}

/// The value of the first attribute at or after `i` with no namespace and
/// local name `key`.
pub open spec fn attr_from(a: Seq<(Option<Seq<char>>, Seq<char>, Seq<char>)>, key: Seq<char>, i: int) -> Option<Seq<char>>
    decreases a.len() - i,
{
    if i < 0 || i >= a.len() {
        None
    } else if a[i].0 is None && a[i].1 == key {
        Some(a[i].2)
    } else {
        attr_from(a, key, i + 1)
    }
}

/// The value of a node's attribute `key` (no namespace), if it has one.
pub open spec fn attr(it: XmlItemView, key: Seq<char>) -> Option<Seq<char>> {
    attr_from(it.attrs, key, 0)
}

/// The text, or `dflt` when there is none.
pub open spec fn or_text(o: Option<Seq<char>>, dflt: Seq<char>) -> Seq<char> {
    match o {
        Some(t) => t,
        None => dflt,
    }
}

/// The positions from `j` on of the nodes one level below depth `d`, up to
/// the first node at depth `d` or above.
pub open spec fn kids_from(items: Seq<XmlItemView>, d: nat, j: int) -> Seq<int>
    decreases items.len() - j,
{
    if j < 0 || j >= items.len() || items[j].depth <= d {
        seq![]
    } else if items[j].depth == d + 1 {
        seq![j] + kids_from(items, d, j + 1)
    } else {
        kids_from(items, d, j + 1)
    }
}

/// The positions of the children of node `i`.
pub open spec fn kids(items: Seq<XmlItemView>, i: int) -> Seq<int> {
    kids_from(items, items[i].depth, i + 1)
}

/// The node is an element named `name`.
pub open spec fn has_tag(it: XmlItemView, name: Seq<char>) -> bool {
    it.is_element && it.name == name
}

/// The positions in `ks` of elements named `name`, in order.
pub open spec fn tagged(items: Seq<XmlItemView>, ks: Seq<int>, name: Seq<char>) -> Seq<int>
    decreases ks.len(),
{
    if ks.len() == 0 {
        seq![]
    } else {
        tagged(items, ks.drop_last(), name) + if has_tag(items[ks.last()], name) {
            seq![ks.last()]
        } else {
            seq![]
        }
    }
}

/// The first child of node `i` that is an element named `name`.
pub open spec fn first_child(items: Seq<XmlItemView>, i: int, name: Seq<char>) -> Option<int> {
    let t = tagged(items, kids(items, i), name);
    if t.len() > 0 {
        Some(t[0])
    } else {
        None
    }
}

/// The text of the first child of node `i` named `name`.
pub open spec fn child_text(items: Seq<XmlItemView>, i: int, name: Seq<char>) -> Option<Seq<char>> {
    match first_child(items, i, name) {
        Some(k) => items[k].text,
        None => None,
    }
}

/// The `Value` attribute of the first child of node `i` named `name`.
pub open spec fn child_value(items: Seq<XmlItemView>, i: int, name: Seq<char>) -> Option<Seq<char>> {
    match first_child(items, i, name) {
        Some(k) => attr(items[k], "Value"@),
        None => None,
    }
}

/// Positions as integers.
pub open spec fn ints(v: Seq<usize>) -> Seq<int> {
    v.map_values(|k: usize| k as int)
}

/// `s` holds the same characters as `lit`.
fn text_is(s: &String, lit: &str) -> (r: bool)
    ensures
        r == (s@ == lit@),
{
    let v = chars_of(s.as_str());
    chars_equal(&v, lit)
}

/// The value of attribute `key` of a node (see `attr`).
fn attr_of(it: &XmlItem, key: &str) -> (r: Option<String>)
    ensures
        opt_chars(r) == attr(it@, key@),
{
    let ghost a = it@.attrs;
    let mut i: usize = 0;
    while i < it.attrs.len()
        invariant
            i <= it.attrs@.len(),
            a == it@.attrs,
            attr_from(a, key@, i as int) == attr_from(a, key@, 0),
        decreases it.attrs@.len() - i,
    {
        let e = &it.attrs[i];
        assert(a[i as int] == (opt_chars(e.0), e.1@, e.2@));
        if e.0.is_none() && text_is(&e.1, key) {
            return Some(e.2.clone());
        }
        i += 1;
    }
    None
}

proof fn lemma_kids_from_range(items: Seq<XmlItemView>, d: nat, j: int)
    requires
        0 <= j,
    ensures
        forall|k: int| 0 <= k < kids_from(items, d, j).len() ==> j <= #[trigger] kids_from(items, d, j)[k] < items.len(),
    decreases items.len() - j,
{
    if !(j >= items.len() || items[j].depth <= d) {
        lemma_kids_from_range(items, d, j + 1);
        let t = kids_from(items, d, j + 1);
        if items[j].depth == d + 1 {
            assert forall|k: int| 0 <= k < kids_from(items, d, j).len() implies j <= #[trigger] kids_from(items, d, j)[k]
                < items.len() by {
                if k > 0 {
                    assert(kids_from(items, d, j)[k] == t[k - 1]);
                }
            }
        }
    }
}

proof fn lemma_tagged_sub(items: Seq<XmlItemView>, ks: Seq<int>, name: Seq<char>, lo: int, hi: int)
    requires
        forall|k: int| 0 <= k < ks.len() ==> lo <= #[trigger] ks[k] < hi,
    ensures
        forall|k: int| 0 <= k < tagged(items, ks, name).len() ==> lo <= #[trigger] tagged(items, ks, name)[k] < hi,
    decreases ks.len(),
{
    if ks.len() > 0 {
        lemma_tagged_sub(items, ks.drop_last(), name, lo, hi);
        let t = tagged(items, ks.drop_last(), name);
        assert forall|k: int| 0 <= k < tagged(items, ks, name).len() implies lo <= #[trigger] tagged(items, ks, name)[k]
            < hi by {
            if k < t.len() {
                assert(tagged(items, ks, name)[k] == t[k]);
            } else {
                assert(tagged(items, ks, name)[k] == ks.last());
            }
        }
    }
}

/// The positions of the children of node `i` (see `kids`).
fn kids_of(items: &Vec<XmlItem>, i: usize) -> (r: Vec<usize>)
    requires
        i < items@.len(),
    ensures
        ints(r@) == kids(items_view(items@), i as int),
        forall|k: int| 0 <= k < r@.len() ==> i < #[trigger] r@[k] < items@.len(),
{
    let ghost iv = items_view(items@);
    let d = items[i].depth;
    assert(i < items.len());
    let mut r: Vec<usize> = Vec::new();
    let mut j: usize = i + 1;
    proof {
        lemma_kids_from_range(iv, d as nat, i + 1);
    }
    while j < items.len() && items[j].depth > d
        invariant
            i < j <= items@.len(),
            iv == items_view(items@),
            d == items@[i as int].depth,
            ints(r@) + kids_from(iv, d as nat, j as int) == kids(iv, i as int),
            forall|k: int| 0 <= k < r@.len() ==> i < #[trigger] r@[k] < j,
        decreases items@.len() - j,
    {
        if items[j].depth == d + 1 {
            r.push(j);
            proof {
                assert(ints(r@) =~= ints(r@.drop_last()) + seq![j as int]);
            }
        }
        j += 1;
    }
    proof {
        assert(kids_from(iv, d as nat, j as int) =~= seq![]);
        assert(ints(r@) + seq![] =~= ints(r@));
    }
    r
}

/// The positions in `ks` of elements named `name` (see `tagged`).
fn tagged_of(items: &Vec<XmlItem>, ks: &Vec<usize>, name: &str) -> (r: Vec<usize>)
    requires
        forall|k: int| 0 <= k < ks@.len() ==> #[trigger] ks@[k] < items@.len(),
    ensures
        ints(r@) == tagged(items_view(items@), ints(ks@), name@),
        forall|k: int| 0 <= k < r@.len() ==> ks@.contains(#[trigger] r@[k]),
{
    let ghost iv = items_view(items@);
    let mut r: Vec<usize> = Vec::new();
    let mut i: usize = 0;
    while i < ks.len()
        invariant
            i <= ks@.len(),
            iv == items_view(items@),
            forall|k: int| 0 <= k < ks@.len() ==> #[trigger] ks@[k] < items@.len(),
            ints(r@) == tagged(iv, ints(ks@.take(i as int)), name@),
            forall|k: int| 0 <= k < r@.len() ==> ks@.contains(#[trigger] r@[k]),
        decreases ks@.len() - i,
    {
        let k = ks[i];
        proof {
            assert(ints(ks@.take(i + 1)).drop_last() =~= ints(ks@.take(i as int)));
            assert(ints(ks@.take(i + 1)).last() == k as int);
        }
        let it = &items[k];
        if it.is_element && text_is(&it.name, name) {
            r.push(k);
            proof {
                assert(ints(r@) =~= ints(r@.drop_last()) + seq![k as int]);
            }
        } else {
            proof {
                assert(!has_tag(iv[k as int], name@));
            }
        }
        i += 1;
    }
    proof {
        assert(ks@.take(ks@.len() as int) =~= ks@);
    }
    r
}

/// A cut setting as read: its index and name, its power and speed values
/// and each of its child elements with a `Value`, all as text.
#[derive(Debug)]
pub struct CutSettingText {
    pub index: Option<String>,
    pub name: String,
    pub min_power: Option<String>,
    pub max_power: Option<String>,
    pub speed: Option<String>,
    pub properties: Vec<(String, String)>,
}

/// A shape as read: its kind, cut index and transform, the sizes of its
/// kind, the vertex and command lists of a path, and the shapes of a group,
/// every number as text.
#[derive(Debug)]
pub struct ShapeReadText {
    pub shape_type: ShapeType,
    pub cut_index: Option<String>,
    pub transform: Option<String>,
    pub width: Option<String>,
    pub height: Option<String>,
    pub corner_radius: Option<String>,
    pub rx: Option<String>,
    pub ry: Option<String>,
    pub vert_list: Option<String>,
    pub prim_list: Option<String>,
    pub children: Option<Vec<ShapeReadText>>,
}

/// A project as read: its format and application versions, device,
/// material height, mirroring, thumbnail, cut settings and shapes.
#[derive(Debug)]
pub struct LightburnFileText {
    pub version: String,
    pub app_version: String,
    pub device_name: String,
    pub material_height: String,
    pub mirror_x: bool,
    pub mirror_y: bool,
    pub thumbnail: Option<String>,
    pub cut_settings: Vec<CutSettingText>,
    pub shapes: Vec<ShapeReadText>,
}

/// The name and `Value` of each element among the nodes at `ks` that has
/// a `Value`, in order.
pub open spec fn props_of(items: Seq<XmlItemView>, ks: Seq<int>) -> Seq<(Seq<char>, Seq<char>)>
    decreases ks.len(),
{
    if ks.len() == 0 {
        seq![]
    } else {
        let it = items[ks.last()];
        props_of(items, ks.drop_last()) + match attr(it, "Value"@) {
            Some(v) => if it.is_element {
                seq![(it.name, v)]
            } else {
                seq![]
            },
            None => seq![],
        }
    }
}

/// Pairs of texts as pairs of character sequences.
pub open spec fn pairs_view(v: Seq<(String, String)>) -> Seq<(Seq<char>, Seq<char>)> {
    v.map_values(|p: (String, String)| (p.0@, p.1@))
}

/// `c` is the cut setting read from node `i`.
pub open spec fn cut_read(c: CutSettingText, items: Seq<XmlItemView>, i: int) -> bool {
    &&& opt_chars(c.index) == attr(items[i], "index"@)
    &&& c.name@ == or_text(attr(items[i], "name"@), ""@)
    &&& opt_chars(c.min_power) == child_value(items, i, "minPower"@)
    &&& opt_chars(c.max_power) == child_value(items, i, "maxPower"@)
    &&& opt_chars(c.speed) == child_value(items, i, "speed"@)
    &&& pairs_view(c.properties@) == props_of(items, kids(items, i))
}

/// `t` is the kind that the type name `name` stands for.
pub open spec fn kind_named(t: ShapeType, name: Seq<char>) -> bool {
    match t {
        ShapeType::Rect => name == "Rect"@,
        ShapeType::Ellipse => name == "Ellipse"@,
        ShapeType::Path => name == "Path"@,
        ShapeType::Group => name == "Group"@,
        ShapeType::Other(n) => n@ == name && name != "Rect"@ && name != "Ellipse"@ && name != "Path"@ && name
            != "Group"@,
    }
}

/// The positions of the `Shape` elements inside the `Children` elements of
/// node `cs`, in order.
pub open spec fn shapes_under(items: Seq<XmlItemView>, cs: Seq<int>) -> Seq<int>
    decreases cs.len(),
{
    if cs.len() == 0 {
        seq![]
    } else {
        shapes_under(items, cs.drop_last()) + tagged(items, kids(items, cs.last()), "Shape"@)
    }
}

/// The positions of the shapes of the group at node `i`.
pub open spec fn group_shapes(items: Seq<XmlItemView>, i: int) -> Seq<int> {
    shapes_under(items, tagged(items, kids(items, i), "Children"@))
}

/// The attribute `key` of node `i` when the condition holds, else nothing.
pub open spec fn attr_if(c: bool, items: Seq<XmlItemView>, i: int, key: Seq<char>) -> Option<Seq<char>> {
    if c {
        attr(items[i], key)
    } else {
        None
    }
}

/// The text of the first child of node `i` named `name` (or the empty
/// text) when the condition holds, else nothing.
pub open spec fn list_if(c: bool, items: Seq<XmlItemView>, i: int, name: Seq<char>) -> Option<Seq<char>> {
    if c {
        Some(or_text(child_text(items, i, name), ""@))
    } else {
        None
    }
}

/// `s` is the shape read from node `i`.
pub open spec fn shape_read(s: ShapeReadText, items: Seq<XmlItemView>, i: int) -> bool
    decreases s,
{
    let rect = s.shape_type is Rect;
    let ell = s.shape_type is Ellipse;
    let path = s.shape_type is Path;
    &&& kind_named(s.shape_type, or_text(attr(items[i], "Type"@), ""@))
    &&& opt_chars(s.cut_index) == attr(items[i], "CutIndex"@)
    &&& opt_chars(s.transform) == child_text(items, i, "XForm"@)
    &&& opt_chars(s.width) == attr_if(rect, items, i, "W"@)
    &&& opt_chars(s.height) == attr_if(rect, items, i, "H"@)
    &&& opt_chars(s.corner_radius) == attr_if(rect, items, i, "Cr"@)
    &&& opt_chars(s.rx) == attr_if(ell, items, i, "Rx"@)
    &&& opt_chars(s.ry) == attr_if(ell, items, i, "Ry"@)
    &&& opt_chars(s.vert_list) == list_if(path, items, i, "VertList"@)
    &&& opt_chars(s.prim_list) == list_if(path, items, i, "PrimList"@)
    &&& match s.children {
        Some(cs) => s.shape_type is Group && shapes_read(cs@, items, group_shapes(items, i)),
        None => !(s.shape_type is Group),
    }
}

/// `cs` are the shapes read from the nodes at `idx`, in order.
pub open spec fn shapes_read(cs: Seq<ShapeReadText>, items: Seq<XmlItemView>, idx: Seq<int>) -> bool
    decreases cs,
{
    if cs.len() == 0 {
        idx.len() == 0
    } else {
        &&& idx.len() == cs.len()
        &&& shapes_read(cs.drop_last(), items, idx.drop_last())
        &&& shape_read(cs.last(), items, idx.last())
    }
}

/// `f` is the project read from the document's nodes (root first).
pub open spec fn file_read(f: LightburnFileText, items: Seq<XmlItemView>) -> bool {
    let root = items[0];
    let cuts = tagged(items, kids(items, 0), "CutSetting"@);
    &&& f.version@ == or_text(attr(root, "FormatVersion"@), "0"@)
    &&& f.app_version@ == or_text(attr(root, "AppVersion"@), "unknown"@)
    &&& f.device_name@ == or_text(attr(root, "DeviceName"@), "unknown"@)
    &&& f.material_height@ == or_text(attr(root, "MaterialHeight"@), "0"@)
    &&& f.mirror_x == (or_text(attr(root, "MirrorX"@), "False"@) == "True"@)
    &&& f.mirror_y == (or_text(attr(root, "MirrorY"@), "False"@) == "True"@)
    &&& opt_chars(f.thumbnail) == match first_child(items, 0, "Thumbnail"@) {
        Some(k) => attr(items[k], "Source"@),
        None => None,
    }
    &&& f.cut_settings@.len() == cuts.len()
    &&& forall|k: int| 0 <= k < cuts.len() ==> cut_read(#[trigger] f.cut_settings@[k], items, cuts[k])
    &&& shapes_read(f.shapes@, items, tagged(items, kids(items, 0), "Shape"@))
}

/// The outcome of reading a project from its text: the parse error, an
/// error when the root element is not `LightBurnProject`, or the project.
pub open spec fn parse_outcome(content: Seq<char>, r: Result<LightburnFileText, ConversionError>) -> bool {
    match xml_items_of(content) {
        Err(m) => r matches Err(ConversionError::XmlParseError(e)) && e@ == m,
        Ok(items) => if items.len() > 0 && has_tag(items[0], "LightBurnProject"@) {
            r matches Ok(f) && file_read(f, items)
        } else {
            r matches Err(ConversionError::XmlParseError(e)) && e@ == "Root element is not <LightBurnProject>"@
        },
    }
}

/// The first child of node `i` named `name` (see `first_child`).
fn first_child_of(items: &Vec<XmlItem>, i: usize, name: &str) -> (r: Option<usize>)
    requires
        i < items@.len(),
    ensures
        match r {
            Some(k) => first_child(items_view(items@), i as int, name@) == Some(k as int) && k < items@.len(),
            None => first_child(items_view(items@), i as int, name@) is None,
        },
{
    let ks = kids_of(items, i);
    let t = tagged_of(items, &ks, name);
    if t.len() > 0 {
        proof {
            assert(ks@.contains(t@[0]));
            assert(ints(t@)[0] == t@[0] as int);
        }
        Some(t[0])
    } else {
        None
    }
}

/// The text of the first child of node `i` named `name`.
fn child_text_of(items: &Vec<XmlItem>, i: usize, name: &str) -> (r: Option<String>)
    requires
        i < items@.len(),
    ensures
        opt_chars(r) == child_text(items_view(items@), i as int, name@),
{
    match first_child_of(items, i, name) {
        Some(k) => match &items[k].text {
            Some(t) => Some(t.clone()),
            None => None,
        },
        None => None,
    }
}

/// The `Value` of the first child of node `i` named `name`.
fn child_value_of(items: &Vec<XmlItem>, i: usize, name: &str) -> (r: Option<String>)
    requires
        i < items@.len(),
    ensures
        opt_chars(r) == child_value(items_view(items@), i as int, name@),
{
    match first_child_of(items, i, name) {
        Some(k) => attr_of(&items[k], "Value"),
        None => None,
    }
}

/// The text, or the given default.
fn or_default(o: Option<String>, dflt: &str) -> (r: String)
    ensures
        r@ == or_text(opt_chars(o), dflt@),
{
    match o {
        Some(t) => t,
        None => dflt.to_string(),
    }
}

/// Reads the cut setting at node `i` (see `cut_read`).
fn parse_cut_setting(items: &Vec<XmlItem>, i: usize) -> (c: CutSettingText)
    requires
        i < items@.len(),
    ensures
        cut_read(c, items_view(items@), i as int),
{
    let ghost iv = items_view(items@);
    let ks = kids_of(items, i);
    let mut properties: Vec<(String, String)> = Vec::new();
    let mut j: usize = 0;
    while j < ks.len()
        invariant
            j <= ks@.len(),
            iv == items_view(items@),
            ints(ks@) == kids(iv, i as int),
            forall|k: int| 0 <= k < ks@.len() ==> #[trigger] ks@[k] < items@.len(),
            pairs_view(properties@) == props_of(iv, ints(ks@).take(j as int)),
        decreases ks@.len() - j,
    {
        let k = ks[j];
        proof {
            assert(ints(ks@).take(j + 1).drop_last() =~= ints(ks@).take(j as int));
            assert(ints(ks@).take(j + 1).last() == k as int);
        }
        let it = &items[k];
        if it.is_element {
            match attr_of(it, "Value") {
                Some(v) => {
                    properties.push((it.name.clone(), v));
                    proof {
                        assert(pairs_view(properties@) =~= pairs_view(properties@.drop_last()) + seq![
                            (it.name@, properties@.last().1@),
                        ]);
                    }
                },
                None => {},
            }
        } else {
            match attr_of(it, "Value") {
                Some(_) => {},
                None => {},
            }
        }
        j += 1;
    }
    proof {
        assert(ints(ks@).take(ks@.len() as int) =~= ints(ks@));
    }
    CutSettingText {
        index: attr_of(&items[i], "index"),
        name: or_default(attr_of(&items[i], "name"), ""),
        min_power: child_value_of(items, i, "minPower"),
        max_power: child_value_of(items, i, "maxPower"),
        speed: child_value_of(items, i, "speed"),
        properties,
    }
}

/// The positions of the shapes of the group at node `i` (see
/// `group_shapes`).
fn group_shapes_of(items: &Vec<XmlItem>, i: usize) -> (r: Vec<usize>)
    requires
        i < items@.len(),
    ensures
        ints(r@) == group_shapes(items_view(items@), i as int),
        forall|k: int| 0 <= k < r@.len() ==> i < #[trigger] r@[k] < items@.len(),
{
    let ghost iv = items_view(items@);
    let ks = kids_of(items, i);
    let cs = tagged_of(items, &ks, "Children");
    proof {
        assert forall|k: int| 0 <= k < cs@.len() implies i < #[trigger] cs@[k] < items@.len() by {
            assert(ks@.contains(cs@[k]));
        }
    }
    let mut r: Vec<usize> = Vec::new();
    let mut j: usize = 0;
    while j < cs.len()
        invariant
            j <= cs@.len(),
            iv == items_view(items@),
            ints(cs@) == tagged(iv, kids(iv, i as int), "Children"@),
            forall|k: int| 0 <= k < cs@.len() ==> i < #[trigger] cs@[k] < items@.len(),
            ints(r@) == shapes_under(iv, ints(cs@).take(j as int)),
            forall|k: int| 0 <= k < r@.len() ==> i < #[trigger] r@[k] < items@.len(),
        decreases cs@.len() - j,
    {
        let c = cs[j];
        let kc = kids_of(items, c);
        let sub = tagged_of(items, &kc, "Shape");
        let ghost before = ints(r@);
        let mut m: usize = 0;
        while m < sub.len()
            invariant
                m <= sub@.len(),
                c < items@.len(),
                i < c,
                ints(r@) == before + ints(sub@).take(m as int),
                forall|k: int| 0 <= k < sub@.len() ==> kc@.contains(#[trigger] sub@[k]),
                forall|k: int| 0 <= k < kc@.len() ==> c < #[trigger] kc@[k] < items@.len(),
                forall|k: int| 0 <= k < r@.len() ==> i < #[trigger] r@[k] < items@.len(),
            decreases sub@.len() - m,
        {
            proof {
                assert(kc@.contains(sub@[m as int]));
            }
            let ghost old_r = r@;
            r.push(sub[m]);
            proof {
                assert(ints(r@) =~= ints(old_r) + seq![sub@[m as int] as int]);
                assert(ints(sub@).take(m + 1) =~= ints(sub@).take(m as int) + seq![sub@[m as int] as int]);
                assert(ints(r@) =~= before + ints(sub@).take(m + 1));
            }
            m += 1;
        }
        proof {
            assert(ints(sub@).take(sub@.len() as int) =~= ints(sub@));
            assert(ints(cs@).take(j + 1).drop_last() =~= ints(cs@).take(j as int));
            assert(ints(cs@).take(j + 1).last() == c as int);
        }
        j += 1;
    }
    proof {
        assert(ints(cs@).take(cs@.len() as int) =~= ints(cs@));
    }
    r
}

/// Reads the shape at node `i` (see `shape_read`).
fn parse_shape(items: &Vec<XmlItem>, i: usize) -> (s: ShapeReadText)
    requires
        i < items@.len(),
    ensures
        shape_read(s, items_view(items@), i as int),
    decreases items@.len() - i, 1int,
{
    let it = &items[i];
    let kind_text = or_default(attr_of(it, "Type"), "");
    let shape_type = shape_type_from_name(kind_text.as_str());
    let rect = matches!(shape_type, ShapeType::Rect);
    let ell = matches!(shape_type, ShapeType::Ellipse);
    let path = matches!(shape_type, ShapeType::Path);
    let group = matches!(shape_type, ShapeType::Group);
    let (width, height, corner_radius) = if rect {
        (attr_of(it, "W"), attr_of(it, "H"), attr_of(it, "Cr"))
    } else {
        (None, None, None)
    };
    let (rx, ry) = if ell {
        (attr_of(it, "Rx"), attr_of(it, "Ry"))
    } else {
        (None, None)
    };
    let (vert_list, prim_list) = if path {
        (
            Some(or_default(child_text_of(items, i, "VertList"), "")),
            Some(or_default(child_text_of(items, i, "PrimList"), "")),
        )
    } else {
        (None, None)
    };
    let children = if group {
        let g = group_shapes_of(items, i);
        Some(parse_shape_list(items, &g, i))
    } else {
        None
    };
    ShapeReadText {
        shape_type,
        cut_index: attr_of(it, "CutIndex"),
        transform: child_text_of(items, i, "XForm"),
        width,
        height,
        corner_radius,
        rx,
        ry,
        vert_list,
        prim_list,
        children,
    }
}

/// Reads the shapes at the nodes `idx`, all after node `lo`, in order.
fn parse_shape_list(items: &Vec<XmlItem>, idx: &Vec<usize>, lo: usize) -> (r: Vec<ShapeReadText>)
    requires
        forall|k: int| 0 <= k < idx@.len() ==> lo < #[trigger] idx@[k] < items@.len(),
    ensures
        shapes_read(r@, items_view(items@), ints(idx@)),
    decreases items@.len() - lo, 0int,
{
    let ghost iv = items_view(items@);
    let mut r: Vec<ShapeReadText> = Vec::new();
    let mut j: usize = 0;
    while j < idx.len()
        invariant
            j <= idx@.len(),
            iv == items_view(items@),
            forall|k: int| 0 <= k < idx@.len() ==> lo < #[trigger] idx@[k] < items@.len(),
            shapes_read(r@, iv, ints(idx@).take(j as int)),
            r@.len() == j,
        decreases idx@.len() - j,
    {
        let k = idx[j];
        let s = parse_shape(items, k);
        let ghost prev = r@;
        r.push(s);
        proof {
            assert(r@.drop_last() =~= prev);
            assert(ints(idx@).take(j + 1).drop_last() =~= ints(idx@).take(j as int));
            assert(ints(idx@).take(j + 1).last() == k as int);
        }
        j += 1;
    }
    proof {
        assert(ints(idx@).take(idx@.len() as int) =~= ints(idx@));
    }
    r
}

/// Reads a LightBurn project from its text (see `parse_outcome`): a text
/// that is not XML, or whose root element is not `LightBurnProject`, is an
/// `XmlParseError`; otherwise the project's attributes (with the defaults
/// `unknown`, `0` and `False`), thumbnail, cut settings and shapes.
pub fn parse(content: &str) -> (r: Result<LightburnFileText, ConversionError>)
    ensures
        parse_outcome(content@, r),
{
    let items = match xml_items(content) {
        Ok(v) => v,
        Err(m) => {
            return Err(ConversionError::XmlParseError(m));
        },
    };
    let ghost iv = items_view(items@);
    let root = &items[0];
    if !(root.is_element && text_is(&root.name, "LightBurnProject")) {
        return Err(ConversionError::XmlParseError("Root element is not <LightBurnProject>".to_string()));
    }
    let version = or_default(attr_of(root, "FormatVersion"), "0");
    let app_version = or_default(attr_of(root, "AppVersion"), "unknown");
    let device_name = or_default(attr_of(root, "DeviceName"), "unknown");
    let material_height = or_default(attr_of(root, "MaterialHeight"), "0");
    let mirror_x = text_is(&or_default(attr_of(root, "MirrorX"), "False"), "True");
    let mirror_y = text_is(&or_default(attr_of(root, "MirrorY"), "False"), "True");
    let thumbnail = match first_child_of(&items, 0, "Thumbnail") {
        Some(k) => attr_of(&items[k], "Source"),
        None => None,
    };
    let ks = kids_of(&items, 0);
    let cut_idx = tagged_of(&items, &ks, "CutSetting");
    let mut cut_settings: Vec<CutSettingText> = Vec::new();
    let mut j: usize = 0;
    while j < cut_idx.len()
        invariant
            j <= cut_idx@.len(),
            iv == items_view(items@),
            forall|k: int| 0 <= k < cut_idx@.len() ==> ks@.contains(#[trigger] cut_idx@[k]),
            forall|k: int| 0 <= k < ks@.len() ==> #[trigger] ks@[k] < items@.len(),
            cut_settings@.len() == j,
            forall|k: int| 0 <= k < j ==> cut_read(#[trigger] cut_settings@[k], iv, cut_idx@[k] as int),
        decreases cut_idx@.len() - j,
    {
        proof {
            assert(ks@.contains(cut_idx@[j as int]));
        }
        let c = parse_cut_setting(&items, cut_idx[j]);
        cut_settings.push(c);
        j += 1;
    }
    let shape_idx = tagged_of(&items, &ks, "Shape");
    proof {
        assert forall|k: int| 0 <= k < shape_idx@.len() implies 0 < #[trigger] shape_idx@[k] < items@.len() by {
            assert(ks@.contains(shape_idx@[k]));
        }
    }
    let shapes = parse_shape_list(&items, &shape_idx, 0);
    let f = LightburnFileText {
        version,
        app_version,
        device_name,
        material_height,
        mirror_x,
        mirror_y,
        thumbnail,
        cut_settings,
        shapes,
    };
    proof {
        assert forall|k: int| 0 <= k < cut_idx@.len() implies ints(cut_idx@)[k] == cut_idx@[k] as int by {}
    }
    Ok(f)
}

} // verus!
