//! Mirroring an SVG document by wrapping its content in a transformed group.
use vstd::prelude::*;
use vstd::string::StringExecFns;
use usvg::Tree;
use crate::path_data::chars_of;
use crate::path_data::string_of_range;

verus! {

broadcast use vstd::string::group_string_axioms;

/// The SVG parse tree of `usvg`.
#[verifier::external_type_specification]
#[verifier::external_body]
pub struct ExTree(Tree);

/// The parse errors of `usvg`.
#[verifier::external_type_specification]
#[verifier::external_body]
pub struct ExUsvgError(usvg::Error);

/// The axis to mirror across.
#[derive(Debug, PartialEq, Eq, Structural, Clone, Copy)]
pub enum FlipDirection {
    Horizontal,
    Vertical,
}

/// Outcome of a flip: on success the mirrored document, else a message.
#[derive(Debug)]
pub struct FlipSVGResult {
    pub success: bool,
    pub result: String,
}

/// Whether `Tree::from_str` with default options accepts the text.
pub uninterp spec fn usvg_accepts(svg: Seq<char>) -> bool;

/// The width and height of the document that `Tree::from_str` with default
/// options reads from the text (from its `width`, `height` and `viewBox`),
/// each written out as `format!` writes an `f32`.
pub uninterp spec fn usvg_size_text(svg: Seq<char>) -> (Seq<char>, Seq<char>);

/// Position of the first `c` in `s` at or after `i`, if any.
pub open spec fn find_from(s: Seq<char>, c: char, i: int) -> Option<int>
    decreases s.len() - i,
{
    if i < 0 || i >= s.len() {
        None
    } else if s[i] == c {
        Some(i)
    } else {
        find_from(s, c, i + 1)
    }
}

/// True when `pat` occurs in `s` at position `i`.
pub open spec fn occurs_at(s: Seq<char>, pat: Seq<char>, i: int) -> bool {
    0 <= i && i + pat.len() <= s.len() && s.subrange(i, i + pat.len()) == pat
}

/// Position of the last occurrence of `pat` in `s` that starts before `end`.
pub open spec fn rfind_before(s: Seq<char>, pat: Seq<char>, end: int) -> Option<int>
    decreases end,
{
    if end <= 0 {
        None
    } else if occurs_at(s, pat, end - 1) {
        Some(end - 1)
    } else {
        rfind_before(s, pat, end - 1)
    }
}

/// The closing tag of an SVG document.
pub open spec fn svg_close() -> Seq<char> {
    seq!['<', '/', 's', 'v', 'g', '>']
}

/// `svg` with everything between the end of its first tag and its last
/// closing `</svg>` wrapped in a group with the given transform; `svg`
/// itself when either is missing.
pub open spec fn wrap_spec(svg: Seq<char>, transform: Seq<char>) -> Seq<char> {
    match find_from(svg, '>', 0) {
        None => svg,
        Some(p) => {
            let start = svg.subrange(0, p + 1);
            let rest = svg.subrange(p + 1, svg.len() as int);
            match rfind_before(rest, svg_close(), rest.len() as int) {
                None => svg,
                Some(q) => start + "<g transform=\""@ + transform + "\">"@ + rest.subrange(0, q)
                    + "</g>"@ + rest.subrange(q, rest.len() as int),
            }
        },
    }
}

/// The mirroring transform for a document of the given width and height
/// (as written out).
pub open spec fn transform_spec(direction: FlipDirection, width: Seq<char>, height: Seq<char>) -> Seq<
    char,
> {
    match direction {
        FlipDirection::Horizontal => "matrix(-1,0,0,1,"@ + width + ",0)"@,
        FlipDirection::Vertical => "matrix(1,0,0,-1,0,"@ + height + ")"@,
    }
}

/// True when `s[at..at + 6]` is `</svg>`.
fn closes_at(s: &Vec<char>, at: usize) -> (b: bool)
    requires
        at + 6 <= s.len(),
    ensures
        b == (s@.subrange(at as int, at + 6) == svg_close()),
{
    let b = s[at] == '<' && s[at + 1] == '/' && s[at + 2] == 's' && s[at + 3] == 'v' && s[at + 4]
        == 'g' && s[at + 5] == '>';
    proof {
        if b {
            assert(s@.subrange(at as int, at + 6) =~= svg_close());
        } else {
            if s@.subrange(at as int, at + 6) == svg_close() {
                assert(s@.subrange(at as int, at + 6)[0] == '<');
                assert(s@.subrange(at as int, at + 6)[1] == '/');
                assert(s@.subrange(at as int, at + 6)[2] == 's');
                assert(s@.subrange(at as int, at + 6)[3] == 'v');
                assert(s@.subrange(at as int, at + 6)[4] == 'g');
                assert(s@.subrange(at as int, at + 6)[5] == '>');
            }
        }
    }
    b
}

/// Wraps the content of an SVG document (between the end of its first tag
/// and its last `</svg>`) in `<g transform="...">`; returns the document
/// unchanged when either is missing.
pub fn wrap_svg_with_flip(svg: &str, transform: &str) -> (r: String)
    ensures
        r@ == wrap_spec(svg@, transform@),
{
    let s = chars_of(svg);
    let n = s.len();
    let mut p: usize = 0;
    while p < n && s[p] != '>'
        invariant
            p <= n,
            n == s@.len(),
            find_from(s@, '>', p as int) == find_from(s@, '>', 0),
        decreases n - p,
    {
        p += 1;
    }
    if p == n {
        return svg.to_string();
    }
    assert(find_from(s@, '>', p as int) == Some(p as int));
    let base = p + 1;
    let ghost rest = s@.subrange(base as int, n as int);
    let mut end: usize = n - base;
    while end > 0
        invariant
            end <= n - base,
            base == p + 1,
            base <= n,
            s@ == svg@,
            find_from(s@, '>', 0) == Some(p as int),
            n == s@.len(),
            rest == s@.subrange(base as int, n as int),
            rfind_before(rest, svg_close(), end as int) == rfind_before(
                rest,
                svg_close(),
                rest.len() as int,
            ),
        decreases end,
    {
        let j = end - 1;
        let hit = n - base >= 6 && j <= n - base - 6 && closes_at(&s, base + j);
        proof {
            if n - base >= 6 && j <= n - base - 6 {
                assert(rest.subrange(j as int, j + 6) =~= s@.subrange(base + j, base + j + 6));
            }
        }
        if hit {
            let start = string_of_range(&s, 0, base);
            let inner = string_of_range(&s, base, base + j);
            let tail = string_of_range(&s, base + j, n);
            let r = start.concat("<g transform=\"").concat(transform).concat("\">").concat(
                inner.as_str(),
            ).concat("</g>").concat(tail.as_str());
            proof {
                assert(occurs_at(rest, svg_close(), j as int));
                assert(rfind_before(rest, svg_close(), end as int) == Some(j as int));
                assert(rest.subrange(0, j as int) =~= s@.subrange(base as int, base + j));
                assert(rest.subrange(j as int, rest.len() as int) =~= s@.subrange(base + j, n as int));
            }
            return r;
        }
        end = j;
    }
    svg.to_string()
}

/// The mirroring transform for a document of the given width and height
/// (as written out).
pub fn flip_transform(direction: FlipDirection, width: &str, height: &str) -> (r: String)
    ensures
        r@ == transform_spec(direction, width@, height@),
{
    match direction {
        FlipDirection::Horizontal => "matrix(-1,0,0,1,".to_string().concat(width).concat(",0)"),
        FlipDirection::Vertical => "matrix(1,0,0,-1,0,".to_string().concat(height).concat(")"),
    }
}

/// `Tree::from_str` with default options: succeeds exactly on the texts
/// that `usvg` accepts (well-formed XML with a valid SVG size, within its
/// element limit).
#[verifier::external_body]
pub(crate) fn parse_svg_tree(svg: &str) -> (r: Result<Tree, usvg::Error>)
    ensures
        r is Ok <==> usvg_accepts(svg@),
{
    Tree::from_str(svg, &usvg::Options::default())
}

/// The width and height of the document read from `svg` (`Tree::from_str`
/// with default options, then `Tree::size`), written out as `format!` writes
/// an `f32`; `None` exactly when `usvg` rejects the text. The size depends
/// on the text alone and is the named outcome for it.
#[verifier::external_body]
fn svg_size_text(svg: &str) -> (r: Option<(String, String)>)
    ensures
        r is Some <==> usvg_accepts(svg@),
        r matches Some(p) ==> (p.0@, p.1@) == usvg_size_text(svg@),
{
    match Tree::from_str(svg, &usvg::Options::default()) {
        Ok(tree) => Some((format!("{}", tree.size().width()), format!("{}", tree.size().height()))),
        Err(_) => None,
    }
}

/// The tree written back to SVG text (`Tree::to_string` with default
/// options). Nothing is stated of the text.
#[verifier::external_body]
pub(crate) fn tree_to_svg_text(tree: &Tree) -> (r: String) {
    tree.to_string(&usvg::WriteOptions::default())
}

/// The message of a `usvg` error (its `Display`). Nothing is stated of the
/// text.
#[verifier::external_body]
pub(crate) fn usvg_error_text(e: &usvg::Error) -> (r: String) {
    format!("{}", e)
}

/// Mirrors an SVG document: `usvg` normalizes it, and its content is wrapped
/// in a group that mirrors it across the document's width (horizontally) or
/// height (vertically), by the size `usvg` reads from the text. When `usvg`
/// rejects the text the result is a failure with a message that starts with
/// `Error parsing SVG: `.
pub fn flip_svg_string(svg_data: String, direction: FlipDirection) -> (r: FlipSVGResult)
    ensures
        r.success <==> usvg_accepts(svg_data@),
        r.success ==> exists|doc: Seq<char>|
            r.result@ == wrap_spec(
                doc,
                transform_spec(direction, usvg_size_text(svg_data@).0, usvg_size_text(svg_data@).1),
            ),
        !r.success ==> exists|msg: Seq<char>| r.result@ == "Error parsing SVG: "@ + msg,
{
    match parse_svg_tree(svg_data.as_str()) {
        Ok(tree) => {
            let (w, h) = match svg_size_text(svg_data.as_str()) {
                Some(p) => p,
                None => {
                    proof {
                        assert(false);
                    }
                    (String::new(), String::new())
                },
            };
            let t = flip_transform(direction, w.as_str(), h.as_str());
            let normalized = tree_to_svg_text(&tree);
            let output = wrap_svg_with_flip(normalized.as_str(), t.as_str());
            assert(output@ == wrap_spec(
                normalized@,
                transform_spec(direction, usvg_size_text(svg_data@).0, usvg_size_text(svg_data@).1),
            ));
            FlipSVGResult { success: true, result: output }
        },
        Err(e) => {
            let msg = usvg_error_text(&e);
            let result = "Error parsing SVG: ".to_string().concat(msg.as_str());
            FlipSVGResult { success: false, result }
        },
    }
}

} // verus!
