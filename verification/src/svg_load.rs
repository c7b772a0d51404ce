//! Normalizing SVG documents with `usvg`.
use vstd::prelude::*;
use vstd::string::StringExecFns;
use usvg::Tree;
use crate::svg_flip::{parse_svg_tree, tree_to_svg_text, usvg_error_text, usvg_accepts};

verus! {

broadcast use vstd::string::group_string_axioms;

/// Outcome of loading an SVG document: on success the document as `usvg`
/// writes it back, else a message.
#[derive(Debug)]
pub struct LoadSVGResult {
    pub success: bool,
    pub result: String,
}

/// Whether `Tree::from_data` with default options accepts the bytes.
pub uninterp spec fn usvg_accepts_data(data: Seq<u8>) -> bool;

/// `Tree::from_data` with default options: succeeds exactly on the data
/// that `usvg` accepts (UTF-8 text, or compressed text, that parses as an
/// SVG document).
#[verifier::external_body]
fn parse_svg_data(data: &Vec<u8>) -> (r: Result<Tree, usvg::Error>)
    ensures
        r is Ok <==> usvg_accepts_data(data@),
{
    Tree::from_data(data.as_slice(), &usvg::Options::default())
}

/// The outcome for a parse result: the tree written back, or the message
/// `Fehler beim Parsen der SVG: ` followed by the error.
fn load_result(parsed: Result<Tree, usvg::Error>) -> (r: LoadSVGResult)
    ensures
        r.success == parsed is Ok,
        !r.success ==> exists|msg: Seq<char>| r.result@ == "Fehler beim Parsen der SVG: "@ + msg,
{
    match parsed {
        Ok(tree) => LoadSVGResult { success: true, result: tree_to_svg_text(&tree) },
        Err(e) => {
            let msg = usvg_error_text(&e);
            LoadSVGResult { success: false, result: "Fehler beim Parsen der SVG: ".to_string().concat(msg.as_str()) }
        },
    }
}

/// Parses an SVG document and writes it back normalized by `usvg`; fails
/// with a message when `usvg` rejects the text.
pub fn load_svg_string(svg_data: String) -> (r: LoadSVGResult)
    ensures
        r.success <==> usvg_accepts(svg_data@),
        !r.success ==> exists|msg: Seq<char>| r.result@ == "Fehler beim Parsen der SVG: "@ + msg,
{
    load_result(parse_svg_tree(svg_data.as_str()))
}

/// Parses SVG file data and writes it back normalized by `usvg`; fails with
/// a message when `usvg` rejects the data.
pub fn load_svg_data(data: &Vec<u8>) -> (r: LoadSVGResult)
    ensures
        r.success <==> usvg_accepts_data(data@),
        !r.success ==> exists|msg: Seq<char>| r.result@ == "Fehler beim Parsen der SVG: "@ + msg,
{
    load_result(parse_svg_data(data))
}

} // verus!
