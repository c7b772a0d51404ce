//! Recognizing the columns of a table of parts from its header row.
use vstd::prelude::*;
use crate::path_data::chars_of;
use crate::path_data::chars_equal;

verus! {

broadcast use vstd::string::group_string_axioms;

/// The columns of a table of parts.
#[derive(Debug, PartialEq, Eq, Structural, Clone, Copy)]
pub enum Column {
    Width,
    Length,
    Thickness,
    Qty,
    Label,
}

/// Where each column of a table of parts is, by header position.
#[derive(Debug, PartialEq, Eq, Structural, Clone, Copy)]
pub struct ColumnIndices {
    pub width: Option<usize>,
    pub length: Option<usize>,
    pub thickness: Option<usize>,
    pub qty: Option<usize>,
    pub label: Option<usize>,
}

/// What `str::to_lowercase` returns for a text.
pub uninterp spec fn lowercase_of(s: Seq<char>) -> Seq<char>;

/// `needle` occurs in `hay`.
pub open spec fn has_part(hay: Seq<char>, needle: Seq<char>) -> bool {
    exists|i: int| 0 <= i && i + needle.len() <= hay.len() && #[trigger] hay.subrange(i, i + needle.len()) == needle
}

/// The column a lower-cased header names, by the first matching rule: a
/// header with "width" or "breite" is the width; "length" or "länge" the
/// length; "thickness" or "dicke" the thickness; "qty", "quantity" or
/// "anzahl" the quantity; "label", "name" or "bezeichnung" the label.
pub open spec fn column_of(h: Seq<char>) -> Option<Column> {
    if has_part(h, "width"@) || has_part(h, "breite"@) {
        Some(Column::Width)
    } else if has_part(h, "length"@) || has_part(h, "länge"@) {
        Some(Column::Length)
    } else if has_part(h, "thickness"@) || has_part(h, "dicke"@) {
        Some(Column::Thickness)
    } else if has_part(h, "qty"@) || has_part(h, "quantity"@) || has_part(h, "anzahl"@) {
        Some(Column::Qty)
    } else if has_part(h, "label"@) || has_part(h, "name"@) || has_part(h, "bezeichnung"@) {
        Some(Column::Label)
    } else {
        None
    }
}

/// No column found yet.
pub open spec fn no_columns() -> ColumnIndices {
    ColumnIndices { width: None, length: None, thickness: None, qty: None, label: None }
}

/// `c` with column `k` at position `i`.
pub open spec fn with_column(c: ColumnIndices, k: Column, i: usize) -> ColumnIndices {
    match k {
        Column::Width => ColumnIndices { width: Some(i), ..c },
        Column::Length => ColumnIndices { length: Some(i), ..c },
        Column::Thickness => ColumnIndices { thickness: Some(i), ..c },
        Column::Qty => ColumnIndices { qty: Some(i), ..c },
        Column::Label => ColumnIndices { label: Some(i), ..c },
    }
}

/// The columns named by the first `n` headers (already lower-cased): a
/// later header naming a column takes its place.
pub open spec fn columns_of(lower: Seq<Seq<char>>, n: int) -> ColumnIndices
    decreases n,
{
    if n <= 0 {
        no_columns()
    } else {
        let c = columns_of(lower, n - 1);
        match column_of(lower[n - 1]) {
            Some(k) => with_column(c, k, (n - 1) as usize),
            None => c,
        }
    }
}

/// Lower-cases a text with `str::to_lowercase`; the result is its named
/// outcome for the text.
#[verifier::external_body]
fn to_lower(s: &str) -> (r: String)
    ensures
        r@ == lowercase_of(s@),
{
    s.to_lowercase()
}

/// True when `needle` occurs in `hay`.
pub fn contains_text(hay: &Vec<char>, needle: &str) -> (r: bool)
    ensures
        r == has_part(hay@, needle@),
{
    let nd = chars_of(needle);
    let n = nd.len();
    let h = hay.len();
    if n > h {
        proof {
            assert forall|i: int| 0 <= i && i + nd@.len() <= hay@.len() implies #[trigger] hay@.subrange(i, i + nd@.len()) != nd@ by {}
        }
        return false;
    }
    let mut i: usize = 0;
    while i <= h - n
        invariant
            n == nd@.len(),
            nd@ == needle@,
            h == hay@.len(),
            n <= h,
            i <= h - n + 1,
            forall|j: int| 0 <= j < i ==> #[trigger] hay@.subrange(j, j + n) != nd@,
        decreases h - n + 1 - i,
    {
        let mut k: usize = 0;
        while k < n && hay[i + k] == nd[k]
            invariant
                k <= n,
                n == nd@.len(),
                h == hay@.len(),
                i + n <= h,
                forall|t: int| 0 <= t < k ==> hay@[i + t] == nd@[t],
            decreases n - k,
        {
            k += 1;
        }
        if k == n {
            proof {
                assert(hay@.subrange(i as int, i + n) =~= nd@);
            }
            return true;
        }
        proof {
            assert(hay@.subrange(i as int, i + n)[k as int] != nd@[k as int]);
        }
        i += 1;
    }
    false
}

/// The column a lower-cased header names (see `column_of`).
pub fn header_column(lower: &Vec<char>) -> (r: Option<Column>)
    ensures
        r == column_of(lower@),
{
    if contains_text(lower, "width") || contains_text(lower, "breite") {
        Some(Column::Width)
    } else if contains_text(lower, "length") || contains_text(lower, "länge") {
        Some(Column::Length)
    } else if contains_text(lower, "thickness") || contains_text(lower, "dicke") {
        Some(Column::Thickness)
    } else if contains_text(lower, "qty") || contains_text(lower, "quantity") || contains_text(
        lower,
        "anzahl",
    ) {
        Some(Column::Qty)
    } else if contains_text(lower, "label") || contains_text(lower, "name") || contains_text(
        lower,
        "bezeichnung",
    ) {
        Some(Column::Label)
    } else {
        None
    }
}

/// The positions of the columns of a table, from its header row: each
/// header is lower-cased and classified (see `column_of`); a later header
/// naming the same column wins.
pub fn find_columns(headers: &Vec<String>) -> (r: ColumnIndices)
    ensures
        r == columns_of(headers@.map_values(|h: String| lowercase_of(h@)), headers@.len() as int),
{
    let ghost lower = headers@.map_values(|h: String| lowercase_of(h@));
    let mut c = ColumnIndices { width: None, length: None, thickness: None, qty: None, label: None };
    let mut i: usize = 0;
    while i < headers.len()
        invariant
            i <= headers@.len(),
            lower == headers@.map_values(|h: String| lowercase_of(h@)),
            c == columns_of(lower, i as int),
        decreases headers.len() - i,
    {
        let l = to_lower(headers[i].as_str());
        let lc = chars_of(l.as_str());
        assert(lower[i as int] == lowercase_of(headers@[i as int]@));
        match header_column(&lc) {
            Some(Column::Width) => {
                c.width = Some(i);
            },
            Some(Column::Length) => {
                c.length = Some(i);
            },
            Some(Column::Thickness) => {
                c.thickness = Some(i);
            },
            Some(Column::Qty) => {
                c.qty = Some(i);
            },
            Some(Column::Label) => {
                c.label = Some(i);
            },
            None => {},
        }
        i += 1;
    }
    c
}

impl ColumnIndices {
    /// A table needs at least a width and a length column.
    pub fn has_required(&self) -> (b: bool)
        ensures
            b == (self.width is Some && self.length is Some),
    {
        self.width.is_some() && self.length.is_some()
    }
}


/// The kinds of file a table of parts is read from, by file extension.
#[derive(Debug, PartialEq, Eq, Structural, Clone, Copy)]
pub enum TableFile {
    /// An Excel workbook (`xlsx`, `xlsm`, `xlsb`, `xls`).
    Workbook,
    /// An OpenDocument spreadsheet (`ods`).
    OpenDocument,
    /// Comma separated values (`csv`).
    Csv,
    /// Any other extension, or none.
    Unsupported,
}

/// The kind of table file an extension names.
pub open spec fn table_file_of(ext: Option<Seq<char>>) -> TableFile {
    match ext {
        Some(e) => if e == "xlsx"@ || e == "xlsm"@ || e == "xlsb"@ || e == "xls"@ {
            TableFile::Workbook
        } else if e == "ods"@ {
            TableFile::OpenDocument
        } else if e == "csv"@ {
            TableFile::Csv
        } else {
            TableFile::Unsupported
        },
        None => TableFile::Unsupported,
    }
}

/// The kind of table file an extension (if the file name has one) names.
pub fn table_file_kind(ext: Option<&str>) -> (r: TableFile)
    ensures
        r == table_file_of(
            match ext {
                Some(e) => Some(e@),
                None => None,
            },
        ),
{
    match ext {
        Some(e) => {
            let v = chars_of(e);
            if chars_equal(&v, "xlsx") || chars_equal(&v, "xlsm") || chars_equal(&v, "xlsb")
                || chars_equal(&v, "xls") {
                TableFile::Workbook
            } else if chars_equal(&v, "ods") {
                TableFile::OpenDocument
            } else if chars_equal(&v, "csv") {
                TableFile::Csv
            } else {
                TableFile::Unsupported
            }
        },
        None => TableFile::Unsupported,
    }
}

} // verus!
