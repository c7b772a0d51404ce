//! Properties that hold across the operations of the library.
use vstd::prelude::*;
use crate::geometry::{Point64, Rect64, PipResult};
use crate::internal_clipper::{segs_intersect_spec, cross, sign};
use crate::part_table::{Column, ColumnIndices, has_part, column_of, columns_of};
use crate::path_data::{
    params_count_spec,
    segments_of_path,
    parse_from,
    path_words,
    segment_words,
    join_words,
    SegmentView,
    TokenView,
    param_texts,
    number_run,
    lemma_number_run_bounds,
    tokens_of,
    implicit_move,
    mode_after,
    prepend,
};
use crate::polygon::{point_in_polygon_spec, on_segment, on_boundary, prev_index, first_off_line};
use crate::clipper_v1::clipper_base::strictly_increasing;
use crate::clipper_v1::clipper::{chain_end, chain_settles, chain_target, settles_within, stops_at};
use crate::clipper_v1::clipper_base::OutRec;
use crate::lightburn::{PathCommand, commands_of, commands_text, prim_list_readable, lemma_written_prim_list_reads_empty};
use crate::lightburn_writer::{SvgFileText, XmlEventView, project_events, root_attrs, lightburn_v1_text, lightburn_v2_text, indented_xml};
use crate::path_data::{tokens_from, TokenType, lemma_number_end_bounds, starts_number, is_white_space, is_command_char, lexeme_is_number, number_end};

verus! {

/// Setting the width, then reading it, gives back the width set (when the
/// new right edge is representable): `set_width` moves the right edge to
/// `left + w`, and `width` is `right - left`.
pub proof fn law_width_after_set_width(before: Rect64, after: Rect64, w: i64)
    requires
        after.right == before.left + w,
        after.left == before.left,
    ensures
        after.right - after.left == w,
{
}

/// Setting the height, then reading it, gives back the height set.
pub proof fn law_height_after_set_height(before: Rect64, after: Rect64, h: i64)
    requires
        after.bottom == before.top + h,
        after.top == before.top,
    ensures
        after.bottom - after.top == h,
{
}

/// Two strictly increasing sequences with the same elements are equal: a
/// sorted list without duplicates is determined by its set of values. So
/// the scan beams and the maxima are exactly described by what was
/// inserted, and inserting a value twice is the same as inserting it once.
pub proof fn law_sorted_unique_determined(a: Seq<i64>, b: Seq<i64>)
    requires
        strictly_increasing(a),
        strictly_increasing(b),
        forall|v: i64| a.contains(v) <==> b.contains(v),
    ensures
        a == b,
    decreases a.len() + b.len(),
{
    if a.len() == 0 {
        if b.len() > 0 {
            assert(b.contains(b[0]));
        }
        assert(b.len() == 0);
        assert(a =~= b);
    } else if b.len() == 0 {
        assert(a.contains(a[0]));
    } else {
        let la = a.last();
        let lb = b.last();
        assert(a.contains(la));
        assert(b.contains(lb));
        let ia = choose|i: int| 0 <= i < a.len() && a[i] == lb;
        let ib = choose|i: int| 0 <= i < b.len() && b[i] == la;
        assert(a[ia] <= la);
        assert(b[ib] <= lb);
        assert(la == lb);
        let a2 = a.drop_last();
        let b2 = b.drop_last();
        assert forall|v: i64| a2.contains(v) <==> b2.contains(v) by {
            if a2.contains(v) {
                let i = choose|i: int| 0 <= i < a2.len() && a2[i] == v;
                assert(a.contains(v));
                assert(v < la);
                let j = choose|j: int| 0 <= j < b.len() && b[j] == v;
                assert(j < b.len() - 1);
                assert(b2[j] == v);
            }
            if b2.contains(v) {
                let i = choose|i: int| 0 <= i < b2.len() && b2[i] == v;
                assert(b.contains(v));
                assert(v < lb);
                let j = choose|j: int| 0 <= j < a.len() && a[j] == v;
                assert(j < a.len() - 1);
                assert(a2[j] == v);
            }
        }
        law_sorted_unique_determined(a2, b2);
        assert(a =~= a2.push(la));
        assert(b =~= b2.push(lb));
    }
}

/// The top of the scan beams (what a pop returns) is the largest pending
/// value: after inserting `y` above everything pending, the next pop
/// returns `y`.
pub proof fn law_pop_after_insert_returns_largest(before: Seq<i64>, after: Seq<i64>, y: i64)
    requires
        strictly_increasing(before),
        strictly_increasing(after),
        forall|v: i64| after.contains(v) <==> (before.contains(v) || v == y),
        forall|v: i64| before.contains(v) ==> v < y,
    ensures
        after.len() > 0,
        after.last() == y,
{
    assert(after.contains(y));
    let k = choose|k: int| 0 <= k < after.len() && after[k] == y;
    if k < after.len() - 1 {
        let z = after.last();
        assert(after.contains(z));
        assert(y < z);
        assert(before.contains(z));
    }
}

/// Reversing every path twice gives back the paths.
pub proof fn law_reverse_twice<A>(s: Seq<A>)
    ensures
        s.reverse().reverse() == s,
{
    assert(s.reverse().reverse() =~= s);
}

/// Whether two segments intersect does not depend on which is given first.
pub proof fn law_segs_intersect_symmetric(a: Point64, b: Point64, c: Point64, d: Point64, inclusive: bool)
    ensures
        segs_intersect_spec(a, b, c, d, inclusive) == segs_intersect_spec(c, d, a, b, inclusive),
{
}

/// Every vertex of a polygon of three or more vertices that does not lie
/// wholly on one horizontal line is classified `OnEdge`.
pub proof fn law_vertices_are_on_edge(poly: Seq<Point64>, k: int)
    requires
        poly.len() >= 3,
        0 <= k < poly.len(),
        first_off_line(poly, poly[k], 0) < poly.len(),
    ensures
        point_in_polygon_spec(poly[k], poly) == PipResult::OnEdge,
{
    assert(on_segment(poly[k], poly[prev_index(k, poly.len() as int)], poly[k]));
    assert(on_boundary(poly, poly[k]));
}

/// The token list of any path data ends with the end marker, and has no
/// other.
pub proof fn law_tokens_end_with_eod(s: Seq<char>, i: int)
    ensures
        tokens_from(s, i).len() >= 1,
        tokens_from(s, i).last().0 == TokenType::EOD,
        forall|j: int| 0 <= j < tokens_from(s, i).len() - 1 ==> (#[trigger] tokens_from(s, i)[j]).0 != TokenType::EOD,
    decreases s.len() - i,
{
    if i < 0 || i >= s.len() {
    } else if is_white_space(s[i]) || s[i] == ',' {
        law_tokens_end_with_eod(s, i + 1);
    } else if is_command_char(s[i]) {
        law_tokens_end_with_eod(s, i + 1);
        let r = tokens_from(s, i + 1);
        let t = tokens_from(s, i);
        assert forall|j: int| 0 <= j < t.len() - 1 implies (#[trigger] t[j]).0 != TokenType::EOD by {
            if j > 0 {
                assert(t[j] == r[j - 1]);
            }
        }
    } else if starts_number(s[i]) {
        lemma_number_end_bounds(s, i);
        law_tokens_end_with_eod(s, i + 1);
        law_tokens_end_with_eod(s, number_end(s, i));
        if lexeme_is_number(s, i) {
            let r = tokens_from(s, number_end(s, i));
            let t = tokens_from(s, i);
            assert forall|j: int| 0 <= j < t.len() - 1 implies (#[trigger] t[j]).0 != TokenType::EOD by {
                if j > 0 {
                    assert(t[j] == r[j - 1]);
                }
            }
        }
    } else {
        law_tokens_end_with_eod(s, i + 1);
    }
}

/// A settled chain ends at its end or at a record where it stops.
proof fn lemma_chain_target_stops(outs: Seq<OutRec>, o: Option<usize>, hole: bool, n: nat)
    requires
        settles_within(outs, o, hole, n),
    ensures
        chain_target(outs, o, hole, n) matches Some(i) ==> stops_at(outs, i, hole),
    decreases n,
{
    match o {
        None => {},
        Some(i) => {
            if !stops_at(outs, i, hole) {
                lemma_chain_target_stops(outs, outs[i as int].first_left, hole, (n - 1) as nat);
            }
        },
    }
}

/// Fixing the hole linkage of a record twice is the same as fixing it once:
/// the record it then points at (if any) already is of the other kind and
/// has points.
pub proof fn law_fix_hole_linkage_idempotent(outs: Seq<OutRec>, o: Option<usize>, hole: bool)
    requires
        chain_settles(outs, o, hole),
    ensures
        chain_settles(outs, chain_end(outs, o, hole), hole),
        chain_end(outs, chain_end(outs, o, hole), hole) == chain_end(outs, o, hole),
{
    let n = choose|n: nat| settles_within(outs, o, hole, n);
    lemma_chain_target_stops(outs, o, hole, n);
    let t = chain_end(outs, o, hole);
    assert(settles_within(outs, t, hole, 0));
    let m = choose|m: nat| settles_within(outs, t, hole, m);
}


/// A path's command list, once written (`prim_list_text`), can be read back
/// (`parse_prim_list`), and gives no commands at all: the writer separates
/// each command's second index from its letter by a space, and writes
/// `Close` as a one-letter word, while the reader only takes words of two or
/// more characters that begin with `Z`.
pub proof fn law_written_prim_list_reads_back_empty(cs: Seq<PathCommand>)
    ensures
        prim_list_readable(commands_text(cs)),
        commands_of(commands_text(cs)) == Seq::<PathCommand>::empty(),
{
    lemma_written_prim_list_reads_empty(cs);
}


/// A format 2 project is written as the format 1 project of the same shapes
/// with the root's `FormatVersion` attribute changed from 0 to 1: the events
/// differ only there, so the texts are those of the two event lists.
pub proof fn law_v2_is_v1_with_format_version(svg: SvgFileText)
    ensures
        project_events("1"@, svg) == project_events("0"@, svg).update(
            1,
            XmlEventView::Start("LightBurnProject"@, root_attrs("0"@).update(2, ("FormatVersion"@, "1"@))),
        ),
        lightburn_v1_text(svg) == indented_xml(project_events("0"@, svg)),
        lightburn_v2_text(svg) == indented_xml(project_events("0"@, svg).update(
            1,
            XmlEventView::Start("LightBurnProject"@, root_attrs("0"@).update(2, ("FormatVersion"@, "1"@))),
        )),
{
    assert(root_attrs("0"@).update(2, ("FormatVersion"@, "1"@)) =~= root_attrs("1"@));
    assert(project_events("1"@, svg) =~= project_events("0"@, svg).update(
        1,
        XmlEventView::Start("LightBurnProject"@, root_attrs("0"@).update(2, ("FormatVersion"@, "1"@))),
    ));
}

proof fn lemma_sign_product(x: int, y: int)
    ensures
        (sign(x) * sign(y) <= 0) == (x * y <= 0),
        (sign(x) * sign(y) < 0) == (x * y < 0),
        (sign(x) == 0) == (x == 0),
{
    if x > 0 && y > 0 {
        assert(x * y > 0) by (nonlinear_arith)
            requires
                x > 0,
                y > 0,
        ;
    } else if x < 0 && y < 0 {
        assert(x * y > 0) by (nonlinear_arith)
            requires
                x < 0,
                y < 0,
        ;
    } else if x > 0 && y < 0 {
        assert(x * y < 0) by (nonlinear_arith)
            requires
                x > 0,
                y < 0,
        ;
    } else if x < 0 && y > 0 {
        assert(x * y < 0) by (nonlinear_arith)
            requires
                x < 0,
                y > 0,
        ;
    } else {
        assert(x * y == 0) by (nonlinear_arith)
            requires
                x == 0 || y == 0,
        ;
    }
}

/// Two segments `a`-`b` and `c`-`d` intersect, touching included, exactly
/// when each segment's ends do not lie strictly on the same side of the
/// other segment's line, unless all four ends lie on one line; without
/// touching, exactly when each segment's ends lie strictly on opposite
/// sides of the other's line.
pub proof fn law_segs_intersect_by_sides(a: Point64, b: Point64, c: Point64, d: Point64)
    ensures
        segs_intersect_spec(a, b, c, d, true) == (cross(a, c, d) * cross(b, c, d) <= 0 && cross(c, a, b) * cross(
            d,
            a,
            b,
        ) <= 0 && !(cross(a, c, d) == 0 && cross(b, c, d) == 0 && cross(c, a, b) == 0 && cross(d, a, b) == 0)),
        segs_intersect_spec(a, b, c, d, false) == (cross(a, c, d) * cross(b, c, d) < 0 && cross(c, a, b) * cross(
            d,
            a,
            b,
        ) < 0),
{
    lemma_sign_product(cross(a, c, d), cross(b, c, d));
    lemma_sign_product(cross(c, a, b), cross(d, a, b));
    lemma_sign_product(cross(b, c, d), cross(a, c, d));
    lemma_sign_product(cross(d, a, b), cross(c, a, b));
}

/// Two segments that share an end and do not lie on one line touch there:
/// they intersect when touching counts, and do not cross strictly.
pub proof fn law_segs_touching_at_shared_end(a: Point64, b: Point64, d: Point64)
    requires
        cross(a, b, d) != 0,
    ensures
        segs_intersect_spec(a, b, b, d, true),
        segs_intersect_spec(a, b, d, b, true),
        !segs_intersect_spec(a, b, b, d, false),
{
    law_segs_intersect_by_sides(a, b, b, d);
    law_segs_intersect_by_sides(a, b, d, b);
    assert(cross(b, b, d) == 0) by (nonlinear_arith);
    assert(cross(b, d, b) == 0) by (nonlinear_arith);
    assert(cross(b, a, b) == 0) by (nonlinear_arith);
    assert(cross(a, d, b) == -cross(a, b, d)) by (nonlinear_arith);
    assert(cross(a, b, d) * cross(b, b, d) == 0) by (nonlinear_arith)
        requires
            cross(b, b, d) == 0,
    ;
    assert(cross(b, a, b) * cross(d, a, b) == 0) by (nonlinear_arith)
        requires
            cross(b, a, b) == 0,
    ;
    assert(cross(a, d, b) * cross(b, d, b) == 0) by (nonlinear_arith)
        requires
            cross(b, d, b) == 0,
    ;
    assert(cross(d, a, b) * cross(b, a, b) == 0) by (nonlinear_arith)
        requires
            cross(b, a, b) == 0,
    ;
}

/// The number of parameters each command letter of SVG path data takes:
/// arcs 7, cubic curves 6, quadratic and smooth cubic curves 4, lines,
/// moves and smooth quadratic curves 2, horizontal and vertical lines 1,
/// the close path 0; any other character is no command.
pub proof fn law_path_command_parameter_counts(c: char)
    ensures
        params_count_spec('A') == Some(7usize) && params_count_spec('a') == Some(7usize),
        params_count_spec('C') == Some(6usize) && params_count_spec('c') == Some(6usize),
        params_count_spec('S') == Some(4usize) && params_count_spec('s') == Some(4usize),
        params_count_spec('Q') == Some(4usize) && params_count_spec('q') == Some(4usize),
        params_count_spec('T') == Some(2usize) && params_count_spec('t') == Some(2usize),
        params_count_spec('L') == Some(2usize) && params_count_spec('l') == Some(2usize),
        params_count_spec('M') == Some(2usize) && params_count_spec('m') == Some(2usize),
        params_count_spec('H') == Some(1usize) && params_count_spec('h') == Some(1usize),
        params_count_spec('V') == Some(1usize) && params_count_spec('v') == Some(1usize),
        params_count_spec('Z') == Some(0usize) && params_count_spec('z') == Some(0usize),
        !(c == 'A' || c == 'a' || c == 'C' || c == 'c' || c == 'S' || c == 's' || c == 'Q' || c == 'q' || c == 'T'
            || c == 't' || c == 'L' || c == 'l' || c == 'M' || c == 'm' || c == 'H' || c == 'h' || c == 'V' || c
            == 'v' || c == 'Z' || c == 'z') ==> params_count_spec(c) is None,
{
}

/// The parameter count a segment's command takes (none: zero).
pub open spec fn count_of(c: char) -> int {
    match params_count_spec(c) {
        Some(n) => n as int,
        None => 0,
    }
}

/// The number of parameters of all segments together.
pub open spec fn param_total(segs: Seq<SegmentView>) -> int
    decreases segs.len(),
{
    if segs.len() == 0 {
        0
    } else {
        param_total(segs.drop_last()) + segs.last().1.len()
    }
}

proof fn lemma_parse_from_full(t: Seq<TokenView>, index: int, mode: char)
    ensures
        parse_from(t, index, mode) matches Some(segs) ==> forall|k: int|
            0 <= k < segs.len() ==> (#[trigger] segs[k]).1.len() == count_of(segs[k].0),
    decreases t.len() - index,
{
    if !(index < 0 || index >= t.len() || t[index].0 == TokenType::EOD) {
        let is_num = t[index].0 == TokenType::Number;
        let cm = if is_num {
            mode
        } else {
            t[index].1[0]
        };
        let start = if is_num {
            index
        } else {
            index + 1
        };
        let pc = count_of(cm);
        if start + pc <= t.len() {
            let n = number_run(t, start, pc);
            lemma_number_run_bounds(t, start, pc);
            if start + n > index {
                lemma_parse_from_full(t, start + n, crate::path_data::mode_after(cm));
                if n == pc {
                    match parse_from(t, start + n, crate::path_data::mode_after(cm)) {
                        Some(r) => {
                            let segs = seq![(cm, param_texts(t, start, n))] + r;
                            assert(param_texts(t, start, n).len() == n);
                            assert forall|k: int| 0 <= k < segs.len() implies (#[trigger] segs[k]).1.len() == count_of(
                                segs[k].0,
                            ) by {
                                if k > 0 {
                                    assert(segs[k] == r[k - 1]);
                                }
                            }
                        },
                        None => {},
                    }
                }
            }
        }
    }
}

proof fn lemma_path_words_len(segs: Seq<SegmentView>)
    requires
        forall|k: int| 0 <= k < segs.len() ==> (#[trigger] segs[k]).1.len() == count_of(segs[k].0),
    ensures
        path_words(segs).len() == segs.len() + param_total(segs),
    decreases segs.len(),
{
    if segs.len() > 0 {
        let p = segs.drop_last();
        assert forall|k: int| 0 <= k < p.len() implies (#[trigger] p[k]).1.len() == count_of(p[k].0) by {
            assert(p[k] == segs[k]);
        }
        lemma_path_words_len(p);
        let l = segs.last();
        assert(l.1.len() == count_of(l.0));
    }
}

/// Writing out the segments read from path data keeps every parameter:
/// the words written are each segment's command letter and one word per
/// parameter, so their number is the number of segments plus the number of
/// parameters of all of them.
pub proof fn law_serialize_writes_every_parameter(d: Seq<char>)
    requires
        segments_of_path(d) is Some,
    ensures
        path_words(segments_of_path(d)->0).len() == segments_of_path(d)->0.len() + param_total(
            segments_of_path(d)->0,
        ),
{
    let t = tokens_of(d);
    lemma_parse_from_full(t, 0, 'M');
    lemma_parse_from_full(tokens_of(implicit_move() + d), 0, 'M');
    lemma_path_words_len(segments_of_path(d)->0);
}

/// Each column keyword names its column in a lower-cased header, the
/// earlier keywords of the list taking precedence: "width" or "breite"
/// the width; otherwise "length" or "länge" the length; otherwise
/// "thickness" or "dicke" the thickness; otherwise "qty", "quantity" or
/// "anzahl" the quantity; otherwise "label", "name" or "bezeichnung" the
/// label; a header with none of these names no column.
pub proof fn law_header_keywords(h: Seq<char>)
    ensures
        has_part(h, "width"@) ==> column_of(h) == Some(Column::Width),
        has_part(h, "breite"@) ==> column_of(h) == Some(Column::Width),
        !has_part(h, "width"@) && !has_part(h, "breite"@) && has_part(h, "length"@) ==> column_of(h) == Some(
            Column::Length,
        ),
        !has_part(h, "width"@) && !has_part(h, "breite"@) && has_part(h, "länge"@) ==> column_of(h) == Some(
            Column::Length,
        ),
        !has_part(h, "width"@) && !has_part(h, "breite"@) && !has_part(h, "length"@) && !has_part(h, "länge"@) && (
        has_part(h, "thickness"@) || has_part(h, "dicke"@)) ==> column_of(h) == Some(Column::Thickness),
        !has_part(h, "width"@) && !has_part(h, "breite"@) && !has_part(h, "length"@) && !has_part(h, "länge"@)
            && !has_part(h, "thickness"@) && !has_part(h, "dicke"@) && (has_part(h, "qty"@) || has_part(
            h,
            "quantity"@,
        ) || has_part(h, "anzahl"@)) ==> column_of(h) == Some(Column::Qty),
        !has_part(h, "width"@) && !has_part(h, "breite"@) && !has_part(h, "length"@) && !has_part(h, "länge"@)
            && !has_part(h, "thickness"@) && !has_part(h, "dicke"@) && !has_part(h, "qty"@) && !has_part(
            h,
            "quantity"@,
        ) && !has_part(h, "anzahl"@) && (has_part(h, "label"@) || has_part(h, "name"@) || has_part(
            h,
            "bezeichnung"@,
        )) ==> column_of(h) == Some(Column::Label),
        !has_part(h, "width"@) && !has_part(h, "breite"@) && !has_part(h, "length"@) && !has_part(h, "länge"@)
            && !has_part(h, "thickness"@) && !has_part(h, "dicke"@) && !has_part(h, "qty"@) && !has_part(
            h,
            "quantity"@,
        ) && !has_part(h, "anzahl"@) && !has_part(h, "label"@) && !has_part(h, "name"@) && !has_part(
            h,
            "bezeichnung"@,
        ) ==> column_of(h) is None,
{
}

/// Where column `k` is, in the found columns.
pub open spec fn column_at(c: ColumnIndices, k: Column) -> Option<usize> {
    match k {
        Column::Width => c.width,
        Column::Length => c.length,
        Column::Thickness => c.thickness,
        Column::Qty => c.qty,
        Column::Label => c.label,
    }
}

/// The columns found from the classes of the first `n` headers, a later
/// header taking the place of an earlier one.
pub open spec fn columns_from(cls: Seq<Option<Column>>, n: int) -> ColumnIndices
    decreases n,
{
    if n <= 0 {
        crate::part_table::no_columns()
    } else {
        let c = columns_from(cls, n - 1);
        match cls[n - 1] {
            Some(k) => crate::part_table::with_column(c, k, (n - 1) as usize),
            None => c,
        }
    }
}

proof fn lemma_columns_bridge(lower: Seq<Seq<char>>, cls: Seq<Option<Column>>, n: int)
    requires
        0 <= n <= lower.len(),
        cls.len() == lower.len(),
        forall|j: int| 0 <= j < lower.len() ==> cls[j] == column_of(#[trigger] lower[j]),
    ensures
        columns_of(lower, n) == columns_from(cls, n),
    decreases n,
{
    if n > 0 {
        lemma_columns_bridge(lower, cls, n - 1);
        assert(cls[n - 1] == column_of(lower[n - 1]));
    }
}

proof fn lemma_column_at_with(c: ColumnIndices, k2: Column, i: usize, col: Column)
    ensures
        column_at(crate::part_table::with_column(c, k2, i), col) == if k2 == col {
            Some(i)
        } else {
            column_at(c, col)
        },
{
}

#[verifier::spinoff_prover]
#[verifier::rlimit(30)]
proof fn lemma_columns_from_step(cls: Seq<Option<Column>>, n: int, col: Column)
    requires
        0 < n <= cls.len(),
        n <= usize::MAX,
    ensures
        column_at(columns_from(cls, n), col) == if cls[n - 1] == Some(col) {
            Some((n - 1) as usize)
        } else {
            column_at(columns_from(cls, n - 1), col)
        },
{
    match cls[n - 1] {
        Some(k2) => {
            lemma_column_at_with(columns_from(cls, n - 1), k2, (n - 1) as usize, col);
        },
        None => {},
    }
}

#[verifier::spinoff_prover]
#[verifier::rlimit(30)]
proof fn lemma_columns_from_none(cls: Seq<Option<Column>>, n: int, col: Column)
    requires
        0 <= n <= cls.len(),
        n <= usize::MAX,
    ensures
        column_at(columns_from(cls, n), col) is None <==> forall|j: int| 0 <= j < n ==> cls[j] != Some(col),
        column_at(columns_from(cls, n), col) matches Some(i) ==> i < n,
    decreases n,
{
    if n > 0 {
        lemma_columns_from_none(cls, n - 1, col);
        lemma_columns_from_step(cls, n, col);
    }
}

#[verifier::spinoff_prover]
#[verifier::rlimit(30)]
proof fn lemma_columns_from_at(cls: Seq<Option<Column>>, n: int, col: Column, k: int)
    requires
        0 <= k < n <= cls.len(),
        n <= usize::MAX,
    ensures
        column_at(columns_from(cls, n), col) == Some(k as usize) <==> (cls[k] == Some(col) && forall|j: int|
            k < j < n ==> cls[j] != Some(col)),
    decreases n,
{
    lemma_columns_from_step(cls, n, col);
    if k == n - 1 {
        lemma_columns_from_none(cls, n - 1, col);
    } else {
        lemma_columns_from_at(cls, n - 1, col, k);
        if cls[n - 1] == Some(col) {
            assert(cls[n - 1] == Some(col));
        }
    }
}

/// The column each (lower-cased) header names (see `law_header_keywords`).
#[verifier::opaque]
pub open spec fn header_classes(lower: Seq<Seq<char>>) -> Seq<Option<Column>> {
    Seq::new(lower.len(), |j: int| column_of(lower[j]))
}

/// The columns found among (lower-cased) headers are those found from the
/// column each header names.
#[verifier::rlimit(100)]
#[verifier::spinoff_prover]
pub proof fn law_columns_of_header_classes(lower: Seq<Seq<char>>, n: int)
    requires
        0 <= n <= lower.len(),
    ensures
        columns_of(lower, n) == columns_from(header_classes(lower), n),
{
    reveal(header_classes);
    let cls = header_classes(lower);
    assert forall|j: int| 0 <= j < lower.len() implies cls[j] == column_of(#[trigger] lower[j]) by {}
    lemma_columns_bridge(lower, cls, n);
}

/// Among the first `n` headers, named the columns `cls`, a column is found
/// at the last header that names it, and is not found when none names it.
#[verifier::spinoff_prover]
#[verifier::rlimit(30)]
pub proof fn law_columns_last_header_wins(cls: Seq<Option<Column>>, n: int, col: Column)
    requires
        0 <= n <= cls.len(),
        n <= usize::MAX,
    ensures
        column_at(columns_from(cls, n), col) is None <==> forall|j: int| 0 <= j < n ==> cls[j] != Some(col),
        forall|k: int|
            0 <= k < n ==> (column_at(columns_from(cls, n), col) == Some(k as usize) <==> (cls[k] == Some(col)
                && forall|j: int| k < j < n ==> cls[j] != Some(col))),
{
    lemma_columns_from_none(cls, n, col);
    assert forall|k: int|
        0 <= k < n implies (column_at(columns_from(cls, n), col) == Some(k as usize) <==> (cls[k] == Some(col)
        && forall|j: int| k < j < n ==> cls[j] != Some(col))) by {
        lemma_columns_from_at(cls, n, col, k);
    }
}

/// Writing out one segment read from path data writes its command letter,
/// then each of its parameters in order, a parameter ending an x,y pair of
/// a curve carrying a comma.
pub proof fn law_segment_words_keep_parameters(seg: SegmentView)
    requires
        seg.1.len() == count_of(seg.0),
    ensures
        segment_words(seg).len() == seg.1.len() + 1,
        segment_words(seg)[0] == seq![seg.0],
        forall|j: int|
            0 <= j < seg.1.len() ==> #[trigger] segment_words(seg)[j + 1] == seg.1[j] || segment_words(seg)[j + 1]
                == seg.1[j] + seq![','],
{
}

/// A header holds a keyword exactly when the keyword stands somewhere in
/// it, with any text before and after.
pub proof fn law_has_part_anywhere(h: Seq<char>, w: Seq<char>, a: Seq<char>, b: Seq<char>)
    ensures
        has_part(a + w + b, w),
        has_part(h, w) ==> exists|x: Seq<char>, y: Seq<char>| h == x + w + y,
{
    assert((a + w + b).subrange(a.len() as int, (a.len() + w.len()) as int) =~= w);
    if has_part(h, w) {
        let i = choose|i: int| 0 <= i && i + w.len() <= h.len() && #[trigger] h.subrange(i, i + w.len()) == w;
        assert(h =~= h.subrange(0, i) + w + h.subrange(i + w.len(), h.len() as int));
    }
}

/// The number of characters of all words together.
pub open spec fn chars_total(w: Seq<Seq<char>>) -> int
    decreases w.len(),
{
    if w.len() == 0 {
        0
    } else {
        chars_total(w.drop_last()) + w.last().len()
    }
}

/// Words are written with one space between each two and nothing else:
/// the text is as long as the words together plus one space fewer than
/// there are words, and after each word but the last comes a space.
pub proof fn law_join_words_single_spaces(w: Seq<Seq<char>>)
    ensures
        w.len() > 0 ==> join_words(w).len() == chars_total(w) + w.len() - 1,
        w.len() > 1 ==> join_words(w) == join_words(w.drop_last()) + seq![' '] + w.last(),
        w.len() == 1 ==> join_words(w) == w[0],
    decreases w.len(),
{
    if w.len() > 1 {
        law_join_words_single_spaces(w.drop_last());
        assert(w.drop_last().len() > 0);
    } else if w.len() == 1 {
        assert(w.drop_last().len() == 0);
        assert(chars_total(w.drop_last()) == 0);
        assert(w.last() == w[0]);
    }
}

proof fn lemma_all_numbers_run(t: Seq<TokenView>, start: int, n: int)
    requires
        0 <= start,
        n >= 0,
        start + n <= t.len(),
        forall|j: int| start <= j < start + n ==> (#[trigger] t[j]).0 == TokenType::Number,
    ensures
        number_run(t, start, n) == n,
    decreases n,
{
    if n > 0 {
        lemma_all_numbers_run(t, start + 1, n - 1);
    }
}

/// A command token followed by as many number tokens as the command takes
/// becomes a segment of that command with those numbers as its parameters,
/// in order, and reading goes on after them (a move going on as a line).
pub proof fn law_parse_complete_command(t: Seq<TokenView>, i: int, mode: char, n: usize)
    requires
        0 <= i,
        i + 1 + n <= t.len(),
        t[i].0 == TokenType::Command,
        params_count_spec(t[i].1[0]) == Some(n),
        forall|j: int| i + 1 <= j < i + 1 + n ==> (#[trigger] t[j]).0 == TokenType::Number,
    ensures
        parse_from(t, i, mode) == prepend(
            seq![(t[i].1[0], t.subrange(i + 1, i + 1 + n).map_values(|x: TokenView| x.1))],
            parse_from(t, i + 1 + n, mode_after(t[i].1[0])),
        ),
{
    lemma_all_numbers_run(t, i + 1, n as int);
    assert(param_texts(t, i + 1, n as int) == t.subrange(i + 1, i + 1 + n).map_values(|x: TokenView| x.1));
    let cm = t[i].1[0];
    assert(crate::laws::count_of(cm) == n);
    assert(parse_from(t, i, mode) == {
        let rest = parse_from(t, i + 1 + n, mode_after(cm));
        match rest {
            Some(r) => Some(seq![(cm, param_texts(t, i + 1, n as int))] + r),
            None => None,
        }
    });
}

} // verus!
