//! Painting styled spans onto lines, and wrapping lines to a width.
use vstd::prelude::*;
use vstd::utf8::*;
use crate::model::{LineNumber, SingleLineSpan, Side};
use crate::groups::{LineGroups, group_of, lemma_group_of_push};
use crate::paint::{Style, paint, painted, escape_free, strip_escapes, lemma_strip_plain, lemma_strip_painted};
use crate::text::{blen, byte_at, byte_len, substring_by_byte, lemma_boundary_byte_at, lemma_byte_at_boundary, lemma_byte_at_end, lemma_byte_at_mono};
use crate::whitespace::{col_ok, cols_text, min_u32, color_positions, colored_positions};
use crate::model::{BackgroundColor, FileFormat, MatchedPos, RgbColor};
use crate::text::{split_on_newlines, text_lines, spaces, expand_tabs, all_white_space, is_blank, repeat_space, replace_tabs, substring_by_byte_replace_tabs, lemma_part_boundary};
use crate::width::{char_width, cols, lemma_cols_concat, lemma_expand_tabs_cols, lemma_spaces_cols, lemma_split_parts_fill, col_width, unicode_char_width, lemma_join_parts_take, split_by_width, split_string_by_width, join_parts, join_pieces, lemma_split_join, width_fits, wraps};

verus! {

/// The smaller of two numbers.
pub open spec fn min_nat(a: nat, b: nat) -> nat {
    if a <= b { a } else { b }
}

/// The larger of two numbers.
pub open spec fn max_nat(a: nat, b: nat) -> nat {
    if a >= b { a } else { b }
}

/// `line` with the spans from the front of `styles` painted, unstyled text
/// from byte column `i` on kept as it is; spans that start past the end of
/// the line, and those after them, are left out.
pub open spec fn styled_line(line: Seq<char>, styles: Seq<(SingleLineSpan, Style)>, i: nat) -> Seq<char>
    decreases styles.len(),
{
    let len = blen(line);
    if styles.len() == 0 || styles[0].0.start_col >= len {
        if i < len {
            cols_text(line, i as int, len as int)
        } else {
            Seq::empty()
        }
    } else {
        let (span, style) = styles[0];
        let start = span.start_col as nat;
        let end = span.end_col as nat;
        let gap = if i < start {
            cols_text(line, i as int, start as int)
        } else {
            Seq::empty()
        };
        gap + painted(cols_text(line, start as int, min_nat(len, end) as int), style) + styled_line(
            line,
            styles.drop_first(),
            end,
        )
    }
}

/// Each span that starts inside `line` ends no earlier than it starts, and
/// both its ends lie on character boundaries where they are inside the
/// line: the spans that `apply_line` can cut out of it.
pub open spec fn spans_fit(line: Seq<char>, styles: Seq<(SingleLineSpan, Style)>) -> bool {
    forall|k: int|
        0 <= k < styles.len() && #[trigger] styles[k].0.start_col < blen(line) ==> {
            &&& styles[k].0.start_col <= styles[k].0.end_col
            &&& col_ok(line, styles[k].0.start_col as int)
            &&& col_ok(line, styles[k].0.end_col as int)
        }
}

/// A line with no styles to apply comes back as it is.
pub proof fn lemma_unstyled_line(line: Seq<char>)
    ensures
        styled_line(line, Seq::empty(), 0) == line,
{
    encode_utf8_decode_utf8(line);
    crate::text::lemma_blen_ge_len(line);
    assert(encode_utf8(line).subrange(0, blen(line) as int) =~= encode_utf8(line));
    if blen(line) == 0 {
        assert(line =~= Seq::<char>::empty());
    }
}

/// Spans that start at or past the end of a line always fit it, and
/// painting them leaves the line as it is: styling tolerates lines shorter
/// than their spans.
pub proof fn lemma_spans_past_end(line: Seq<char>, styles: Seq<(SingleLineSpan, Style)>)
    requires
        forall|k: int| 0 <= k < styles.len() ==> (#[trigger] styles[k]).0.start_col >= blen(line),
    ensures
        spans_fit(line, styles),
        styled_line(line, styles, 0) == line,
{
    lemma_unstyled_line(line);
    if styles.len() > 0 {
        assert(styles[0].0.start_col >= blen(line));
    }
}

/// The characters between two byte columns on character boundaries are a
/// run of the line's characters.
pub proof fn lemma_cols_text_sub(line: Seq<char>, a: int, b: int) -> (ij: (int, int))
    requires
        0 <= a <= b <= blen(line),
        col_ok(line, a),
        col_ok(line, b),
    ensures
        0 <= ij.0 <= ij.1 <= line.len(),
        byte_at(line, ij.0) == a,
        byte_at(line, ij.1) == b,
        cols_text(line, a, b) == line.subrange(ij.0, ij.1),
{
    let i = lemma_boundary_byte_at(line, a);
    let j = lemma_boundary_byte_at(line, b);
    if j < i {
        lemma_byte_at_mono(line, j, i);
    }
    crate::text::lemma_enc_subrange(line, i, j);
    encode_utf8_decode_utf8(line.subrange(i, j));
    (i, j)
}

/// Byte columns on character boundaries split the characters between them.
pub proof fn lemma_cols_text_concat(line: Seq<char>, a: int, b: int, c: int)
    requires
        0 <= a <= b <= c <= blen(line),
        col_ok(line, a),
        col_ok(line, b),
        col_ok(line, c),
    ensures
        cols_text(line, a, b) + cols_text(line, b, c) == cols_text(line, a, c),
{
    let (i, j) = lemma_cols_text_sub(line, a, b);
    let (j2, k) = lemma_cols_text_sub(line, b, c);
    let (i2, k2) = lemma_cols_text_sub(line, a, c);
    if j != j2 {
        if j < j2 { lemma_byte_at_mono(line, j, j2); } else { lemma_byte_at_mono(line, j2, j); }
    }
    if i != i2 {
        if i < i2 { lemma_byte_at_mono(line, i, i2); } else { lemma_byte_at_mono(line, i2, i); }
    }
    if k != k2 {
        if k < k2 { lemma_byte_at_mono(line, k, k2); } else { lemma_byte_at_mono(line, k2, k); }
    }
    assert(line.subrange(i, j) + line.subrange(j, k) =~= line.subrange(i, k));
}

/// Whether the spans lie in order along the line: each ends no earlier
/// than it starts and no later than the next one starts, and their ends
/// inside the line lie on character boundaries.
pub open spec fn spans_in_order(line: Seq<char>, styles: Seq<(SingleLineSpan, Style)>) -> bool {
    &&& forall|k: int|
        0 <= k < styles.len() ==> (#[trigger] styles[k]).0.start_col <= styles[k].0.end_col
            && col_ok(line, styles[k].0.start_col as int) && col_ok(line, styles[k].0.end_col as int)
    &&& forall|k: int|
        0 <= k < styles.len() - 1 ==> (#[trigger] styles[k]).0.end_col <= styles[k + 1].0.start_col
}

proof fn lemma_strip_styled_from(line: Seq<char>, styles: Seq<(SingleLineSpan, Style)>, i: nat)
    requires
        escape_free(line),
        spans_in_order(line, styles),
        col_ok(line, i as int),
        styles.len() > 0 ==> i <= styles[0].0.start_col,
    ensures
        strip_escapes(styled_line(line, styles, i)) == if i < blen(line) {
            cols_text(line, i as int, blen(line) as int)
        } else {
            Seq::<char>::empty()
        },
    decreases styles.len(),
{
    let len = blen(line);
    lemma_byte_at_boundary(line, line.len() as int);
    lemma_byte_at_end(line);
    assert(col_ok(line, len as int));
    if styles.len() == 0 || styles[0].0.start_col >= len {
        if i < len {
            let (a, b) = lemma_cols_text_sub(line, i as int, len as int);
            let t = cols_text(line, i as int, len as int);
            lemma_strip_plain(t, Seq::empty());
            assert(t + Seq::<char>::empty() =~= t);
        }
    } else {
        let (span, style) = styles[0];
        let start = span.start_col as nat;
        let end = span.end_col as nat;
        let m = min_nat(len, end);
        let d = styles.drop_first();
        assert(styles[0] == (span, style));
        assert(col_ok(line, start as int) && col_ok(line, end as int));
        assert forall|k: int| 0 <= k < d.len() implies (#[trigger] d[k]).0.start_col <= d[k].0.end_col
            && col_ok(line, d[k].0.start_col as int) && col_ok(line, d[k].0.end_col as int) by {
            assert(d[k] == styles[k + 1]);
        }
        assert forall|k: int| 0 <= k < d.len() - 1 implies (#[trigger] d[k]).0.end_col <= d[k + 1].0.start_col by {
            assert(d[k] == styles[k + 1] && d[k + 1] == styles[k + 2]);
        }
        if d.len() > 0 {
            assert(d[0] == styles[1]);
            assert(styles[0].0.end_col <= styles[1].0.start_col);
        }
        lemma_strip_styled_from(line, d, end);
        let gap = if i < start { cols_text(line, i as int, start as int) } else { Seq::<char>::empty() };
        let t = cols_text(line, start as int, m as int);
        let rest = styled_line(line, d, end);
        let (g0, g1) = lemma_cols_text_sub(line, i as int, start as int);
        let (t0, t1) = lemma_cols_text_sub(line, start as int, m as int);
        assert(escape_free(gap)) by {
            if i < start {
                assert forall|k: int| 0 <= k < gap.len() implies gap[k] != '\u{1b}' by {
                    assert(gap[k] == line[g0 + k]);
                }
            }
        }
        assert(escape_free(t)) by {
            assert forall|k: int| 0 <= k < t.len() implies t[k] != '\u{1b}' by {
                assert(t[k] == line[t0 + k]);
            }
        }
        assert(styled_line(line, styles, i) == gap + painted(t, style) + rest);
        assert(gap + painted(t, style) + rest =~= gap + (painted(t, style) + rest));
        lemma_strip_plain(gap, painted(t, style) + rest);
        lemma_strip_painted(t, style, rest);
        if i < start {
            lemma_cols_text_concat(line, i as int, start as int, m as int);
        } else {
            assert(gap + t =~= t);
        }
        if end < len {
            lemma_cols_text_concat(line, i as int, m as int, len as int);
            assert(gap + t + cols_text(line, end as int, len as int) =~= gap + (t + cols_text(line, end as int, len as int)));
        } else {
            assert(gap + t + Seq::<char>::empty() =~= gap + t);
        }
    }
}

/// With its spans in order along it, a line that holds no escape character
/// comes back from painting once the escape sequences are taken out:
/// styling neither loses, repeats nor reorders its text.
pub proof fn lemma_styled_line_text(line: Seq<char>, styles: Seq<(SingleLineSpan, Style)>)
    requires
        escape_free(line),
        spans_in_order(line, styles),
    ensures
        strip_escapes(styled_line(line, styles, 0)) == line,
{
    lemma_byte_at_boundary(line, 0);
    assert(line.take(0) =~= Seq::<char>::empty());
    assert(col_ok(line, 0));
    lemma_strip_styled_from(line, styles, 0);
    lemma_unstyled_line(line);
    if blen(line) == 0 {
        crate::text::lemma_blen_ge_len(line);
        assert(line =~= Seq::<char>::empty());
    }
}

/// One span painted onto a line: the characters before it as they are,
/// the span's characters painted with its style, and the rest as it is.
pub proof fn lemma_one_span(line: Seq<char>, i: int, j: int, line_number: LineNumber, style: Style)
    requires
        0 <= i <= j <= line.len(),
        i < line.len(),
        byte_at(line, j) <= u32::MAX,
    ensures
        styled_line(
            line,
            seq![(SingleLineSpan { line: line_number, start_col: byte_at(line, i) as u32, end_col: byte_at(line, j) as u32 }, style)],
            0,
        ) == line.subrange(0, i) + painted(line.subrange(i, j), style) + line.subrange(j, line.len() as int),
{
    let len = blen(line);
    lemma_byte_at_mono(line, i, j);
    lemma_byte_at_mono(line, j, line.len() as int);
    lemma_byte_at_mono(line, i, line.len() as int);
    lemma_byte_at_end(line);
    lemma_byte_at_boundary(line, i);
    lemma_byte_at_boundary(line, j);
    lemma_byte_at_boundary(line, 0);
    lemma_byte_at_boundary(line, line.len() as int);
    assert(line.take(0) =~= Seq::<char>::empty());
    let a = byte_at(line, i) as int;
    let b = byte_at(line, j) as int;
    assert(a < len) by {
        lemma_byte_at_mono(line, i, i + 1);
        lemma_byte_at_mono(line, i + 1, line.len() as int);
    }
    let styles = seq![(SingleLineSpan { line: line_number, start_col: a as u32, end_col: b as u32 }, style)];
    assert(styles.drop_first() =~= Seq::<(SingleLineSpan, Style)>::empty());
    let (x0, x1) = lemma_cols_text_sub(line, 0, a);
    let (y0, y1) = lemma_cols_text_sub(line, a, b);
    let (z0, z1) = lemma_cols_text_sub(line, b, len as int);
    if x0 != 0 { lemma_byte_at_mono(line, 0, x0); }
    if x1 != i { if x1 < i { lemma_byte_at_mono(line, x1, i); } else { lemma_byte_at_mono(line, i, x1); } }
    if y0 != i { if y0 < i { lemma_byte_at_mono(line, y0, i); } else { lemma_byte_at_mono(line, i, y0); } }
    if y1 != j { if y1 < j { lemma_byte_at_mono(line, y1, j); } else { lemma_byte_at_mono(line, j, y1); } }
    if z0 != j { if z0 < j { lemma_byte_at_mono(line, z0, j); } else { lemma_byte_at_mono(line, j, z0); } }
    if z1 != line.len() { lemma_byte_at_mono(line, z1, line.len() as int); }
    let gap = if 0 < a { cols_text(line, 0, a) } else { Seq::<char>::empty() };
    assert(gap == line.subrange(0, i)) by {
        if a == 0 {
            assert(line.subrange(0, i) =~= Seq::<char>::empty());
        }
    }
    assert(min_nat(len, b as nat) == b);
    if b < len {
        assert(styled_line(line, styles.drop_first(), b as nat) == cols_text(line, b, len as int));
    } else {
        assert(line.subrange(j, line.len() as int) =~= Seq::<char>::empty()) by {
            if j < line.len() {
                lemma_byte_at_mono(line, j, j + 1);
                lemma_byte_at_mono(line, j + 1, line.len() as int);
            }
        }
    }
    assert(styled_line(line, styles, 0) == gap + painted(cols_text(line, a, b), style) + styled_line(line, styles.drop_first(), b as nat));
}

/// Return a copy of `line` with styles applied to all the spans
/// specified.
pub fn apply_line(line: &str, styles: &[(SingleLineSpan, Style)]) -> (r: String)
    requires
        spans_fit(line@, styles@),
    ensures
        r@ == styled_line(line@, styles@, 0),
{
    let line_bytes = byte_len(line);
    let mut styled_line_s = String::new();
    let mut i: usize = 0;
    let mut k: usize = 0;
    let ghost all = styled_line(line@, styles@, 0);
    proof {
        assert(styles@.skip(0) =~= styles@);
        assert(Seq::<char>::empty() + all =~= all);
        crate::text::lemma_byte_at_boundary(line@, 0);
        crate::text::lemma_byte_at_end(line@);
        assert(line@.take(0) =~= Seq::<char>::empty());
        crate::text::lemma_byte_at_boundary(line@, line@.len() as int);
    }
    while k < styles.len()
        invariant_except_break
            k <= styles@.len(),
            line_bytes == blen(line@),
            spans_fit(line@, styles@),
            all == styled_line(line@, styles@, 0),
            i == 0 || (k > 0 && i == styles@[k - 1].0.end_col as nat && styles@[k - 1].0.start_col < line_bytes),
            all == styled_line_s@ + styled_line(line@, styles@.skip(k as int), i as nat),
            is_char_boundary(encode_utf8(line@), blen(line@) as int),
            is_char_boundary(encode_utf8(line@), 0),
        ensures
            all == styled_line_s@ + styled_line(line@, styles@.skip(k as int), i as nat),
            k <= styles@.len(),
            line_bytes == blen(line@),
            spans_fit(line@, styles@),
            is_char_boundary(encode_utf8(line@), 0),
            k == styles@.len() || styles@[k as int].0.start_col >= line_bytes,
            i == 0 || (k > 0 && i == styles@[k - 1].0.end_col as nat && styles@[k - 1].0.start_col < line_bytes),
        decreases styles@.len() - k,
    {
        let (span, style) = styles[k];
        let start_col = span.start_col as usize;
        let end_col = span.end_col as usize;
        if start_col >= line_bytes {
            break;
        }
        let ghost rest = styles@.skip(k as int);
        let ghost before = styled_line_s@;
        proof {
            assert(rest[0] == styles@[k as int]);
            assert(rest.drop_first() =~= styles@.skip(k + 1));
            assert(styles@[k as int].0.start_col < blen(line@));
            if i > 0 {
                assert(styles@[k - 1].0.start_col < blen(line@));
            }
        }
        let ghost gap = if (i as nat) < (start_col as nat) { cols_text(line@, i as int, start_col as int) } else { Seq::<char>::empty() };
        if i < start_col {
            let part = substring_by_byte(line, i, start_col);
            styled_line_s.append(part);
        }
        let stop = if line_bytes <= end_col { line_bytes } else { end_col };
        let span_s = substring_by_byte(line, start_col, stop);
        let painted_s = paint(span_s, style);
        styled_line_s.append(painted_s.as_str());
        proof {
            assert(styled_line_s@ =~= before + gap + painted(cols_text(line@, start_col as int, stop as int), style));
        }
        i = end_col;
        k = k + 1;
    }
    let ghost before = styled_line_s@;
    if i < line_bytes {
        proof {
            if i > 0 {
                assert(styles@[k - 1].0.start_col < blen(line@));
            }
        }
        let span_s = substring_by_byte(line, i, line_bytes);
        styled_line_s.append(span_s);
    }
    proof {
        if k == styles@.len() {
            assert(styles@.skip(k as int).len() == 0);
        } else {
            assert(styles@.skip(k as int)[0] == styles@[k as int]);
        }
        assert(styled_line_s@ =~= all);
    }
    styled_line_s
}

/// The styled spans on `line`, in order.
pub open spec fn items_on(rs: Seq<(SingleLineSpan, Style)>, line: LineNumber) -> Seq<(SingleLineSpan, Style)>
    decreases rs.len(),
{
    if rs.len() == 0 {
        Seq::empty()
    } else if rs.last().0.line == line {
        items_on(rs.drop_last(), line).push(rs.last())
    } else {
        items_on(rs.drop_last(), line)
    }
}

/// The group of a line: its styled spans, where it has any.
pub open spec fn line_group(rs: Seq<(SingleLineSpan, Style)>, line: LineNumber) -> Option<Seq<(SingleLineSpan, Style)>> {
    if items_on(rs, line).len() == 0 {
        None
    } else {
        Some(items_on(rs, line))
    }
}

/// The styled spans grouped by their line.
pub fn group_by_line(ranges: &[(SingleLineSpan, Style)]) -> (g: LineGroups<(SingleLineSpan, Style)>)
    ensures
        forall|l: LineNumber| #[trigger] group_of(g.groups(), l) == line_group(ranges@, l),
{
    let mut ranges_by_line: LineGroups<(SingleLineSpan, Style)> = LineGroups::new();
    let mut i: usize = 0;
    proof {
        assert(ranges@.take(0) =~= Seq::<(SingleLineSpan, Style)>::empty());
    }
    while i < ranges.len()
        invariant
            i <= ranges@.len(),
            forall|l: LineNumber| #[trigger] group_of(ranges_by_line.groups(), l) == line_group(ranges@.take(i as int), l),
        decreases ranges@.len() - i,
    {
        let range = ranges[i];
        let ghost old_groups = ranges_by_line.groups();
        ranges_by_line.push(range.0.line, range);
        proof {
            let t = ranges@.take(i + 1);
            assert(t.drop_last() =~= ranges@.take(i as int));
            assert(t.last() == range);
            assert forall|l: LineNumber| #[trigger] group_of(ranges_by_line.groups(), l) == line_group(t, l) by {
                lemma_group_of_push(old_groups, range.0.line, range, l);
                assert(group_of(old_groups, l) == line_group(ranges@.take(i as int), l));
                if l == range.0.line {
                    assert(group_of(old_groups, l) is None ==> items_on(ranges@.take(i as int), l) =~= Seq::<(SingleLineSpan, Style)>::empty());
                }
            }
        }
        i = i + 1;
    }
    proof {
        assert(ranges@.take(i as int) =~= ranges@);
    }
    ranges_by_line
}

/// A line as `style_lines` shows it: styled, then a newline.
pub open spec fn styled_text_line(line: Seq<char>, styles: Seq<(SingleLineSpan, Style)>) -> Seq<char> {
    styled_line(line, styles, 0).push('\n')
}

/// Whether the spans of each line fit that line.
pub open spec fn lines_fit(lines: Seq<Seq<char>>, styles: Seq<(SingleLineSpan, Style)>) -> bool {
    forall|i: int| 0 <= i < lines.len() ==> spans_fit(#[trigger] lines[i], items_on(styles, LineNumber(i as u32)))
}

/// Apply the styles to the spans specified. Return a vec of the
/// styled strings, including trailing newlines.
pub fn style_lines(lines: &[&str], styles: &[(SingleLineSpan, Style)]) -> (r: Vec<String>)
    requires
        lines_fit(lines@.map_values(|l: &str| l@), styles@),
    ensures
        r@.len() == lines@.len(),
        forall|i: int|
            0 <= i < lines@.len() ==> (#[trigger] r@[i])@ == styled_text_line(lines@[i]@, items_on(styles@, LineNumber(i as u32))),
{
    let ranges_by_line = group_by_line(styles);
    let mut styled_lines: Vec<String> = Vec::new();
    let mut i: usize = 0;
    while i < lines.len()
        invariant
            i <= lines@.len(),
            lines_fit(lines@.map_values(|l: &str| l@), styles@),
            forall|l: LineNumber| #[trigger] group_of(ranges_by_line.groups(), l) == line_group(styles@, l),
            styled_lines@.len() == i,
            forall|k: int|
                0 <= k < i ==> (#[trigger] styled_lines@[k])@ == styled_text_line(lines@[k]@, items_on(styles@, LineNumber(k as u32))),
        decreases lines@.len() - i,
    {
        let line = lines[i];
        let line_num = LineNumber(i as u32);
        let empty: Vec<(SingleLineSpan, Style)> = Vec::new();
        let ranges = match ranges_by_line.get(line_num) {
            Some(v) => v,
            None => &empty,
        };
        proof {
            assert(group_of(ranges_by_line.groups(), line_num) == line_group(styles@, line_num));
            assert(ranges@ == items_on(styles@, line_num));
            assert(lines@.map_values(|l: &str| l@)[i as int] == line@);
        }
        let mut styled_line_s = apply_line(line, ranges.as_slice());
        crate::text::push_char(&mut styled_line_s, '\n');
        styled_lines.push(styled_line_s);
        i = i + 1;
    }
    styled_lines
}

/// Whether the spans that start inside `line` fit it.
pub fn spans_fit_line(line: &str, styles: &[(SingleLineSpan, Style)]) -> (b: bool)
    ensures
        b == spans_fit(line@, styles@),
{
    let len = byte_len(line);
    let mut k: usize = 0;
    while k < styles.len()
        invariant
            k <= styles@.len(),
            len == blen(line@),
            forall|j: int|
                0 <= j < k && #[trigger] styles@[j].0.start_col < blen(line@) ==> {
                    &&& styles@[j].0.start_col <= styles@[j].0.end_col
                    &&& col_ok(line@, styles@[j].0.start_col as int)
                    &&& col_ok(line@, styles@[j].0.end_col as int)
                },
        decreases styles@.len() - k,
    {
        let span = styles[k].0;
        let start = span.start_col as usize;
        let end = span.end_col as usize;
        if start < len {
            let start_ok = line.is_char_boundary(start);
            let end_ok = end > len || line.is_char_boundary(end);
            if !(span.start_col <= span.end_col && start_ok && end_ok) {
                return false;
            }
        }
        k = k + 1;
    }
    true
}

/// Styles each line of `s` with the colors of its matched positions.
pub fn apply_colors(
    s: &str,
    side: Side,
    syntax_highlight: bool,
    background_diff_colors: bool,
    background_include_whitespace: bool,
    file_format: &FileFormat,
    background: BackgroundColor,
    mps: &[MatchedPos],
    rgb_added: Option<RgbColor>,
    rgb_removed: Option<RgbColor>,
) -> (r: Vec<String>)
    requires
        lines_fit(
            text_lines(s@),
            colored_positions(
                s@,
                side,
                background,
                syntax_highlight,
                background_diff_colors,
                background_include_whitespace,
                *file_format,
                mps@,
                rgb_added,
                rgb_removed,
            ),
        ),
    ensures
        r@.len() == text_lines(s@).len(),
        forall|i: int|
            0 <= i < r@.len() ==> (#[trigger] r@[i])@ == styled_text_line(
                text_lines(s@)[i],
                items_on(
                    colored_positions(
                        s@,
                        side,
                        background,
                        syntax_highlight,
                        background_diff_colors,
                        background_include_whitespace,
                        *file_format,
                        mps@,
                        rgb_added,
                        rgb_removed,
                    ),
                    LineNumber(i as u32),
                ),
            ),
{
    let styles = color_positions(
        s,
        side,
        background,
        syntax_highlight,
        background_diff_colors,
        background_include_whitespace,
        file_format,
        mps,
        rgb_added,
        rgb_removed,
    );
    let lines = split_on_newlines(s);
    proof {
        assert(lines@.map_values(|l: &str| l@) =~= text_lines(s@));
    }
    style_lines(lines.as_slice(), styles.as_slice())
}

/// `apply_colors`, where every line's spans fit it; `None` where they do
/// not, which `apply_colors` could not style.
pub fn apply_colors_checked(
    s: &str,
    side: Side,
    syntax_highlight: bool,
    background_diff_colors: bool,
    background_include_whitespace: bool,
    file_format: &FileFormat,
    background: BackgroundColor,
    mps: &[MatchedPos],
    rgb_added: Option<RgbColor>,
    rgb_removed: Option<RgbColor>,
) -> (r: Option<Vec<String>>)
    ensures
        ({
            let colored = colored_positions(
                s@,
                side,
                background,
                syntax_highlight,
                background_diff_colors,
                background_include_whitespace,
                *file_format,
                mps@,
                rgb_added,
                rgb_removed,
            );
            &&& r is Some <==> lines_fit(text_lines(s@), colored)
            &&& r matches Some(v) ==> v@.len() == text_lines(s@).len() && forall|i: int|
                0 <= i < v@.len() ==> (#[trigger] v@[i])@ == styled_text_line(
                    text_lines(s@)[i],
                    items_on(colored, LineNumber(i as u32)),
                )
        }),
{
    let styles = color_positions(
        s,
        side,
        background,
        syntax_highlight,
        background_diff_colors,
        background_include_whitespace,
        file_format,
        mps,
        rgb_added,
        rgb_removed,
    );
    let lines = split_on_newlines(s);
    let groups = group_by_line(styles.as_slice());
    let mut i: usize = 0;
    while i < lines.len()
        invariant
            i <= lines@.len(),
            styles@ == colored_positions(
                s@,
                side,
                background,
                syntax_highlight,
                background_diff_colors,
                background_include_whitespace,
                *file_format,
                mps@,
                rgb_added,
                rgb_removed,
            ),
            lines@.len() == text_lines(s@).len(),
            forall|k: int| 0 <= k < lines@.len() ==> (#[trigger] lines@[k])@ == text_lines(s@)[k],
            forall|l: LineNumber| #[trigger] group_of(groups.groups(), l) == line_group(styles@, l),
            forall|k: int| 0 <= k < i ==> spans_fit(#[trigger] text_lines(s@)[k], items_on(styles@, LineNumber(k as u32))),
        decreases lines@.len() - i,
    {
        let line_num = LineNumber(i as u32);
        let empty: Vec<(SingleLineSpan, Style)> = Vec::new();
        let ranges = match groups.get(line_num) {
            Some(v) => v,
            None => &empty,
        };
        proof {
            assert(group_of(groups.groups(), line_num) == line_group(styles@, line_num));
            assert(ranges@ =~= items_on(styles@, line_num));
        }
        if !spans_fit_line(lines[i], ranges.as_slice()) {
            proof {
                assert(!spans_fit(text_lines(s@)[i as int], items_on(styles@, line_num)));
                if lines_fit(text_lines(s@), styles@) {
                    assert(spans_fit(text_lines(s@)[i as int], items_on(styles@, LineNumber((i as int) as u32))));
                }
                assert(!lines_fit(text_lines(s@), styles@));
            }
            return None;
        }
        i = i + 1;
    }
    Some(apply_colors(
        s,
        side,
        syntax_highlight,
        background_diff_colors,
        background_include_whitespace,
        file_format,
        background,
        mps,
        rgb_added,
        rgb_removed,
    ))
}

/// The text of `part` between two byte columns of it, tabs expanded.
pub open spec fn part_text(part: Seq<char>, a: nat, b: nat, tab_width: nat) -> Seq<char> {
    expand_tabs(cols_text(part, a as int, b as int), tab_width)
}

/// A part of a wrapped line that starts at byte column `ps` of the line,
/// with the spans from the front of `styles` painted on it, where the text
/// before column `prev` has been styled already.
pub open spec fn part_body(part: Seq<char>, ps: nat, styles: Seq<(SingleLineSpan, Style)>, prev: nat, tab_width: nat) -> Seq<char>
    decreases styles.len(),
{
    let plen = blen(part);
    if styles.len() == 0 || styles[0].0.start_col >= ps + plen {
        let p = max_nat(prev, ps);
        if p < ps + plen {
            part_text(part, (p - ps) as nat, plen, tab_width)
        } else {
            Seq::empty()
        }
    } else {
        let (span, style) = styles[0];
        let start = span.start_col as nat;
        let end = span.end_col as nat;
        let gap = if start > ps && prev < start {
            part_text(part, (max_nat(prev, ps) - ps) as nat, (start - ps) as nat, tab_width)
        } else {
            Seq::empty()
        };
        let body = if end > ps {
            painted(
                part_text(part, if start > ps { (start - ps) as nat } else { 0 }, min_nat(plen, (end - ps) as nat), tab_width),
                style,
            )
        } else {
            Seq::empty()
        };
        gap + body + part_body(part, ps, styles.drop_first(), end, tab_width)
    }
}

/// Spaces that pad a part on the left side.
pub open spec fn side_padding(side: Side, pad: nat) -> Seq<char> {
    if side == Side::Left {
        spaces(pad)
    } else {
        Seq::empty()
    }
}

/// Byte column of `line` at which part `k` of a split starts.
pub open spec fn part_start(parts: Seq<(Seq<char>, nat)>, k: int) -> nat {
    blen(join_parts(parts.take(k)))
}

/// The lines that `split_and_apply` makes of `line`.
pub open spec fn wrapped_lines(
    line: Seq<char>,
    max_len: nat,
    tab_width: nat,
    styles: Seq<(SingleLineSpan, Style)>,
    side: Side,
) -> Seq<Seq<char>> {
    let parts = split_by_width(line, max_len, tab_width);
    if styles.len() == 0 && !all_white_space(line) {
        Seq::new(parts.len(), |k: int| expand_tabs(parts[k].0, tab_width) + side_padding(side, parts[k].1))
    } else {
        Seq::new(
            parts.len(),
            |k: int| part_body(parts[k].0, part_start(parts, k), styles, 0, tab_width) + side_padding(side, parts[k].1),
        )
    }
}

/// On the left side, each line that a line with no styles wraps into is
/// exactly `max_len` columns wide, its tabs shown as spaces, where a space
/// is one column wide (as `UnicodeWidthChar::width` gives it).
pub proof fn lemma_wrapped_unstyled_width(line: Seq<char>, max_len: nat, tab_width: nat)
    requires
        wraps(line, max_len, tab_width),
        !all_white_space(line),
        char_width(' ') == Some(1usize),
    ensures
        forall|k: int|
            0 <= k < wrapped_lines(line, max_len, tab_width, Seq::empty(), Side::Left).len() ==> cols(
                #[trigger] wrapped_lines(line, max_len, tab_width, Seq::empty(), Side::Left)[k],
                tab_width,
            ) == max_len,
{
    let parts = split_by_width(line, max_len, tab_width);
    let w = wrapped_lines(line, max_len, tab_width, Seq::empty(), Side::Left);
    lemma_split_parts_fill(line, max_len, tab_width);
    assert forall|k: int| 0 <= k < w.len() implies cols(#[trigger] w[k], tab_width) == max_len by {
        let e = expand_tabs(parts[k].0, tab_width);
        assert(w[k] == e + spaces(parts[k].1));
        lemma_cols_concat(e, spaces(parts[k].1), tab_width);
        lemma_expand_tabs_cols(parts[k].0, tab_width);
        lemma_spaces_cols(parts[k].1, tab_width);
        assert(cols(parts[k].0, tab_width) + parts[k].1 == max_len);
    }
}

/// Tabs shown as spaces bring in no escape character.
pub proof fn lemma_expand_tabs_escape_free(s: Seq<char>, tab_width: nat)
    requires
        escape_free(s),
    ensures
        escape_free(expand_tabs(s, tab_width)),
    decreases s.len(),
{
    if s.len() > 0 {
        let d = s.drop_last();
        assert forall|k: int| 0 <= k < d.len() implies d[k] != '\u{1b}' by {
            assert(d[k] == s[k]);
        }
        lemma_expand_tabs_escape_free(d, tab_width);
        let a = expand_tabs(d, tab_width);
        let p = crate::text::tab_piece(s.last(), tab_width);
        assert forall|k: int| 0 <= k < (a + p).len() implies (a + p)[k] != '\u{1b}' by {
            if k >= a.len() {
                assert((a + p)[k] == p[k - a.len()]);
            }
        }
    }
}

/// A column of the line inside a part, on a character boundary, is a
/// column of the part.
proof fn lemma_part_col(line: Seq<char>, a: int, b: int, c: int)
    requires
        0 <= a <= b <= line.len(),
        byte_at(line, a) <= c <= byte_at(line, b),
        col_ok(line, c),
    ensures
        col_ok(line.subrange(a, b), c - byte_at(line, a)),
{
    lemma_byte_at_mono(line, a, b);
    crate::text::lemma_byte_at_mono(line, b, line.len() as int);
    lemma_byte_at_end(line);
    lemma_part_boundary(line, a, b, c);
}

/// The text of a part between two of its columns, tabs shown as spaces.
pub open spec fn part_plain(part: Seq<char>, x: nat, plen: nat, tab_width: nat) -> Seq<char> {
    if x < plen {
        part_text(part, x, plen, tab_width)
    } else {
        Seq::empty()
    }
}

proof fn lemma_part_text_plain(part: Seq<char>, x: int, y: int, tab_width: nat) -> (r: Seq<char>)
    requires
        escape_free(part),
        0 <= x <= y <= blen(part),
        col_ok(part, x),
        col_ok(part, y),
    ensures
        r == part_text(part, x as nat, y as nat, tab_width),
        escape_free(r),
{
    let (i, j) = lemma_cols_text_sub(part, x, y);
    let t = cols_text(part, x, y);
    assert forall|k: int| 0 <= k < t.len() implies t[k] != '\u{1b}' by {
        assert(t[k] == part[i + k]);
    }
    lemma_expand_tabs_escape_free(t, tab_width);
    part_text(part, x as nat, y as nat, tab_width)
}

proof fn lemma_part_text_concat(part: Seq<char>, x: int, y: int, z: int, tab_width: nat)
    requires
        0 <= x <= y <= z <= blen(part),
        col_ok(part, x),
        col_ok(part, y),
        col_ok(part, z),
    ensures
        part_text(part, x as nat, y as nat, tab_width) + part_text(part, y as nat, z as nat, tab_width)
            == part_text(part, x as nat, z as nat, tab_width),
{
    lemma_cols_text_concat(part, x, y, z);
    crate::text::lemma_expand_tabs_concat(cols_text(part, x, y), cols_text(part, y, z), tab_width);
}

#[verifier::rlimit(60)]
proof fn lemma_strip_part_body(
    line: Seq<char>,
    a: int,
    b: int,
    styles: Seq<(SingleLineSpan, Style)>,
    prev: nat,
    tab_width: nat,
    x: Seq<char>,
)
    requires
        escape_free(line),
        spans_in_order(line, styles),
        0 <= a <= b <= line.len(),
        col_ok(line, prev as int),
        styles.len() > 0 ==> prev <= styles[0].0.start_col,
    ensures
        ({
            let part = line.subrange(a, b);
            let ps = byte_at(line, a);
            strip_escapes(part_body(part, ps, styles, prev, tab_width) + x) == part_plain(
                part,
                (max_nat(prev, ps) - ps) as nat,
                blen(part),
                tab_width,
            ) + strip_escapes(x)
        }),
    decreases styles.len(),
{
    let part = line.subrange(a, b);
    let ps = byte_at(line, a);
    lemma_byte_at_mono(line, a, b);
    crate::text::lemma_byte_at_mono(line, b, line.len() as int);
    lemma_byte_at_end(line);
    let plen = blen(part);
    assert(escape_free(part)) by {
        assert forall|k: int| 0 <= k < part.len() implies part[k] != '\u{1b}' by {
            assert(part[k] == line[a + k]);
        }
    }
    crate::text::lemma_byte_at_boundary(part, 0);
    assert(part.take(0) =~= Seq::<char>::empty());
    crate::text::lemma_byte_at_boundary(part, part.len() as int);
    crate::text::lemma_byte_at_end(part);
    assert(col_ok(part, 0) && col_ok(part, plen as int));
    let p = max_nat(prev, ps);
    if p < ps + plen && p > ps {
        lemma_part_col(line, a, b, p as int);
    }
    if styles.len() == 0 || styles[0].0.start_col >= ps + plen {
        if p < ps + plen {
            let r = lemma_part_text_plain(part, p - ps, plen as int, tab_width);
            lemma_strip_plain(r, x);
        } else {
            assert(Seq::<char>::empty() + x =~= x);
            assert(Seq::<char>::empty() + strip_escapes(x) =~= strip_escapes(x));
        }
    } else {
        let (span, style) = styles[0];
        let start = span.start_col as nat;
        let end = span.end_col as nat;
        let d = styles.drop_first();
        assert(styles[0] == (span, style));
        assert(col_ok(line, start as int) && col_ok(line, end as int));
        assert forall|k: int| 0 <= k < d.len() implies (#[trigger] d[k]).0.start_col <= d[k].0.end_col
            && col_ok(line, d[k].0.start_col as int) && col_ok(line, d[k].0.end_col as int) by {
            assert(d[k] == styles[k + 1]);
        }
        assert forall|k: int| 0 <= k < d.len() - 1 implies (#[trigger] d[k]).0.end_col <= d[k + 1].0.start_col by {
            assert(d[k] == styles[k + 1] && d[k + 1] == styles[k + 2]);
        }
        if d.len() > 0 {
            assert(d[0] == styles[1]);
            assert(styles[0].0.end_col <= styles[1].0.start_col);
        }
        lemma_strip_part_body(line, a, b, d, end, tab_width, x);
        let sp: nat = if start > ps { start } else { ps };
        if start > ps {
            lemma_part_col(line, a, b, start as int);
        }
        let gap = if start > ps && prev < start {
            part_text(part, (max_nat(prev, ps) - ps) as nat, (start - ps) as nat, tab_width)
        } else {
            Seq::<char>::empty()
        };
        let rest = part_body(part, ps, d, end, tab_width);
        let rest_plain = part_plain(part, (max_nat(end, ps) - ps) as nat, plen, tab_width);
        assert(p <= sp);
        if p < sp {
            let g = lemma_part_text_plain(part, p - ps, sp - ps, tab_width);
        } else {
            assert(gap =~= Seq::<char>::empty());
        }
        if end > ps {
            let me: nat = min_nat(plen, (end - ps) as nat);
            if end < ps + plen {
                lemma_part_col(line, a, b, end as int);
            }
            let t = lemma_part_text_plain(part, sp - ps, me as int, tab_width);
            let body = painted(t, style);
            assert(part_body(part, ps, styles, prev, tab_width) == gap + body + rest);
            assert(gap + body + rest + x =~= gap + (body + (rest + x)));
            lemma_strip_plain(gap, body + (rest + x));
            lemma_strip_painted(t, style, rest + x);
            if p < sp {
                lemma_part_text_concat(part, p - ps, sp - ps, me as int, tab_width);
            } else {
                assert(gap + t =~= t);
            }
            if end < ps + plen {
                lemma_part_text_concat(part, p - ps, me as int, plen as int, tab_width);
                assert(gap + (t + (rest_plain + strip_escapes(x))) =~= gap + t + rest_plain + strip_escapes(x));
            } else {
                assert(gap + (t + (Seq::<char>::empty() + strip_escapes(x))) =~= gap + t + strip_escapes(x));
            }
        } else {
            assert(sp == ps && p == ps);
            assert(gap =~= Seq::<char>::empty());
            assert(part_body(part, ps, styles, prev, tab_width) == gap + Seq::<char>::empty() + rest);
            assert(gap + Seq::<char>::empty() + rest + x =~= rest + x);
        }
    }
}

/// Pieces with tabs shown as spaces, one after the other, are the pieces
/// one after the other with tabs shown as spaces.
proof fn lemma_join_expand(pieces: Seq<Seq<char>>, tab_width: nat)
    ensures
        join_pieces(Seq::new(pieces.len(), |k: int| expand_tabs(pieces[k], tab_width)))
            == expand_tabs(join_pieces(pieces), tab_width),
    decreases pieces.len(),
{
    let e = Seq::new(pieces.len(), |k: int| expand_tabs(pieces[k], tab_width));
    if pieces.len() > 0 {
        let d = pieces.drop_first();
        assert(e.drop_first() =~= Seq::new(d.len(), |k: int| expand_tabs(d[k], tab_width)));
        lemma_join_expand(d, tab_width);
        crate::text::lemma_expand_tabs_concat(pieces[0], join_pieces(d), tab_width);
    } else {
        assert(e =~= Seq::<Seq<char>>::empty());
    }
}

/// Part `k` of a split is the run of the line's characters from the end
/// of the parts before it, which starts at byte column `part_start`.
proof fn lemma_part_in_line(line: Seq<char>, parts: Seq<(Seq<char>, nat)>, k: int) -> (ab: (int, int))
    requires
        join_parts(parts) == line,
        0 <= k < parts.len(),
    ensures
        0 <= ab.0 <= ab.1 <= line.len(),
        parts[k].0 == line.subrange(ab.0, ab.1),
        part_start(parts, k) == byte_at(line, ab.0),
{
    lemma_join_parts_take(parts, k);
    let jk = join_parts(parts.take(k));
    let jk1 = join_parts(parts.take(k + 1));
    if k == 0 {
        assert(parts.take(0) =~= Seq::<(Seq<char>, nat)>::empty());
        assert(jk =~= line.take(0));
    } else {
        lemma_join_parts_take(parts, k - 1);
        assert(jk =~= line.take(jk.len() as int));
    }
    let a = jk.len() as int;
    let b = jk1.len() as int;
    assert(line.take(b) == jk1);
    assert(line.subrange(a, b) =~= parts[k].0) by {
        assert forall|i: int| 0 <= i < parts[k].0.len() implies line.subrange(a, b)[i] == parts[k].0[i] by {
            assert(jk1[a + i] == parts[k].0[i]);
            assert(line.take(b)[a + i] == line[a + i]);
        }
    }
    (a, b)
}

/// With its spans in order along it, a line that holds no escape character
/// comes back from wrapping and styling, tabs shown as spaces, once the
/// lines (on the right side, which pads nothing) are put one after the
/// other and their escape sequences are taken out: wrapping and styling
/// neither lose, repeat nor reorder its text.
pub proof fn lemma_wrapped_text(line: Seq<char>, max_len: nat, tab_width: nat, styles: Seq<(SingleLineSpan, Style)>)
    requires
        escape_free(line),
        spans_in_order(line, styles),
    ensures
        ({
            let w = wrapped_lines(line, max_len, tab_width, styles, Side::Right);
            join_pieces(Seq::new(w.len(), |k: int| strip_escapes(w[k]))) == expand_tabs(line, tab_width)
        }),
{
    let parts = split_by_width(line, max_len, tab_width);
    let w = wrapped_lines(line, max_len, tab_width, styles, Side::Right);
    lemma_split_join(line, max_len, tab_width);
    let stripped = Seq::new(w.len(), |k: int| strip_escapes(w[k]));
    let texts = Seq::new(parts.len(), |k: int| parts[k].0);
    assert forall|k: int| 0 <= k < parts.len() implies #[trigger] stripped[k] == expand_tabs(texts[k], tab_width) by {
        let (a, b) = lemma_part_in_line(line, parts, k);
        let part = parts[k].0;
        assert(escape_free(part)) by {
            assert forall|i: int| 0 <= i < part.len() implies part[i] != '\u{1b}' by {
                assert(part[i] == line[a + i]);
            }
        }
        lemma_expand_tabs_escape_free(part, tab_width);
        lemma_unstyled_line(part);
        if styles.len() == 0 && !all_white_space(line) {
            assert(w[k] == expand_tabs(part, tab_width) + Seq::<char>::empty());
            lemma_strip_plain(expand_tabs(part, tab_width), Seq::empty());
            assert(expand_tabs(part, tab_width) + Seq::<char>::empty() =~= expand_tabs(part, tab_width));
        } else {
            let body = part_body(part, part_start(parts, k), styles, 0, tab_width);
            assert(w[k] == body + Seq::<char>::empty());
            assert(body + Seq::<char>::empty() =~= body);
            crate::text::lemma_byte_at_boundary(line, 0);
            assert(line.take(0) =~= Seq::<char>::empty());
            lemma_strip_part_body(line, a, b, styles, 0, tab_width, Seq::empty());
            assert(body + Seq::<char>::empty() =~= body);
            assert(strip_escapes(Seq::<char>::empty()) == Seq::<char>::empty());
            if blen(part) == 0 {
                crate::text::lemma_blen_ge_len(part);
                assert(part =~= Seq::<char>::empty());
            }
        }
    }
    assert(stripped =~= Seq::new(texts.len(), |k: int| expand_tabs(texts[k], tab_width)));
    lemma_join_expand(texts, tab_width);
    crate::width::lemma_join_parts_pieces(texts, parts);
}

/// On the left side, every line that a line wraps into, styled or not, is
/// exactly `max_len` columns wide once its escape sequences are taken out,
/// its tabs shown as spaces, where a space is one column wide (as
/// `UnicodeWidthChar::width` gives it): styled parts are padded as plain
/// ones are.
pub proof fn lemma_wrapped_left_width(
    line: Seq<char>,
    max_len: nat,
    tab_width: nat,
    styles: Seq<(SingleLineSpan, Style)>,
)
    requires
        escape_free(line),
        spans_in_order(line, styles),
        wraps(line, max_len, tab_width),
        char_width(' ') == Some(1usize),
    ensures
        forall|k: int|
            0 <= k < wrapped_lines(line, max_len, tab_width, styles, Side::Left).len() ==> cols(
                strip_escapes(#[trigger] wrapped_lines(line, max_len, tab_width, styles, Side::Left)[k]),
                tab_width,
            ) == max_len,
{
    let parts = split_by_width(line, max_len, tab_width);
    let w = wrapped_lines(line, max_len, tab_width, styles, Side::Left);
    lemma_split_join(line, max_len, tab_width);
    lemma_split_parts_fill(line, max_len, tab_width);
    assert forall|k: int| 0 <= k < w.len() implies cols(strip_escapes(#[trigger] w[k]), tab_width) == max_len by {
        let (a, b) = lemma_part_in_line(line, parts, k);
        let part = parts[k].0;
        let pad = parts[k].1;
        let sp = spaces(pad);
        assert(escape_free(part)) by {
            assert forall|i: int| 0 <= i < part.len() implies part[i] != '\u{1b}' by {
                assert(part[i] == line[a + i]);
            }
        }
        assert(escape_free(sp)) by {
            assert forall|i: int| 0 <= i < sp.len() implies sp[i] != '\u{1b}' by {
                assert(sp[i] == ' ');
            }
        }
        let e = expand_tabs(part, tab_width);
        lemma_expand_tabs_escape_free(part, tab_width);
        lemma_unstyled_line(part);
        lemma_strip_plain(sp, Seq::empty());
        assert(sp + Seq::<char>::empty() =~= sp);
        if styles.len() == 0 && !all_white_space(line) {
            assert(w[k] == e + sp);
            lemma_strip_plain(e, sp);
        } else {
            assert(w[k] == part_body(part, part_start(parts, k), styles, 0, tab_width) + sp);
            crate::text::lemma_byte_at_boundary(line, 0);
            assert(line.take(0) =~= Seq::<char>::empty());
            lemma_strip_part_body(line, a, b, styles, 0, tab_width, sp);
            if blen(part) == 0 {
                crate::text::lemma_blen_ge_len(part);
                assert(part =~= Seq::<char>::empty());
                assert(e =~= Seq::<char>::empty());
            }
        }
        assert(strip_escapes(w[k]) == e + sp);
        lemma_cols_concat(e, sp, tab_width);
        lemma_expand_tabs_cols(part, tab_width);
        lemma_spaces_cols(pad, tab_width);
    }
}

/// A line split into parts of at most `max_len` columns (word wrapping),
/// each with the styles of `styles` applied by its position in the line.
pub fn split_and_apply(
    line: &str,
    max_len: usize,
    tab_width: usize,
    styles: &[(SingleLineSpan, Style)],
    side: Side,
) -> (r: Vec<String>)
    requires
        max_len > 0,
        max_len > tab_width,
        width_fits(line@, tab_width as nat),
        wraps(line@, max_len as nat, tab_width as nat),
        spans_fit(line@, styles@),
    ensures
        r@.len() == wrapped_lines(line@, max_len as nat, tab_width as nat, styles@, side).len(),
        forall|k: int|
            0 <= k < r@.len() ==> (#[trigger] r@[k])@ == wrapped_lines(line@, max_len as nat, tab_width as nat, styles@, side)[k],
{
    let ghost tw = tab_width as nat;
    let ghost spec_parts = split_by_width(line@, max_len as nat, tw);
    let ghost wanted = wrapped_lines(line@, max_len as nat, tw, styles@, side);
    let parts = split_string_by_width(line, max_len, tab_width);
    if styles.len() == 0 && !is_blank(line) {
        let mut res: Vec<String> = Vec::new();
        let mut k: usize = 0;
        while k < parts.len()
            invariant
                k <= parts@.len(),
                parts@.len() == spec_parts.len(),
                forall|j: int| 0 <= j < parts@.len() ==> (#[trigger] parts@[j]).0@ == spec_parts[j].0 && parts@[j].1 == spec_parts[j].1,
                styles@.len() == 0 && !all_white_space(line@),
                spec_parts == split_by_width(line@, max_len as nat, tw),
                wanted == wrapped_lines(line@, max_len as nat, tw, styles@, side),
                tw == tab_width,
                res@.len() == k,
                forall|j: int| 0 <= j < k ==> (#[trigger] res@[j])@ == wanted[j],
            decreases parts@.len() - k,
        {
            let (part, pad) = parts[k];
            let mut s = replace_tabs(part, tab_width);
            if side == Side::Left {
                let padding = repeat_space(pad);
                s.append(padding.as_str());
            }
            proof {
                assert(part@ == spec_parts[k as int].0 && pad == spec_parts[k as int].1);
                assert(wanted[k as int] == expand_tabs(spec_parts[k as int].0, tw) + side_padding(side, spec_parts[k as int].1));
                assert(s@ =~= wanted[k as int]);
            }
            res.push(s);
            k = k + 1;
        }
        return res;
    }
    proof {
        lemma_split_join(line@, max_len as nat, tw);
        assert(spec_parts.take(0) =~= Seq::<(Seq<char>, nat)>::empty());
        crate::text::lemma_byte_at_end(line@);
    }
    let total = byte_len(line);
    let mut styled_parts: Vec<String> = Vec::new();
    let mut part_start_col: usize = 0;
    let mut k: usize = 0;
    let ghost mut a: int = 0;
    while k < parts.len()
        invariant
            k <= parts@.len(),
            parts@.len() == spec_parts.len(),
            forall|j: int| 0 <= j < parts@.len() ==> (#[trigger] parts@[j]).0@ == spec_parts[j].0 && parts@[j].1 == spec_parts[j].1,
            spec_parts == split_by_width(line@, max_len as nat, tw),
            join_parts(spec_parts) == line@,
            !(styles@.len() == 0 && !all_white_space(line@)),
            wanted == wrapped_lines(line@, max_len as nat, tw, styles@, side),
            spans_fit(line@, styles@),
            tw == tab_width,
            total == blen(line@),
            byte_at(line@, line@.len() as int) == blen(line@),
            0 <= a <= line@.len(),
            join_parts(spec_parts.take(k as int)) == line@.take(a),
            part_start_col == byte_at(line@, a),
            part_start_col == part_start(spec_parts, k as int),
            styled_parts@.len() == k,
            forall|j: int| 0 <= j < k ==> (#[trigger] styled_parts@[j])@ == wanted[j],
        decreases parts@.len() - k,
    {
        let (line_part, pad) = parts[k];
        let ghost part = line_part@;
        let ghost b = a + part.len();
        proof {
            assert(part == spec_parts[k as int].0 && pad == spec_parts[k as int].1);
            lemma_join_parts_take(spec_parts, k as int);
            let jk1 = join_parts(spec_parts.take(k + 1));
            assert(jk1 =~= line@.take(a) + part);
            assert(jk1.len() == b);
            assert(join_parts(spec_parts) == line@);
            assert(b <= line@.len());
            assert(line@.take(b) =~= jk1);
            assert(forall|i: int| 0 <= i < part.len() ==> line@.take(b)[a + i] == #[trigger] part[i]);
            assert(line@.subrange(a, b) =~= part);
            crate::text::lemma_byte_at_mono(line@, a, b);
            crate::text::lemma_byte_at_mono(line@, b, line@.len() as int);
        }
        let plen = byte_len(line_part);
        let mut res = String::new();
        let mut prev_style_end: usize = 0;
        let mut j: usize = 0;
        let ghost all = part_body(part, part_start_col as nat, styles@, 0, tw);
        proof {
            assert(styles@.skip(0) =~= styles@);
            assert(Seq::<char>::empty() + all =~= all);
        }
        while j < styles.len()
            invariant_except_break
                j <= styles@.len(),
                all == res@ + part_body(part, part_start_col as nat, styles@.skip(j as int), prev_style_end as nat, tw),
                prev_style_end == 0 || (j > 0 && prev_style_end == styles@[j - 1].0.end_col as nat
                    && styles@[j - 1].0.start_col < part_start_col + plen),
                part == line_part@,
                plen == blen(part),
                0 <= a <= b <= line@.len(),
                part == line@.subrange(a, b),
                part_start_col == byte_at(line@, a),
                part_start_col + plen == byte_at(line@, b),
                byte_at(line@, b) <= blen(line@),
                blen(line@) <= usize::MAX,
                spans_fit(line@, styles@),
                tw == tab_width,
            ensures
                all == res@ + part_body(part, part_start_col as nat, styles@.skip(j as int), prev_style_end as nat, tw),
                j <= styles@.len(),
                j == styles@.len() || styles@[j as int].0.start_col >= part_start_col + plen,
                prev_style_end == 0 || (j > 0 && prev_style_end == styles@[j - 1].0.end_col as nat
                    && styles@[j - 1].0.start_col < part_start_col + plen),
            decreases styles@.len() - j,
        {
            let (span, style) = styles[j];
            let start_col = span.start_col as usize;
            let end_col = span.end_col as usize;
            if start_col >= part_start_col + plen {
                break;
            }
            let ghost rest = styles@.skip(j as int);
            let ghost before = res@;
            proof {
                assert(rest[0] == styles@[j as int]);
                assert(rest.drop_first() =~= styles@.skip(j + 1));
                assert(styles@[j as int].0.start_col < blen(line@));
                if prev_style_end > 0 {
                    assert(styles@[j - 1].0.start_col < blen(line@));
                }
            }
            let ghost gap = if start_col > part_start_col && prev_style_end < start_col {
                part_text(part, (max_nat(prev_style_end as nat, part_start_col as nat) - part_start_col) as nat, (start_col - part_start_col) as nat, tw)
            } else {
                Seq::<char>::empty()
            };
            if start_col > part_start_col && prev_style_end < start_col {
                let unstyled_start = if prev_style_end >= part_start_col { prev_style_end } else { part_start_col };
                proof {
                    if unstyled_start > part_start_col {
                        lemma_part_boundary(line@, a, b, unstyled_start as int);
                    } else {
                        crate::text::lemma_byte_at_boundary(part, 0);
                        assert(part.take(0) =~= Seq::<char>::empty());
                    }
                    lemma_part_boundary(line@, a, b, start_col as int);
                }
                let text = substring_by_byte_replace_tabs(
                    line_part,
                    unstyled_start - part_start_col,
                    start_col - part_start_col,
                    tab_width,
                );
                res.append(text.as_str());
            }
            let ghost body = if end_col > part_start_col {
                painted(
                    part_text(part, if start_col > part_start_col { (start_col - part_start_col) as nat } else { 0 }, min_nat(plen as nat, (end_col - part_start_col) as nat), tw),
                    style,
                )
            } else {
                Seq::<char>::empty()
            };
            if end_col > part_start_col {
                let from = if start_col > part_start_col { start_col - part_start_col } else { 0 };
                let to = if plen <= end_col - part_start_col { plen } else { end_col - part_start_col };
                proof {
                    if start_col > part_start_col {
                        lemma_part_boundary(line@, a, b, start_col as int);
                    } else {
                        crate::text::lemma_byte_at_boundary(part, 0);
                        assert(part.take(0) =~= Seq::<char>::empty());
                    }
                    if to < plen {
                        lemma_part_boundary(line@, a, b, end_col as int);
                    } else {
                        crate::text::lemma_byte_at_boundary(part, part.len() as int);
                        crate::text::lemma_byte_at_end(part);
                    }
                }
                let span_s = substring_by_byte_replace_tabs(line_part, from, to, tab_width);
                let p = paint(span_s.as_str(), style);
                res.append(p.as_str());
            }
            proof {
                assert(res@ =~= before + gap + body);
            }
            prev_style_end = end_col;
            j = j + 1;
        }
        if prev_style_end < part_start_col {
            prev_style_end = part_start_col;
        }
        let ghost before_tail = res@;
        if prev_style_end < part_start_col + plen {
            proof {
                if prev_style_end > part_start_col {
                    if j > 0 && prev_style_end == styles@[j - 1].0.end_col as nat {
                        assert(styles@[j - 1].0.start_col < blen(line@));
                    }
                    lemma_part_boundary(line@, a, b, prev_style_end as int);
                } else {
                    crate::text::lemma_byte_at_boundary(part, 0);
                    assert(part.take(0) =~= Seq::<char>::empty());
                }
                crate::text::lemma_byte_at_boundary(part, part.len() as int);
                crate::text::lemma_byte_at_end(part);
            }
            let span_s = substring_by_byte_replace_tabs(line_part, prev_style_end - part_start_col, plen, tab_width);
            res.append(span_s.as_str());
        }
        proof {
            if j == styles@.len() {
                assert(styles@.skip(j as int).len() == 0);
            } else {
                assert(styles@.skip(j as int)[0] == styles@[j as int]);
            }
            assert(res@ =~= all);
        }
        if side == Side::Left {
            let padding = repeat_space(pad);
            res.append(padding.as_str());
        }
        proof {
            assert(res@ =~= wanted[k as int]);
        }
        styled_parts.push(res);
        proof {
            lemma_join_parts_take(spec_parts, k as int);
            assert(join_parts(spec_parts.take(k + 1)) =~= line@.take(b));
        }
        part_start_col = part_start_col + plen;
        k = k + 1;
        proof {
            a = b;
        }
    }
    styled_parts
}

/// Whether every character of `line` fits in `max_len` columns.
fn chars_fit(line: &str, max_len: usize, tab_width: usize) -> (b: bool)
    requires
        max_len > 0,
    ensures
        b == wraps(line@, max_len as nat, tab_width as nat),
{
    let mut fit = true;
    for c in it: line.chars()
        invariant
            it.seq() == line@,
            max_len > 0,
            fit == forall|k: int| 0 <= k < it.index() ==> #[trigger] col_width(line@[k], tab_width as nat) <= max_len,
    {
        let w = if c == '\t' {
            tab_width
        } else {
            match unicode_char_width(c) {
                Some(x) => x,
                None => 0,
            }
        };
        proof {
            assert(line@[it.index() as int] == c);
            assert(w == col_width(c, tab_width as nat));
        }
        if w > max_len {
            fit = false;
        }
    }
    fit
}

/// `split_and_apply` where every character of `line` fits in `max_len`
/// columns; `None` where one does not, on which wrapping would never end.
pub fn split_and_apply_checked(
    line: &str,
    max_len: usize,
    tab_width: usize,
    styles: &[(SingleLineSpan, Style)],
    side: Side,
) -> (r: Option<Vec<String>>)
    requires
        max_len > 0,
        max_len > tab_width,
        width_fits(line@, tab_width as nat),
        spans_fit(line@, styles@),
    ensures
        r is Some <==> wraps(line@, max_len as nat, tab_width as nat),
        r matches Some(v) ==> v@.len() == wrapped_lines(line@, max_len as nat, tab_width as nat, styles@, side).len()
            && forall|k: int|
            0 <= k < v@.len() ==> (#[trigger] v@[k])@ == wrapped_lines(line@, max_len as nat, tab_width as nat, styles@, side)[k],
{
    if chars_fit(line, max_len, tab_width) {
        Some(split_and_apply(line, max_len, tab_width, styles, side))
    } else {
        None
    }
}

} // verus!
