//! Backgrounds for the white space inside changed regions of a line.
use vstd::prelude::*;
use vstd::utf8::*;
use crate::color::{novel_style, novel_style_of, maybe_syntax_style, maybe_syntax_style_of, merge_adjacent, merged};
use crate::groups::{LineGroups, group_of, group_push, group_index, lemma_group_of_push, lemma_group_index_bounds};
use crate::model::{FileFormat, MatchKind, TokenKind, BackgroundColor, LineNumber, MatchedPos, RgbColor, Side, SingleLineSpan, kind_is_novel};
use crate::paint::{Color, Style, plain_style};
use crate::sort::{sort_by_span, insert_pos, sorted_by_span, lemma_insert_pos_le, Positioned};
use crate::text::{text_lines, split_on_newlines, all_white_space, blen, byte_at, byte_len, char_is_whitespace, is_blank, is_white_space, len_utf8, substring_by_byte, lemma_byte_at_step, lemma_byte_at_end, lemma_byte_at_mono};

verus! {

/// Whether byte column `col` of `line` lies on a character boundary, where
/// it is inside the line.
pub open spec fn col_ok(line: Seq<char>, col: int) -> bool {
    col <= blen(line) ==> is_char_boundary(encode_utf8(line), col)
}

/// Whether both ends of `span` lie on character boundaries of `line`,
/// where they are inside it.
pub open spec fn span_ok(line: Seq<char>, span: SingleLineSpan) -> bool {
    col_ok(line, span.start_col as int) && col_ok(line, span.end_col as int)
}

/// The characters of `line` between two byte columns.
pub open spec fn cols_text(line: Seq<char>, start: int, end: int) -> Seq<char> {
    decode_utf8(encode_utf8(line).subrange(start, end))
}

/// Whether `span` is a nonempty range of `line`, both of whose ends lie on
/// character boundaries, holding something other than white space.
pub open spec fn has_text(line: Seq<char>, span: SingleLineSpan) -> bool {
    &&& span.start_col < span.end_col
    &&& span.end_col <= blen(line)
    &&& span_ok(line, span)
    &&& !all_white_space(cols_text(line, span.start_col as int, span.end_col as int))
}

/// Whether `span` is a nonempty range of `line` that holds something other
/// than white space. A span whose ends do not both lie on character
/// boundaries cannot be cut out of the line, and holds no text.
pub fn span_has_non_whitespace(line: &str, span: SingleLineSpan) -> (b: bool)
    ensures
        b == has_text(line@, span),
{
    let line_bytes = byte_len(line);
    let start_col = span.start_col as usize;
    let end_col = span.end_col as usize;
    if start_col >= end_col || end_col > line_bytes {
        return false;
    }
    if !line.is_char_boundary(start_col) || !line.is_char_boundary(end_col) {
        return false;
    }
    let part = substring_by_byte(line, start_col, end_col);
    !is_blank(part)
}

/// A position's span, and whether it is changed.
pub open spec fn mark(m: MatchedPos) -> (SingleLineSpan, bool) {
    (m.pos, kind_is_novel(m.kind))
}

/// The marks of a sequence of positions.
pub open spec fn marks_of<'a>(ms: Seq<&'a MatchedPos>) -> Seq<(SingleLineSpan, bool)> {
    ms.map_values(|m: &'a MatchedPos| mark(*m))
}

/// Index of the last mark that ends by `start_col` and covers text.
pub open spec fn last_before(line: Seq<char>, ms: Seq<(SingleLineSpan, bool)>, start_col: u32) -> Option<
    nat,
>
    decreases ms.len(),
{
    if ms.len() == 0 {
        None
    } else if ms.last().0.end_col <= start_col && has_text(line, ms.last().0) {
        Some((ms.len() - 1) as nat)
    } else {
        last_before(line, ms.drop_last(), start_col)
    }
}

/// Index of the first mark from index `i` on that starts at `end_col` or
/// later and covers text.
pub open spec fn first_after(line: Seq<char>, ms: Seq<(SingleLineSpan, bool)>, end_col: u32, i: nat) -> Option<
    nat,
>
    decreases ms.len() - i,
{
    if i >= ms.len() {
        None
    } else if ms[i as int].0.start_col >= end_col && has_text(line, ms[i as int].0) {
        Some(i)
    } else {
        first_after(line, ms, end_col, i + 1)
    }
}

/// Whether the range between `start_col` and `end_col` lies between an
/// unchanged position before it and an unchanged position after it, the
/// nearest ones that cover text.
pub open spec fn inside_unchanged(line: Seq<char>, start_col: u32, end_col: u32, ms: Seq<(SingleLineSpan, bool)>) -> bool {
    match (last_before(line, ms, start_col), first_after(line, ms, end_col, 0)) {
        (Some(p), Some(n)) => !ms[p as int].1 && !ms[n as int].1,
        _ => false,
    }
}

pub proof fn lemma_last_before_bound(line: Seq<char>, ms: Seq<(SingleLineSpan, bool)>, start_col: u32)
    ensures
        last_before(line, ms, start_col) matches Some(p) ==> p < ms.len(),
    decreases ms.len(),
{
    if ms.len() > 0 {
        lemma_last_before_bound(line, ms.drop_last(), start_col);
    }
}

pub proof fn lemma_first_after_bound(line: Seq<char>, ms: Seq<(SingleLineSpan, bool)>, end_col: u32, i: nat)
    ensures
        first_after(line, ms, end_col, i) matches Some(n) ==> n < ms.len(),
    decreases ms.len() - i,
{
    if i < ms.len() {
        lemma_first_after_bound(line, ms, end_col, i + 1);
    }
}

/// Whether the white space between two columns lies between two unchanged
/// positions that hold text: the nearest such position before it and the
/// nearest after it.
pub fn whitespace_is_inside_unchanged_region(
    line: &str,
    start_col: u32,
    end_col: u32,
    mps: Option<&[&MatchedPos]>,
) -> (b: bool)
    ensures
        b == inside_unchanged(
            line@,
            start_col,
            end_col,
            match mps {
                Some(ms) => marks_of(ms@),
                None => Seq::empty(),
            },
        ),
{
    let empty: Vec<&MatchedPos> = Vec::new();
    let mps: &[&MatchedPos] = match mps {
        Some(ms) => ms,
        None => empty.as_slice(),
    };
    let ghost marks = marks_of(mps@);
    // The last one, going backwards, that ends by `start_col` and covers text.
    let mut previous: Option<usize> = None;
    let mut i = mps.len();
    assert(marks.take(i as int) =~= marks);
    while i > 0
        invariant_except_break
            i <= mps@.len(),
            marks == marks_of(mps@),
            previous is None,
            last_before(line@, marks, start_col) == last_before(line@, marks.take(i as int), start_col),
        ensures
            match previous {
                Some(p) => last_before(line@, marks, start_col) == Some(p as nat),
                None => last_before(line@, marks, start_col) is None,
            },
        decreases i,
    {
        let mp = mps[i - 1];
        proof {
            assert(marks.take(i as int).drop_last() =~= marks.take(i - 1));
            assert(marks[i - 1] == mark(*mp));
        }
        if mp.pos.end_col <= start_col && span_has_non_whitespace(line, mp.pos) {
            previous = Some(i - 1);
            break;
        }
        i = i - 1;
    }
    proof {
        if i == 0 {
            assert(marks.take(0) =~= Seq::<(SingleLineSpan, bool)>::empty());
        }
    }
    // The first one that starts at `end_col` or later and covers text.
    let mut next: Option<usize> = None;
    let mut j: usize = 0;
    while j < mps.len()
        invariant_except_break
            j <= mps@.len(),
            marks == marks_of(mps@),
            next is None,
            first_after(line@, marks, end_col, 0) == first_after(line@, marks, end_col, j as nat),
        ensures
            match next {
                Some(n) => first_after(line@, marks, end_col, 0) == Some(n as nat),
                None => first_after(line@, marks, end_col, 0) is None,
            },
        decreases mps@.len() - j,
    {
        let mp = mps[j];
        proof {
            assert(marks[j as int] == mark(*mp));
        }
        if mp.pos.start_col >= end_col && span_has_non_whitespace(line, mp.pos) {
            next = Some(j);
            break;
        }
        j = j + 1;
    }
    proof {
        lemma_last_before_bound(line@, marks, start_col);
        lemma_first_after_bound(line@, marks, end_col, 0);
    }
    match (previous, next) {
        (Some(p), Some(n)) => !mps[p].kind.is_novel() && !mps[n].kind.is_novel(),
        _ => false,
    }
}

/// A span on `line` between two columns.
pub open spec fn line_span(line: LineNumber, start_col: u32, end_col: u32) -> SingleLineSpan {
    SingleLineSpan { line, start_col, end_col }
}

/// The larger of two columns.
pub open spec fn max_u32(a: u32, b: u32) -> u32 {
    if a >= b { a } else { b }
}

/// The smaller of two columns.
pub open spec fn min_u32(a: u32, b: u32) -> u32 {
    if a <= b { a } else { b }
}

/// The pieces that a styled span from `next_start` to `end` on `line` is
/// cut into by the white space `ranges` (in order): the white space gets
/// `ws_style`, the rest keeps `style`.
pub open spec fn ws_pieces(
    line: LineNumber,
    next_start: u32,
    end: u32,
    style: Style,
    ws_style: Style,
    ranges: Seq<SingleLineSpan>,
) -> Seq<(SingleLineSpan, Style)>
    decreases ranges.len(),
{
    if ranges.len() == 0 {
        seq![(line_span(line, next_start, end), style)]
    } else {
        let r = ranges[0];
        if r.end_col <= next_start {
            ws_pieces(line, next_start, end, style, ws_style, ranges.drop_first())
        } else if r.start_col >= end {
            seq![(line_span(line, next_start, end), style)]
        } else {
            let ws_start = max_u32(next_start, r.start_col);
            let ws_end = min_u32(end, r.end_col);
            let before = if next_start < ws_start {
                seq![(line_span(line, next_start, ws_start), style)]
            } else {
                Seq::empty()
            };
            let after = if ws_end >= end {
                Seq::empty()
            } else {
                ws_pieces(line, ws_end, end, style, ws_style, ranges.drop_first())
            };
            before + seq![(line_span(line, ws_start, ws_end), ws_style)] + after
        }
    }
}

/// What `push_span_with_whitespace_background` adds for a styled span.
pub open spec fn span_with_ws(
    span: SingleLineSpan,
    style: Style,
    ws_style: Style,
    ranges: Option<Seq<SingleLineSpan>>,
) -> Seq<(SingleLineSpan, Style)> {
    match ranges {
        None => seq![(span, style)],
        Some(rs) => ws_pieces(span.line, span.start_col, span.end_col, style, ws_style, rs),
    }
}

/// Whether `p` is a nonempty run of pieces on `line` that follow one
/// another without gap from `start` to `end`, each with `style` or
/// `ws_style`.
pub open spec fn tiles(
    p: Seq<(SingleLineSpan, Style)>,
    line: LineNumber,
    start: u32,
    end: u32,
    style: Style,
    ws_style: Style,
) -> bool {
    &&& p.len() > 0
    &&& p[0].0.start_col == start
    &&& p.last().0.end_col == end
    &&& forall|i: int| 0 <= i < p.len() - 1 ==> (#[trigger] p[i]).0.end_col == p[i + 1].0.start_col
    &&& forall|i: int|
        0 <= i < p.len() ==> (#[trigger] p[i]).0.line == line && (p[i].1 == style || p[i].1
            == ws_style)
}

pub proof fn lemma_ws_pieces_tile(
    line: LineNumber,
    next_start: u32,
    end: u32,
    style: Style,
    ws_style: Style,
    ranges: Seq<SingleLineSpan>,
)
    ensures
        tiles(ws_pieces(line, next_start, end, style, ws_style, ranges), line, next_start, end, style, ws_style),
    decreases ranges.len(),
{
    if ranges.len() > 0 {
        let r = ranges[0];
        if r.end_col <= next_start {
            lemma_ws_pieces_tile(line, next_start, end, style, ws_style, ranges.drop_first());
        } else if r.start_col < end {
            let ws_start = max_u32(next_start, r.start_col);
            let ws_end = min_u32(end, r.end_col);
            let before = if next_start < ws_start {
                seq![(line_span(line, next_start, ws_start), style)]
            } else {
                Seq::empty()
            };
            let mid = seq![(line_span(line, ws_start, ws_end), ws_style)];
            let after = if ws_end >= end {
                Seq::empty()
            } else {
                ws_pieces(line, ws_end, end, style, ws_style, ranges.drop_first())
            };
            if ws_end < end {
                lemma_ws_pieces_tile(line, ws_end, end, style, ws_style, ranges.drop_first());
            }
            let p = before + mid + after;
            assert(p == ws_pieces(line, next_start, end, style, ws_style, ranges));
            assert forall|i: int| 0 <= i < p.len() - 1 implies (#[trigger] p[i]).0.end_col == p[i + 1].0.start_col by {
                if i < before.len() + mid.len() - 1 {
                } else if i == before.len() + mid.len() - 1 {
                    assert(p[i] == mid[0]);
                    assert(p[i + 1] == after[0]);
                } else {
                    assert(p[i] == after[i - before.len() - mid.len()]);
                    assert(p[i + 1] == after[i + 1 - before.len() - mid.len()]);
                }
            }
            assert forall|i: int| 0 <= i < p.len() implies (#[trigger] p[i]).0.line == line && (p[i].1
                == style || p[i].1 == ws_style) by {
                if i >= before.len() + mid.len() {
                    assert(p[i] == after[i - before.len() - mid.len()]);
                }
            }
            if after.len() > 0 {
                assert(p.last() == after.last());
            }
        }
    }
}

/// The pieces a styled span is cut into at the white space of its line
/// cover it: they follow one another without gap from where it starts to
/// where it ends, all on its line, each with the span's style or the
/// style of changed white space.
pub proof fn lemma_span_with_ws_tiles(
    span: SingleLineSpan,
    style: Style,
    ws_style: Style,
    ranges: Option<Seq<SingleLineSpan>>,
)
    ensures
        tiles(span_with_ws(span, style, ws_style, ranges), span.line, span.start_col, span.end_col, style, ws_style),
{
    match ranges {
        Some(rs) => lemma_ws_pieces_tile(span.line, span.start_col, span.end_col, style, ws_style, rs),
        None => {},
    }
}

pub proof fn lemma_ws_pieces_skip(
    line: LineNumber,
    next_start: u32,
    end: u32,
    style: Style,
    ws_style: Style,
    ranges: Seq<SingleLineSpan>,
    k: int,
)
    requires
        0 <= k < ranges.len(),
    ensures
        ranges.skip(k).drop_first() == ranges.skip(k + 1),
        ranges.skip(k)[0] == ranges[k],
        ranges.skip(k).len() > 0,
{
    assert(ranges.skip(k).drop_first() =~= ranges.skip(k + 1));
}

/// Pushes `span` with `style`, cut where it crosses the white space
/// ranges of its line, which get the background of changed content.
pub fn push_span_with_whitespace_background(
    styled_spans: &mut Vec<(SingleLineSpan, Style)>,
    span: SingleLineSpan,
    style: Style,
    whitespace_ranges: Option<&[SingleLineSpan]>,
    side: Side,
    background: BackgroundColor,
    rgb_added: Option<RgbColor>,
    rgb_removed: Option<RgbColor>,
)
    ensures
        final(styled_spans)@ == old(styled_spans)@ + span_with_ws(
            span,
            style,
            novel_style_of(style, side, background, true, rgb_added, rgb_removed),
            match whitespace_ranges {
                Some(rs) => Some(rs@),
                None => None,
            },
        ),
{
    let ghost ws_style = novel_style_of(style, side, background, true, rgb_added, rgb_removed);
    let ghost given = whitespace_ranges;
    let ranges = match whitespace_ranges {
        Some(rs) => rs,
        None => {
            styled_spans.push((span, style));
            return;
        },
    };
    assert(given == Some(ranges));
    let ghost start_len = old(styled_spans)@.len();
    let ghost all = ws_pieces(span.line, span.start_col, span.end_col, style, ws_style, ranges@);
    assert(all == span_with_ws(span, style, ws_style, match given {
        Some(rs) => Some(rs@),
        None => None,
    }));
    let mut next_start = span.start_col;
    let mut k: usize = 0;
    assert(ranges@.skip(0) =~= ranges@);
    while k < ranges.len()
        invariant_except_break
            k <= ranges@.len(),
            old(styled_spans)@ + all == styled_spans@ + ws_pieces(
                span.line,
                next_start,
                span.end_col,
                style,
                ws_style,
                ranges@.skip(k as int),
            ),
            ws_style == novel_style_of(style, side, background, true, rgb_added, rgb_removed),
            given == whitespace_ranges,
            all == span_with_ws(span, style, ws_style, match given {
                Some(rs) => Some(rs@),
                None => None,
            }),
        ensures
            old(styled_spans)@ + all == styled_spans@ + seq![
                (line_span(span.line, next_start, span.end_col), style),
            ],
        decreases ranges@.len() - k,
    {
        let whitespace_range = ranges[k];
        proof {
            lemma_ws_pieces_skip(span.line, next_start, span.end_col, style, ws_style, ranges@, k as int);
        }
        if whitespace_range.end_col <= next_start {
            k = k + 1;
            continue;
        }
        if whitespace_range.start_col >= span.end_col {
            proof {
                let rs = ranges@.skip(k as int);
                assert(ws_pieces(span.line, next_start, span.end_col, style, ws_style, rs) == seq![
                    (line_span(span.line, next_start, span.end_col), style),
                ]);
            }
            break;
        }
        let ghost rs = ranges@.skip(k as int);
        let ghost old_styled = styled_spans@;
        let ghost ns = next_start;
        let whitespace_start = if next_start >= whitespace_range.start_col {
            next_start
        } else {
            whitespace_range.start_col
        };
        let whitespace_end = if span.end_col <= whitespace_range.end_col {
            span.end_col
        } else {
            whitespace_range.end_col
        };
        let ghost before_len = styled_spans@.len();
        if next_start < whitespace_start {
            styled_spans.push(
                (SingleLineSpan { line: span.line, start_col: next_start, end_col: whitespace_start }, style),
            );
        }
        styled_spans.push(
            (
                SingleLineSpan { line: span.line, start_col: whitespace_start, end_col: whitespace_end },
                novel_style(style, side, background, true, rgb_added, rgb_removed),
            ),
        );
        proof {
            let before = if ns < whitespace_start {
                seq![(line_span(span.line, ns, whitespace_start), style)]
            } else {
                Seq::<(SingleLineSpan, Style)>::empty()
            };
            let after = if whitespace_end >= span.end_col {
                Seq::<(SingleLineSpan, Style)>::empty()
            } else {
                ws_pieces(span.line, whitespace_end, span.end_col, style, ws_style, rs.drop_first())
            };
            assert(ws_pieces(span.line, ns, span.end_col, style, ws_style, rs) == before + seq![
                (line_span(span.line, whitespace_start, whitespace_end), ws_style),
            ] + after);
            assert(styled_spans@ =~= old_styled + before + seq![
                (line_span(span.line, whitespace_start, whitespace_end), ws_style),
            ]);
            assert(old_styled + (before + seq![
                (line_span(span.line, whitespace_start, whitespace_end), ws_style),
            ] + after) =~= styled_spans@ + after);
        }
        next_start = whitespace_end;
        k = k + 1;
        if next_start >= span.end_col {
            proof {
                assert(styled_spans@ + Seq::<(SingleLineSpan, Style)>::empty() =~= styled_spans@);
                assert(old(styled_spans)@ + all =~= styled_spans@);
            }
            return;
        }
    }
    styled_spans.push((SingleLineSpan { line: span.line, start_col: next_start, end_col: span.end_col }, style));
    assert(old(styled_spans)@ + all =~= styled_spans@);
}

/// The pieces of the white space range from `unstyled_start` to `end` on
/// `line` that no styled span (in order) covers, each with `style`.
pub open spec fn gap_pieces(
    line: LineNumber,
    unstyled_start: u32,
    end: u32,
    style: Style,
    spans: Seq<SingleLineSpan>,
) -> Seq<(SingleLineSpan, Style)>
    decreases spans.len(),
{
    if spans.len() == 0 {
        seq![(line_span(line, unstyled_start, end), style)]
    } else {
        let s = spans[0];
        if s.end_col <= unstyled_start {
            gap_pieces(line, unstyled_start, end, style, spans.drop_first())
        } else if s.start_col >= end {
            seq![(line_span(line, unstyled_start, end), style)]
        } else {
            let before = if s.start_col > unstyled_start {
                seq![(line_span(line, unstyled_start, s.start_col), style)]
            } else {
                Seq::empty()
            };
            let next = max_u32(unstyled_start, s.end_col);
            let after = if next >= end {
                Seq::empty()
            } else {
                gap_pieces(line, next, end, style, spans.drop_first())
            };
            before + after
        }
    }
}

/// The uncovered parts of a nonempty white space range are nonempty,
/// lie inside it on its line, one after another, and have the white space
/// style, where each styled span ends no earlier than it starts.
pub proof fn lemma_gap_pieces_inside(
    line: LineNumber,
    unstyled_start: u32,
    end: u32,
    style: Style,
    spans: Seq<SingleLineSpan>,
)
    requires
        unstyled_start < end,
        forall|k: int| 0 <= k < spans.len() ==> (#[trigger] spans[k]).start_col <= spans[k].end_col,
    ensures
        ({
            let p = gap_pieces(line, unstyled_start, end, style, spans);
            &&& forall|i: int|
                0 <= i < p.len() ==> unstyled_start <= (#[trigger] p[i]).0.start_col < p[i].0.end_col
                    <= end && p[i].0.line == line && p[i].1 == style
            &&& forall|i: int| 0 <= i < p.len() - 1 ==> (#[trigger] p[i]).0.end_col <= p[i + 1].0.start_col
        }),
    decreases spans.len(),
{
    if spans.len() > 0 {
        let sp = spans[0];
        assert forall|k: int| 0 <= k < spans.drop_first().len() implies (#[trigger] spans.drop_first()[k]).start_col
            <= spans.drop_first()[k].end_col by {
            assert(spans.drop_first()[k] == spans[k + 1]);
        }
        assert(sp.start_col <= sp.end_col);
        if sp.end_col <= unstyled_start {
            lemma_gap_pieces_inside(line, unstyled_start, end, style, spans.drop_first());
        } else if sp.start_col < end {
            let before = if sp.start_col > unstyled_start {
                seq![(line_span(line, unstyled_start, sp.start_col), style)]
            } else {
                Seq::empty()
            };
            let next = max_u32(unstyled_start, sp.end_col);
            let after = if next >= end {
                Seq::empty()
            } else {
                gap_pieces(line, next, end, style, spans.drop_first())
            };
            if next < end {
                lemma_gap_pieces_inside(line, next, end, style, spans.drop_first());
            }
            let p = before + after;
            assert(p == gap_pieces(line, unstyled_start, end, style, spans));
            assert forall|i: int| 0 <= i < p.len() implies unstyled_start <= (#[trigger] p[i]).0.start_col
                < p[i].0.end_col <= end && p[i].0.line == line && p[i].1 == style by {
                if i >= before.len() {
                    assert(p[i] == after[i - before.len()]);
                }
            }
            assert forall|i: int| 0 <= i < p.len() - 1 implies (#[trigger] p[i]).0.end_col <= p[i + 1].0.start_col by {
                if i >= before.len() {
                    assert(p[i] == after[i - before.len()]);
                    assert(p[i + 1] == after[i + 1 - before.len()]);
                } else {
                    assert(p[i + 1] == after[0]);
                }
            }
        }
    }
}

/// Pushes the parts of a white space range that no styled span covers.
pub fn push_unstyled_whitespace_spans(
    whitespace_spans: &mut Vec<(SingleLineSpan, Style)>,
    line: LineNumber,
    start_col: usize,
    end_col: usize,
    styled_spans: Option<&[SingleLineSpan]>,
    style: Style,
)
    ensures
        final(whitespace_spans)@ == old(whitespace_spans)@ + gap_pieces(
            line,
            start_col as u32,
            end_col as u32,
            style,
            match styled_spans {
                Some(s) => s@,
                None => Seq::empty(),
            },
        ),
{
    let mut unstyled_start = start_col as u32;
    let end = end_col as u32;
    let empty: Vec<SingleLineSpan> = Vec::new();
    let spans: &[SingleLineSpan] = match styled_spans {
        Some(s) => s,
        None => empty.as_slice(),
    };
    let ghost all = gap_pieces(line, unstyled_start, end, style, spans@);
    assert(all == gap_pieces(line, start_col as u32, end_col as u32, style, match styled_spans {
        Some(s) => s@,
        None => Seq::empty(),
    }));
    let mut k: usize = 0;
    assert(spans@.skip(0) =~= spans@);
    while k < spans.len()
        invariant_except_break
            k <= spans@.len(),
            all == gap_pieces(line, start_col as u32, end_col as u32, style, match styled_spans {
                Some(s) => s@,
                None => Seq::empty(),
            }),
            old(whitespace_spans)@ + all == whitespace_spans@ + gap_pieces(
                line,
                unstyled_start,
                end,
                style,
                spans@.skip(k as int),
            ),
        ensures
            old(whitespace_spans)@ + all == whitespace_spans@ + seq![
                (line_span(line, unstyled_start, end), style),
            ],
        decreases spans@.len() - k,
    {
        let styled_span = spans[k];
        let ghost rest = spans@.skip(k as int);
        let ghost old_spans = whitespace_spans@;
        let ghost us = unstyled_start;
        proof {
            assert(rest.drop_first() =~= spans@.skip(k + 1));
            assert(rest[0] == styled_span);
        }
        if styled_span.end_col <= unstyled_start {
            k = k + 1;
            continue;
        }
        if styled_span.start_col >= end {
            break;
        }
        if styled_span.start_col > unstyled_start {
            whitespace_spans.push(
                (SingleLineSpan { line, start_col: unstyled_start, end_col: styled_span.start_col }, style),
            );
        }
        if styled_span.end_col > unstyled_start {
            unstyled_start = styled_span.end_col;
        }
        k = k + 1;
        proof {
            let before = if styled_span.start_col > us {
                seq![(line_span(line, us, styled_span.start_col), style)]
            } else {
                Seq::<(SingleLineSpan, Style)>::empty()
            };
            let after = if unstyled_start >= end {
                Seq::<(SingleLineSpan, Style)>::empty()
            } else {
                gap_pieces(line, unstyled_start, end, style, rest.drop_first())
            };
            assert(gap_pieces(line, us, end, style, rest) == before + after);
            assert(whitespace_spans@ =~= old_spans + before);
            assert(old_spans + (before + after) =~= whitespace_spans@ + after);
        }
        if unstyled_start >= end {
            proof {
                assert(old(whitespace_spans)@ + all =~= whitespace_spans@);
            }
            return;
        }
    }
    whitespace_spans.push((SingleLineSpan { line, start_col: unstyled_start, end_col: end }, style));
    assert(old(whitespace_spans)@ + all =~= whitespace_spans@);
}

pub proof fn lemma_insert_pos_marks<'a>(s: Seq<&'a MatchedPos>, x: &'a MatchedPos)
    ensures
        insert_pos(marks_of(s), mark(*x)) == insert_pos(s, x),
    decreases s.len(),
{
    if s.len() > 0 {
        lemma_insert_pos_marks(s.drop_last(), x);
        assert(marks_of(s).drop_last() =~= marks_of(s.drop_last()));
    }
}

/// Sorting positions and taking their marks commute.
pub proof fn lemma_sorted_marks<'a>(s: Seq<&'a MatchedPos>)
    ensures
        marks_of(sorted_by_span(s)) == sorted_by_span(marks_of(s)),
    decreases s.len(),
{
    if s.len() > 0 {
        lemma_sorted_marks(s.drop_last());
        let t = sorted_by_span(s.drop_last());
        lemma_insert_pos_marks(t, s.last());
        lemma_insert_pos_le(t, s.last());
        assert(marks_of(s).drop_last() =~= marks_of(s.drop_last()));
        let p = insert_pos(t, s.last()) as int;
        assert(marks_of(t.insert(p, s.last())) =~= marks_of(t).insert(p, mark(*s.last())));
    }
}

/// The marks of the positions on `line`, in order.
pub open spec fn marks_on(ms: Seq<MatchedPos>, line: LineNumber) -> Seq<(SingleLineSpan, bool)>
    decreases ms.len(),
{
    if ms.len() == 0 {
        Seq::empty()
    } else if ms.last().pos.line == line {
        marks_on(ms.drop_last(), line).push(mark(ms.last()))
    } else {
        marks_on(ms.drop_last(), line)
    }
}

/// The positions on `line`, in order.
pub fn positions_on<'a>(mps: &'a [MatchedPos], line: LineNumber) -> (r: Vec<&'a MatchedPos>)
    ensures
        marks_of(r@) == marks_on(mps@, line),
{
    let mut r: Vec<&'a MatchedPos> = Vec::new();
    let mut i: usize = 0;
    proof {
        assert(marks_of(r@) =~= Seq::<(SingleLineSpan, bool)>::empty());
        assert(mps@.take(0) =~= Seq::<MatchedPos>::empty());
    }
    while i < mps.len()
        invariant
            i <= mps@.len(),
            marks_of(r@) == marks_on(mps@.take(i as int), line),
        decreases mps@.len() - i,
    {
        let mp = &mps[i];
        proof {
            assert(mps@.take(i + 1).drop_last() =~= mps@.take(i as int));
            assert(mps@.take(i + 1).last() == mps@[i as int]);
        }
        if mp.pos.line == line {
            let ghost old_r = r@;
            r.push(mp);
            assert(marks_of(r@) =~= marks_of(old_r).push(mark(*mp)));
        }
        i = i + 1;
    }
    assert(mps@.take(i as int) =~= mps@);
    r
}

/// The spans of the styled spans on `line`, in order.
pub open spec fn spans_on(ss: Seq<(SingleLineSpan, Style)>, line: LineNumber) -> Seq<SingleLineSpan>
    decreases ss.len(),
{
    if ss.len() == 0 {
        Seq::empty()
    } else if ss.last().0.line == line {
        spans_on(ss.drop_last(), line).push(ss.last().0)
    } else {
        spans_on(ss.drop_last(), line)
    }
}

/// The spans of the styled spans on `line`, in order.
pub fn styled_spans_on(styled_spans: &[(SingleLineSpan, Style)], line: LineNumber) -> (r: Vec<SingleLineSpan>)
    ensures
        r@ == spans_on(styled_spans@, line),
{
    let mut r: Vec<SingleLineSpan> = Vec::new();
    let mut i: usize = 0;
    proof {
        assert(styled_spans@.take(0) =~= Seq::<(SingleLineSpan, Style)>::empty());
    }
    while i < styled_spans.len()
        invariant
            i <= styled_spans@.len(),
            r@ == spans_on(styled_spans@.take(i as int), line),
        decreases styled_spans@.len() - i,
    {
        let (span, _) = styled_spans[i];
        proof {
            assert(styled_spans@.take(i + 1).drop_last() =~= styled_spans@.take(i as int));
            assert(styled_spans@.take(i + 1).last() == styled_spans@[i as int]);
        }
        if span.line == line {
            r.push(span);
        }
        i = i + 1;
    }
    assert(styled_spans@.take(i as int) =~= styled_spans@);
    r
}

/// The smallest span holding both `r` and `p`, on the line of `r`.
pub open spec fn hull(r: SingleLineSpan, p: SingleLineSpan) -> SingleLineSpan {
    SingleLineSpan {
        line: r.line,
        start_col: min_u32(r.start_col, p.start_col),
        end_col: max_u32(r.end_col, p.end_col),
    }
}

/// Index of the region of `line`, the last one on it.
pub open spec fn region_index(rs: Seq<SingleLineSpan>, line: LineNumber) -> Option<nat>
    decreases rs.len(),
{
    if rs.len() == 0 {
        None
    } else if rs.last().line == line {
        Some((rs.len() - 1) as nat)
    } else {
        region_index(rs.drop_last(), line)
    }
}

pub proof fn lemma_region_index(rs: Seq<SingleLineSpan>, line: LineNumber)
    ensures
        region_index(rs, line) matches Some(k) ==> k < rs.len() && rs[k as int].line == line,
    decreases rs.len(),
{
    if rs.len() > 0 {
        lemma_region_index(rs.drop_last(), line);
    }
}

/// The changed region of each line with changed positions: the smallest
/// span holding all of them, in the order in which the lines first come.
pub open spec fn changed_regions_of(ms: Seq<MatchedPos>) -> Seq<SingleLineSpan>
    decreases ms.len(),
{
    if ms.len() == 0 {
        Seq::empty()
    } else {
        let r = changed_regions_of(ms.drop_last());
        let mp = ms.last();
        if !kind_is_novel(mp.kind) {
            r
        } else {
            match region_index(r, mp.pos.line) {
                Some(k) => r.update(k as int, hull(r[k as int], mp.pos)),
                None => r.push(mp.pos),
            }
        }
    }
}

fn find_region(regions: &Vec<SingleLineSpan>, line: LineNumber) -> (k: Option<usize>)
    ensures
        match k {
            Some(i) => region_index(regions@, line) == Some(i as nat),
            None => region_index(regions@, line) is None,
        },
{
    let mut i = regions.len();
    assert(regions@.take(i as int) =~= regions@);
    while i > 0
        invariant
            i <= regions@.len(),
            region_index(regions@, line) == region_index(regions@.take(i as int), line),
        decreases i,
    {
        proof {
            assert(regions@.take(i as int).drop_last() =~= regions@.take(i - 1));
        }
        if regions[i - 1].line == line {
            return Some(i - 1);
        }
        i = i - 1;
    }
    None
}

/// The changed region of each line, in the order in which the lines
/// first hold a changed position.
pub fn changed_regions(mps: &[MatchedPos]) -> (regions: Vec<SingleLineSpan>)
    ensures
        regions@ == changed_regions_of(mps@),
{
    let mut regions: Vec<SingleLineSpan> = Vec::new();
    let mut i: usize = 0;
    proof {
        assert(mps@.take(0) =~= Seq::<MatchedPos>::empty());
    }
    while i < mps.len()
        invariant
            i <= mps@.len(),
            regions@ == changed_regions_of(mps@.take(i as int)),
        decreases mps@.len() - i,
    {
        let mp = &mps[i];
        proof {
            assert(mps@.take(i + 1).drop_last() =~= mps@.take(i as int));
            assert(mps@.take(i + 1).last() == mps@[i as int]);
        }
        if mp.kind.is_novel() {
            match find_region(&regions, mp.pos.line) {
                Some(k) => {
                    proof {
                        lemma_region_index(regions@, mp.pos.line);
                    }
                    let region = regions[k];
                    let start_col = if region.start_col <= mp.pos.start_col {
                        region.start_col
                    } else {
                        mp.pos.start_col
                    };
                    let end_col = if region.end_col >= mp.pos.end_col {
                        region.end_col
                    } else {
                        mp.pos.end_col
                    };
                    regions.set(k, SingleLineSpan { line: region.line, start_col, end_col });
                },
                None => {
                    regions.push(mp.pos);
                },
            }
        }
        i = i + 1;
    }
    assert(mps@.take(i as int) =~= mps@);
    regions
}

/// Records a white space range of `line` unless it lies inside an
/// unchanged region of the line's positions.
pub fn push_whitespace_range_between_changes(
    whitespace_ranges_by_line: &mut LineGroups<SingleLineSpan>,
    line_mps: Option<&[&MatchedPos]>,
    line: &str,
    line_num: LineNumber,
    start_col: usize,
    end_col: usize,
)
    ensures
        final(whitespace_ranges_by_line).groups() == if inside_unchanged(
            line@,
            start_col as u32,
            end_col as u32,
            match line_mps {
                Some(ms) => marks_of(ms@),
                None => Seq::empty(),
            },
        ) {
            old(whitespace_ranges_by_line).groups()
        } else {
            group_push(
                old(whitespace_ranges_by_line).groups(),
                line_num,
                line_span(line_num, start_col as u32, end_col as u32),
            )
        },
{
    if whitespace_is_inside_unchanged_region(line, start_col as u32, end_col as u32, line_mps) {
        return;
    }
    whitespace_ranges_by_line.push(
        line_num,
        SingleLineSpan { line: line_num, start_col: start_col as u32, end_col: end_col as u32 },
    );
}

/// The white space runs completed among the first `k` characters of `cs`
/// (as byte ranges), and where an unfinished run starts.
pub open spec fn run_state(cs: Seq<char>, k: nat) -> (Seq<(nat, nat)>, Option<nat>)
    decreases k,
{
    if k == 0 || k > cs.len() {
        (Seq::empty(), None)
    } else {
        let prev = run_state(cs, (k - 1) as nat);
        let c = cs[k - 1];
        let off = byte_at(cs, k - 1);
        if is_white_space(c) {
            (prev.0, if prev.1 is Some { prev.1 } else { Some(off) })
        } else {
            match prev.1 {
                Some(st) => (prev.0.push((st, off)), None),
                None => (prev.0, None),
            }
        }
    }
}

/// The maximal runs of white space in `cs`, as byte ranges.
pub open spec fn white_runs(cs: Seq<char>) -> Seq<(nat, nat)> {
    let st = run_state(cs, cs.len());
    match st.1 {
        Some(a) => st.0.push((a, blen(cs))),
        None => st.0,
    }
}

/// The runs, placed at `region_start` on `line`, that do not lie inside an
/// unchanged region.
pub open spec fn kept_ranges(
    line: Seq<char>,
    line_num: LineNumber,
    region_start: nat,
    runs: Seq<(nat, nat)>,
    marks: Seq<(SingleLineSpan, bool)>,
) -> Seq<SingleLineSpan>
    decreases runs.len(),
{
    if runs.len() == 0 {
        Seq::empty()
    } else {
        let r = kept_ranges(line, line_num, region_start, runs.drop_last(), marks);
        let st = (region_start + runs.last().0) as u32;
        let en = (region_start + runs.last().1) as u32;
        if inside_unchanged(line, st, en, marks) {
            r
        } else {
            r.push(line_span(line_num, st, en))
        }
    }
}

/// The groups after each of `xs` is added to the group of `line`.
pub open spec fn push_all(
    gs: Seq<(LineNumber, Seq<SingleLineSpan>)>,
    line: LineNumber,
    xs: Seq<SingleLineSpan>,
) -> Seq<(LineNumber, Seq<SingleLineSpan>)>
    decreases xs.len(),
{
    if xs.len() == 0 {
        gs
    } else {
        group_push(push_all(gs, line, xs.drop_last()), line, xs.last())
    }
}

pub proof fn lemma_run_state_bound(cs: Seq<char>, k: nat)
    requires
        k <= cs.len(),
    ensures
        run_state(cs, k).1 matches Some(a) ==> a < byte_at(cs, k as int),
    decreases k,
{
    if k > 0 {
        lemma_run_state_bound(cs, (k - 1) as nat);
        lemma_byte_at_step(cs, k - 1);
        crate::text::lemma_clen_range(cs[k - 1]);
    }
}

pub proof fn lemma_kept_push(
    gs: Seq<(LineNumber, Seq<SingleLineSpan>)>,
    line: Seq<char>,
    line_num: LineNumber,
    region_start: nat,
    runs: Seq<(nat, nat)>,
    x: (nat, nat),
    marks: Seq<(SingleLineSpan, bool)>,
)
    ensures
        ({
            let st = (region_start + x.0) as u32;
            let en = (region_start + x.1) as u32;
            let before = push_all(gs, line_num, kept_ranges(line, line_num, region_start, runs, marks));
            push_all(gs, line_num, kept_ranges(line, line_num, region_start, runs.push(x), marks)) == if inside_unchanged(line, st, en, marks) {
                before
            } else {
                group_push(before, line_num, line_span(line_num, st, en))
            }
        }),
{
    assert(runs.push(x).drop_last() =~= runs);
    let kept = kept_ranges(line, line_num, region_start, runs, marks);
    let st = (region_start + x.0) as u32;
    let en = (region_start + x.1) as u32;
    assert(kept.push(line_span(line_num, st, en)).drop_last() =~= kept);
}

/// Records the white space runs of the changed region of `line` between
/// `region_start` and `region_end` that do not lie inside an unchanged
/// region.
pub fn push_region_whitespace(
    whitespace_ranges_by_line: &mut LineGroups<SingleLineSpan>,
    line_mps: &[&MatchedPos],
    line: &str,
    line_num: LineNumber,
    region_start: usize,
    region_end: usize,
)
    requires
        region_start < region_end <= blen(line@),
        region_end <= u32::MAX,
        is_char_boundary(encode_utf8(line@), region_start as int),
        is_char_boundary(encode_utf8(line@), region_end as int),
    ensures
        final(whitespace_ranges_by_line).groups() == push_all(
            old(whitespace_ranges_by_line).groups(),
            line_num,
            kept_ranges(
                line@,
                line_num,
                region_start as nat,
                white_runs(cols_text(line@, region_start as int, region_end as int)),
                marks_of(line_mps@),
            ),
        ),
{
    let region = substring_by_byte(line, region_start, region_end);
    let ghost cs = region@;
    let ghost marks = marks_of(line_mps@);
    let ghost gs0 = old(whitespace_ranges_by_line).groups();
    proof {
        crate::text::lemma_blen_ge_len(cs);
        lemma_byte_at_end(cs);
        vstd::utf8::encode_utf8_decode_utf8(cs);
        assert(cs.take(0) =~= Seq::<char>::empty());
    }
    let chars = crate::text::char_vec(region);
    let mut whitespace_start: Option<usize> = None;
    let mut offset: usize = 0;
    let mut k: usize = 0;
    while k < chars.len()
        invariant
            chars@ == cs,
            k <= cs.len(),
            cs == cols_text(line@, region_start as int, region_end as int),
            blen(cs) == region_end - region_start,
            byte_at(cs, cs.len() as int) == blen(cs),
            region_start < region_end <= u32::MAX,
            marks == marks_of(line_mps@),
            offset == byte_at(cs, k as int),
            whitespace_start == match run_state(cs, k as nat).1 {
                Some(a) => Some(a as usize),
                None => None::<usize>,
            },
            whitespace_ranges_by_line.groups() == push_all(
                gs0,
                line_num,
                kept_ranges(line@, line_num, region_start as nat, run_state(cs, k as nat).0, marks),
            ),
        decreases cs.len() - k,
    {
        let ch = chars[k];
        proof {
            lemma_byte_at_step(cs, k as int);
            lemma_byte_at_mono(cs, k + 1, cs.len() as int);
            lemma_run_state_bound(cs, k as nat);
        }
        let n = len_utf8(ch);
        if char_is_whitespace(ch) {
            if whitespace_start.is_none() {
                whitespace_start = Some(offset);
            }
        } else {
            if let Some(start) = whitespace_start {
                let ghost runs = run_state(cs, k as nat).0;
                proof {
                    lemma_kept_push(gs0, line@, line_num, region_start as nat, runs, (start as nat, offset as nat), marks);
                }
                push_whitespace_range_between_changes(
                    whitespace_ranges_by_line,
                    Some(line_mps),
                    line,
                    line_num,
                    region_start + start,
                    region_start + offset,
                );
                whitespace_start = None;
            }
        }
        offset = offset + n;
        k = k + 1;
    }
    proof {
        lemma_run_state_bound(cs, cs.len());
    }
    if let Some(start) = whitespace_start {
        let ghost runs = run_state(cs, cs.len()).0;
        proof {
            lemma_kept_push(gs0, line@, line_num, region_start as nat, runs, (start as nat, blen(cs)), marks);
        }
        push_whitespace_range_between_changes(
            whitespace_ranges_by_line,
            Some(line_mps),
            line,
            line_num,
            region_start + start,
            region_end,
        );
    }
}

/// The white space ranges kept for the changed region `region` of the
/// lines `lines`; none where the region is empty, lies past its line's end
/// or cannot be cut out of it.
pub open spec fn region_ranges(lines: Seq<Seq<char>>, region: SingleLineSpan, ms: Seq<MatchedPos>) -> Seq<SingleLineSpan> {
    let l = region.line.0 as int;
    if l < lines.len() && region.start_col < region.end_col && region.end_col <= blen(lines[l])
        && span_ok(lines[l], region) {
        kept_ranges(
            lines[l],
            region.line,
            region.start_col as nat,
            white_runs(cols_text(lines[l], region.start_col as int, region.end_col as int)),
            sorted_by_span(marks_on(ms, region.line)),
        )
    } else {
        Seq::empty()
    }
}

/// The white space ranges of the changed regions, grouped by line.
pub open spec fn whitespace_groups(lines: Seq<Seq<char>>, regions: Seq<SingleLineSpan>, ms: Seq<MatchedPos>) -> Seq<
    (LineNumber, Seq<SingleLineSpan>),
>
    decreases regions.len(),
{
    if regions.len() == 0 {
        Seq::empty()
    } else {
        push_all(
            whitespace_groups(lines, regions.drop_last(), ms),
            regions.last().line,
            region_ranges(lines, regions.last(), ms),
        )
    }
}

/// The styled spans, each cut where it crosses white space of its line.
pub open spec fn styled_with_ws(
    styled: Seq<(SingleLineSpan, Style)>,
    groups: Seq<(LineNumber, Seq<SingleLineSpan>)>,
    side: Side,
    background: BackgroundColor,
    rgb_added: Option<RgbColor>,
    rgb_removed: Option<RgbColor>,
) -> Seq<(SingleLineSpan, Style)>
    decreases styled.len(),
{
    if styled.len() == 0 {
        Seq::empty()
    } else {
        let (span, style) = styled.last();
        styled_with_ws(styled.drop_last(), groups, side, background, rgb_added, rgb_removed)
            + span_with_ws(
            span,
            style,
            novel_style_of(style, side, background, true, rgb_added, rgb_removed),
            group_of(groups, span.line),
        )
    }
}

/// The uncovered parts of white space ranges on `line`.
pub open spec fn range_gaps(line: LineNumber, rs: Seq<SingleLineSpan>, spans: Seq<SingleLineSpan>, style: Style) -> Seq<
    (SingleLineSpan, Style),
>
    decreases rs.len(),
{
    if rs.len() == 0 {
        Seq::empty()
    } else {
        range_gaps(line, rs.drop_last(), spans, style) + gap_pieces(
            line,
            rs.last().start_col,
            rs.last().end_col,
            style,
            spans,
        )
    }
}

/// The uncovered parts of the white space of each group's line.
pub open spec fn unstyled_ws(
    groups: Seq<(LineNumber, Seq<SingleLineSpan>)>,
    styled: Seq<(SingleLineSpan, Style)>,
    style: Style,
) -> Seq<(SingleLineSpan, Style)>
    decreases groups.len(),
{
    if groups.len() == 0 {
        Seq::empty()
    } else {
        let (line, rs) = groups.last();
        unstyled_ws(groups.drop_last(), styled, style) + range_gaps(
            line,
            rs,
            sorted_by_span(spans_on(styled, line)),
            style,
        )
    }
}

/// The styled spans with backgrounds on the white space inside changed
/// regions: first the styled spans, cut at white space, then the white
/// space that no styled span covers.
pub open spec fn whitespace_backgrounds(
    src: Seq<char>,
    side: Side,
    background: BackgroundColor,
    ms: Seq<MatchedPos>,
    styled: Seq<(SingleLineSpan, Style)>,
    rgb_added: Option<RgbColor>,
    rgb_removed: Option<RgbColor>,
) -> Seq<(SingleLineSpan, Style)> {
    let groups = whitespace_groups(text_lines(src), changed_regions_of(ms), ms);
    styled_with_ws(styled, groups, side, background, rgb_added, rgb_removed) + unstyled_ws(
        groups,
        styled,
        novel_style_of(plain_style(), side, background, true, rgb_added, rgb_removed),
    )
}

/// Cuts the styled spans of `src` where they cross white space inside a
/// changed region of their line, giving that white space the background
/// of changed content, and adds the white space of those regions that no
/// styled span covers. White space between two unchanged positions stays
/// as it is, and so does a region whose ends do not lie on character
/// boundaries of its line, which cannot be cut out of it.
pub fn apply_whitespace_background_in_changed_regions(
    src: &str,
    side: Side,
    background: BackgroundColor,
    mps: &[MatchedPos],
    styled_spans: &[(SingleLineSpan, Style)],
    rgb_added: Option<RgbColor>,
    rgb_removed: Option<RgbColor>,
) -> (res: Vec<(SingleLineSpan, Style)>)
    ensures
        res@ == whitespace_backgrounds(src@, side, background, mps@, styled_spans@, rgb_added, rgb_removed),
{
    let src_lines = split_on_newlines(src);
    let ghost lines = text_lines(src@);
    let regions = changed_regions(mps);
    proof {
        assert(regions@.take(0) =~= Seq::<SingleLineSpan>::empty());
    }
    let mut whitespace_ranges_by_line: LineGroups<SingleLineSpan> = LineGroups::new();
    let mut r: usize = 0;
    while r < regions.len()
        invariant
            r <= regions@.len(),
            regions@ == changed_regions_of(mps@),
            lines == text_lines(src@),
            src_lines@.len() == lines.len(),
            forall|k: int| 0 <= k < src_lines@.len() ==> (#[trigger] src_lines@[k])@ == lines[k],
            whitespace_ranges_by_line.groups() == whitespace_groups(lines, regions@.take(r as int), mps@),
        decreases regions@.len() - r,
    {
        let changed_region = regions[r];
        let line_num = changed_region.line;
        proof {
            assert(regions@.take(r + 1).drop_last() =~= regions@.take(r as int));
            assert(regions@.take(r + 1).last() == changed_region);
            assert(push_all(whitespace_ranges_by_line.groups(), line_num, Seq::<SingleLineSpan>::empty())
                == whitespace_ranges_by_line.groups());
        }
        let idx = line_num.as_usize();
        if idx < src_lines.len() {
            let line = src_lines[idx];
            let region_start = changed_region.start_col as usize;
            let region_end = changed_region.end_col as usize;
            if region_start < region_end && region_end <= byte_len(line) && line.is_char_boundary(
                region_start,
            ) && line.is_char_boundary(region_end) {
                let unsorted = positions_on(mps, line_num);
                let line_mps = sort_by_span(&unsorted);
                proof {
                    lemma_sorted_marks(unsorted@);
                    assert(span_ok(lines[idx as int], regions@[r as int]));
                }
                push_region_whitespace(
                    &mut whitespace_ranges_by_line,
                    line_mps.as_slice(),
                    line,
                    line_num,
                    region_start,
                    region_end,
                );
            }
        }
        r = r + 1;
    }
    proof {
        assert(regions@.take(r as int) =~= regions@);
    }
    let ghost groups = whitespace_ranges_by_line.groups();
    let whitespace_style = novel_style(Style::new(), side, background, true, rgb_added, rgb_removed);
    let mut styled_spans_with_whitespace: Vec<(SingleLineSpan, Style)> = Vec::new();
    let mut i: usize = 0;
    proof {
        assert(styled_spans@.take(0) =~= Seq::<(SingleLineSpan, Style)>::empty());
    }
    while i < styled_spans.len()
        invariant
            i <= styled_spans@.len(),
            whitespace_ranges_by_line.groups() == groups,
            styled_spans_with_whitespace@ == styled_with_ws(
                styled_spans@.take(i as int),
                groups,
                side,
                background,
                rgb_added,
                rgb_removed,
            ),
        decreases styled_spans@.len() - i,
    {
        let (span, style) = styled_spans[i];
        proof {
            assert(styled_spans@.take(i + 1).drop_last() =~= styled_spans@.take(i as int));
            assert(styled_spans@.take(i + 1).last() == styled_spans@[i as int]);
        }
        let ranges = match whitespace_ranges_by_line.get(span.line) {
            Some(v) => Some(v.as_slice()),
            None => None,
        };
        push_span_with_whitespace_background(
            &mut styled_spans_with_whitespace,
            span,
            style,
            ranges,
            side,
            background,
            rgb_added,
            rgb_removed,
        );
        i = i + 1;
    }
    proof {
        assert(styled_spans@.take(i as int) =~= styled_spans@);
    }
    let ghost first_part = styled_spans_with_whitespace@;
    let mut g: usize = 0;
    proof {
        assert(groups.take(0) =~= Seq::<(LineNumber, Seq<SingleLineSpan>)>::empty());
        assert(first_part + Seq::<(SingleLineSpan, Style)>::empty() =~= first_part);
    }
    while g < whitespace_ranges_by_line.entries.len()
        invariant
            g <= groups.len(),
            whitespace_ranges_by_line.groups() == groups,
            whitespace_style == novel_style_of(plain_style(), side, background, true, rgb_added, rgb_removed),
            styled_spans_with_whitespace@ == first_part + unstyled_ws(groups.take(g as int), styled_spans@, whitespace_style),
        decreases groups.len() - g,
    {
        let line_num = whitespace_ranges_by_line.entries[g].0;
        let whitespace_ranges = &whitespace_ranges_by_line.entries[g].1;
        let unsorted = styled_spans_on(styled_spans, line_num);
        let line_styled = sort_by_span(&unsorted);
        let ghost before = styled_spans_with_whitespace@;
        proof {
            assert(groups.take(g + 1).drop_last() =~= groups.take(g as int));
            assert(groups[g as int] == (line_num, whitespace_ranges@));
            assert(whitespace_ranges@.take(0) =~= Seq::<SingleLineSpan>::empty());
            assert(before + Seq::<(SingleLineSpan, Style)>::empty() =~= before);
        }
        let mut k: usize = 0;
        while k < whitespace_ranges.len()
            invariant
                k <= whitespace_ranges@.len(),
                line_styled@ == sorted_by_span(spans_on(styled_spans@, line_num)),
                styled_spans_with_whitespace@ == before + range_gaps(
                    line_num,
                    whitespace_ranges@.take(k as int),
                    line_styled@,
                    whitespace_style,
                ),
            decreases whitespace_ranges@.len() - k,
        {
            let whitespace_range = whitespace_ranges[k];
            proof {
                assert(whitespace_ranges@.take(k + 1).drop_last() =~= whitespace_ranges@.take(k as int));
                assert(whitespace_ranges@.take(k + 1).last() == whitespace_range);
            }
            let ghost mid = styled_spans_with_whitespace@;
            push_unstyled_whitespace_spans(
                &mut styled_spans_with_whitespace,
                line_num,
                whitespace_range.start_col as usize,
                whitespace_range.end_col as usize,
                Some(line_styled.as_slice()),
                whitespace_style,
            );
            proof {
                assert(styled_spans_with_whitespace@ =~= before + range_gaps(
                    line_num,
                    whitespace_ranges@.take(k + 1),
                    line_styled@,
                    whitespace_style,
                ));
            }
            k = k + 1;
        }
        proof {
            assert(whitespace_ranges@.take(k as int) =~= whitespace_ranges@);
            assert(styled_spans_with_whitespace@ =~= first_part + unstyled_ws(groups.take(g + 1), styled_spans@, whitespace_style));
        }
        g = g + 1;
    }
    proof {
        assert(groups.take(g as int) =~= groups);
    }
    styled_spans_with_whitespace
}

/// The entries of `s` on `line`, in order.
pub open spec fn on_line(s: Seq<(SingleLineSpan, Style)>, line: LineNumber) -> Seq<(SingleLineSpan, Style)>
    decreases s.len(),
{
    if s.len() == 0 {
        Seq::empty()
    } else {
        let r = on_line(s.drop_last(), line);
        if s.last().0.line == line {
            r.push(s.last())
        } else {
            r
        }
    }
}

proof fn lemma_on_line_concat(a: Seq<(SingleLineSpan, Style)>, b: Seq<(SingleLineSpan, Style)>, line: LineNumber)
    ensures
        on_line(a + b, line) == on_line(a, line) + on_line(b, line),
    decreases b.len(),
{
    if b.len() == 0 {
        assert(a + b =~= a);
        assert(on_line(a, line) + Seq::empty() =~= on_line(a, line));
    } else {
        lemma_on_line_concat(a, b.drop_last(), line);
        assert((a + b).drop_last() =~= a + b.drop_last());
        assert((a + b).last() == b.last());
        if b.last().0.line == line {
            assert(on_line(a, line) + on_line(b.drop_last(), line).push(b.last()) =~= (on_line(a, line) + on_line(
                b.drop_last(),
                line,
            )).push(b.last()));
        }
    }
}

proof fn lemma_on_line_none(s: Seq<(SingleLineSpan, Style)>, line: LineNumber)
    requires
        forall|k: int| 0 <= k < s.len() ==> (#[trigger] s[k]).0.line != line,
    ensures
        on_line(s, line) == Seq::<(SingleLineSpan, Style)>::empty(),
    decreases s.len(),
{
    if s.len() > 0 {
        let d = s.drop_last();
        assert forall|k: int| 0 <= k < d.len() implies (#[trigger] d[k]).0.line != line by {
            assert(d[k] == s[k]);
        }
        lemma_on_line_none(d, line);
        assert(s.last() == s[s.len() - 1]);
    }
}

/// A line without changed positions has no changed region.
proof fn lemma_regions_off_line(ms: Seq<MatchedPos>, line: LineNumber)
    requires
        forall|i: int| 0 <= i < ms.len() && (#[trigger] ms[i]).pos.line == line ==> !kind_is_novel(ms[i].kind),
    ensures
        forall|k: int| 0 <= k < changed_regions_of(ms).len() ==> (#[trigger] changed_regions_of(ms)[k]).line != line,
    decreases ms.len(),
{
    if ms.len() > 0 {
        let d = ms.drop_last();
        assert forall|i: int| 0 <= i < d.len() && (#[trigger] d[i]).pos.line == line implies !kind_is_novel(d[i].kind) by {
            assert(d[i] == ms[i]);
        }
        lemma_regions_off_line(d, line);
        let r = changed_regions_of(d);
        let mp = ms.last();
        assert(mp == ms[ms.len() - 1]);
        lemma_region_index(r, mp.pos.line);
        let r2 = changed_regions_of(ms);
        assert forall|k: int| 0 <= k < r2.len() implies (#[trigger] r2[k]).line != line by {
            if kind_is_novel(mp.kind) {
                match region_index(r, mp.pos.line) {
                    Some(j) => {
                        if k != j {
                            assert(r2[k] == r[k]);
                        }
                    },
                    None => {
                        if k < r.len() {
                            assert(r2[k] == r[k]);
                        }
                    },
                }
            }
        }
    }
}

proof fn lemma_push_all_off_line(
    gs: Seq<(LineNumber, Seq<SingleLineSpan>)>,
    line: LineNumber,
    xs: Seq<SingleLineSpan>,
    l: LineNumber,
)
    requires
        line != l,
    ensures
        group_of(push_all(gs, line, xs), l) == group_of(gs, l),
    decreases xs.len(),
{
    if xs.len() > 0 {
        lemma_push_all_off_line(gs, line, xs.drop_last(), l);
        lemma_group_of_push(push_all(gs, line, xs.drop_last()), line, xs.last(), l);
    }
}

/// The white space groups have no group for a line that has no region.
proof fn lemma_groups_off_line(lines: Seq<Seq<char>>, regions: Seq<SingleLineSpan>, ms: Seq<MatchedPos>, l: LineNumber)
    requires
        forall|k: int| 0 <= k < regions.len() ==> (#[trigger] regions[k]).line != l,
    ensures
        group_of(whitespace_groups(lines, regions, ms), l) is None,
    decreases regions.len(),
{
    if regions.len() > 0 {
        let d = regions.drop_last();
        assert forall|k: int| 0 <= k < d.len() implies (#[trigger] d[k]).line != l by {
            assert(d[k] == regions[k]);
        }
        lemma_groups_off_line(lines, d, ms, l);
        assert(regions.last() == regions[regions.len() - 1]);
        lemma_push_all_off_line(whitespace_groups(lines, d, ms), regions.last().line, region_ranges(lines, regions.last(), ms), l);
    } else {
        assert(group_index(Seq::<(LineNumber, Seq<SingleLineSpan>)>::empty(), l) is None);
    }
}

proof fn lemma_styled_with_ws_on_line(
    styled: Seq<(SingleLineSpan, Style)>,
    groups: Seq<(LineNumber, Seq<SingleLineSpan>)>,
    side: Side,
    background: BackgroundColor,
    rgb_added: Option<RgbColor>,
    rgb_removed: Option<RgbColor>,
    l: LineNumber,
)
    requires
        group_of(groups, l) is None,
    ensures
        on_line(styled_with_ws(styled, groups, side, background, rgb_added, rgb_removed), l) == on_line(styled, l),
    decreases styled.len(),
{
    if styled.len() > 0 {
        let (span, style) = styled.last();
        let a = styled_with_ws(styled.drop_last(), groups, side, background, rgb_added, rgb_removed);
        let ws = novel_style_of(style, side, background, true, rgb_added, rgb_removed);
        let p = span_with_ws(span, style, ws, group_of(groups, span.line));
        lemma_styled_with_ws_on_line(styled.drop_last(), groups, side, background, rgb_added, rgb_removed, l);
        lemma_on_line_concat(a, p, l);
        lemma_span_with_ws_tiles(span, style, ws, group_of(groups, span.line));
        if span.line == l {
            assert(p == seq![(span, style)]);
            assert(p.drop_last() =~= Seq::<(SingleLineSpan, Style)>::empty());
            assert(p.last() == (span, style));
            assert(on_line(p.drop_last(), l) == Seq::<(SingleLineSpan, Style)>::empty());
            assert(on_line(p, l) =~= seq![(span, style)]);
            assert(on_line(styled.drop_last(), l) + seq![(span, style)] =~= on_line(styled.drop_last(), l).push(
                (span, style),
            ));
        } else {
            lemma_on_line_none(p, l);
            assert(on_line(styled.drop_last(), l) + Seq::empty() =~= on_line(styled.drop_last(), l));
        }
    }
}

proof fn lemma_gap_pieces_line(line: LineNumber, u: u32, end: u32, style: Style, spans: Seq<SingleLineSpan>)
    ensures
        forall|i: int|
            0 <= i < gap_pieces(line, u, end, style, spans).len() ==> (#[trigger] gap_pieces(
                line,
                u,
                end,
                style,
                spans,
            )[i]).0.line == line,
    decreases spans.len(),
{
    let g = gap_pieces(line, u, end, style, spans);
    if spans.len() == 0 {
        assert(g == seq![(line_span(line, u, end), style)]);
    } else {
        let sp = spans[0];
        if sp.end_col <= u {
            lemma_gap_pieces_line(line, u, end, style, spans.drop_first());
            assert(g == gap_pieces(line, u, end, style, spans.drop_first()));
        } else if sp.start_col >= end {
            assert(g == seq![(line_span(line, u, end), style)]);
        } else {
            let next = max_u32(u, sp.end_col);
            lemma_gap_pieces_line(line, next, end, style, spans.drop_first());
            let before = if sp.start_col > u {
                seq![(line_span(line, u, sp.start_col), style)]
            } else {
                Seq::empty()
            };
            let after = if next >= end {
                Seq::empty()
            } else {
                gap_pieces(line, next, end, style, spans.drop_first())
            };
            assert(g == before + after);
            assert forall|i: int| 0 <= i < g.len() implies (#[trigger] g[i]).0.line == line by {
                if i >= before.len() {
                    assert(g[i] == after[i - before.len()]);
                } else {
                    assert(g[i] == before[i]);
                }
            }
        }
    }
}

proof fn lemma_range_gaps_line(line: LineNumber, rs: Seq<SingleLineSpan>, spans: Seq<SingleLineSpan>, style: Style, l: LineNumber)
    requires
        line != l,
    ensures
        on_line(range_gaps(line, rs, spans, style), l) == Seq::<(SingleLineSpan, Style)>::empty(),
    decreases rs.len(),
{
    if rs.len() > 0 {
        lemma_range_gaps_line(line, rs.drop_last(), spans, style, l);
        let g = gap_pieces(line, rs.last().start_col, rs.last().end_col, style, spans);
        lemma_gap_pieces_line(line, rs.last().start_col, rs.last().end_col, style, spans);
        lemma_on_line_none(g, l);
        lemma_on_line_concat(range_gaps(line, rs.drop_last(), spans, style), g, l);
        assert(Seq::<(SingleLineSpan, Style)>::empty() + Seq::<(SingleLineSpan, Style)>::empty() =~= Seq::<
            (SingleLineSpan, Style),
        >::empty());
    }
}

proof fn lemma_unstyled_ws_off_line(
    groups: Seq<(LineNumber, Seq<SingleLineSpan>)>,
    styled: Seq<(SingleLineSpan, Style)>,
    style: Style,
    l: LineNumber,
)
    requires
        group_of(groups, l) is None,
    ensures
        on_line(unstyled_ws(groups, styled, style), l) == Seq::<(SingleLineSpan, Style)>::empty(),
    decreases groups.len(),
{
    if groups.len() > 0 {
        lemma_group_index_bounds(groups, l);
        let (line, rs) = groups.last();
        assert(groups.last() == groups[groups.len() - 1]);
        assert(line != l);
        let d = groups.drop_last();
        lemma_group_index_bounds(d, l);
        if group_index(d, l) is Some {
            let k = group_index(d, l).unwrap();
            assert(groups[k as int] == d[k as int]);
        }
        lemma_unstyled_ws_off_line(d, styled, style, l);
        let g = range_gaps(line, rs, sorted_by_span(spans_on(styled, line)), style);
        lemma_range_gaps_line(line, rs, sorted_by_span(spans_on(styled, line)), style, l);
        lemma_on_line_concat(unstyled_ws(d, styled, style), g, l);
        assert(Seq::<(SingleLineSpan, Style)>::empty() + Seq::<(SingleLineSpan, Style)>::empty() =~= Seq::<
            (SingleLineSpan, Style),
        >::empty());
    }
}

/// On a line without changed positions, white space backgrounds leave the
/// styled spans as they are: the same spans, in the same order, and none
/// added.
pub proof fn lemma_whitespace_backgrounds_unchanged_line(
    src: Seq<char>,
    side: Side,
    background: BackgroundColor,
    ms: Seq<MatchedPos>,
    styled: Seq<(SingleLineSpan, Style)>,
    rgb_added: Option<RgbColor>,
    rgb_removed: Option<RgbColor>,
    l: LineNumber,
)
    requires
        forall|i: int| 0 <= i < ms.len() && (#[trigger] ms[i]).pos.line == l ==> !kind_is_novel(ms[i].kind),
    ensures
        on_line(whitespace_backgrounds(src, side, background, ms, styled, rgb_added, rgb_removed), l)
            == on_line(styled, l),
{
    let lines = text_lines(src);
    let regions = changed_regions_of(ms);
    lemma_regions_off_line(ms, l);
    lemma_groups_off_line(lines, regions, ms, l);
    let groups = whitespace_groups(lines, regions, ms);
    let ws = novel_style_of(plain_style(), side, background, true, rgb_added, rgb_removed);
    lemma_styled_with_ws_on_line(styled, groups, side, background, rgb_added, rgb_removed, l);
    lemma_unstyled_ws_off_line(groups, styled, ws, l);
    lemma_on_line_concat(styled_with_ws(styled, groups, side, background, rgb_added, rgb_removed), unstyled_ws(groups, styled, ws), l);
    assert(on_line(styled, l) + Seq::<(SingleLineSpan, Style)>::empty() =~= on_line(styled, l));
}

/// The style of changed content, over a syntax color where backgrounds
/// mark changes and syntax highlighting is on.
pub open spec fn changed_style(
    highlight: TokenKind,
    side: Side,
    background: BackgroundColor,
    syntax_highlight: bool,
    background_diff_colors: bool,
    rgb_added: Option<RgbColor>,
    rgb_removed: Option<RgbColor>,
) -> Style {
    let base = if background_diff_colors && syntax_highlight {
        maybe_syntax_style_of(plain_style(), highlight, syntax_highlight)
    } else {
        plain_style()
    };
    novel_style_of(base, side, background, background_diff_colors, rgb_added, rgb_removed)
}

/// Changed content keeps its syntax color in the foreground in background
/// mode with syntax highlighting, and is shown in the red or green of the
/// diff, on no background, in foreground mode.
pub proof fn lemma_changed_style_layers(
    highlight: TokenKind,
    side: Side,
    background: BackgroundColor,
    syntax_highlight: bool,
    background_diff_colors: bool,
    rgb_added: Option<RgbColor>,
    rgb_removed: Option<RgbColor>,
)
    ensures
        ({
            let c = changed_style(highlight, side, background, syntax_highlight, background_diff_colors, rgb_added, rgb_removed);
            &&& background_diff_colors && syntax_highlight ==> c.fg == maybe_syntax_style_of(
                plain_style(),
                highlight,
                true,
            ).fg && c.bg is Some
            &&& !background_diff_colors ==> c.fg == novel_style_of(plain_style(), side, background, false, None, None).fg
                && c.bg is None
        }),
{
}

/// The style a matched position is shown with.
pub open spec fn position_style(
    kind: MatchKind,
    side: Side,
    background: BackgroundColor,
    syntax_highlight: bool,
    background_diff_colors: bool,
    file_format: FileFormat,
    rgb_added: Option<RgbColor>,
    rgb_removed: Option<RgbColor>,
) -> Style {
    match kind {
        MatchKind::UnchangedToken { highlight, .. } | MatchKind::Ignored { highlight } => maybe_syntax_style_of(
            plain_style(),
            highlight,
            syntax_highlight,
        ),
        MatchKind::Novel { highlight } | MatchKind::UnchangedPartOfNovelItem { highlight, .. } => changed_style(
            highlight,
            side,
            background,
            syntax_highlight,
            background_diff_colors,
            rgb_added,
            rgb_removed,
        ),
        MatchKind::NovelWord { highlight } => {
            let s = Style {
                bold: true,
                ..changed_style(highlight, side, background, syntax_highlight, background_diff_colors, rgb_added, rgb_removed)
            };
            if file_format is SupportedLanguage {
                Style { underline: true, ..s }
            } else {
                s
            }
        },
    }
}

/// Every changed position (a novel token, a novel word, or an unchanged
/// part of a novel item) is marked as changed: in foreground mode with
/// red on the left and green on the right (bright on a dark terminal), in
/// background mode with a background (the side's custom color, else
/// gray). Novel words are also bold, and underlined in a parsed language.
/// Unchanged and ignored positions get no background and no effect.
pub proof fn lemma_position_style_marks_changes(
    kind: MatchKind,
    side: Side,
    background: BackgroundColor,
    syntax_highlight: bool,
    background_diff_colors: bool,
    file_format: FileFormat,
    rgb_added: Option<RgbColor>,
    rgb_removed: Option<RgbColor>,
)
    ensures
        ({
            let st = position_style(kind, side, background, syntax_highlight, background_diff_colors, file_format, rgb_added, rgb_removed);
            let dark = background == BackgroundColor::Dark;
            let changed = kind is Novel || kind is NovelWord || kind is UnchangedPartOfNovelItem;
            let custom = if side == Side::Left { rgb_removed } else { rgb_added };
            &&& changed && !background_diff_colors ==> st.fg == Some(
                if side == Side::Left {
                    if dark { Color::BrightRed } else { Color::Red }
                } else {
                    if dark { Color::BrightGreen } else { Color::Green }
                },
            ) && st.bg is None
            &&& changed && background_diff_colors ==> st.bg == Some(
                match custom {
                    Some(c) => Color::Rgb(c.r, c.g, c.b),
                    None => if dark { Color::BrightBlack } else { Color::Black },
                },
            )
            &&& kind is NovelWord ==> st.bold && (st.underline <==> file_format is SupportedLanguage)
            &&& (kind is Novel || kind is UnchangedPartOfNovelItem) ==> !st.bold && !st.underline
            &&& !changed ==> st.bg is None && !st.bold && !st.underline && !st.dimmed
        }),
{
    crate::color::lemma_novel_style_colors(plain_style(), side, background, background_diff_colors, rgb_added, rgb_removed);
}

/// Each position's span with its style.
pub open spec fn position_styles(
    ms: Seq<MatchedPos>,
    side: Side,
    background: BackgroundColor,
    syntax_highlight: bool,
    background_diff_colors: bool,
    file_format: FileFormat,
    rgb_added: Option<RgbColor>,
    rgb_removed: Option<RgbColor>,
) -> Seq<(SingleLineSpan, Style)> {
    ms.map_values(
        |m: MatchedPos|
            (
                m.pos,
                position_style(m.kind, side, background, syntax_highlight, background_diff_colors, file_format, rgb_added, rgb_removed),
            ),
    )
}

/// The styled spans that `color_positions` returns.
pub open spec fn colored_positions(
    src: Seq<char>,
    side: Side,
    background: BackgroundColor,
    syntax_highlight: bool,
    background_diff_colors: bool,
    background_include_whitespace: bool,
    file_format: FileFormat,
    ms: Seq<MatchedPos>,
    rgb_added: Option<RgbColor>,
    rgb_removed: Option<RgbColor>,
) -> Seq<(SingleLineSpan, Style)> {
    let styles = position_styles(ms, side, background, syntax_highlight, background_diff_colors, file_format, rgb_added, rgb_removed);
    if background_diff_colors && background_include_whitespace {
        merged(sorted_by_span(whitespace_backgrounds(src, side, background, ms, styles, rgb_added, rgb_removed)))
    } else {
        merged(styles)
    }
}

/// The style of each matched position, with white space in changed
/// regions given a background where asked, and adjacent spans of the same
/// style merged.
pub fn color_positions(
    src: &str,
    side: Side,
    background: BackgroundColor,
    syntax_highlight: bool,
    background_diff_colors: bool,
    background_include_whitespace: bool,
    file_format: &FileFormat,
    mps: &[MatchedPos],
    rgb_added: Option<RgbColor>,
    rgb_removed: Option<RgbColor>,
) -> (res: Vec<(SingleLineSpan, Style)>)
    ensures
        res@ == colored_positions(
            src@,
            side,
            background,
            syntax_highlight,
            background_diff_colors,
            background_include_whitespace,
            *file_format,
            mps@,
            rgb_added,
            rgb_removed,
        ),
{
    let ghost all = position_styles(mps@, side, background, syntax_highlight, background_diff_colors, *file_format, rgb_added, rgb_removed);
    let mut styles: Vec<(SingleLineSpan, Style)> = Vec::new();
    let mut i: usize = 0;
    while i < mps.len()
        invariant
            i <= mps@.len(),
            all == position_styles(mps@, side, background, syntax_highlight, background_diff_colors, *file_format, rgb_added, rgb_removed),
            styles@ == all.take(i as int),
        decreases mps@.len() - i,
    {
        let mp = &mps[i];
        let mut style = Style::new();
        match &mp.kind {
            MatchKind::UnchangedToken { highlight, .. } | MatchKind::Ignored { highlight } => {
                style = maybe_syntax_style(style, *highlight, background, syntax_highlight);
            },
            MatchKind::Novel { highlight } => {
                if background_diff_colors && syntax_highlight {
                    style = maybe_syntax_style(style, *highlight, background, syntax_highlight);
                }
                style = novel_style(style, side, background, background_diff_colors, rgb_added, rgb_removed);
            },
            MatchKind::NovelWord { highlight } => {
                if background_diff_colors && syntax_highlight {
                    style = maybe_syntax_style(style, *highlight, background, syntax_highlight);
                }
                style = novel_style(style, side, background, background_diff_colors, rgb_added, rgb_removed).bold();
                if file_format.is_supported_language() {
                    style = style.underline();
                }
            },
            MatchKind::UnchangedPartOfNovelItem { highlight, .. } => {
                if background_diff_colors && syntax_highlight {
                    style = maybe_syntax_style(style, *highlight, background, syntax_highlight);
                }
                style = novel_style(style, side, background, background_diff_colors, rgb_added, rgb_removed);
            },
        }
        styles.push((mp.pos, style));
        proof {
            assert(all[i as int] == (mp.pos, style));
            assert(styles@ =~= all.take(i + 1));
        }
        i = i + 1;
    }
    proof {
        assert(all.take(i as int) =~= all);
    }
    if background_diff_colors && background_include_whitespace {
        let with_whitespace = apply_whitespace_background_in_changed_regions(
            src,
            side,
            background,
            mps,
            styles.as_slice(),
            rgb_added,
            rgb_removed,
        );
        styles = sort_by_span(&with_whitespace);
    }
    merge_adjacent(styles.as_slice())
}


/// White space with a position holding text before it and one after it,
/// and no other positions, lies inside an unchanged region exactly when
/// both positions are unchanged.
pub proof fn lemma_inside_unchanged_two(
    line: Seq<char>,
    p: SingleLineSpan,
    p_changed: bool,
    n: SingleLineSpan,
    n_changed: bool,
    start_col: u32,
    end_col: u32,
)
    requires
        start_col < end_col,
        has_text(line, p),
        has_text(line, n),
        p.end_col <= start_col,
        n.start_col >= end_col,
    ensures
        inside_unchanged(line, start_col, end_col, seq![(p, p_changed), (n, n_changed)]) == (!p_changed
            && !n_changed),
{
    let ms = seq![(p, p_changed), (n, n_changed)];
    assert(ms.drop_last() =~= seq![(p, p_changed)]);
    assert(ms.last() == (n, n_changed));
    assert(seq![(p, p_changed)].last() == (p, p_changed));
    assert(last_before(line, seq![(p, p_changed)], start_col) == Some(0nat));
    assert(!(ms.last().0.end_col <= start_col));
    assert(last_before(line, ms, start_col) == Some(0nat));
    assert(ms[0] == (p, p_changed) && ms[1] == (n, n_changed));
    assert(first_after(line, ms, end_col, 1) == Some(1nat));
    assert(first_after(line, ms, end_col, 0) == Some(1nat));
}

} // verus!
