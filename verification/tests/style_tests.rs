use difft_style::model::{
    AtomKind, BackgroundColor, FileFormat, LineNumber, MatchKind, MatchedPos, RgbColor, Side,
    SingleLineSpan, TokenKind,
};
use difft_style::paint::Style;
use difft_style::render::split_and_apply;
use difft_style::whitespace::color_positions;
use difft_style::width::split_string_by_width;

const TAB_WIDTH: usize = 2;

fn novel_pos(line: u32, start_col: u32, end_col: u32) -> MatchedPos {
    MatchedPos {
        kind: MatchKind::Novel {
            highlight: TokenKind::Atom(AtomKind::Keyword),
        },
        pos: span(line, start_col, end_col),
    }
}

fn unchanged_normal_pos(line: u32, start_col: u32, end_col: u32) -> MatchedPos {
    MatchedPos {
        kind: MatchKind::UnchangedToken {
            highlight: TokenKind::Atom(AtomKind::Normal),
            self_pos: vec![span(line, start_col, end_col)],
            opposite_pos: vec![span(line, start_col, end_col)],
        },
        pos: span(line, start_col, end_col),
    }
}

fn unchanged_pos(line: u32, start_col: u32, end_col: u32) -> MatchedPos {
    MatchedPos {
        kind: MatchKind::UnchangedToken {
            highlight: TokenKind::Atom(AtomKind::Keyword),
            self_pos: vec![span(line, start_col, end_col)],
            opposite_pos: vec![span(line, start_col, end_col)],
        },
        pos: span(line, start_col, end_col),
    }
}

fn span(line: u32, start_col: u32, end_col: u32) -> SingleLineSpan {
    SingleLineSpan {
        line: LineNumber(line),
        start_col,
        end_col,
    }
}

fn spans_of(positions: Vec<(SingleLineSpan, Style)>) -> Vec<SingleLineSpan> {
    positions.into_iter().map(|(span, _)| span).collect::<Vec<_>>()
}

#[test]
fn split_string_simple() {
    assert_eq!(
        split_string_by_width("fooba", 3, TAB_WIDTH),
        vec![("foo", 0), ("ba", 1)]
    );
}

#[test]
fn split_string_unicode() {
    assert_eq!(
        split_string_by_width("ab📦def", 4, TAB_WIDTH),
        vec![("ab📦", 0), ("def", 1)]
    );
}

#[test]
fn test_combining_char() {
    assert_eq!(
        split_string_by_width("aabbcc\u{300}x", 6, TAB_WIDTH),
        vec![("aabbcc\u{300}", 0), ("x", 5)],
    );
}

#[test]
fn split_string_cjk() {
    assert_eq!(
        split_string_by_width("一个汉字两列宽", 8, TAB_WIDTH),
        vec![
            ("一个汉字", 0),
            ("两列宽", 2)
        ]
    );
}

#[test]
fn split_string_cjk2() {
    assert_eq!(
        split_string_by_width("你好啊", 5, TAB_WIDTH),
        vec![("你好", 1), ("啊", 3)]
    );
}

#[test]
fn test_split_and_apply() {
    let res = split_and_apply("foo", 3, TAB_WIDTH, &[(span(0, 0, 3), Style::new())], Side::Left);
    assert_eq!(res, vec!["foo"])
}

#[test]
fn test_split_and_apply_trailing_text() {
    let res = split_and_apply("foobar", 6, TAB_WIDTH, &[(span(0, 0, 3), Style::new())], Side::Left);
    assert_eq!(res, vec!["foobar"])
}

#[test]
fn test_split_and_apply_gap_between_styles_on_wrap_boundary() {
    let res = split_and_apply(
        "foobar",
        3,
        TAB_WIDTH,
        &[(span(0, 0, 2), Style::new()), (span(0, 4, 6), Style::new())],
        Side::Left,
    );
    assert_eq!(res, vec!["foo", "bar"])
}

#[test]
fn test_split_and_apply_trailing_text_newline() {
    let res = split_and_apply(
        "foobar      ",
        6,
        TAB_WIDTH,
        &[(span(0, 0, 3), Style::new())],
        Side::Left,
    );
    assert_eq!(res, vec!["foobar", "      "])
}

fn positions(
    src: &str,
    background_diff_colors: bool,
    background_include_whitespace: bool,
    mps: &[MatchedPos],
    rgb_added: Option<RgbColor>,
) -> Vec<(SingleLineSpan, Style)> {
    color_positions(
        src,
        Side::Right,
        BackgroundColor::Dark,
        true,
        background_diff_colors,
        background_include_whitespace,
        &FileFormat::PlainText,
        mps,
        rgb_added,
        None,
    )
}

#[test]
fn background_include_whitespace_adds_space_gap_between_novel_spans() {
    let positions = positions("foo bar", true, true, &[novel_pos(0, 0, 3), novel_pos(0, 4, 7)], None);
    assert_eq!(
        spans_of(positions),
        vec![span(0, 0, 3), span(0, 3, 4), span(0, 4, 7)]
    );
}

#[test]
fn background_include_whitespace_styles_rendered_space_gap() {
    let positions = positions(
        "foo bar",
        true,
        true,
        &[novel_pos(0, 0, 3), novel_pos(0, 4, 7)],
        Some(RgbColor::new(1, 2, 3)),
    );
    let rendered = split_and_apply("foo bar", 80, TAB_WIDTH, &positions, Side::Right);
    assert!(
        rendered[0].contains("\x1b[48;2;1;2;3m \x1b"),
        "expected the space between changed spans to have a background: {:?}",
        rendered[0]
    );
}

#[test]
fn background_include_whitespace_styles_space_inside_punctuation_gap() {
    let positions = positions(
        "0, 0, 0",
        true,
        true,
        &[novel_pos(0, 0, 1), novel_pos(0, 3, 4), novel_pos(0, 6, 7)],
        Some(RgbColor::new(1, 2, 3)),
    );
    let rendered = split_and_apply("0, 0, 0", 80, TAB_WIDTH, &positions, Side::Right);
    assert!(
        rendered[0].contains(",\x1b[48;2;1;2;3m \x1b"),
        "expected spaces after punctuation between changed spans to have a background: {:?}",
        rendered[0]
    );
}

#[test]
fn background_include_whitespace_styles_if_let_region_gaps() {
    let positions = positions(
        "if let Some(start) = whitespace",
        true,
        true,
        &[
            novel_pos(0, 0, 2),
            unchanged_pos(0, 3, 6),
            novel_pos(0, 7, 11),
            unchanged_pos(0, 11, 12),
            novel_pos(0, 12, 17),
            unchanged_pos(0, 17, 18),
            unchanged_pos(0, 19, 20),
            novel_pos(0, 21, 31),
        ],
        Some(RgbColor::new(1, 2, 3)),
    );
    let rendered = split_and_apply(
        "if let Some(start) = whitespace",
        80,
        TAB_WIDTH,
        &positions,
        Side::Right,
    );
    assert!(
        rendered[0].contains("\x1b[48;2;1;2;3m \x1b"),
        "expected spaces inside the if-let changed region to have a background: {:?}",
        rendered[0]
    );
    assert!(
        rendered[0].contains("=\x1b[0m\x1b[48;2;1;2;3m \x1b"),
        "expected the space after = inside the changed region to have a background: {:?}",
        rendered[0]
    );
}

#[test]
fn background_include_whitespace_styles_existing_uncolored_space_spans() {
    let positions = positions(
        "for spans in values_mut",
        true,
        true,
        &[
            novel_pos(0, 0, 3),
            unchanged_normal_pos(0, 3, 4),
            novel_pos(0, 4, 9),
            unchanged_normal_pos(0, 9, 10),
            novel_pos(0, 10, 12),
            unchanged_normal_pos(0, 12, 13),
            novel_pos(0, 13, 23),
        ],
        Some(RgbColor::new(1, 2, 3)),
    );
    let rendered = split_and_apply(
        "for spans in values_mut",
        80,
        TAB_WIDTH,
        &positions,
        Side::Right,
    );
    assert!(
        rendered[0].contains("for\x1b[0m\x1b[38;2;220;220;204;48;2;1;2;3m \x1b"),
        "expected existing uncolored space spans to receive a background: {:?}",
        rendered[0]
    );
}

#[test]
fn background_include_whitespace_ignores_spaces_inside_unchanged_expression() {
    let positions = positions(
        "start_col: (region_start + start) as u32,",
        true,
        true,
        &[
            novel_pos(0, 0, 12),
            unchanged_normal_pos(0, 12, 24),
            unchanged_normal_pos(0, 25, 26),
            unchanged_normal_pos(0, 27, 32),
            novel_pos(0, 32, 40),
        ],
        Some(RgbColor::new(1, 2, 3)),
    );
    let rendered = split_and_apply(
        "start_col: (region_start + start) as u32,",
        80,
        TAB_WIDTH,
        &positions,
        Side::Right,
    );
    assert!(
        rendered[0].contains(
            "\x1b[38;2;220;220;204mregion_start\x1b[0m \x1b[38;2;220;220;204m+\x1b[0m \x1b[38;2;220;220;204mstart"
        ),
        "expected spaces around unchanged + to stay uncolored: {:?}",
        rendered[0]
    );
}

#[test]
fn background_include_whitespace_adds_tab_gap_between_novel_spans() {
    let positions = positions("foo\tbar", true, true, &[novel_pos(0, 0, 3), novel_pos(0, 4, 7)], None);
    assert_eq!(
        spans_of(positions),
        vec![span(0, 0, 3), span(0, 3, 4), span(0, 4, 7)]
    );
}

#[test]
fn background_include_whitespace_ignores_non_whitespace_gap_between_novel_spans() {
    let positions = positions("foo-bar", true, true, &[novel_pos(0, 0, 3), novel_pos(0, 4, 7)], None);
    assert_eq!(spans_of(positions), vec![span(0, 0, 3), span(0, 4, 7)]);
}

#[test]
fn background_include_whitespace_does_not_apply_in_foreground_mode() {
    let positions = positions("foo bar", false, true, &[novel_pos(0, 0, 3), novel_pos(0, 4, 7)], None);
    assert_eq!(spans_of(positions), vec![span(0, 0, 3), span(0, 4, 7)]);
}

#[test]
fn background_include_whitespace_does_not_apply_when_disabled() {
    let positions = positions("foo bar", true, false, &[novel_pos(0, 0, 3), novel_pos(0, 4, 7)], None);
    assert_eq!(spans_of(positions), vec![span(0, 0, 3), span(0, 4, 7)]);
}
