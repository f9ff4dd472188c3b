use difft_style::color::{
    foreground_color, maybe_syntax_style, merge_adjacent, novel_style, syntax_style, zenburn,
};
use difft_style::groups::LineGroups;
use difft_style::header::{
    apply_header_color, apply_line_number_color, decimal_string, error_message, header,
    warning_message,
};
use difft_style::model::{
    AtomKind, BackgroundColor, DisplayOptions, FileFormat, LineNumber, MatchKind, MatchedPos,
    RgbColor, Side, SingleLineSpan, StringKind, TokenKind,
};
use difft_style::paint::{Color, Style};
use difft_style::render::{
    apply_colors, apply_colors_checked, apply_line, group_by_line, spans_fit_line,
    split_and_apply, split_and_apply_checked, style_lines,
};
use difft_style::sort::sort_by_span;
use difft_style::text::{
    byte_len, is_blank, replace_tabs, split_on_newlines, substring_by_byte,
    substring_by_byte_replace_tabs,
};
use difft_style::whitespace::{
    apply_whitespace_background_in_changed_regions, color_positions,
    push_span_with_whitespace_background, push_unstyled_whitespace_spans,
    span_has_non_whitespace, whitespace_is_inside_unchanged_region,
};
use difft_style::width::{
    byte_offset_for_width, count_tabs, display_width, split_string_by_width,
    width_respecting_tabs,
};

fn sp(line: u32, start_col: u32, end_col: u32) -> SingleLineSpan {
    SingleLineSpan {
        line: LineNumber(line),
        start_col,
        end_col,
    }
}

fn changed(line: u32, start_col: u32, end_col: u32) -> MatchedPos {
    MatchedPos {
        kind: MatchKind::Novel {
            highlight: TokenKind::Atom(AtomKind::Keyword),
        },
        pos: sp(line, start_col, end_col),
    }
}

fn kept(line: u32, start_col: u32, end_col: u32) -> MatchedPos {
    MatchedPos {
        kind: MatchKind::UnchangedToken {
            highlight: TokenKind::Atom(AtomKind::Keyword),
            self_pos: vec![sp(line, start_col, end_col)],
            opposite_pos: vec![sp(line, start_col, end_col)],
        },
        pos: sp(line, start_col, end_col),
    }
}

fn plain_options() -> DisplayOptions {
    DisplayOptions {
        use_color: false,
        background_color: BackgroundColor::Dark,
    }
}

fn color_options(background_color: BackgroundColor) -> DisplayOptions {
    DisplayOptions {
        use_color: true,
        background_color,
    }
}

// Hex colors.

#[test]
fn hex_color_with_and_without_hash() {
    let expected = Ok(RgbColor::new(0x33, 0x66, 0x99));
    assert_eq!(RgbColor::from_hex("#336699"), expected);
    assert_eq!(RgbColor::from_hex("336699"), expected);
    assert_eq!(RgbColor::from_hex("##336699"), expected);
}

#[test]
fn hex_color_upper_case_and_signs_refused() {
    assert_eq!(
        RgbColor::from_hex("ABCDEF"),
        Ok(RgbColor::new(0xab, 0xcd, 0xef))
    );
    assert_eq!(
        RgbColor::from_hex("+1+2+3"),
        Err("Invalid hex color '+1+2+3': invalid red component".to_string())
    );
}

#[test]
fn hex_color_cut_inside_a_character_is_an_error() {
    assert_eq!(
        RgbColor::from_hex("a\u{e9}123"),
        Err("Invalid hex color 'a\u{e9}123': invalid red component".to_string())
    );
    assert_eq!(
        RgbColor::from_hex("12\u{e9}45"),
        Err("Invalid hex color '12\u{e9}45': invalid green component".to_string())
    );
}

#[test]
fn hex_color_round_trip() {
    for (r, g, b) in [(0u8, 0u8, 0u8), (255, 255, 255), (0x12, 0xab, 0xf0), (7, 200, 99)] {
        let want = Ok(RgbColor::new(r, g, b));
        assert_eq!(RgbColor::from_hex(&format!("#{:02x}{:02x}{:02x}", r, g, b)), want);
        assert_eq!(RgbColor::from_hex(&format!("{:02X}{:02X}{:02X}", r, g, b)), want);
    }
}

#[test]
fn hex_color_wrong_length() {
    assert_eq!(
        RgbColor::from_hex("#12345"),
        Err("Invalid hex color '12345': expected 6 characters (RRGGBB)".to_string())
    );
}

#[test]
fn hex_color_bad_components() {
    assert_eq!(
        RgbColor::from_hex("zz6699"),
        Err("Invalid hex color 'zz6699': invalid red component".to_string())
    );
    assert_eq!(
        RgbColor::from_hex("33zz99"),
        Err("Invalid hex color '33zz99': invalid green component".to_string())
    );
    assert_eq!(
        RgbColor::from_hex("3366zz"),
        Err("Invalid hex color '3366zz': invalid blue component".to_string())
    );
}

#[test]
fn zenburn_palette_entry() {
    assert_eq!(zenburn("#cc9393"), RgbColor::new(0xcc, 0x93, 0x93));
}

// Styles.

#[test]
fn novel_style_foreground_mode() {
    let s = Style::new();
    assert_eq!(
        novel_style(s, Side::Left, BackgroundColor::Dark, false, None, None),
        s.bright_red()
    );
    assert_eq!(
        novel_style(s, Side::Right, BackgroundColor::Dark, false, None, None),
        s.bright_green()
    );
    assert_eq!(
        novel_style(s, Side::Left, BackgroundColor::Light, false, None, None),
        s.red()
    );
    assert_eq!(
        novel_style(s, Side::Right, BackgroundColor::Light, false, None, None),
        s.green()
    );
}

#[test]
fn novel_style_background_mode() {
    let s = Style::new();
    let added = Some(RgbColor::new(1, 2, 3));
    assert_eq!(
        novel_style(s, Side::Right, BackgroundColor::Dark, true, added, None),
        s.on_truecolor(1, 2, 3)
    );
    assert_eq!(
        novel_style(s, Side::Left, BackgroundColor::Dark, true, added, None),
        s.on_bright_black()
    );
    assert_eq!(
        novel_style(s, Side::Left, BackgroundColor::Light, true, None, None),
        s.on_black()
    );
}

#[test]
fn novel_style_background_keeps_syntax_foreground() {
    let s = Style::new().truecolor(7, 8, 9).bold();
    let r = novel_style(s, Side::Right, BackgroundColor::Dark, true, None, None);
    assert_eq!(r.fg, Some(Color::Rgb(7, 8, 9)));
    assert!(r.bold);
    assert_eq!(r.bg, Some(Color::BrightBlack));
    let f = novel_style(s.on_black(), Side::Right, BackgroundColor::Dark, false, None, None);
    assert_eq!(f.bg, Some(Color::Black));
    assert_eq!(f.fg, Some(Color::BrightGreen));
}

#[test]
fn syntax_styles_by_kind() {
    let s = Style::new();
    assert_eq!(
        syntax_style(s, AtomKind::Comment, BackgroundColor::Dark),
        s.truecolor(0x7f, 0x9f, 0x7f)
    );
    assert_eq!(
        syntax_style(s, AtomKind::String(StringKind::Text), BackgroundColor::Light),
        s.truecolor(0xcc, 0x93, 0x93)
    );
    assert_eq!(
        syntax_style(s, AtomKind::Number, BackgroundColor::Dark),
        s.truecolor(0x8c, 0xd0, 0xd3)
    );
    assert_eq!(
        syntax_style(s, AtomKind::TreeSitterError, BackgroundColor::Dark),
        s.purple()
    );
}

#[test]
fn foreground_color_by_background() {
    let dark = RgbColor::new(1, 1, 1);
    let light = RgbColor::new(2, 2, 2);
    let s = Style::new();
    assert_eq!(
        foreground_color(s, BackgroundColor::Dark, dark, light),
        s.truecolor(1, 1, 1)
    );
    assert_eq!(
        foreground_color(s, BackgroundColor::Light, dark, light),
        s.truecolor(2, 2, 2)
    );
}

#[test]
fn maybe_syntax_style_only_for_atoms_when_enabled() {
    let s = Style::new().bold();
    let number = TokenKind::Atom(AtomKind::Number);
    assert_eq!(
        maybe_syntax_style(s, number, BackgroundColor::Dark, false),
        s
    );
    assert_eq!(
        maybe_syntax_style(s, TokenKind::Delimiter, BackgroundColor::Dark, true),
        s
    );
    assert_eq!(
        maybe_syntax_style(s, number, BackgroundColor::Dark, true),
        s.truecolor(0x8c, 0xd0, 0xd3)
    );
}

// Merging.

#[test]
fn merge_adjacent_joins_touching_spans_of_one_style() {
    let red = Style::new().red();
    let green = Style::new().green();
    let items = vec![
        (sp(0, 0, 3), red),
        (sp(0, 3, 5), red),
        (sp(0, 5, 6), green),
        (sp(1, 6, 8), green),
        (sp(1, 8, 9), green),
        (sp(1, 10, 11), green),
    ];
    let merged = merge_adjacent(&items);
    assert_eq!(
        merged,
        vec![
            (sp(0, 0, 5), red),
            (sp(0, 5, 6), green),
            (sp(1, 6, 9), green),
            (sp(1, 10, 11), green),
        ]
    );
    assert_eq!(merge_adjacent(&merged), merged);
    assert_eq!(merge_adjacent(&[]), vec![]);
}

// Widths and splitting.

#[test]
fn widths_count_tabs_and_wide_characters() {
    assert_eq!(display_width("a\u{7}b"), 2);
    assert_eq!(display_width("汉字"), 4);
    assert_eq!(count_tabs("\t\ta"), 2);
    assert_eq!(width_respecting_tabs("a\tb", 4), 6);
    assert_eq!(width_respecting_tabs("汉字", 4), 4);
}

#[test]
fn byte_offset_for_width_cases() {
    assert_eq!(byte_offset_for_width("abc", 1, 4), 1);
    assert_eq!(byte_offset_for_width("abc", 5, 4), 3);
    assert_eq!(byte_offset_for_width("", 3, 4), 0);
    assert_eq!(byte_offset_for_width("汉字", 3, 4), 3);
    assert_eq!(byte_offset_for_width("a\tb", 2, 4), 1);
}

#[test]
fn split_string_long_line_of_zero_width_characters() {
    let line = "\u{1}".repeat(12);
    assert_eq!(split_string_by_width(&line, 2, 4), vec![(line.as_str(), 2)]);
}

#[test]
fn split_string_empty_and_tabs() {
    assert_eq!(split_string_by_width("", 3, 2), vec![("", 3)]);
    assert_eq!(
        split_string_by_width("a\tb", 3, 2),
        vec![("a\t", 0), ("b", 2)]
    );
}

#[test]
fn split_parts_join_and_fill_the_width() {
    let line = "一个汉字ab\tcdefg";
    let parts = split_string_by_width(line, 5, 2);
    let joined: String = parts.iter().map(|(p, _)| *p).collect();
    assert_eq!(joined, line);
    for (part, pad) in &parts {
        assert_eq!(width_respecting_tabs(part, 2) + pad, 5);
    }
}

// Text helpers.

#[test]
fn text_helpers() {
    assert_eq!(byte_len("héllo"), 6);
    assert_eq!(substring_by_byte("héllo", 1, 3), "é");
    assert_eq!(substring_by_byte_replace_tabs("a\tbc", 0, 2, 3), "a   ");
    assert!(is_blank(" \t\n"));
    assert!(is_blank(""));
    assert!(!is_blank(" a "));
}

#[test]
fn replace_tabs_leaves_no_tab_and_keeps_width() {
    assert_eq!(replace_tabs("a\tb", 2), "a  b");
    assert_eq!(replace_tabs("\t", 0), "");
    assert_eq!(replace_tabs("abc", 4), "abc");
    let replaced = replace_tabs("x\ty\t", 3);
    assert!(!replaced.contains('\t'));
    assert_eq!(
        width_respecting_tabs(&replaced, 3),
        width_respecting_tabs("x\ty\t", 3)
    );
}

#[test]
fn split_on_newlines_strips_carriage_returns() {
    assert_eq!(split_on_newlines("a\r\nb\n"), vec!["a", "b", ""]);
    assert_eq!(split_on_newlines(""), vec![""]);
}

// Painting lines.

#[test]
fn apply_line_paints_spans() {
    let red = Style::new().red();
    assert_eq!(
        apply_line("foo bar", &[(sp(0, 0, 3), red)]),
        "\x1b[31mfoo\x1b[0m bar"
    );
    assert_eq!(
        apply_line("abc", &[(sp(0, 1, 10), Style::new().bold())]),
        "a\x1b[1mbc\x1b[0m"
    );
    assert_eq!(apply_line("ab", &[(sp(0, 5, 7), red)]), "ab");
}

#[test]
fn apply_line_without_styles_is_identity() {
    assert_eq!(apply_line("héllo\tworld", &[]), "héllo\tworld");
    assert_eq!(apply_line("", &[]), "");
}

#[test]
fn style_lines_adds_newlines() {
    let red = Style::new().red();
    assert_eq!(
        style_lines(&["foo", "bar"], &[(sp(1, 0, 1), red)]),
        vec!["foo\n".to_string(), "\x1b[31mb\x1b[0mar\n".to_string()]
    );
}

#[test]
fn group_by_line_keeps_order_within_a_line() {
    let red = Style::new().red();
    let green = Style::new().green();
    let groups = group_by_line(&[(sp(1, 0, 1), red), (sp(0, 0, 1), green), (sp(1, 2, 3), red)]);
    assert_eq!(
        groups.get(LineNumber(1)),
        Some(&vec![(sp(1, 0, 1), red), (sp(1, 2, 3), red)])
    );
    assert_eq!(groups.get(LineNumber(2)), None);
}

#[test]
fn line_groups_push_and_get() {
    let mut g: LineGroups<u32> = LineGroups::new();
    g.push(LineNumber(2), 5);
    g.push(LineNumber(0), 1);
    g.push(LineNumber(2), 6);
    assert_eq!(g.get(LineNumber(2)), Some(&vec![5, 6]));
    assert_eq!(g.get(LineNumber(0)), Some(&vec![1]));
    assert_eq!(g.get(LineNumber(1)), None);
}

#[test]
fn spans_fit_line_checks_boundaries() {
    let red = Style::new().red();
    assert!(spans_fit_line("héllo", &[(sp(0, 1, 3), red)]));
    assert!(!spans_fit_line("héllo", &[(sp(0, 2, 3), red)]));
    assert!(!spans_fit_line("hello", &[(sp(0, 3, 2), red)]));
    assert!(spans_fit_line("hello", &[(sp(0, 9, 2), red)]));
}

#[test]
fn apply_colors_styles_each_line() {
    let res = apply_colors(
        "foo\nbar",
        Side::Left,
        false,
        false,
        false,
        &FileFormat::PlainText,
        BackgroundColor::Dark,
        &[changed(1, 0, 3)],
        None,
        None,
    );
    assert_eq!(res, vec!["foo\n".to_string(), "\x1b[91mbar\x1b[0m\n".to_string()]);
}

#[test]
fn apply_colors_checked_refuses_spans_inside_a_character() {
    let res = apply_colors_checked(
        "é",
        Side::Left,
        false,
        false,
        false,
        &FileFormat::PlainText,
        BackgroundColor::Dark,
        &[changed(0, 1, 2)],
        None,
        None,
    );
    assert_eq!(res, None);
    let ok = apply_colors_checked(
        "é",
        Side::Left,
        false,
        false,
        false,
        &FileFormat::PlainText,
        BackgroundColor::Dark,
        &[changed(0, 0, 2)],
        None,
        None,
    );
    assert_eq!(ok, Some(vec!["\x1b[91mé\x1b[0m\n".to_string()]));
}

// Wrapping.

#[test]
fn split_and_apply_unstyled_pads_the_left_side() {
    assert_eq!(
        split_and_apply("a\tb", 3, 2, &[], Side::Left),
        vec!["a  ", "b  "]
    );
    assert_eq!(
        split_and_apply("a\tb", 3, 2, &[], Side::Right),
        vec!["a  ", "b"]
    );
    assert_eq!(split_and_apply("   ", 5, 2, &[], Side::Left), vec!["     "]);
}

#[test]
fn split_and_apply_left_lines_have_the_full_width() {
    for line in split_and_apply("abcdefg\thij", 4, 2, &[], Side::Left) {
        assert_eq!(line.chars().count(), 4);
    }
}

#[test]
fn split_and_apply_styles_across_parts() {
    let red = Style::new().red();
    assert_eq!(
        split_and_apply("foobar", 3, 2, &[(sp(0, 2, 4), red)], Side::Right),
        vec!["fo\x1b[31mo\x1b[0m", "\x1b[31mb\x1b[0mar"]
    );
}

#[test]
fn split_and_apply_checked_cases() {
    assert_eq!(split_and_apply_checked("汉", 1, 0, &[], Side::Left), None);
    assert_eq!(
        split_and_apply_checked("ab", 3, 2, &[], Side::Left),
        Some(vec!["ab ".to_string()])
    );
}

// Sorting.

#[test]
fn sort_by_span_orders_and_is_stable() {
    let v = vec![sp(1, 0, 2), sp(0, 5, 6), sp(0, 1, 3), sp(0, 1, 2)];
    assert_eq!(
        sort_by_span(&v),
        vec![sp(0, 1, 2), sp(0, 1, 3), sp(0, 5, 6), sp(1, 0, 2)]
    );
    let red = Style::new().red();
    let green = Style::new().green();
    let w = vec![(sp(0, 0, 1), red), (sp(0, 0, 1), green)];
    assert_eq!(sort_by_span(&w), w);
}

// White space backgrounds.

#[test]
fn whitespace_between_unchanged_tokens() {
    let a = kept(0, 0, 1);
    let b = kept(0, 2, 3);
    let c = changed(0, 2, 3);
    assert!(whitespace_is_inside_unchanged_region("a b", 1, 2, Some(&[&a, &b])));
    assert!(!whitespace_is_inside_unchanged_region("a b", 1, 2, Some(&[&a, &c])));
    assert!(!whitespace_is_inside_unchanged_region("a b", 1, 2, None));
}

#[test]
fn span_has_non_whitespace_cases() {
    assert!(!span_has_non_whitespace("a  b", sp(0, 1, 3)));
    assert!(span_has_non_whitespace("a  b", sp(0, 0, 2)));
    assert!(!span_has_non_whitespace("a  b", sp(0, 3, 9)));
    assert!(!span_has_non_whitespace("a  b", sp(0, 2, 2)));
    assert!(!span_has_non_whitespace("\u{e9}x", sp(0, 1, 3)));
}

#[test]
fn unchanged_region_with_a_position_inside_a_character() {
    let a = kept(0, 0, 1);
    let stray = kept(0, 4, 5);
    let b = kept(0, 2, 3);
    assert!(whitespace_is_inside_unchanged_region(
        "a b\u{e9}",
        1,
        2,
        Some(&[&a, &b, &stray])
    ));
}

#[test]
fn lines_without_changes_keep_their_spans() {
    let red = Style::new().red();
    let styled = vec![(sp(0, 0, 3), red), (sp(1, 1, 2), red), (sp(0, 4, 7), red)];
    let res = apply_whitespace_background_in_changed_regions(
        "foo bar\n\u{e9}x",
        Side::Right,
        BackgroundColor::Dark,
        &[changed(0, 0, 3), changed(0, 4, 7), kept(1, 1, 2)],
        &styled,
        None,
        None,
    );
    let on_line_1: Vec<_> = res.iter().filter(|e| e.0.line == LineNumber(1)).collect();
    assert_eq!(on_line_1, vec![&(sp(1, 1, 2), red)]);
    assert_eq!(
        res,
        vec![
            (sp(0, 0, 3), red),
            (sp(1, 1, 2), red),
            (sp(0, 4, 7), red),
            (sp(0, 3, 4), Style::new().on_bright_black())
        ]
    );
}

#[test]
fn push_span_cut_at_whitespace() {
    let red = Style::new().red();
    let mut v = vec![];
    push_span_with_whitespace_background(
        &mut v,
        sp(0, 0, 7),
        red,
        Some(&[sp(0, 3, 4)]),
        Side::Right,
        BackgroundColor::Dark,
        None,
        None,
    );
    assert_eq!(
        v,
        vec![
            (sp(0, 0, 3), red),
            (sp(0, 3, 4), red.on_bright_black()),
            (sp(0, 4, 7), red)
        ]
    );
    for k in 0..v.len() - 1 {
        assert_eq!(v[k].0.end_col, v[k + 1].0.start_col);
    }
    let mut w = vec![];
    push_span_with_whitespace_background(
        &mut w,
        sp(0, 0, 7),
        red,
        None,
        Side::Right,
        BackgroundColor::Dark,
        None,
        None,
    );
    assert_eq!(w, vec![(sp(0, 0, 7), red)]);
}

#[test]
fn push_unstyled_whitespace_around_styled_spans() {
    let st = Style::new().on_black();
    let mut v = vec![];
    push_unstyled_whitespace_spans(&mut v, LineNumber(0), 2, 8, Some(&[sp(0, 3, 5)]), st);
    assert_eq!(v, vec![(sp(0, 2, 3), st), (sp(0, 5, 8), st)]);
    let mut w = vec![];
    push_unstyled_whitespace_spans(&mut w, LineNumber(0), 2, 8, None, st);
    assert_eq!(w, vec![(sp(0, 2, 8), st)]);
}

#[test]
fn background_mode_keeps_syntax_color_of_changed_tokens() {
    let styles = color_positions(
        "x",
        Side::Left,
        BackgroundColor::Dark,
        true,
        true,
        false,
        &FileFormat::PlainText,
        &[changed(0, 0, 1)],
        None,
        None,
    );
    assert_eq!(
        styles,
        vec![(sp(0, 0, 1), Style::new().truecolor(0xf0, 0xdf, 0xaf).on_bright_black())]
    );
}

#[test]
fn novel_words_are_bold_and_underlined_in_code() {
    let word = MatchedPos {
        kind: MatchKind::NovelWord {
            highlight: TokenKind::Atom(AtomKind::Comment),
        },
        pos: sp(0, 0, 1),
    };
    let in_code = color_positions(
        "x",
        Side::Left,
        BackgroundColor::Light,
        false,
        false,
        false,
        &FileFormat::SupportedLanguage("Rust".to_string()),
        &[word.clone()],
        None,
        None,
    );
    assert_eq!(in_code, vec![(sp(0, 0, 1), Style::new().red().bold().underline())]);
    let in_text = color_positions(
        "x",
        Side::Left,
        BackgroundColor::Light,
        false,
        false,
        false,
        &FileFormat::PlainText,
        &[word],
        None,
        None,
    );
    assert_eq!(in_text, vec![(sp(0, 0, 1), Style::new().red().bold())]);
}

// Headers and messages.

#[test]
fn decimal_strings() {
    assert_eq!(decimal_string(0), "0");
    assert_eq!(decimal_string(1234), "1234");
}

#[test]
fn header_without_color() {
    let opts = plain_options();
    assert_eq!(
        header("foo.rs", None, 1, 1, &FileFormat::PlainText, &opts),
        "foo.rs --- Text"
    );
    assert_eq!(
        header("foo.rs", None, 2, 3, &FileFormat::PlainText, &opts),
        "foo.rs --- 2/3 --- Text"
    );
    let extra = "extra".to_string();
    assert_eq!(
        header("foo.rs", Some(&extra), 1, 1, &FileFormat::Binary, &opts),
        "foo.rs --- Binary\nextra"
    );
    assert_eq!(
        header("foo.rs", Some(&extra), 2, 3, &FileFormat::Binary, &opts),
        "foo.rs --- 2/3 --- Binary"
    );
    let fallback = FileFormat::TextFallback {
        reason: "too big".to_string(),
    };
    assert_eq!(
        header("a", None, 1, 1, &fallback, &opts),
        "a --- Text (too big)"
    );
}

#[test]
fn header_with_color() {
    let opts = color_options(BackgroundColor::Dark);
    let rust = FileFormat::SupportedLanguage("Rust".to_string());
    assert_eq!(
        header("foo.rs", None, 1, 1, &rust, &opts),
        "\x1b[1m\x1b[93mfoo.rs\x1b[39m\x1b[0m\x1b[2m --- Rust\x1b[0m"
    );
    assert_eq!(
        header("foo.rs", None, 2, 2, &rust, &opts),
        "\x1b[1mfoo.rs\x1b[0m\x1b[2m --- 2/2 --- Rust\x1b[0m"
    );
}

#[test]
fn header_color_by_background() {
    assert_eq!(
        apply_header_color("p", true, BackgroundColor::Light, 1),
        "\x1b[1m\x1b[33mp\x1b[39m\x1b[0m"
    );
    assert_eq!(apply_header_color("p", false, BackgroundColor::Light, 1), "p");
}

#[test]
fn line_number_colors() {
    let dark = color_options(BackgroundColor::Dark);
    let light = color_options(BackgroundColor::Light);
    assert_eq!(
        apply_line_number_color("12", true, Side::Left, &dark),
        "\x1b[91;1m12\x1b[0m"
    );
    assert_eq!(
        apply_line_number_color("12", true, Side::Right, &light),
        "\x1b[32;1m12\x1b[0m"
    );
    assert_eq!(
        apply_line_number_color("12", false, Side::Right, &dark),
        "\x1b[2m12\x1b[0m"
    );
    assert_eq!(
        apply_line_number_color("12", true, Side::Right, &plain_options()),
        "12"
    );
}

#[test]
fn warning_and_error_messages() {
    assert_eq!(warning_message("oops", &plain_options()), "warning: oops\n\n");
    assert_eq!(
        warning_message("oops", &color_options(BackgroundColor::Light)),
        "\x1b[1m\x1b[33mwarning: \x1b[39m\x1b[0moops\n\n"
    );
    assert_eq!(error_message("bad", false), "error: bad\n");
    assert_eq!(
        error_message("bad", true),
        "\x1b[1m\x1b[31merror: \x1b[39m\x1b[0mbad\n"
    );
}

// Model.

#[test]
fn model_queries() {
    assert!(BackgroundColor::Dark.is_dark());
    assert!(!BackgroundColor::Light.is_dark());
    assert_eq!(LineNumber(7).as_usize(), 7);
    assert!(changed(0, 0, 1).kind.is_novel());
    assert!(!kept(0, 0, 1).kind.is_novel());
    assert!(FileFormat::SupportedLanguage("Rust".to_string()).is_supported_language());
    assert!(!FileFormat::PlainText.is_supported_language());
    assert_eq!(FileFormat::SupportedLanguage("Rust".to_string()).display_name(), "Rust");
    assert_eq!(FileFormat::PlainText.display_name(), "Text");
}

fn without_escapes(s: &str) -> String {
    let mut out = String::new();
    let mut in_escape = false;
    for c in s.chars() {
        if in_escape {
            if c == 'm' {
                in_escape = false;
            }
        } else if c == '\x1b' {
            in_escape = true;
        } else {
            out.push(c);
        }
    }
    out
}

#[test]
fn styled_wrapping_keeps_the_text() {
    let red = Style::new().red().on_truecolor(1, 2, 3);
    let green = Style::new().green().bold();
    let line = "a\tbcd\u{e9}fgh ij";
    let styles = [(sp(0, 1, 4), red), (sp(0, 4, 9), green), (sp(0, 11, 30), red)];
    let res = split_and_apply(line, 4, 2, &styles, Side::Right);
    assert!(res.len() > 1);
    assert_eq!(without_escapes(&res.concat()), replace_tabs(line, 2));
    assert_eq!(without_escapes(&apply_line(line, &styles)), line);
}

#[test]
fn painted_text_escape_codes() {
    let s = Style::new().truecolor(1, 22, 255).on_bright_black().bold().dimmed().underline();
    assert_eq!(
        apply_line("x", &[(sp(0, 0, 1), s)]),
        "\x1b[38;2;1;22;255;100;1;2;4mx\x1b[0m"
    );
}
