//! The styles that changed and unchanged positions are shown with.
use vstd::prelude::*;
use vstd::utf8::*;
use crate::model::{LineNumber, SingleLineSpan, AtomKind, BackgroundColor, RgbColor, Side, StringKind, TokenKind, hex_color, leading_hashes, strip_hashes, hex_pair, hex_digit};
use crate::paint::{Color, Style};

verus! {

/// The style for changed content on `side`: a background (a custom RGB
/// color where one is given for the side) when `use_background` is set,
/// else a red or green foreground, bright on a dark background.
pub open spec fn novel_style_of(
    style: Style,
    side: Side,
    background: BackgroundColor,
    use_background: bool,
    rgb_added: Option<RgbColor>,
    rgb_removed: Option<RgbColor>,
) -> Style {
    if use_background {
        let custom = match side {
            Side::Right => rgb_added,
            Side::Left => rgb_removed,
        };
        match custom {
            Some(rgb) => Style { bg: Some(Color::Rgb(rgb.r, rgb.g, rgb.b)), ..style },
            None => if background == BackgroundColor::Dark {
                Style { bg: Some(Color::BrightBlack), ..style }
            } else {
                Style { bg: Some(Color::Black), ..style }
            },
        }
    } else if background == BackgroundColor::Dark {
        match side {
            Side::Left => Style { fg: Some(Color::BrightRed), ..style },
            Side::Right => Style { fg: Some(Color::BrightGreen), ..style },
        }
    } else {
        match side {
            Side::Left => Style { fg: Some(Color::Red), ..style },
            Side::Right => Style { fg: Some(Color::Green), ..style },
        }
    }
}

/// The style for changed content on `side`, built on `style`.
pub fn novel_style(
    style: Style,
    side: Side,
    background: BackgroundColor,
    use_background: bool,
    rgb_added: Option<RgbColor>,
    rgb_removed: Option<RgbColor>,
) -> (r: Style)
    ensures
        r == novel_style_of(style, side, background, use_background, rgb_added, rgb_removed),
{
    if use_background {
        let custom_color = match side {
            Side::Right => rgb_added,
            Side::Left => rgb_removed,
        };
        if let Some(rgb) = custom_color {
            style.on_truecolor(rgb.r, rgb.g, rgb.b)
        } else {
            if background.is_dark() {
                style.on_bright_black()
            } else {
                style.on_black()
            }
        }
    } else {
        if background.is_dark() {
            match side {
                Side::Left => style.bright_red(),
                Side::Right => style.bright_green(),
            }
        } else {
            match side {
                Side::Left => style.red(),
                Side::Right => style.green(),
            }
        }
    }
}

/// In background mode changed content keeps its foreground color and its
/// effects, so syntax colors stay visible, and gets a background; in
/// foreground mode it keeps its background and effects and gets a red or
/// green foreground.
pub proof fn lemma_novel_style_layers(
    style: Style,
    side: Side,
    background: BackgroundColor,
    use_background: bool,
    rgb_added: Option<RgbColor>,
    rgb_removed: Option<RgbColor>,
)
    ensures
        ({
            let r = novel_style_of(style, side, background, use_background, rgb_added, rgb_removed);
            &&& r.bold == style.bold && r.dimmed == style.dimmed && r.underline == style.underline
            &&& use_background ==> r.fg == style.fg && r.bg is Some
            &&& !use_background ==> r.bg == style.bg && r.fg is Some
        }),
{
}

/// The colors that mark changed content. In background mode the
/// background is the custom color given for the side (the added color on
/// the right, the removed color on the left), else gray: bright black on a
/// dark terminal, black on a light one; the foreground is kept. In
/// foreground mode the foreground is red on the left and green on the
/// right, bright on a dark terminal, and the background is kept. Bold, dim
/// and underline are always kept.
pub proof fn lemma_novel_style_colors(
    style: Style,
    side: Side,
    background: BackgroundColor,
    use_background: bool,
    rgb_added: Option<RgbColor>,
    rgb_removed: Option<RgbColor>,
)
    ensures
        ({
            let r = novel_style_of(style, side, background, use_background, rgb_added, rgb_removed);
            let dark = background == BackgroundColor::Dark;
            &&& r.bold == style.bold && r.dimmed == style.dimmed && r.underline == style.underline
            &&& use_background ==> r.fg == style.fg
            &&& use_background && side == Side::Left && rgb_removed is Some ==> r.bg == Some(
                Color::Rgb(rgb_removed.unwrap().r, rgb_removed.unwrap().g, rgb_removed.unwrap().b),
            )
            &&& use_background && side == Side::Right && rgb_added is Some ==> r.bg == Some(
                Color::Rgb(rgb_added.unwrap().r, rgb_added.unwrap().g, rgb_added.unwrap().b),
            )
            &&& use_background && side == Side::Left && rgb_removed is None ==> r.bg == Some(
                if dark { Color::BrightBlack } else { Color::Black },
            )
            &&& use_background && side == Side::Right && rgb_added is None ==> r.bg == Some(
                if dark { Color::BrightBlack } else { Color::Black },
            )
            &&& !use_background ==> r.bg == style.bg
            &&& !use_background && side == Side::Left ==> r.fg == Some(
                if dark { Color::BrightRed } else { Color::Red },
            )
            &&& !use_background && side == Side::Right ==> r.fg == Some(
                if dark { Color::BrightGreen } else { Color::Green },
            )
        }),
{
}

/// Whether `c` is a hexadecimal digit of either case.
pub open spec fn is_hex_char(c: char) -> bool {
    ('0' <= c <= '9') || ('a' <= c <= 'f') || ('A' <= c <= 'F')
}

/// Value of a hexadecimal digit of either case.
pub open spec fn hex_value(c: char) -> int {
    if c <= '9' {
        (c as int) - 0x30
    } else if c <= 'F' {
        (c as int) - 0x41 + 10
    } else {
        (c as int) - 0x61 + 10
    }
}

/// The hexadecimal digit of `d`, upper-case where asked.
pub open spec fn hex_digit_char(d: int, upper: bool) -> char {
    if d < 10 {
        (d + 0x30) as char
    } else if upper {
        (d - 10 + 0x41) as char
    } else {
        (d - 10 + 0x61) as char
    }
}

/// `c` as six hexadecimal digits, two per component, in one case.
pub open spec fn hex_text(c: RgbColor, upper: bool) -> Seq<char> {
    seq![
        hex_digit_char(c.r as int / 16, upper),
        hex_digit_char(c.r as int % 16, upper),
        hex_digit_char(c.g as int / 16, upper),
        hex_digit_char(c.g as int % 16, upper),
        hex_digit_char(c.b as int / 16, upper),
        hex_digit_char(c.b as int % 16, upper),
    ]
}

/// Six hexadecimal digits of either case, after any number of `#`, name
/// the color whose components they spell.
pub proof fn lemma_hex_digits_read(s: Seq<char>)
    requires
        strip_hashes(s).len() == 6,
        forall|i: int| 0 <= i < 6 ==> is_hex_char(#[trigger] strip_hashes(s)[i]),
    ensures
        ({
            let t = strip_hashes(s);
            hex_color(s) == Ok::<RgbColor, Seq<char>>(
                RgbColor {
                    r: (hex_value(t[0]) * 16 + hex_value(t[1])) as u8,
                    g: (hex_value(t[2]) * 16 + hex_value(t[3])) as u8,
                    b: (hex_value(t[4]) * 16 + hex_value(t[5])) as u8,
                },
            )
        }),
{
    let t = strip_hashes(s);
    assert(is_ascii_chars(t)) by {
        assert forall|i: int| 0 <= i < t.len() implies '\0' <= #[trigger] t[i] <= '\u{7f}' by {
            assert(is_hex_char(t[i]));
        }
    }
    is_ascii_chars_encode_utf8(t);
    let b = encode_utf8(t);
    assert forall|i: int| 0 <= i < 6 implies #[trigger] hex_digit(b[i]) == Some(hex_value(t[i]) as u8) by {
        assert(t[i] as u8 == b[i]);
        assert(is_hex_char(t[i]));
    }
}

/// A `#` and six hexadecimal digits name the color they spell.
proof fn lemma_hash_hex_literal(s: Seq<char>)
    requires
        s.len() == 7,
        s[0] == '#',
        forall|i: int| 1 <= i < 7 ==> is_hex_char(#[trigger] s[i]),
    ensures
        hex_color(s) == Ok::<RgbColor, Seq<char>>(
            RgbColor {
                r: (hex_value(s[1]) * 16 + hex_value(s[2])) as u8,
                g: (hex_value(s[3]) * 16 + hex_value(s[4])) as u8,
                b: (hex_value(s[5]) * 16 + hex_value(s[6])) as u8,
            },
        ),
{
    let t = s.drop_first();
    assert(t[0] == s[1] && is_hex_char(s[1]));
    assert(leading_hashes(t) == 0);
    assert(leading_hashes(s) == 1);
    assert(strip_hashes(s) =~= t);
    assert forall|i: int| 0 <= i < 6 implies is_hex_char(#[trigger] strip_hashes(s)[i]) by {
        assert(t[i] == s[i + 1]);
    }
    lemma_hex_digits_read(s);
}

/// Every color reads back from its six hexadecimal digits, in lower or
/// upper case, with or without a leading `#`.
pub proof fn lemma_hex_round_trip(c: RgbColor, upper: bool)
    ensures
        hex_color(hex_text(c, upper)) == Ok::<RgbColor, Seq<char>>(c),
        hex_color(seq!['#'] + hex_text(c, upper)) == Ok::<RgbColor, Seq<char>>(c),
{
    let t = hex_text(c, upper);
    assert forall|d: int| 0 <= d < 16 implies is_hex_char(#[trigger] hex_digit_char(d, upper))
        && hex_value(hex_digit_char(d, upper)) == d by {
        if d < 10 {
            assert((hex_digit_char(d, upper) as int) == d + 0x30);
        } else if upper {
            assert((hex_digit_char(d, upper) as int) == d - 10 + 0x41);
        } else {
            assert((hex_digit_char(d, upper) as int) == d - 10 + 0x61);
        }
    }
    assert(t[0] == hex_digit_char(c.r as int / 16, upper));
    assert(t[1] == hex_digit_char(c.r as int % 16, upper));
    assert(t[2] == hex_digit_char(c.g as int / 16, upper));
    assert(t[3] == hex_digit_char(c.g as int % 16, upper));
    assert(t[4] == hex_digit_char(c.b as int / 16, upper));
    assert(t[5] == hex_digit_char(c.b as int % 16, upper));
    assert(t[0] != '#');
    assert(leading_hashes(t) == 0);
    assert(strip_hashes(t) =~= t);
    lemma_hex_digits_read(t);
    assert((c.r / 16) * 16 + c.r % 16 == c.r);
    assert((c.g / 16) * 16 + c.g % 16 == c.g);
    assert((c.b / 16) * 16 + c.b % 16 == c.b);
    crate::model::lemma_hex_hash_prefix(t);
}

/// The color that syntax highlighting gives an atom kind, where it uses an
/// RGB color.
pub open spec fn syntax_rgb(kind: AtomKind) -> Option<RgbColor> {
    match kind {
        AtomKind::String(_) => Some(RgbColor { r: 0xcc, g: 0x93, b: 0x93 }),
        AtomKind::Comment => Some(RgbColor { r: 0x7f, g: 0x9f, b: 0x7f }),
        AtomKind::Keyword => Some(RgbColor { r: 0xf0, g: 0xdf, b: 0xaf }),
        AtomKind::Type | AtomKind::Punctuation => Some(RgbColor { r: 0x8f, g: 0x8f, b: 0x8f }),
        AtomKind::Function => Some(RgbColor { r: 0xef, g: 0xef, b: 0x8f }),
        AtomKind::Property => Some(RgbColor { r: 0xef, g: 0xdc, b: 0xbc }),
        AtomKind::Number => Some(RgbColor { r: 0x8c, g: 0xd0, b: 0xd3 }),
        AtomKind::Constant => Some(RgbColor { r: 0xdc, g: 0xa3, b: 0xa3 }),
        AtomKind::Variable | AtomKind::Normal => Some(RgbColor { r: 0xdc, g: 0xdc, b: 0xcc }),
        AtomKind::Operator => Some(RgbColor { r: 0xf0, g: 0xef, b: 0xd0 }),
        AtomKind::Tag => Some(RgbColor { r: 0xe8, g: 0x93, b: 0x93 }),
        AtomKind::Attribute | AtomKind::Decorator | AtomKind::Parameter => Some(
            RgbColor { r: 0xff, g: 0xcf, b: 0xaf },
        ),
        AtomKind::Constructor | AtomKind::Namespace => Some(RgbColor { r: 0xdf, g: 0xaf, b: 0x8f }),
        AtomKind::Label => Some(RgbColor { r: 0xdf, g: 0xcf, b: 0xaf }),
        AtomKind::TreeSitterError => None,
    }
}

/// `style` with the syntax color of `kind` as its foreground.
pub open spec fn syntax_style_of(style: Style, kind: AtomKind) -> Style {
    match syntax_rgb(kind) {
        Some(c) => Style { fg: Some(Color::Rgb(c.r, c.g, c.b)), ..style },
        None => Style { fg: Some(Color::Magenta), ..style },
    }
}

/// The color that a valid hex color string names.
pub fn zenburn(hex: &str) -> (c: RgbColor)
    requires
        hex_color(hex@) is Ok,
    ensures
        hex_color(hex@) == Ok::<RgbColor, Seq<char>>(c),
{
    match RgbColor::from_hex(hex) {
        Ok(c) => c,
        Err(_) => {
            proof {
                assert(false);
            }
            RgbColor::new(0, 0, 0)
        },
    }
}

/// `style` with `dark_background_color` as its foreground on a dark
/// background, else `light_background_color`.
pub fn foreground_color(
    style: Style,
    background: BackgroundColor,
    dark_background_color: RgbColor,
    light_background_color: RgbColor,
) -> (r: Style)
    ensures
        r == (Style {
            fg: Some(
                if background == BackgroundColor::Dark {
                    Color::Rgb(dark_background_color.r, dark_background_color.g, dark_background_color.b)
                } else {
                    Color::Rgb(light_background_color.r, light_background_color.g, light_background_color.b)
                },
            ),
            ..style
        }),
{
    let color = if background.is_dark() {
        dark_background_color
    } else {
        light_background_color
    };
    style.truecolor(color.r, color.g, color.b)
}

/// The colors of the syntax palette, read from their hex strings.
proof fn lemma_palette_cc9393()
    ensures
        hex_color("#cc9393"@) == Ok::<RgbColor, Seq<char>>(RgbColor { r: 204, g: 147, b: 147 }),
{
    reveal_strlit("#cc9393");
    lemma_hash_hex_literal("#cc9393"@);
}

proof fn lemma_palette_7f9f7f()
    ensures
        hex_color("#7f9f7f"@) == Ok::<RgbColor, Seq<char>>(RgbColor { r: 127, g: 159, b: 127 }),
{
    reveal_strlit("#7f9f7f");
    lemma_hash_hex_literal("#7f9f7f"@);
}

proof fn lemma_palette_f0dfaf()
    ensures
        hex_color("#f0dfaf"@) == Ok::<RgbColor, Seq<char>>(RgbColor { r: 240, g: 223, b: 175 }),
{
    reveal_strlit("#f0dfaf");
    lemma_hash_hex_literal("#f0dfaf"@);
}

proof fn lemma_palette_8f8f8f()
    ensures
        hex_color("#8f8f8f"@) == Ok::<RgbColor, Seq<char>>(RgbColor { r: 143, g: 143, b: 143 }),
{
    reveal_strlit("#8f8f8f");
    lemma_hash_hex_literal("#8f8f8f"@);
}

proof fn lemma_palette_efef8f()
    ensures
        hex_color("#efef8f"@) == Ok::<RgbColor, Seq<char>>(RgbColor { r: 239, g: 239, b: 143 }),
{
    reveal_strlit("#efef8f");
    lemma_hash_hex_literal("#efef8f"@);
}

proof fn lemma_palette_efdcbc()
    ensures
        hex_color("#efdcbc"@) == Ok::<RgbColor, Seq<char>>(RgbColor { r: 239, g: 220, b: 188 }),
{
    reveal_strlit("#efdcbc");
    lemma_hash_hex_literal("#efdcbc"@);
}

proof fn lemma_palette_8cd0d3()
    ensures
        hex_color("#8cd0d3"@) == Ok::<RgbColor, Seq<char>>(RgbColor { r: 140, g: 208, b: 211 }),
{
    reveal_strlit("#8cd0d3");
    lemma_hash_hex_literal("#8cd0d3"@);
}

proof fn lemma_palette_dca3a3()
    ensures
        hex_color("#dca3a3"@) == Ok::<RgbColor, Seq<char>>(RgbColor { r: 220, g: 163, b: 163 }),
{
    reveal_strlit("#dca3a3");
    lemma_hash_hex_literal("#dca3a3"@);
}

proof fn lemma_palette_dcdccc()
    ensures
        hex_color("#dcdccc"@) == Ok::<RgbColor, Seq<char>>(RgbColor { r: 220, g: 220, b: 204 }),
{
    reveal_strlit("#dcdccc");
    lemma_hash_hex_literal("#dcdccc"@);
}

proof fn lemma_palette_f0efd0()
    ensures
        hex_color("#f0efd0"@) == Ok::<RgbColor, Seq<char>>(RgbColor { r: 240, g: 239, b: 208 }),
{
    reveal_strlit("#f0efd0");
    lemma_hash_hex_literal("#f0efd0"@);
}

proof fn lemma_palette_e89393()
    ensures
        hex_color("#e89393"@) == Ok::<RgbColor, Seq<char>>(RgbColor { r: 232, g: 147, b: 147 }),
{
    reveal_strlit("#e89393");
    lemma_hash_hex_literal("#e89393"@);
}

proof fn lemma_palette_ffcfaf()
    ensures
        hex_color("#ffcfaf"@) == Ok::<RgbColor, Seq<char>>(RgbColor { r: 255, g: 207, b: 175 }),
{
    reveal_strlit("#ffcfaf");
    lemma_hash_hex_literal("#ffcfaf"@);
}

proof fn lemma_palette_dfaf8f()
    ensures
        hex_color("#dfaf8f"@) == Ok::<RgbColor, Seq<char>>(RgbColor { r: 223, g: 175, b: 143 }),
{
    reveal_strlit("#dfaf8f");
    lemma_hash_hex_literal("#dfaf8f"@);
}

proof fn lemma_palette_dfcfaf()
    ensures
        hex_color("#dfcfaf"@) == Ok::<RgbColor, Seq<char>>(RgbColor { r: 223, g: 207, b: 175 }),
{
    reveal_strlit("#dfcfaf");
    lemma_hash_hex_literal("#dfcfaf"@);
}

/// The colors of the syntax palette, read from their hex strings.
pub proof fn lemma_syntax_palette()
    ensures
        hex_color("#cc9393"@) == Ok::<RgbColor, Seq<char>>(RgbColor { r: 204, g: 147, b: 147 }),
        hex_color("#7f9f7f"@) == Ok::<RgbColor, Seq<char>>(RgbColor { r: 127, g: 159, b: 127 }),
        hex_color("#f0dfaf"@) == Ok::<RgbColor, Seq<char>>(RgbColor { r: 240, g: 223, b: 175 }),
        hex_color("#8f8f8f"@) == Ok::<RgbColor, Seq<char>>(RgbColor { r: 143, g: 143, b: 143 }),
        hex_color("#efef8f"@) == Ok::<RgbColor, Seq<char>>(RgbColor { r: 239, g: 239, b: 143 }),
        hex_color("#efdcbc"@) == Ok::<RgbColor, Seq<char>>(RgbColor { r: 239, g: 220, b: 188 }),
        hex_color("#8cd0d3"@) == Ok::<RgbColor, Seq<char>>(RgbColor { r: 140, g: 208, b: 211 }),
        hex_color("#dca3a3"@) == Ok::<RgbColor, Seq<char>>(RgbColor { r: 220, g: 163, b: 163 }),
        hex_color("#dcdccc"@) == Ok::<RgbColor, Seq<char>>(RgbColor { r: 220, g: 220, b: 204 }),
        hex_color("#f0efd0"@) == Ok::<RgbColor, Seq<char>>(RgbColor { r: 240, g: 239, b: 208 }),
        hex_color("#e89393"@) == Ok::<RgbColor, Seq<char>>(RgbColor { r: 232, g: 147, b: 147 }),
        hex_color("#ffcfaf"@) == Ok::<RgbColor, Seq<char>>(RgbColor { r: 255, g: 207, b: 175 }),
        hex_color("#dfaf8f"@) == Ok::<RgbColor, Seq<char>>(RgbColor { r: 223, g: 175, b: 143 }),
        hex_color("#dfcfaf"@) == Ok::<RgbColor, Seq<char>>(RgbColor { r: 223, g: 207, b: 175 }),
{
    lemma_palette_cc9393();
    lemma_palette_7f9f7f();
    lemma_palette_f0dfaf();
    lemma_palette_8f8f8f();
    lemma_palette_efef8f();
    lemma_palette_efdcbc();
    lemma_palette_8cd0d3();
    lemma_palette_dca3a3();
    lemma_palette_dcdccc();
    lemma_palette_f0efd0();
    lemma_palette_e89393();
    lemma_palette_ffcfaf();
    lemma_palette_dfaf8f();
    lemma_palette_dfcfaf();
}

/// `style` with the syntax color of `atom_kind` as its foreground.
#[verifier::rlimit(50)]
pub fn syntax_style(style: Style, atom_kind: AtomKind, background: BackgroundColor) -> (r: Style)
    ensures
        r == syntax_style_of(style, atom_kind),
{
    proof {
        lemma_syntax_palette();
    }
    let style = match atom_kind {
        AtomKind::String(StringKind::StringLiteral) | AtomKind::String(StringKind::Text) => {
            foreground_color(style, background, zenburn("#cc9393"), zenburn("#cc9393"))
        },
        AtomKind::Comment => {
            foreground_color(style, background, zenburn("#7f9f7f"), zenburn("#7f9f7f"))
        },
        AtomKind::Keyword => {
            foreground_color(style, background, zenburn("#f0dfaf"), zenburn("#f0dfaf"))
        },
        AtomKind::Type | AtomKind::Punctuation => {
            foreground_color(style, background, zenburn("#8f8f8f"), zenburn("#8f8f8f"))
        },
        AtomKind::Function => {
            foreground_color(style, background, zenburn("#efef8f"), zenburn("#efef8f"))
        },
        AtomKind::Property => {
            foreground_color(style, background, zenburn("#efdcbc"), zenburn("#efdcbc"))
        },
        AtomKind::Number => {
            foreground_color(style, background, zenburn("#8cd0d3"), zenburn("#8cd0d3"))
        },
        AtomKind::Constant => {
            foreground_color(style, background, zenburn("#dca3a3"), zenburn("#dca3a3"))
        },
        AtomKind::Variable | AtomKind::Normal => {
            foreground_color(style, background, zenburn("#dcdccc"), zenburn("#dcdccc"))
        },
        AtomKind::Operator => {
            foreground_color(style, background, zenburn("#f0efd0"), zenburn("#f0efd0"))
        },
        AtomKind::Tag => {
            foreground_color(style, background, zenburn("#e89393"), zenburn("#e89393"))
        },
        AtomKind::Attribute | AtomKind::Decorator => {
            foreground_color(style, background, zenburn("#ffcfaf"), zenburn("#ffcfaf"))
        },
        AtomKind::Parameter => {
            foreground_color(style, background, zenburn("#ffcfaf"), zenburn("#ffcfaf"))
        },
        AtomKind::Constructor | AtomKind::Namespace => {
            foreground_color(style, background, zenburn("#dfaf8f"), zenburn("#dfaf8f"))
        },
        AtomKind::Label => {
            foreground_color(style, background, zenburn("#dfcfaf"), zenburn("#dfcfaf"))
        },
        AtomKind::TreeSitterError => style.purple(),
    };
    style
}

/// `style` with its syntax color, where highlighting is on and the token
/// is an atom.
pub open spec fn maybe_syntax_style_of(style: Style, highlight: TokenKind, syntax_highlight: bool) -> Style {
    match highlight {
        TokenKind::Atom(kind) => if syntax_highlight {
            syntax_style_of(style, kind)
        } else {
            style
        },
        TokenKind::Delimiter => style,
    }
}

/// The syntax style of an atom when syntax highlighting is on; `style` as it is otherwise.
pub fn maybe_syntax_style(
    style: Style,
    highlight: TokenKind,
    background: BackgroundColor,
    syntax_highlight: bool,
) -> (r: Style)
    ensures
        r == maybe_syntax_style_of(style, highlight, syntax_highlight),
{
    if !syntax_highlight {
        return style;
    }
    let atom_kind = match highlight {
        TokenKind::Atom(atom_kind) => atom_kind,
        _ => {
            return style;
        },
    };
    syntax_style(style, atom_kind, background)
}

/// Whether `next` continues `prev`: same style, same line, and starting
/// where `prev` ends.
pub open spec fn continues(prev: (SingleLineSpan, Style), next: (SingleLineSpan, Style)) -> bool {
    prev.1 == next.1 && prev.0.line == next.0.line && prev.0.end_col == next.0.start_col
}

/// `items` with each run of spans that continue one another merged into one.
pub open spec fn merged(items: Seq<(SingleLineSpan, Style)>) -> Seq<(SingleLineSpan, Style)>
    decreases items.len(),
{
    if items.len() == 0 {
        Seq::empty()
    } else {
        let m = merged(items.drop_last());
        let next = items.last();
        if m.len() > 0 && continues(m.last(), next) {
            m.drop_last().push((SingleLineSpan { end_col: next.0.end_col, ..m.last().0 }, next.1))
        } else {
            m.push(next)
        }
    }
}

/// Merge spans where the end of one span matches the start of the
/// next span.
pub fn merge_adjacent(items: &[(SingleLineSpan, Style)]) -> (res: Vec<(SingleLineSpan, Style)>)
    ensures
        res@ == merged(items@),
{
    let mut merged_items: Vec<(SingleLineSpan, Style)> = Vec::new();
    let mut prev_item: Option<(SingleLineSpan, Style)> = None;
    let mut i: usize = 0;
    while i < items.len()
        invariant
            i <= items@.len(),
            merged(items@.take(i as int)) == match prev_item {
                Some(p) => merged_items@.push(p),
                None => merged_items@,
            },
            prev_item is None <==> i == 0,
        decreases items@.len() - i,
    {
        let (span, style) = items[i];
        proof {
            assert(items@.take(i + 1).drop_last() =~= items@.take(i as int));
            assert(items@.take(i + 1).last() == items@[i as int]);
        }
        match prev_item {
            Some((prev_span, prev_style)) => {
                if prev_style == style && prev_span.line == span.line && prev_span.end_col
                    == span.start_col {
                    let mut p = prev_span;
                    p.end_col = span.end_col;
                    prev_item = Some((p, style));
                    proof {
                        let m = merged(items@.take(i as int));
                        assert(m.drop_last() =~= merged_items@);
                    }
                } else {
                    merged_items.push((prev_span, prev_style));
                    prev_item = Some((span, style));
                }
            },
            None => {
                prev_item = Some((span, style));
                proof {
                    assert(merged(items@.take(0)) =~= Seq::<(SingleLineSpan, Style)>::empty());
                }
            },
        }
        i = i + 1;
    }
    if let Some(last_item) = prev_item {
        merged_items.push(last_item);
    }
    proof {
        assert(items@.take(items@.len() as int) =~= items@);
    }
    merged_items
}

/// After merging, no span continues the one before it, and there are no
/// more spans than before.
pub proof fn lemma_merged_separate(items: Seq<(SingleLineSpan, Style)>)
    ensures
        merged(items).len() <= items.len(),
        forall|i: int|
            0 <= i < merged(items).len() - 1 ==> !continues(
                merged(items)[i],
                #[trigger] merged(items)[i + 1],
            ),
    decreases items.len(),
{
    if items.len() > 0 {
        let m = merged(items.drop_last());
        lemma_merged_separate(items.drop_last());
        let next = items.last();
        let r = merged(items);
        if m.len() > 0 && continues(m.last(), next) {
            assert forall|i: int| 0 <= i < r.len() - 1 implies !continues(r[i], #[trigger] r[i + 1]) by {
                if i + 1 < m.len() - 1 {
                    assert(r[i] == m[i] && r[i + 1] == m[i + 1]);
                } else {
                    assert(r[i] == m[i]);
                    assert(!continues(m[i], m[i + 1]));
                }
            }
        } else {
            assert forall|i: int| 0 <= i < r.len() - 1 implies !continues(r[i], #[trigger] r[i + 1]) by {
                if i + 1 < m.len() {
                    assert(r[i] == m[i] && r[i + 1] == m[i + 1]);
                } else {
                    assert(r[i] == m.last() && r[i + 1] == next);
                }
            }
        }
    }
}

/// Merging spans none of which continues the one before it changes
/// nothing.
pub proof fn lemma_merged_identity(items: Seq<(SingleLineSpan, Style)>)
    requires
        forall|i: int| 0 <= i < items.len() - 1 ==> !continues(items[i], #[trigger] items[i + 1]),
    ensures
        merged(items) == items,
    decreases items.len(),
{
    if items.len() > 0 {
        let d = items.drop_last();
        assert forall|i: int| 0 <= i < d.len() - 1 implies !continues(d[i], #[trigger] d[i + 1]) by {
            assert(d[i] == items[i] && d[i + 1] == items[i + 1]);
        }
        lemma_merged_identity(d);
        if d.len() > 0 {
            assert(d.last() == items[items.len() - 2]);
        }
        assert(d.push(items.last()) =~= items);
    }
}

/// Merging is idempotent: merging merged spans gives them back.
pub proof fn lemma_merged_idempotent(items: Seq<(SingleLineSpan, Style)>)
    ensures
        merged(merged(items)) == merged(items),
{
    lemma_merged_separate(items);
    lemma_merged_identity(merged(items));
}


/// The Zenburn palette of syntax highlighting: every string kind is
/// #cc9393, comments #7f9f7f, keywords #f0dfaf, types and punctuation
/// #8f8f8f, functions #efef8f, properties #efdcbc, numbers #8cd0d3,
/// constants #dca3a3, variables and plain atoms #dcdccc, operators
/// #f0efd0, tags #e89393, attributes, decorators and parameters #ffcfaf,
/// constructors and namespaces #dfaf8f, labels #dfcfaf; parse errors are
/// purple. Only the foreground changes.
pub proof fn lemma_syntax_palette_colors(style: Style, kind: AtomKind)
    ensures
        ({
            let r = syntax_style_of(style, kind);
            let rgb = |x: u8, y: u8, z: u8| Some(Color::Rgb(x, y, z));
            &&& r == (Style { fg: r.fg, ..style })
            &&& kind is String ==> r.fg == rgb(0xcc, 0x93, 0x93)
            &&& kind is Comment ==> r.fg == rgb(0x7f, 0x9f, 0x7f)
            &&& kind is Keyword ==> r.fg == rgb(0xf0, 0xdf, 0xaf)
            &&& (kind is Type || kind is Punctuation) ==> r.fg == rgb(0x8f, 0x8f, 0x8f)
            &&& kind is Function ==> r.fg == rgb(0xef, 0xef, 0x8f)
            &&& kind is Property ==> r.fg == rgb(0xef, 0xdc, 0xbc)
            &&& kind is Number ==> r.fg == rgb(0x8c, 0xd0, 0xd3)
            &&& kind is Constant ==> r.fg == rgb(0xdc, 0xa3, 0xa3)
            &&& (kind is Variable || kind is Normal) ==> r.fg == rgb(0xdc, 0xdc, 0xcc)
            &&& kind is Operator ==> r.fg == rgb(0xf0, 0xef, 0xd0)
            &&& kind is Tag ==> r.fg == rgb(0xe8, 0x93, 0x93)
            &&& (kind is Attribute || kind is Decorator || kind is Parameter) ==> r.fg == rgb(0xff, 0xcf, 0xaf)
            &&& (kind is Constructor || kind is Namespace) ==> r.fg == rgb(0xdf, 0xaf, 0x8f)
            &&& kind is Label ==> r.fg == rgb(0xdf, 0xcf, 0xaf)
            &&& kind is TreeSitterError ==> r.fg == Some(Color::Magenta)
        }),
{
}


/// Syntax colors are applied only with syntax highlighting on and only to
/// atoms, whose color is then their palette color; anything else keeps its
/// style.
pub proof fn lemma_maybe_syntax_style_when(style: Style, highlight: TokenKind, syntax_highlight: bool)
    ensures
        !syntax_highlight ==> maybe_syntax_style_of(style, highlight, syntax_highlight) == style,
        highlight is Delimiter ==> maybe_syntax_style_of(style, highlight, syntax_highlight) == style,
        syntax_highlight && highlight is Atom ==> maybe_syntax_style_of(style, highlight, syntax_highlight)
            == syntax_style_of(style, highlight->Atom_0),
{
}


/// Two spans are merged exactly when they have the same style, lie on the
/// same line and the second starts where the first ends; the merged span
/// runs from the first's start to the second's end.
pub proof fn lemma_merge_two(a: SingleLineSpan, sa: Style, b: SingleLineSpan, sb: Style)
    ensures
        sa == sb && a.line == b.line && a.end_col == b.start_col ==> merged(seq![(a, sa), (b, sb)])
            == seq![(SingleLineSpan { line: a.line, start_col: a.start_col, end_col: b.end_col }, sa)],
        !(sa == sb && a.line == b.line && a.end_col == b.start_col) ==> merged(seq![(a, sa), (b, sb)])
            == seq![(a, sa), (b, sb)],
{
    let s2 = seq![(a, sa), (b, sb)];
    let one = seq![(a, sa)];
    let e = Seq::<(SingleLineSpan, Style)>::empty();
    assert(s2.drop_last() =~= one);
    assert(s2.last() == (b, sb));
    assert(one.drop_last() =~= e);
    assert(one.last() == (a, sa));
    assert(merged(e) == e);
    assert(merged(one) == e.push((a, sa)));
    assert(merged(one) =~= one);
    if sa == sb && a.line == b.line && a.end_col == b.start_col {
        assert(one.drop_last().push((SingleLineSpan { end_col: b.end_col, ..a }, sb)) =~= seq![
            (SingleLineSpan { line: a.line, start_col: a.start_col, end_col: b.end_col }, sa),
        ]);
    }
    assert(seq![(a, sa)].push((b, sb)) =~= s2);
}

} // verus!
