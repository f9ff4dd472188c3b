//! Terminal styles, and text painted with them.
use vstd::prelude::*;
use owo_colors::AnsiColors::{Black, BrightBlack, BrightGreen, BrightRed, Green, Magenta, Red};
use owo_colors::DynColors::{Ansi, Rgb};
use owo_colors::OwoColorize;
use owo_colors::Style as OwoStyle;

verus! {

/// A terminal color.
#[derive(Clone, Copy, Debug, PartialEq, Eq, Structural)]
pub enum Color {
    Black,
    Red,
    Green,
    Magenta,
    BrightBlack,
    BrightRed,
    BrightGreen,
    Rgb(u8, u8, u8),
}

/// A text style: colors and effects, applied when text is painted.
#[derive(Clone, Copy, Debug, PartialEq, Eq, Structural)]
pub struct Style {
    pub fg: Option<Color>,
    pub bg: Option<Color>,
    pub bold: bool,
    pub dimmed: bool,
    pub underline: bool,
}

/// The style that changes nothing.
pub open spec fn plain_style() -> Style {
    Style { fg: None, bg: None, bold: false, dimmed: false, underline: false }
}

impl Style {
    /// The style that changes nothing.
    pub fn new() -> (s: Style)
        ensures
            s == plain_style(),
    {
        Style { fg: None, bg: None, bold: false, dimmed: false, underline: false }
    }

    /// This style with a red foreground.
    pub fn red(self) -> (s: Style)
        ensures
            s == (Style { fg: Some(Color::Red), ..self }),
    {
        Style { fg: Some(Color::Red), ..self }
    }

    /// This style with a green foreground.
    pub fn green(self) -> (s: Style)
        ensures
            s == (Style { fg: Some(Color::Green), ..self }),
    {
        Style { fg: Some(Color::Green), ..self }
    }

    /// This style with a bright red foreground.
    pub fn bright_red(self) -> (s: Style)
        ensures
            s == (Style { fg: Some(Color::BrightRed), ..self }),
    {
        Style { fg: Some(Color::BrightRed), ..self }
    }

    /// This style with a bright green foreground.
    pub fn bright_green(self) -> (s: Style)
        ensures
            s == (Style { fg: Some(Color::BrightGreen), ..self }),
    {
        Style { fg: Some(Color::BrightGreen), ..self }
    }

    /// This style with a purple (magenta) foreground.
    pub fn purple(self) -> (s: Style)
        ensures
            s == (Style { fg: Some(Color::Magenta), ..self }),
    {
        Style { fg: Some(Color::Magenta), ..self }
    }

    /// This style with an RGB foreground.
    pub fn truecolor(self, r: u8, g: u8, b: u8) -> (s: Style)
        ensures
            s == (Style { fg: Some(Color::Rgb(r, g, b)), ..self }),
    {
        Style { fg: Some(Color::Rgb(r, g, b)), ..self }
    }

    /// This style on a black background.
    pub fn on_black(self) -> (s: Style)
        ensures
            s == (Style { bg: Some(Color::Black), ..self }),
    {
        Style { bg: Some(Color::Black), ..self }
    }

    /// This style on a bright black (gray) background.
    pub fn on_bright_black(self) -> (s: Style)
        ensures
            s == (Style { bg: Some(Color::BrightBlack), ..self }),
    {
        Style { bg: Some(Color::BrightBlack), ..self }
    }

    /// This style on an RGB background.
    pub fn on_truecolor(self, r: u8, g: u8, b: u8) -> (s: Style)
        ensures
            s == (Style { bg: Some(Color::Rgb(r, g, b)), ..self }),
    {
        Style { bg: Some(Color::Rgb(r, g, b)), ..self }
    }

    /// This style, bold.
    pub fn bold(self) -> (s: Style)
        ensures
            s == (Style { bold: true, ..self }),
    {
        Style { bold: true, ..self }
    }

    /// This style, dimmed.
    pub fn dimmed(self) -> (s: Style)
        ensures
            s == (Style { dimmed: true, ..self }),
    {
        Style { dimmed: true, ..self }
    }

    /// This style, underlined.
    pub fn underline(self) -> (s: Style)
        ensures
            s == (Style { underline: true, ..self }),
    {
        Style { underline: true, ..self }
    }
}

/// The decimal digits of `n`.
pub open spec fn decimal(n: nat) -> Seq<char>
    decreases n,
{
    if n < 10 {
        seq![digit_char(n)]
    } else {
        decimal(n / 10).push(digit_char(n % 10))
    }
}

/// The character of a decimal digit.
pub open spec fn digit_char(d: nat) -> char {
    ((48 + d) as u8) as char
}

/// The ANSI code that selects `c` as the foreground color.
pub open spec fn fg_code(c: Color) -> Seq<char> {
    match c {
        Color::Black => seq!['3', '0'],
        Color::Red => seq!['3', '1'],
        Color::Green => seq!['3', '2'],
        Color::Magenta => seq!['3', '5'],
        Color::BrightBlack => seq!['9', '0'],
        Color::BrightRed => seq!['9', '1'],
        Color::BrightGreen => seq!['9', '2'],
        Color::Rgb(r, g, b) => seq!['3', '8', ';', '2', ';'] + decimal(r as nat) + seq![';'] + decimal(
            g as nat,
        ) + seq![';'] + decimal(b as nat),
    }
}

/// The ANSI code that selects `c` as the background color.
pub open spec fn bg_code(c: Color) -> Seq<char> {
    match c {
        Color::Black => seq!['4', '0'],
        Color::Red => seq!['4', '1'],
        Color::Green => seq!['4', '2'],
        Color::Magenta => seq!['4', '5'],
        Color::BrightBlack => seq!['1', '0', '0'],
        Color::BrightRed => seq!['1', '0', '1'],
        Color::BrightGreen => seq!['1', '0', '2'],
        Color::Rgb(r, g, b) => seq!['4', '8', ';', '2', ';'] + decimal(r as nat) + seq![';'] + decimal(
            g as nat,
        ) + seq![';'] + decimal(b as nat),
    }
}

/// The ANSI codes of a style, in the order they are written: foreground,
/// background, bold (1), dimmed (2), underline (4).
pub open spec fn style_codes(style: Style) -> Seq<Seq<char>> {
    let fg = match style.fg {
        Some(c) => seq![fg_code(c)],
        None => Seq::empty(),
    };
    let bg = match style.bg {
        Some(c) => seq![bg_code(c)],
        None => Seq::empty(),
    };
    let bold = if style.bold { seq![seq!['1']] } else { Seq::empty() };
    let dimmed = if style.dimmed { seq![seq!['2']] } else { Seq::empty() };
    let underline = if style.underline { seq![seq!['4']] } else { Seq::empty() };
    fg + bg + bold + dimmed + underline
}

/// Codes joined by semicolons.
pub open spec fn join_codes(codes: Seq<Seq<char>>) -> Seq<char>
    decreases codes.len(),
{
    if codes.len() == 0 {
        Seq::empty()
    } else if codes.len() == 1 {
        codes[0]
    } else {
        codes[0] + seq![';'] + join_codes(codes.drop_first())
    }
}

/// The escape sequence that painting with `style` writes before the text:
/// nothing for a style that changes nothing, else `ESC [`, the style's
/// codes joined by semicolons, and `m`.
pub open spec fn style_prefix(style: Style) -> Seq<char> {
    if style == plain_style() {
        Seq::empty()
    } else {
        seq!['\u{1b}', '['] + join_codes(style_codes(style)) + seq!['m']
    }
}

/// `s` with its escape sequences taken out: each `ESC` and what follows it
/// up to and including the next `m`.
pub open spec fn strip_escapes(s: Seq<char>) -> Seq<char>
    decreases s.len(),
{
    if s.len() == 0 {
        s
    } else if s[0] == '\u{1b}' {
        let r = skip_escape(s.drop_first());
        if r.len() < s.len() {
            strip_escapes(r)
        } else {
            Seq::empty()
        }
    } else {
        seq![s[0]] + strip_escapes(s.drop_first())
    }
}

/// What follows the first `m` of `s`.
pub open spec fn skip_escape(s: Seq<char>) -> Seq<char>
    decreases s.len(),
{
    if s.len() == 0 {
        s
    } else if s[0] == 'm' {
        s.drop_first()
    } else {
        skip_escape(s.drop_first())
    }
}

/// Whether `s` holds no escape character.
pub open spec fn escape_free(s: Seq<char>) -> bool {
    forall|k: int| 0 <= k < s.len() ==> s[k] != '\u{1b}'
}

/// Whether `c` can occur in the codes of a style.
pub open spec fn code_char(c: char) -> bool {
    ('0' <= c <= '9') || c == ';'
}

pub proof fn lemma_skip_escape_len(s: Seq<char>)
    ensures
        skip_escape(s).len() <= s.len(),
    decreases s.len(),
{
    if s.len() > 0 && s[0] != 'm' {
        lemma_skip_escape_len(s.drop_first());
    }
}

/// Escape-free text is kept as it is.
pub proof fn lemma_strip_plain(t: Seq<char>, x: Seq<char>)
    requires
        escape_free(t),
    ensures
        strip_escapes(t + x) == t + strip_escapes(x),
    decreases t.len(),
{
    if t.len() > 0 {
        assert((t + x)[0] == t[0]);
        assert((t + x).drop_first() =~= t.drop_first() + x);
        lemma_strip_plain(t.drop_first(), x);
        assert(t =~= seq![t[0]] + t.drop_first());
    } else {
        assert(t + x =~= x);
    }
}

/// Skipping an escape passes over codes that hold no `m`.
pub proof fn lemma_skip_codes(c: Seq<char>, x: Seq<char>)
    requires
        forall|k: int| 0 <= k < c.len() ==> #[trigger] c[k] != 'm',
    ensures
        skip_escape(c + seq!['m'] + x) == x,
    decreases c.len(),
{
    if c.len() > 0 {
        assert((c + seq!['m'] + x).drop_first() =~= c.drop_first() + seq!['m'] + x);
        lemma_skip_codes(c.drop_first(), x);
    } else {
        assert((c + seq!['m'] + x).drop_first() =~= x);
    }
}

/// An escape sequence of codes is taken out whole.
pub proof fn lemma_strip_escape(c: Seq<char>, x: Seq<char>)
    requires
        forall|k: int| 0 <= k < c.len() ==> #[trigger] c[k] != 'm',
    ensures
        strip_escapes(seq!['\u{1b}'] + c + seq!['m'] + x) == strip_escapes(x),
{
    let s = seq!['\u{1b}'] + c + seq!['m'] + x;
    assert(s.drop_first() =~= c + seq!['m'] + x);
    lemma_skip_codes(c, x);
}

pub proof fn lemma_decimal_digits(n: nat)
    ensures
        forall|k: int| 0 <= k < decimal(n).len() ==> code_char(#[trigger] decimal(n)[k]),
    decreases n,
{
    if n >= 10 {
        lemma_decimal_digits(n / 10);
        let d = decimal(n / 10);
        assert forall|k: int| 0 <= k < decimal(n).len() implies code_char(#[trigger] decimal(n)[k]) by {
            if k < d.len() {
                assert(decimal(n)[k] == d[k]);
            }
        }
    }
}

/// The codes of a style are digits and semicolons.
pub proof fn lemma_style_codes_chars(style: Style)
    ensures
        forall|k: int|
            0 <= k < join_codes(style_codes(style)).len() ==> code_char(
                #[trigger] join_codes(style_codes(style))[k],
            ),
{
    let cs = style_codes(style);
    assert forall|j: int, k: int| 0 <= j < cs.len() && 0 <= k < cs[j].len() implies code_char(
        #[trigger] cs[j][k],
    ) by {
        lemma_codes_of_color_chars(style);
    }
    lemma_join_codes_chars(cs);
}

proof fn lemma_codes_of_color_chars(style: Style)
    ensures
        forall|j: int, k: int|
            0 <= j < style_codes(style).len() && 0 <= k < style_codes(style)[j].len() ==> code_char(
                #[trigger] style_codes(style)[j][k],
            ),
{
    lemma_color_code_chars(style.fg);
    lemma_color_code_chars(style.bg);
    let cs = style_codes(style);
    assert forall|j: int, k: int| 0 <= j < cs.len() && 0 <= k < cs[j].len() implies code_char(
        #[trigger] cs[j][k],
    ) by {
        let fg = match style.fg { Some(c) => seq![fg_code(c)], None => Seq::<Seq<char>>::empty() };
        let bg = match style.bg { Some(c) => seq![bg_code(c)], None => Seq::<Seq<char>>::empty() };
        if j < fg.len() {
            assert(cs[j] == fg[j]);
        } else if j < fg.len() + bg.len() {
            assert(cs[j] == bg[j - fg.len()]);
        } else {
            assert(cs[j] =~= seq!['1'] || cs[j] =~= seq!['2'] || cs[j] =~= seq!['4']);
        }
    }
}

proof fn lemma_color_code_chars(c: Option<Color>)
    ensures
        c matches Some(col) ==> (forall|k: int| 0 <= k < fg_code(col).len() ==> code_char(#[trigger] fg_code(col)[k]))
            && (forall|k: int| 0 <= k < bg_code(col).len() ==> code_char(#[trigger] bg_code(col)[k])),
{
    if let Some(Color::Rgb(r, g, b)) = c {
        lemma_decimal_digits(r as nat);
        lemma_decimal_digits(g as nat);
        lemma_decimal_digits(b as nat);
        let dr = decimal(r as nat);
        let dg = decimal(g as nat);
        let db = decimal(b as nat);
        let f = fg_code(Color::Rgb(r, g, b));
        let h = bg_code(Color::Rgb(r, g, b));
        assert forall|k: int| 0 <= k < f.len() implies code_char(#[trigger] f[k]) by {
            if k >= 5 && k < 5 + dr.len() {
                assert(f[k] == dr[k - 5]);
            } else if k >= 6 + dr.len() && k < 6 + dr.len() + dg.len() {
                assert(f[k] == dg[k - 6 - dr.len()]);
            } else if k >= 7 + dr.len() + dg.len() {
                assert(f[k] == db[k - 7 - dr.len() - dg.len()]);
            }
        }
        assert forall|k: int| 0 <= k < h.len() implies code_char(#[trigger] h[k]) by {
            if k >= 5 && k < 5 + dr.len() {
                assert(h[k] == dr[k - 5]);
            } else if k >= 6 + dr.len() && k < 6 + dr.len() + dg.len() {
                assert(h[k] == dg[k - 6 - dr.len()]);
            } else if k >= 7 + dr.len() + dg.len() {
                assert(h[k] == db[k - 7 - dr.len() - dg.len()]);
            }
        }
    }
}

proof fn lemma_join_codes_chars(cs: Seq<Seq<char>>)
    requires
        forall|j: int, k: int| 0 <= j < cs.len() && 0 <= k < cs[j].len() ==> code_char(#[trigger] cs[j][k]),
    ensures
        forall|k: int| 0 <= k < join_codes(cs).len() ==> code_char(#[trigger] join_codes(cs)[k]),
    decreases cs.len(),
{
    if cs.len() > 1 {
        let d = cs.drop_first();
        assert forall|j: int, k: int| 0 <= j < d.len() && 0 <= k < d[j].len() implies code_char(#[trigger] d[j][k]) by {
            assert(d[j] == cs[j + 1]);
        }
        lemma_join_codes_chars(d);
        let a = cs[0];
        let r = join_codes(d);
        assert forall|k: int| 0 <= k < join_codes(cs).len() implies code_char(#[trigger] join_codes(cs)[k]) by {
            assert(join_codes(cs) == a + seq![';'] + r);
            if k < a.len() {
                assert(code_char(cs[0][k]));
            } else if k > a.len() {
                assert(join_codes(cs)[k] == r[k - a.len() - 1]);
            }
        }
    } else if cs.len() == 1 {
        assert forall|k: int| 0 <= k < join_codes(cs).len() implies code_char(#[trigger] join_codes(cs)[k]) by {
            assert(code_char(cs[0][k]));
        }
    }
}

/// Taking the escapes out of painted escape-free text gives the text back.
pub proof fn lemma_strip_painted(t: Seq<char>, style: Style, x: Seq<char>)
    requires
        escape_free(t),
    ensures
        strip_escapes(painted(t, style) + x) == t + strip_escapes(x),
{
    if style == plain_style() {
        assert(painted(t, style) + x =~= t + x);
        lemma_strip_plain(t, x);
    } else {
        let j = join_codes(style_codes(style));
        lemma_style_codes_chars(style);
        let c = seq!['['] + j;
        assert forall|k: int| 0 <= k < c.len() implies #[trigger] c[k] != 'm' by {
            if k > 0 {
                assert(c[k] == j[k - 1]);
                assert(code_char(j[k - 1]));
            }
        }
        let rest = t + (seq!['\u{1b}', '[', '0', 'm'] + x);
        assert(painted(t, style) + x =~= seq!['\u{1b}'] + c + seq!['m'] + rest);
        lemma_strip_escape(c, rest);
        lemma_strip_plain(t, seq!['\u{1b}', '[', '0', 'm'] + x);
        assert(seq!['\u{1b}', '[', '0', 'm'] + x =~= seq!['\u{1b}'] + seq!['[', '0'] + seq!['m'] + x);
        let z = seq!['[', '0'];
        assert forall|k: int| 0 <= k < z.len() implies #[trigger] z[k] != 'm' by {}
        lemma_strip_escape(z, x);
    }
}

/// The escape sequence that painting with `style` writes after the text:
/// a reset, unless the style changes nothing.
pub open spec fn style_suffix(style: Style) -> Seq<char> {
    if style == plain_style() {
        Seq::empty()
    } else {
        seq!['\u{1b}', '[', '0', 'm']
    }
}

/// `text` painted with `style`.
pub open spec fn painted(text: Seq<char>, style: Style) -> Seq<char> {
    style_prefix(style) + text + style_suffix(style)
}

/// `text.style(s).to_string()` with owo-colors, where `s` is the
/// owo-colors style with the same colors and effects. As the crate's
/// `Display` for `Styled` and `Style::fmt_prefix` show, the text is written
/// between the style's escape prefix (its foreground, background, bold,
/// dimmed and underline codes, in that order, joined by semicolons) and a
/// reset; both are left out for a style that changes nothing.
#[verifier::external_body]
pub(crate) fn paint(text: &str, style: Style) -> (r: String)
    ensures
        r@ == style_prefix(style) + text@ + style_suffix(style),
        style == plain_style() ==> r@ == text@,
{
    let dc = |c| match c {
        Color::Black => Ansi(Black), Color::Red => Ansi(Red), Color::Green => Ansi(Green),
        Color::Magenta => Ansi(Magenta), Color::BrightBlack => Ansi(BrightBlack),
        Color::BrightRed => Ansi(BrightRed), Color::BrightGreen => Ansi(BrightGreen),
        Color::Rgb(r, g, b) => Rgb(r, g, b)
    };
    let mut s = OwoStyle::new();
    if let Some(c) = style.fg { s = s.color(dc(c)) }
    if let Some(c) = style.bg { s = s.on_color(dc(c)) }
    if style.bold { s = s.bold() }
    if style.dimmed { s = s.dimmed() }
    if style.underline { s = s.underline() }
    text.style(s).to_string()
}

/// `OwoColorize::yellow` shown as a string: the text between the escape
/// that sets a yellow foreground and the one that restores the default
/// foreground, as the crate's `Display` for `FgColorDisplay` writes them.
#[verifier::external_body]
pub(crate) fn yellow_text(text: &str) -> (r: String)
    ensures
        r@ == "\u{1b}[33m"@ + text@ + "\u{1b}[39m"@,
{
    text.yellow().to_string()
}

/// `OwoColorize::bright_yellow` shown as a string, as `yellow_text` with
/// the bright yellow escape.
#[verifier::external_body]
pub(crate) fn bright_yellow_text(text: &str) -> (r: String)
    ensures
        r@ == "\u{1b}[93m"@ + text@ + "\u{1b}[39m"@,
{
    text.bright_yellow().to_string()
}

/// `OwoColorize::red` shown as a string, as `yellow_text` with the red
/// escape.
#[verifier::external_body]
pub(crate) fn red_text(text: &str) -> (r: String)
    ensures
        r@ == "\u{1b}[31m"@ + text@ + "\u{1b}[39m"@,
{
    text.red().to_string()
}

/// `OwoColorize::bold` shown as a string: the text between the bold escape
/// and the reset, as the crate's `Display` for `BoldDisplay` writes them.
#[verifier::external_body]
pub(crate) fn bold_text(text: &str) -> (r: String)
    ensures
        r@ == "\u{1b}[1m"@ + text@ + "\u{1b}[0m"@,
{
    text.bold().to_string()
}

/// `OwoColorize::dimmed` shown as a string: the text between the dim escape
/// and the reset, as the crate's `Display` for `DimDisplay` writes them.
#[verifier::external_body]
pub(crate) fn dimmed_text(text: &str) -> (r: String)
    ensures
        r@ == "\u{1b}[2m"@ + text@ + "\u{1b}[0m"@,
{
    text.dimmed().to_string()
}

} // verus!
