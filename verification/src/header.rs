//! Headers, line numbers and messages.
use vstd::prelude::*;
use crate::color::{novel_style, novel_style_of};
use crate::model::{BackgroundColor, DisplayOptions, FileFormat, Side, file_format_name};
use crate::paint::{Color, Style, decimal, digit_char, bold_text, bright_yellow_text, dimmed_text, paint, painted, plain_style, red_text, yellow_text};
use crate::text::push_char;

verus! {

/// `n` in decimal.
pub fn decimal_string(n: usize) -> (s: String)
    ensures
        s@ == decimal(n as nat),
    decreases n,
{
    if n < 10 {
        let mut s = String::new();
        push_char(&mut s, (48u8 + (n as u8)) as char);
        assert(s@ =~= decimal(n as nat));
        s
    } else {
        let mut s = decimal_string(n / 10);
        push_char(&mut s, (48u8 + ((n % 10) as u8)) as char);
        s
    }
}

/// The path as a header shows it: bold and yellow (bright on a dark
/// background) for the first hunk when colors are on, bold for the others.
pub open spec fn header_path(s: Seq<char>, use_color: bool, background: BackgroundColor, hunk_num: nat) -> Seq<char> {
    if use_color {
        let colored = if hunk_num != 1 {
            s
        } else if background == BackgroundColor::Dark {
            "\u{1b}[93m"@ + s + "\u{1b}[39m"@
        } else {
            "\u{1b}[33m"@ + s + "\u{1b}[39m"@
        };
        "\u{1b}[1m"@ + colored + "\u{1b}[0m"@
    } else {
        s
    }
}

/// The path as a header shows it.
pub fn apply_header_color(s: &str, use_color: bool, background: BackgroundColor, hunk_num: usize) -> (r: String)
    ensures
        r@ == header_path(s@, use_color, background, hunk_num as nat),
{
    if use_color {
        let colored = if hunk_num != 1 {
            s.to_owned()
        } else if background.is_dark() {
            bright_yellow_text(s)
        } else {
            yellow_text(s)
        };
        bold_text(colored.as_str())
    } else {
        s.to_owned()
    }
}

/// What comes after the path in a header: the hunk's number out of the
/// total where there is more than one, then the file format.
pub open spec fn header_trailer(hunk_num: nat, hunk_total: nat, file_format: FileFormat, use_color: bool) -> Seq<char> {
    let divider = if hunk_total == 1 {
        Seq::empty()
    } else {
        decimal(hunk_num) + "/"@ + decimal(hunk_total) + " --- "@
    };
    let trailer = " --- "@ + divider + file_format_name(file_format);
    if use_color {
        "\u{1b}[2m"@ + trailer + "\u{1b}[0m"@
    } else {
        trailer
    }
}

/// The header line of a hunk, with the extra information on a line of its
/// own under the first hunk's header.
pub open spec fn header_text(
    display_path: Seq<char>,
    extra_info: Option<Seq<char>>,
    hunk_num: nat,
    hunk_total: nat,
    file_format: FileFormat,
    display_options: DisplayOptions,
) -> Seq<char> {
    let path = header_path(display_path, display_options.use_color, display_options.background_color, hunk_num);
    let trailer = header_trailer(hunk_num, hunk_total, file_format, display_options.use_color);
    match extra_info {
        Some(extra) if hunk_num == 1 => {
            let extra = if display_options.use_color {
                "\u{1b}[2m"@ + extra + "\u{1b}[0m"@
            } else {
                extra
            };
            path + trailer + "\n"@ + extra
        },
        _ => path + trailer,
    }
}

/// The header line of a hunk: the path, the hunk count where there are
/// several, and the file format, with extra information under the first.
pub fn header(
    display_path: &str,
    extra_info: Option<&String>,
    hunk_num: usize,
    hunk_total: usize,
    file_format: &FileFormat,
    display_options: &DisplayOptions,
) -> (r: String)
    ensures
        r@ == header_text(
            display_path@,
            match extra_info {
                Some(e) => Some(e@),
                None => None,
            },
            hunk_num as nat,
            hunk_total as nat,
            *file_format,
            *display_options,
        ),
{
    let divider = if hunk_total == 1 {
        String::new()
    } else {
        let mut d = decimal_string(hunk_num);
        d.append("/");
        let total = decimal_string(hunk_total);
        d.append(total.as_str());
        d.append(" --- ");
        d
    };
    let display_path_pretty = apply_header_color(
        display_path,
        display_options.use_color,
        display_options.background_color,
        hunk_num,
    );
    let mut trailer = String::from_str(" --- ");
    trailer.append(divider.as_str());
    let format_name = file_format.display_name();
    trailer.append(format_name.as_str());
    if display_options.use_color {
        trailer = dimmed_text(trailer.as_str());
    }
    let mut out = display_path_pretty;
    out.append(trailer.as_str());
    match extra_info {
        Some(extra_info) => {
            if hunk_num == 1 {
                let extra = if display_options.use_color {
                    dimmed_text(extra_info.as_str())
                } else {
                    extra_info.clone()
                };
                out.append("\n");
                out.append(extra.as_str());
            }
        },
        None => {},
    }
    out
}

/// A line number as shown beside content: for changed lines red or green
/// and bold, for unchanged lines dimmed, when colors are on.
pub open spec fn line_number_text(s: Seq<char>, is_novel: bool, side: Side, display_options: DisplayOptions) -> Seq<char> {
    if display_options.use_color {
        let style = if is_novel {
            Style { bold: true, ..novel_style_of(plain_style(), side, display_options.background_color, false, None, None) }
        } else {
            Style { dimmed: true, ..plain_style() }
        };
        painted(s, style)
    } else {
        s
    }
}

/// A line number as shown beside its line: red or green and bold where
/// the line changed, dimmed where it did not; always in the foreground.
pub fn apply_line_number_color(s: &str, is_novel: bool, side: Side, display_options: &DisplayOptions) -> (r: String)
    ensures
        r@ == line_number_text(s@, is_novel, side, *display_options),
{
    if display_options.use_color {
        let mut style = Style::new();
        if is_novel {
            style = novel_style(style, side, display_options.background_color, false, None, None).bold();
        } else {
            style = style.dimmed();
        }
        paint(s, style)
    } else {
        s.to_owned()
    }
}

/// A warning as it is written to the error stream: a `warning: ` prefix,
/// bold and yellow when colors are on, the text, and an empty line.
pub open spec fn warning_text(s: Seq<char>, display_options: DisplayOptions) -> Seq<char> {
    header_path("warning: "@, display_options.use_color, display_options.background_color, 1) + s + "\n\n"@
}

/// The text of a warning, as it is written to the error stream.
pub fn warning_message(s: &str, display_options: &DisplayOptions) -> (r: String)
    ensures
        r@ == warning_text(s@, *display_options),
{
    let mut r = apply_header_color("warning: ", display_options.use_color, display_options.background_color, 1);
    r.append(s);
    r.append("\n\n");
    r
}

/// An error as it is written to the error stream: an `error: ` prefix,
/// red and bold when colors are on, the text, and a newline.
pub open spec fn error_text(s: Seq<char>, use_color: bool) -> Seq<char> {
    let prefix = if use_color {
        "\u{1b}[1m"@ + ("\u{1b}[31m"@ + "error: "@ + "\u{1b}[39m"@) + "\u{1b}[0m"@
    } else {
        "error: "@
    };
    prefix + s + "\n"@
}

/// The text of an error, as it is written to the error stream.
pub fn error_message(s: &str, use_color: bool) -> (r: String)
    ensures
        r@ == error_text(s@, use_color),
{
    let mut r = if use_color {
        let red = red_text("error: ");
        bold_text(red.as_str())
    } else {
        String::from_str("error: ")
    };
    r.append(s);
    r.append("\n");
    r
}


/// The layout of a hunk header: the path (bold when colors are on, and
/// yellow, bright on a dark terminal, for the first hunk), then ` --- `,
/// then `n/total --- ` for every hunk when there is more than one hunk,
/// then the file format's name (these dimmed when colors are on); extra
/// information follows on a line of its own under the first hunk only
/// (dimmed when colors are on).
pub proof fn lemma_header_layout(
    path: Seq<char>,
    extra: Option<Seq<char>>,
    hunk_num: nat,
    hunk_total: nat,
    file_format: FileFormat,
    display_options: DisplayOptions,
)
    ensures
        ({
            let counter = if hunk_total == 1 {
                Seq::<char>::empty()
            } else {
                decimal(hunk_num) + "/"@ + decimal(hunk_total) + " --- "@
            };
            let trailer = " --- "@ + counter + file_format_name(file_format);
            let color = display_options.use_color;
            let shown_path = if !color {
                path
            } else if hunk_num != 1 {
                "\u{1b}[1m"@ + path + "\u{1b}[0m"@
            } else if display_options.background_color == BackgroundColor::Dark {
                "\u{1b}[1m"@ + ("\u{1b}[93m"@ + path + "\u{1b}[39m"@) + "\u{1b}[0m"@
            } else {
                "\u{1b}[1m"@ + ("\u{1b}[33m"@ + path + "\u{1b}[39m"@) + "\u{1b}[0m"@
            };
            let shown_trailer = if color { "\u{1b}[2m"@ + trailer + "\u{1b}[0m"@ } else { trailer };
            let tail = match extra {
                Some(e) => if hunk_num == 1 {
                    "\n"@ + if color { "\u{1b}[2m"@ + e + "\u{1b}[0m"@ } else { e }
                } else {
                    Seq::<char>::empty()
                },
                None => Seq::<char>::empty(),
            };
            header_text(path, extra, hunk_num, hunk_total, file_format, display_options)
                == shown_path + shown_trailer + tail
        }),
{
    let h = header_text(path, extra, hunk_num, hunk_total, file_format, display_options);
    match extra {
        Some(e) => {
            if hunk_num != 1 {
                assert(h =~= h + Seq::<char>::empty());
            }
        },
        None => {
            assert(h =~= h + Seq::<char>::empty());
        },
    }
}


/// The number a string of decimal digits stands for.
pub open spec fn digits_value(s: Seq<char>) -> int
    decreases s.len(),
{
    if s.len() == 0 {
        0
    } else {
        digits_value(s.drop_last()) * 10 + ((s.last() as int) - 0x30)
    }
}

proof fn lemma_digit_char(d: nat)
    requires
        d < 10,
    ensures
        digit_char(d) as int == 0x30 + d,
{
    let b: u8 = (48 + d) as u8;
    assert(b as int == 48 + d);
    assert((b as char) as int == b as int);
}

/// `decimal(n)` is `n` written in decimal: its characters are digits, it
/// stands for `n`, and it has no leading zero.
pub proof fn lemma_decimal_reads_back(n: nat)
    ensures
        decimal(n).len() >= 1,
        forall|k: int| 0 <= k < decimal(n).len() ==> '0' <= #[trigger] decimal(n)[k] <= '9',
        digits_value(decimal(n)) == n,
        decimal(n).len() > 1 ==> decimal(n)[0] != '0',
    decreases n,
{
    lemma_digit_char(n % 10);
    if n < 10 {
        assert(n % 10 == n);
        assert(decimal(n).drop_last() =~= Seq::<char>::empty());
        assert(decimal(n).last() == digit_char(n));
        assert(digits_value(Seq::<char>::empty()) == 0);
    } else {
        lemma_decimal_reads_back(n / 10);
        if n / 10 < 10 {
            lemma_digit_char(n / 10);
            assert(decimal(n / 10) == seq![digit_char(n / 10)]);
            assert(decimal(n / 10)[0] as int >= 49);
            assert(decimal(n / 10)[0] != '0');
        }
        assert((n / 10) * 10 + n % 10 == n);
        assert(decimal(n).last() == digit_char(n % 10));
        let d = decimal(n / 10);
        assert(decimal(n).drop_last() =~= d);
        assert forall|k: int| 0 <= k < decimal(n).len() implies '0' <= #[trigger] decimal(n)[k] <= '9' by {
            if k < d.len() {
                assert(decimal(n)[k] == d[k]);
            }
        }
        assert(decimal(n)[0] == d[0]);
        if n / 10 < 10 {
            assert(d[0] != '0');
        } else {
            lemma_decimal_reads_back(n / 10 / 10);
            assert(d.len() == decimal(n / 10 / 10).len() + 1);
        }
    }
}

/// Line numbers are shown as they are without colors; with colors, those
/// of changed lines are bold and red on the left or green on the right
/// (bright on a dark terminal), in the foreground only, and those of
/// unchanged lines are dimmed.
pub proof fn lemma_line_number_colors(s: Seq<char>, is_novel: bool, side: Side, display_options: DisplayOptions)
    ensures
        ({
            let dark = display_options.background_color == BackgroundColor::Dark;
            let fg = if side == Side::Left {
                if dark { Color::BrightRed } else { Color::Red }
            } else {
                if dark { Color::BrightGreen } else { Color::Green }
            };
            &&& !display_options.use_color ==> line_number_text(s, is_novel, side, display_options) == s
            &&& display_options.use_color && is_novel ==> line_number_text(s, is_novel, side, display_options)
                == painted(s, Style { fg: Some(fg), bg: None, bold: true, dimmed: false, underline: false })
            &&& display_options.use_color && !is_novel ==> line_number_text(s, is_novel, side, display_options)
                == painted(s, Style { fg: None, bg: None, bold: false, dimmed: true, underline: false })
        }),
{
}

/// A warning is `warning: ` (bold and yellow, bright on a dark terminal,
/// when colors are on), the message and a blank line; an error is `error: `
/// (bold and red when colors are on), the message and a line end.
pub proof fn lemma_message_layout(s: Seq<char>, display_options: DisplayOptions, use_color: bool)
    ensures
        warning_text(s, display_options) == (if !display_options.use_color {
            "warning: "@
        } else if display_options.background_color == BackgroundColor::Dark {
            "\u{1b}[1m"@ + ("\u{1b}[93m"@ + "warning: "@ + "\u{1b}[39m"@) + "\u{1b}[0m"@
        } else {
            "\u{1b}[1m"@ + ("\u{1b}[33m"@ + "warning: "@ + "\u{1b}[39m"@) + "\u{1b}[0m"@
        }) + s + "\n\n"@,
        error_text(s, use_color) == (if use_color {
            "\u{1b}[1m"@ + ("\u{1b}[31m"@ + "error: "@ + "\u{1b}[39m"@) + "\u{1b}[0m"@
        } else {
            "error: "@
        }) + s + "\n"@,
{
}

} // verus!
