//! The values that styling works on: sides, backgrounds, colors, spans and
//! the kinds of matched positions.
use vstd::prelude::*;
use vstd::utf8::*;
use crate::text::{char_vec, blen, byte_at, byte_len, substring_by_byte, lemma_byte_at_boundary, lemma_bytes_to_chars, lemma_byte_at_end, lemma_blen_ge_len};

verus! {

/// Which side of a side-by-side display.
#[derive(Clone, Copy, Debug, PartialEq, Eq, Structural)]
pub enum Side {
    Left,
    Right,
}

/// The terminal's background.
#[derive(Clone, Copy, Debug, PartialEq, Eq, Structural)]
pub enum BackgroundColor {
    Dark,
    Light,
}

impl BackgroundColor {
    /// Whether this is a dark background.
    pub fn is_dark(self) -> (b: bool)
        ensures
            b == (self == BackgroundColor::Dark),
    {
        match self {
            BackgroundColor::Dark => true,
            BackgroundColor::Light => false,
        }
    }
}

/// A 24-bit RGB color.
#[derive(Clone, Copy, Debug, PartialEq, Eq, Structural)]
pub struct RgbColor {
    pub r: u8,
    pub g: u8,
    pub b: u8,
}

/// The value of a hexadecimal digit byte.
pub open spec fn hex_digit(b: u8) -> Option<u8> {
    if 0x30 <= b <= 0x39 {
        Some((b - 0x30) as u8)
    } else if 0x61 <= b <= 0x66 {
        Some((b - 0x61 + 10) as u8)
    } else if 0x41 <= b <= 0x46 {
        Some((b - 0x41 + 10) as u8)
    } else {
        None
    }
}

/// Two bytes read as a base-16 `u8`: both must be hexadecimal digits.
pub open spec fn hex_pair(b0: u8, b1: u8) -> Option<u8> {
    match (hex_digit(b0), hex_digit(b1)) {
        (Some(h), Some(l)) => Some((h * 16 + l) as u8),
        _ => None,
    }
}

/// Number of `#` characters at the start of `s`.
pub open spec fn leading_hashes(s: Seq<char>) -> nat
    decreases s.len(),
{
    if s.len() > 0 && s[0] == '#' {
        1 + leading_hashes(s.drop_first())
    } else {
        0
    }
}

/// `s` without its leading `#` characters.
pub open spec fn strip_hashes(s: Seq<char>) -> Seq<char> {
    s.skip(leading_hashes(s) as int)
}

/// The message for a hex color that cannot be read.
pub open spec fn hex_error(hex: Seq<char>, reason: Seq<char>) -> Seq<char> {
    "Invalid hex color '"@ + hex + "': "@ + reason
}

/// The color that a hex string such as `#336699` or `336699` names, or the
/// message that says why it names none.
pub open spec fn hex_color(hex: Seq<char>) -> Result<RgbColor, Seq<char>> {
    let t = strip_hashes(hex);
    let b = encode_utf8(t);
    if b.len() != 6 {
        Err(hex_error(t, "expected 6 characters (RRGGBB)"@))
    } else if hex_pair(b[0], b[1]) is None {
        Err(hex_error(t, "invalid red component"@))
    } else if hex_pair(b[2], b[3]) is None {
        Err(hex_error(t, "invalid green component"@))
    } else if hex_pair(b[4], b[5]) is None {
        Err(hex_error(t, "invalid blue component"@))
    } else {
        Ok(
            RgbColor {
                r: hex_pair(b[0], b[1]).unwrap(),
                g: hex_pair(b[2], b[3]).unwrap(),
                b: hex_pair(b[4], b[5]).unwrap(),
            },
        )
    }
}

/// There are no more leading `#` characters than characters.
pub proof fn lemma_leading_hashes_len(s: Seq<char>)
    ensures
        leading_hashes(s) <= s.len(),
    decreases s.len(),
{
    if s.len() > 0 && s[0] == '#' {
        lemma_leading_hashes_len(s.drop_first());
    }
}

/// A leading `#` does not change what a hex string names: `"#336699"` and
/// `"336699"` name the same color.
pub proof fn lemma_hex_hash_prefix(h: Seq<char>)
    ensures
        hex_color(seq!['#'] + h) == hex_color(h),
{
    let s = seq!['#'] + h;
    assert(s.drop_first() =~= h);
    lemma_leading_hashes_len(h);
    assert(s[0] == '#');
    assert(leading_hashes(s) == 1 + leading_hashes(h));
    assert(s.skip(1 + leading_hashes(h) as int) =~= h.skip(leading_hashes(h) as int));
    assert(strip_hashes(s) =~= strip_hashes(h));
}

fn hex_digit_value(b: u8) -> (d: Option<u8>)
    ensures
        d == hex_digit(b),
{
    if 0x30 <= b && b <= 0x39 {
        Some(b - 0x30)
    } else if 0x61 <= b && b <= 0x66 {
        Some(b - 0x61 + 10)
    } else if 0x41 <= b && b <= 0x46 {
        Some(b - 0x41 + 10)
    } else {
        None
    }
}

/// Two hexadecimal digit bytes read as a `u8`.
fn parse_hex_pair(b0: u8, b1: u8) -> (v: Option<u8>)
    ensures
        v == hex_pair(b0, b1),
{
    match (hex_digit_value(b0), hex_digit_value(b1)) {
        (Some(h), Some(l)) => Some(h * 16 + l),
        _ => None,
    }
}

fn hex_message(hex: &str, reason: &str) -> (m: String)
    ensures
        m@ == hex_error(hex@, reason@),
{
    let mut m = String::from_str("Invalid hex color '");
    m.append(hex);
    m.append("': ");
    m.append(reason);
    m
}

impl RgbColor {
    /// The color with these components.
    pub fn new(r: u8, g: u8, b: u8) -> (c: RgbColor)
        ensures
            c == (RgbColor { r, g, b }),
    {
        RgbColor { r, g, b }
    }

    /// Parse a hex color string like "#336699" or "336699" into an RgbColor.
    /// After the leading `#` characters there must be exactly six bytes,
    /// each a hexadecimal digit of either case; otherwise the error names
    /// the length or the first component that is not two such digits.
    pub fn from_hex(hex: &str) -> (res: Result<RgbColor, String>)
        ensures
            match res {
                Ok(c) => hex_color(hex@) == Ok::<RgbColor, Seq<char>>(c),
                Err(m) => hex_color(hex@) == Err::<RgbColor, Seq<char>>(m@),
            },
    {
        let chars = char_vec(hex);
        let total = byte_len(hex);
        let mut k: usize = 0;
        proof {
            assert(hex@.skip(0) =~= hex@);
            assert(hex@.take(0) =~= Seq::<char>::empty());
        }
        while k < chars.len() && chars[k] == '#'
            invariant
                chars@ == hex@,
                k <= hex@.len(),
                leading_hashes(hex@) == k + leading_hashes(hex@.skip(k as int)),
                byte_at(hex@, k as int) == k,
            decreases hex@.len() - k,
        {
            proof {
                assert(hex@.skip(k as int).drop_first() =~= hex@.skip(k + 1));
                crate::text::lemma_byte_at_step(hex@, k as int);
                crate::text::lemma_clen_range('#');
            }
            k = k + 1;
        }
        proof {
            lemma_byte_at_boundary(hex@, k as int);
            lemma_byte_at_boundary(hex@, hex@.len() as int);
            lemma_byte_at_end(hex@);
            crate::text::lemma_byte_at_mono(hex@, k as int, hex@.len() as int);
        }
        let hex = substring_by_byte(hex, k, total);
        let ghost whole = chars@;
        proof {
            lemma_bytes_to_chars(whole, hex@, k as int, whole.len() as int);
            assert(hex@ =~= strip_hashes(whole));
        }
        let b = hex.as_bytes();
        if b.len() != 6 {
            return Err(hex_message(hex, "expected 6 characters (RRGGBB)"));
        }
        let r = match parse_hex_pair(b[0], b[1]) {
            Some(v) => v,
            None => {
                return Err(hex_message(hex, "invalid red component"));
            },
        };
        let g = match parse_hex_pair(b[2], b[3]) {
            Some(v) => v,
            None => {
                return Err(hex_message(hex, "invalid green component"));
            },
        };
        let bl = match parse_hex_pair(b[4], b[5]) {
            Some(v) => v,
            None => {
                return Err(hex_message(hex, "invalid blue component"));
            },
        };
        Ok(RgbColor::new(r, g, bl))
    }
}

/// A zero-based line number.
#[derive(Clone, Copy, Debug, PartialEq, Eq, Structural)]
pub struct LineNumber(pub u32);

impl LineNumber {
    /// The line number as an index.
    pub fn as_usize(self) -> (n: usize)
        ensures
            n == self.0,
    {
        self.0 as usize
    }
}

/// A range of byte columns on one line.
#[derive(Clone, Copy, Debug, PartialEq, Eq, Structural)]
pub struct SingleLineSpan {
    pub line: LineNumber,
    pub start_col: u32,
    pub end_col: u32,
}

/// The kind of a string literal.
#[derive(Clone, Copy, Debug, PartialEq, Eq, Structural)]
pub enum StringKind {
    StringLiteral,
    Text,
}

/// The syntactic kind of an atom, which decides its syntax color.
#[derive(Clone, Copy, Debug, PartialEq, Eq, Structural)]
pub enum AtomKind {
    Normal,
    String(StringKind),
    Type,
    Comment,
    Keyword,
    TreeSitterError,
    Punctuation,
    Function,
    Property,
    Number,
    Constant,
    Variable,
    Operator,
    Tag,
    Attribute,
    Decorator,
    Parameter,
    Constructor,
    Namespace,
    Label,
}

/// The kind of a token.
#[derive(Clone, Copy, Debug, PartialEq, Eq, Structural)]
pub enum TokenKind {
    Delimiter,
    Atom(AtomKind),
}

/// How a position matched the other side of the diff.
#[derive(Clone, Debug)]
pub enum MatchKind {
    UnchangedToken { highlight: TokenKind, self_pos: Vec<SingleLineSpan>, opposite_pos: Vec<SingleLineSpan> },
    UnchangedPartOfNovelItem { highlight: TokenKind, self_pos: SingleLineSpan, opposite_pos: Vec<SingleLineSpan> },
    Novel { highlight: TokenKind },
    NovelWord { highlight: TokenKind },
    Ignored { highlight: TokenKind },
}

/// Whether a match kind marks changed content.
pub open spec fn kind_is_novel(kind: MatchKind) -> bool {
    match kind {
        MatchKind::Novel { .. } | MatchKind::NovelWord { .. } | MatchKind::UnchangedPartOfNovelItem { .. } => true,
        _ => false,
    }
}

impl MatchKind {
    /// Whether this kind marks changed content.
    pub fn is_novel(&self) -> (b: bool)
        ensures
            b == kind_is_novel(*self),
    {
        match self {
            MatchKind::Novel { .. } | MatchKind::NovelWord { .. } | MatchKind::UnchangedPartOfNovelItem { .. } => true,
            _ => false,
        }
    }
}

/// A position in the source with how it matched.
#[derive(Clone, Debug)]
pub struct MatchedPos {
    pub kind: MatchKind,
    pub pos: SingleLineSpan,
}

/// What a file was read as.
#[derive(Clone, Debug)]
pub enum FileFormat {
    /// Parsed as a language, named by its display name.
    SupportedLanguage(String),
    PlainText,
    TextFallback { reason: String },
    Binary,
}

/// How a file format is shown in headers.
pub open spec fn file_format_name(f: FileFormat) -> Seq<char> {
    match f {
        FileFormat::SupportedLanguage(name) => name@,
        FileFormat::PlainText => "Text"@,
        FileFormat::TextFallback { reason } => "Text ("@ + reason@ + ")"@,
        FileFormat::Binary => "Binary"@,
    }
}

impl FileFormat {
    /// How the format is shown in headers.
    pub fn display_name(&self) -> (s: String)
        ensures
            s@ == file_format_name(*self),
    {
        match self {
            FileFormat::SupportedLanguage(name) => name.clone(),
            FileFormat::PlainText => String::from_str("Text"),
            FileFormat::TextFallback { reason } => {
                let mut s = String::from_str("Text (");
                s.append(reason.as_str());
                s.append(")");
                s
            },
            FileFormat::Binary => String::from_str("Binary"),
        }
    }

    /// Whether the file was parsed as a language.
    pub fn is_supported_language(&self) -> (b: bool)
        ensures
            b == (*self is SupportedLanguage),
    {
        match self {
            FileFormat::SupportedLanguage(_) => true,
            _ => false,
        }
    }
}

/// The display settings that styling reads.
#[derive(Clone, Copy, Debug)]
pub struct DisplayOptions {
    pub use_color: bool,
    pub background_color: BackgroundColor,
}

} // verus!
