//! Display widths of text, and wrapping text to a width.
use vstd::prelude::*;
use crate::text::{lemma_byte_at_boundary, lemma_bytes_to_chars, substring_by_byte, blen, byte_len, byte_at, char_vec, clen, len_utf8, lemma_blen_ge_len, lemma_byte_at_step, lemma_byte_at_end};

verus! {

/// The display width of `c` in columns, as `UnicodeWidthChar::width`
/// computes it (`None` for control characters).
pub uninterp spec fn char_width(c: char) -> Option<usize>;

/// `UnicodeWidthChar::width`. The name states the result; the clauses
/// state what the crate's source shows for ASCII and control characters,
/// and that no character is wider than two columns. The table lookup for
/// other characters is left unsaid.
#[verifier::external_body]
pub(crate) fn unicode_char_width(c: char) -> (w: Option<usize>)
    ensures
        w == char_width(c),
        (c as u32) == 0 ==> w == Some(0usize),
        (0 < (c as u32) < 0x20 || 0x7f <= (c as u32) < 0xa0) ==> w is None,
        (0x20 <= (c as u32) < 0x7f) ==> w == Some(1usize),
        (c as u32) >= 0xa0 ==> w is Some,
        w is Some ==> w.unwrap() <= 2,
{
    unicode_width::UnicodeWidthChar::width(c)
}

/// Columns that `c` takes in a string, control characters counting as none.
pub open spec fn cell_width(c: char) -> nat {
    match char_width(c) {
        Some(w) => w as nat,
        None => 0,
    }
}

/// Columns that `c` takes when a tab is `tab_width` columns wide.
pub open spec fn col_width(c: char, tab_width: nat) -> nat {
    if c == '\t' {
        tab_width
    } else {
        cell_width(c)
    }
}

/// Display width of `s` (`UnicodeWidthStr::width`): the sum of the widths
/// of its characters, control characters counting as zero.
pub open spec fn str_width(s: Seq<char>) -> nat
    decreases s.len(),
{
    if s.len() == 0 {
        0
    } else {
        str_width(s.drop_last()) + cell_width(s.last())
    }
}

/// Display width of `s` when each tab is `tab_width` columns wide.
pub open spec fn cols(s: Seq<char>, tab_width: nat) -> nat
    decreases s.len(),
{
    if s.len() == 0 {
        0
    } else {
        cols(s.drop_last(), tab_width) + col_width(s.last(), tab_width)
    }
}

/// Number of tabs in `s`.
pub open spec fn tab_count(s: Seq<char>) -> nat
    decreases s.len(),
{
    if s.len() == 0 {
        0
    } else {
        tab_count(s.drop_last()) + (if s.last() == '\t' {
            1nat
        } else {
            0nat
        })
    }
}

/// The inputs whose widths fit in a `usize`.
pub open spec fn width_fits(s: Seq<char>, tab_width: nat) -> bool {
    2 * s.len() + tab_count(s) * tab_width <= usize::MAX
}

pub proof fn lemma_cols_concat(a: Seq<char>, b: Seq<char>, tab_width: nat)
    ensures
        cols(a + b, tab_width) == cols(a, tab_width) + cols(b, tab_width),
        str_width(a + b) == str_width(a) + str_width(b),
        tab_count(a + b) == tab_count(a) + tab_count(b),
    decreases b.len(),
{
    if b.len() == 0 {
        assert(a + b =~= a);
    } else {
        lemma_cols_concat(a, b.drop_last(), tab_width);
        assert((a + b).drop_last() =~= a + b.drop_last());
    }
}

pub proof fn lemma_cols_push(s: Seq<char>, c: char, tab_width: nat)
    ensures
        cols(s.push(c), tab_width) == cols(s, tab_width) + col_width(c, tab_width),
        str_width(s.push(c)) == str_width(s) + cell_width(c),
        tab_count(s.push(c)) == tab_count(s) + (if c == '\t' { 1nat } else { 0nat }),
{
    assert(s.push(c).drop_last() =~= s);
}

pub proof fn lemma_take_step(s: Seq<char>, i: int)
    requires
        0 <= i < s.len(),
    ensures
        s.take(i + 1) == s.take(i).push(s[i]),
{
    assert(s.take(i + 1) =~= s.take(i).push(s[i]));
}

/// With tabs as wide as given, the width is the plain width plus the
/// tabs' share, since a tab is a control character of no width.
pub proof fn lemma_cols_split(s: Seq<char>, tab_width: nat)
    requires
        char_width('\t') is None,
    ensures
        cols(s, tab_width) == str_width(s) + tab_count(s) * tab_width,
    decreases s.len(),
{
    if s.len() > 0 {
        lemma_cols_split(s.drop_last(), tab_width);
        let t = tab_count(s.drop_last());
        assert((t + 1) * tab_width == t * tab_width + tab_width) by (nonlinear_arith);
        assert(cols(s, tab_width) == cols(s.drop_last(), tab_width) + col_width(s.last(), tab_width));
        assert(str_width(s) == str_width(s.drop_last()) + cell_width(s.last()));
        if s.last() == '\t' {
            assert(tab_count(s) == t + 1);
            assert(cell_width(s.last()) == 0);
        } else {
            assert(tab_count(s) == t);
        }
    } else {
        assert(0 * tab_width == 0) by (nonlinear_arith);
    }
}

pub proof fn lemma_tab_count_le(s: Seq<char>, i: int)
    requires
        0 <= i <= s.len(),
    ensures
        tab_count(s.take(i)) <= tab_count(s),
        tab_count(s.take(i)) <= i,
    decreases s.len() - i,
{
    if i < s.len() {
        lemma_tab_count_le(s, i + 1);
        lemma_take_step(s, i);
        lemma_cols_push(s.take(i), s[i], 0);
    } else {
        assert(s.take(i) =~= s);
    }
    lemma_tab_count_bound(s.take(i));
}

pub proof fn lemma_tab_count_bound(s: Seq<char>)
    ensures
        tab_count(s) <= s.len(),
    decreases s.len(),
{
    if s.len() > 0 {
        lemma_tab_count_bound(s.drop_last());
    }
}

pub proof fn lemma_mul_le(a: nat, b: nat, t: nat)
    requires
        a <= b,
    ensures
        a * t <= b * t,
{
    vstd::arithmetic::mul::lemma_mul_inequality(a as int, b as int, t as int);
}

/// The display width of `s`, each control character counting as zero
/// columns (the behaviour of `UnicodeWidthStr::width`).
pub fn display_width(s: &str) -> (w: usize)
    requires
        2 * s@.len() <= usize::MAX,
    ensures
        w == str_width(s@),
        w <= 2 * s@.len(),
{
    let mut w: usize = 0;
    for c in it: s.chars()
        invariant
            it.seq() == s@,
            2 * s@.len() <= usize::MAX,
            w == str_width(s@.take(it.index() as int)),
            w <= 2 * it.index(),
    {
        let cw = unicode_char_width(c);
        proof {
            lemma_take_step(s@, it.index() as int);
            lemma_cols_push(s@.take(it.index() as int), c, 0);
        }
        w = w + match cw {
            Some(x) => x,
            None => 0,
        };
    }
    assert(s@.take(s@.len() as int) =~= s@);
    w
}

/// Number of tabs in `s`.
pub fn count_tabs(s: &str) -> (n: usize)
    ensures
        n == tab_count(s@),
{
    let total = byte_len(s);
    proof {
        lemma_blen_ge_len(s@);
    }
    let mut n: usize = 0;
    for c in it: s.chars()
        invariant
            it.seq() == s@,
            s@.len() <= usize::MAX,
            n == tab_count(s@.take(it.index() as int)),
    {
        proof {
            lemma_take_step(s@, it.index() as int);
            lemma_cols_push(s@.take(it.index() as int), c, 0);
            lemma_tab_count_le(s@, it.index() + 1);
        }
        if c == '\t' {
            n = n + 1;
        }
    }
    assert(s@.take(s@.len() as int) =~= s@);
    n
}

/// Display width of `s`, counting each tab as `tab_width` columns.
pub fn width_respecting_tabs(s: &str, tab_width: usize) -> (w: usize)
    requires
        width_fits(s@, tab_width as nat),
    ensures
        w == cols(s@, tab_width as nat),
{
    let display_width = display_width(s);
    // A tab is a control character, so `display_width` gives it no
    // columns; it is counted here as `tab_width` columns instead.
    let tab_alone = unicode_char_width('\t');
    let tab_count = count_tabs(s);
    proof {
        lemma_cols_split(s@, tab_width as nat);
    }
    let tab_display_width_extra = tab_count * tab_width;
    display_width + tab_display_width_extra
}

/// Number of leading characters of `s`, from index `i` on, before the first
/// one at which the width of the prefix exceeds `width`.
pub open spec fn fit_from(s: Seq<char>, width: nat, tab_width: nat, i: nat) -> nat
    decreases s.len() - i,
{
    if i >= s.len() {
        s.len()
    } else if cols(s.take(i + 1 as int), tab_width) > width {
        i
    } else {
        fit_from(s, width, tab_width, i + 1)
    }
}

/// Number of leading characters of `s` that fit in `width` columns.
pub open spec fn fit_count(s: Seq<char>, width: nat, tab_width: nat) -> nat {
    fit_from(s, width, tab_width, 0)
}

/// Number of leading characters of `s` that `byte_offset_for_width`
/// keeps: those before the first one that does not fit, or all of them.
pub open spec fn cut_index(s: Seq<char>, width: nat, tab_width: nat) -> nat {
    fit_count(s, width, tab_width)
}

pub proof fn lemma_fit_from_bounds(s: Seq<char>, width: nat, tab_width: nat, i: nat)
    requires
        i <= s.len(),
        cols(s.take(i as int), tab_width) <= width,
    ensures
        i <= fit_from(s, width, tab_width, i) <= s.len(),
        cols(s.take(fit_from(s, width, tab_width, i) as int), tab_width) <= width,
        fit_from(s, width, tab_width, i) < s.len() ==> cols(
            s.take(fit_from(s, width, tab_width, i) + 1 as int),
            tab_width,
        ) > width,
    decreases s.len() - i,
{
    if i < s.len() && cols(s.take(i + 1 as int), tab_width) <= width {
        lemma_fit_from_bounds(s, width, tab_width, i + 1);
    }
}

/// Find the largest byte offset in `s` that gives the longest
/// starting substring whose display width does not exceed `width`.
///
/// If `s` contains full-width Unicode characters, or emoji, or tabs,
/// its display width may be less than `width`.
pub fn byte_offset_for_width(s: &str, width: usize, tab_width: usize) -> (offset: usize)
    requires
        width_fits(s@, tab_width as nat),
    ensures
        offset == byte_at(s@, cut_index(s@, width as nat, tab_width as nat) as int),
        cols(s@.take(cut_index(s@, width as nat, tab_width as nat) as int), tab_width as nat)
            <= width,
        cut_index(s@, width as nat, tab_width as nat) < s@.len() ==> cols(
            s@.take(cut_index(s@, width as nat, tab_width as nat) + 1 as int),
            tab_width as nat,
        ) > width,
{
    let chars = char_vec(s);
    let total = byte_len(s);
    proof {
        lemma_blen_ge_len(s@);
        lemma_byte_at_end(s@);
        assert(s@.take(0) =~= Seq::<char>::empty());
        lemma_fit_from_bounds(s@, width as nat, tab_width as nat, 0);
    }
    let mut current_width: usize = 0;
    let mut current_offset: usize = 0;
    let mut i: usize = 0;
    let ghost tw = tab_width as nat;
    while i < chars.len()
        invariant_except_break
            chars@ == s@,
            total == blen(s@),
            width_fits(s@, tw),
            tw == tab_width,
            i <= s@.len(),
            current_width == cols(s@.take(i as int), tw),
            current_width <= width,
            fit_from(s@, width as nat, tw, i as nat) == fit_count(s@, width as nat, tw),
            current_offset == byte_at(s@, i as int),
            cols(s@.take(i as int), tw) <= 2 * i + tab_count(s@.take(i as int)) * tw,
        ensures
            current_offset == byte_at(s@, cut_index(s@, width as nat, tw) as int),
        decreases chars.len() - i,
    {
        let ch = chars[i];
        let w = unicode_char_width(ch);
        let char_width = if ch == '\t' {
            tab_width
        } else {
            match w {
                Some(x) => x,
                None => 0,
            }
        };
        proof {
            lemma_take_step(s@, i as int);
            lemma_cols_push(s@.take(i as int), ch, tw);
            lemma_tab_count_le(s@, i + 1);
            lemma_mul_le(tab_count(s@.take(i + 1)), tab_count(s@), tw);
            lemma_byte_at_step(s@, i as int);
            lemma_byte_at_mono_total(s@, i + 1);
            let tc = tab_count(s@.take(i as int));
            assert((tc + 1) * tw == tc * tw + tw) by (nonlinear_arith);
            assert(char_width == col_width(ch, tw));
            assert(cols(s@.take(i + 1), tw) <= 2 * (i + 1) + tab_count(s@.take(i + 1)) * tw);
        }
        current_width = current_width + char_width;
        if current_width > width {
            proof {
                assert(fit_from(s@, width as nat, tw, i as nat) == i);
            }
            break;
        }
        current_offset = current_offset + len_utf8(ch);
        i = i + 1;
    }
    proof {
        if i == s@.len() {
            assert(fit_from(s@, width as nat, tw, i as nat) == s@.len());
        }
    }
    current_offset
}

pub proof fn lemma_byte_at_mono_total(s: Seq<char>, i: int)
    requires
        0 <= i <= s.len(),
    ensures
        byte_at(s, i) <= blen(s),
{
    crate::text::lemma_byte_at_mono(s, i, s.len() as int);
    lemma_byte_at_end(s);
}

/// Whether the wrapping loop still cuts a piece off `s`.
pub open spec fn needs_split(s: Seq<char>, max_width: nat, tab_width: nat) -> bool {
    blen(s) / 4 > max_width || cols(s, tab_width) > max_width
}

/// The pieces that wrapping cuts off the front of `s`, and what remains.
pub open spec fn wrap_pieces(s: Seq<char>, max_width: nat, tab_width: nat) -> (
    Seq<Seq<char>>,
    Seq<char>,
)
    decreases s.len(),
{
    let k = cut_index(s, max_width, tab_width);
    if needs_split(s, max_width, tab_width) && 0 < k <= s.len() {
        let r = wrap_pieces(s.skip(k as int), max_width, tab_width);
        (seq![s.take(k as int)] + r.0, r.1)
    } else {
        (Seq::empty(), s)
    }
}

/// Spaces needed to pad a part of width `w` to `max_width`.
pub open spec fn pad_for(w: nat, max_width: nat) -> nat {
    if w < max_width {
        (max_width - w) as nat
    } else {
        0
    }
}

/// The parts of `s`, each with its padding, that `split_string_by_width` returns.
pub open spec fn split_by_width(s: Seq<char>, max_width: nat, tab_width: nat) -> Seq<
    (Seq<char>, nat),
> {
    let pieces = wrap_pieces(s, max_width, tab_width).0;
    let rest = wrap_pieces(s, max_width, tab_width).1;
    let padded = Seq::new(
        pieces.len(),
        |k: int| (pieces[k], pad_for(cols(pieces[k], tab_width), max_width)),
    );
    if pieces.len() == 0 || rest.len() != 0 {
        padded.push((rest, pad_for(cols(rest, tab_width), max_width)))
    } else {
        padded
    }
}

/// The inputs on which wrapping ends: every character fits in a part.
pub open spec fn wraps(s: Seq<char>, max_width: nat, tab_width: nat) -> bool {
    forall|k: int| 0 <= k < s.len() ==> #[trigger] col_width(s[k], tab_width) <= max_width
}

pub proof fn lemma_width_fits_sub(s: Seq<char>, i: int, j: int, tab_width: nat)
    requires
        0 <= i <= j <= s.len(),
        width_fits(s, tab_width),
    ensures
        width_fits(s.subrange(i, j), tab_width),
{
    assert(s =~= s.subrange(0, i) + s.subrange(i, j) + s.subrange(j, s.len() as int));
    lemma_cols_concat(s.subrange(0, i) + s.subrange(i, j), s.subrange(j, s.len() as int), 0);
    lemma_cols_concat(s.subrange(0, i), s.subrange(i, j), 0);
    lemma_mul_le(tab_count(s.subrange(i, j)), tab_count(s), tab_width);
}

/// Where wrapping goes on, it cuts a nonempty piece.
pub proof fn lemma_cut_progress(s: Seq<char>, max_width: nat, tab_width: nat)
    requires
        wraps(s, max_width, tab_width),
        needs_split(s, max_width, tab_width),
    ensures
        0 < cut_index(s, max_width, tab_width) <= s.len(),
        wraps(s.skip(cut_index(s, max_width, tab_width) as int), max_width, tab_width),
{
    assert(s.take(0) =~= Seq::<char>::empty());
    lemma_fit_from_bounds(s, max_width, tab_width, 0);
    let k = fit_count(s, max_width, tab_width);
    if s.len() == 0 {
        assert(s =~= Seq::<char>::empty());
    }
    if k == 0 {
        assert(s.take(1) =~= Seq::<char>::empty().push(s[0]));
        lemma_cols_push(Seq::<char>::empty(), s[0], tab_width);
        assert(col_width(s[0], tab_width) <= max_width);
    }
    let t = s.skip(k as int);
    assert forall|j: int| 0 <= j < t.len() implies #[trigger] col_width(t[j], tab_width)
        <= max_width by {
        assert(t[j] == s[j + k]);
    }
}

/// The characters of the parts of a split, without their padding.
pub open spec fn part_texts<'a>(parts: Seq<(&'a str, usize)>) -> Seq<Seq<char>> {
    parts.map_values(|p: (&'a str, usize)| p.0@)
}

/// Split a string into parts whose display width does not exceed
/// `max_width`, each with the number of spaces that pads it to
/// `max_width`.
pub fn split_string_by_width<'a>(s: &'a str, max_width: usize, tab_width: usize) -> (parts: Vec<
    (&'a str, usize),
>)
    requires
        width_fits(s@, tab_width as nat),
        wraps(s@, max_width as nat, tab_width as nat),
    ensures
        parts@.len() == split_by_width(s@, max_width as nat, tab_width as nat).len(),
        forall|k: int|
            0 <= k < parts@.len() ==> (#[trigger] parts@[k]).0@ == split_by_width(
                s@,
                max_width as nat,
                tab_width as nat,
            )[k].0 && parts@[k].1 == split_by_width(s@, max_width as nat, tab_width as nat)[k].1,
{
    let ghost mw = max_width as nat;
    let ghost tw = tab_width as nat;
    let ghost s0 = s@;
    let mut parts: Vec<(&'a str, usize)> = Vec::new();
    let mut s = s;
    while byte_len(s) / 4 > max_width || width_respecting_tabs(s, tab_width) > max_width
        invariant
            mw == max_width,
            tw == tab_width,
            width_fits(s@, tw),
            wraps(s@, mw, tw),
            wrap_pieces(s0, mw, tw).0 == part_texts(parts@) + wrap_pieces(s@, mw, tw).0,
            wrap_pieces(s0, mw, tw).1 == wrap_pieces(s@, mw, tw).1,
            forall|k: int|
                0 <= k < parts@.len() ==> (#[trigger] parts@[k]).1 == pad_for(
                    cols(parts@[k].0@, tw),
                    mw,
                ),
        decreases s@.len(),
    {
        proof {
            lemma_cut_progress(s@, mw, tw);
        }
        let ghost c = cut_index(s@, mw, tw) as int;
        let offset = byte_offset_for_width(s, max_width, tab_width);
        let total = byte_len(s);
        proof {
            lemma_byte_at_boundary(s@, 0);
            lemma_byte_at_boundary(s@, c);
            lemma_byte_at_boundary(s@, s@.len() as int);
            lemma_byte_at_end(s@);
            lemma_byte_at_mono_total(s@, c);
        }
        let part = substring_by_byte(s, 0, offset);
        let rest = substring_by_byte(s, offset, total);
        proof {
            lemma_bytes_to_chars(s@, part@, 0, c);
            lemma_bytes_to_chars(s@, rest@, c, s@.len() as int);
            lemma_width_fits_sub(s@, 0, c, tw);
            lemma_width_fits_sub(s@, c, s@.len() as int, tw);
            assert(part@ =~= s@.take(c));
            assert(rest@ =~= s@.skip(c));
        }
        let part_width = width_respecting_tabs(part, tab_width);
        let padding = if part_width < max_width {
            max_width - part_width
        } else {
            0
        };
        let ghost old_parts = parts@;
        let ghost old_s = s@;
        parts.push((part, padding));
        s = rest;
        proof {
            assert(part_texts(parts@) =~= part_texts(old_parts).push(part@));
            let r = wrap_pieces(old_s, mw, tw);
            assert(r.0 =~= seq![old_s.take(c)] + wrap_pieces(old_s.skip(c), mw, tw).0);
            assert(part_texts(old_parts) + r.0 =~= part_texts(parts@) + wrap_pieces(s@, mw, tw).0);
        }
    }
    proof {
        assert(wrap_pieces(s@, mw, tw).0 =~= Seq::<Seq<char>>::empty());
        assert(part_texts(parts@) =~= wrap_pieces(s0, mw, tw).0);
    }
    if parts.len() == 0 || byte_len(s) != 0 {
        let w = width_respecting_tabs(s, tab_width);
        proof {
            lemma_blen_ge_len(s@);
        }
        parts.push((s, max_width - w));
    }
    proof {
        let spec = split_by_width(s0, mw, tw);
        assert(parts@.len() == spec.len());
    }
    parts
}

/// The parts' texts, one after the other.
pub open spec fn join_parts(parts: Seq<(Seq<char>, nat)>) -> Seq<char>
    decreases parts.len(),
{
    if parts.len() == 0 {
        Seq::empty()
    } else {
        join_parts(parts.drop_last()) + parts.last().0
    }
}

pub open spec fn join_pieces(pieces: Seq<Seq<char>>) -> Seq<char>
    decreases pieces.len(),
{
    if pieces.len() == 0 {
        Seq::empty()
    } else {
        pieces[0] + join_pieces(pieces.drop_first())
    }
}

pub proof fn lemma_join_pieces_push(pieces: Seq<Seq<char>>, x: Seq<char>)
    ensures
        join_pieces(pieces.push(x)) == join_pieces(pieces) + x,
    decreases pieces.len(),
{
    if pieces.len() == 0 {
        assert(pieces.push(x).drop_first() =~= Seq::<Seq<char>>::empty());
        assert(join_pieces(Seq::<Seq<char>>::empty()) == Seq::<char>::empty());
        assert(pieces.push(x)[0] == x);
        assert(join_pieces(pieces.push(x)) =~= x + Seq::<char>::empty());
        assert(join_pieces(pieces) == Seq::<char>::empty());
        assert(Seq::<char>::empty() + x =~= x);
    } else {
        lemma_join_pieces_push(pieces.drop_first(), x);
        assert(pieces.push(x).drop_first() =~= pieces.drop_first().push(x));
        assert(join_pieces(pieces.push(x)) =~= pieces[0] + (join_pieces(pieces.drop_first()) + x));
    }
}

/// Wrapping cuts `s` into pieces that, with what remains, make up `s`.
pub proof fn lemma_wrap_pieces_join(s: Seq<char>, max_width: nat, tab_width: nat)
    ensures
        join_pieces(wrap_pieces(s, max_width, tab_width).0) + wrap_pieces(s, max_width, tab_width).1 == s,
    decreases s.len(),
{
    let k = cut_index(s, max_width, tab_width);
    if needs_split(s, max_width, tab_width) && 0 < k <= s.len() {
        lemma_wrap_pieces_join(s.skip(k as int), max_width, tab_width);
        let r = wrap_pieces(s.skip(k as int), max_width, tab_width);
        let ps = seq![s.take(k as int)] + r.0;
        assert(ps.drop_first() =~= r.0);
        assert(ps[0] == s.take(k as int));
        assert(s.take(k as int) + (join_pieces(r.0) + r.1) =~= s);
    } else {
        assert(join_pieces(Seq::<Seq<char>>::empty()) + s =~= s);
    }
}

pub proof fn lemma_join_parts_pieces(pieces: Seq<Seq<char>>, parts: Seq<(Seq<char>, nat)>)
    requires
        parts.len() == pieces.len(),
        forall|k: int| 0 <= k < parts.len() ==> (#[trigger] parts[k]).0 == pieces[k],
    ensures
        join_parts(parts) == join_pieces(pieces),
    decreases parts.len(),
{
    if parts.len() > 0 {
        lemma_join_parts_pieces(pieces.drop_last(), parts.drop_last());
        lemma_join_pieces_push(pieces.drop_last(), pieces.last());
        assert(pieces.drop_last().push(pieces.last()) =~= pieces);
    }
}

/// The parts of a split make up the string.
pub proof fn lemma_split_join(s: Seq<char>, max_width: nat, tab_width: nat)
    ensures
        join_parts(split_by_width(s, max_width, tab_width)) == s,
{
    let pieces = wrap_pieces(s, max_width, tab_width).0;
    let rest = wrap_pieces(s, max_width, tab_width).1;
    let padded = Seq::new(
        pieces.len(),
        |k: int| (pieces[k], pad_for(cols(pieces[k], tab_width), max_width)),
    );
    lemma_wrap_pieces_join(s, max_width, tab_width);
    lemma_join_parts_pieces(pieces, padded);
    if pieces.len() == 0 || rest.len() != 0 {
        let all = padded.push((rest, pad_for(cols(rest, tab_width), max_width)));
        assert(all.drop_last() =~= padded);
    } else {
        assert(join_pieces(pieces) + rest =~= join_pieces(pieces));
    }
}

/// The first `k + 1` parts are the first `k` and part `k`, and together
/// with the parts after them they make up all of them.
pub proof fn lemma_join_parts_take(parts: Seq<(Seq<char>, nat)>, k: int)
    requires
        0 <= k < parts.len(),
    ensures
        join_parts(parts.take(k + 1)) == join_parts(parts.take(k)) + parts[k].0,
        join_parts(parts.take(k + 1)).len() <= join_parts(parts).len(),
        join_parts(parts).take(join_parts(parts.take(k + 1)).len() as int) == join_parts(parts.take(k + 1)),
    decreases parts.len() - k,
{
    assert(parts.take(k + 1).drop_last() =~= parts.take(k));
    if k + 1 < parts.len() {
        lemma_join_parts_take(parts, k + 1);
        let a = join_parts(parts.take(k + 1));
        let b = join_parts(parts.take(k + 2));
        assert(b.take(a.len() as int) =~= a);
    } else {
        assert(parts.take(k + 1) =~= parts);
    }
}

/// The pieces that wrapping cuts off are at most `max_width` columns
/// wide, and so is what remains.
pub proof fn lemma_wrap_pieces_fit(s: Seq<char>, max_width: nat, tab_width: nat)
    requires
        wraps(s, max_width, tab_width),
    ensures
        forall|k: int|
            0 <= k < wrap_pieces(s, max_width, tab_width).0.len() ==> cols(
                #[trigger] wrap_pieces(s, max_width, tab_width).0[k],
                tab_width,
            ) <= max_width,
        cols(wrap_pieces(s, max_width, tab_width).1, tab_width) <= max_width,
    decreases s.len(),
{
    if needs_split(s, max_width, tab_width) {
        lemma_cut_progress(s, max_width, tab_width);
        let c = cut_index(s, max_width, tab_width);
        let f = fit_count(s, max_width, tab_width);
        assert(s.take(0) =~= Seq::<char>::empty());
        lemma_fit_from_bounds(s, max_width, tab_width, 0);
        assert(c <= f);
        assert(s.take(f as int) =~= s.take(c as int) + s.take(f as int).skip(c as int));
        lemma_cols_concat(s.take(c as int), s.take(f as int).skip(c as int), tab_width);
        lemma_wrap_pieces_fit(s.skip(c as int), max_width, tab_width);
        let r = wrap_pieces(s.skip(c as int), max_width, tab_width);
        let ps = seq![s.take(c as int)] + r.0;
        assert forall|k: int| 0 <= k < ps.len() implies cols(#[trigger] ps[k], tab_width) <= max_width by {
            if k > 0 {
                assert(ps[k] == r.0[k - 1]);
            }
        }
    }
}

/// Every part of a split is at most `max_width` columns wide, and its
/// padding brings it to exactly `max_width` columns.
pub proof fn lemma_split_parts_fill(s: Seq<char>, max_width: nat, tab_width: nat)
    requires
        wraps(s, max_width, tab_width),
    ensures
        forall|k: int|
            0 <= k < split_by_width(s, max_width, tab_width).len() ==> {
                &&& cols((#[trigger] split_by_width(s, max_width, tab_width)[k]).0, tab_width)
                    <= max_width
                &&& cols(split_by_width(s, max_width, tab_width)[k].0, tab_width)
                    + split_by_width(s, max_width, tab_width)[k].1 == max_width
            },
{
    lemma_wrap_pieces_fit(s, max_width, tab_width);
    let pieces = wrap_pieces(s, max_width, tab_width).0;
    let parts = split_by_width(s, max_width, tab_width);
    assert forall|k: int| 0 <= k < parts.len() implies cols((#[trigger] parts[k]).0, tab_width)
        <= max_width && cols(parts[k].0, tab_width) + parts[k].1 == max_width by {
        if k < pieces.len() {
            assert(cols(pieces[k], tab_width) <= max_width);
        }
    }
}

/// Replacing tabs by `tab_width` spaces keeps the width that the tabs were
/// counted with, where a space is one column wide (as
/// `UnicodeWidthChar::width` gives it).
pub proof fn lemma_expand_tabs_cols(s: Seq<char>, tab_width: nat)
    requires
        char_width(' ') == Some(1usize),
    ensures
        cols(crate::text::expand_tabs(s, tab_width), tab_width) == cols(s, tab_width),
    decreases s.len(),
{
    if s.len() > 0 {
        lemma_expand_tabs_cols(s.drop_last(), tab_width);
        let a = crate::text::expand_tabs(s.drop_last(), tab_width);
        let p = crate::text::tab_piece(s.last(), tab_width);
        lemma_cols_concat(a, p, tab_width);
        if s.last() == '\t' {
            lemma_spaces_cols(tab_width, tab_width);
        } else {
            assert(p =~= Seq::<char>::empty().push(s.last()));
            lemma_cols_push(Seq::<char>::empty(), s.last(), tab_width);
        }
    }
}

/// `n` spaces are `n` columns wide, where a space is one column wide.
pub proof fn lemma_spaces_cols(n: nat, tab_width: nat)
    requires
        char_width(' ') == Some(1usize),
    ensures
        cols(crate::text::spaces(n), tab_width) == n,
    decreases n,
{
    if n > 0 {
        lemma_spaces_cols((n - 1) as nat, tab_width);
        assert(crate::text::spaces(n) =~= crate::text::spaces((n - 1) as nat).push(' '));
        lemma_cols_push(crate::text::spaces((n - 1) as nat), ' ', tab_width);
    }
}

} // verus!
