//! UTF-8 text as character sequences with byte offsets.
use vstd::prelude::*;
use vstd::utf8::*;
use vstd::string::*;

verus! {

broadcast use vstd::utf8::group_utf8_lib;

/// Number of bytes in the UTF-8 encoding of `s`.
pub open spec fn blen(s: Seq<char>) -> nat {
    encode_utf8(s).len()
}

/// Number of bytes in the UTF-8 encoding of one character.
pub open spec fn clen(c: char) -> nat {
    encode_scalar(c as u32).len()
}

/// Byte offset of the character at index `i` of `s`.
pub open spec fn byte_at(s: Seq<char>, i: int) -> nat {
    blen(s.take(i))
}

pub proof fn lemma_enc_concat(a: Seq<char>, b: Seq<char>)
    ensures
        encode_utf8(a + b) == encode_utf8(a) + encode_utf8(b),
    decreases a.len(),
{
    if a.len() == 0 {
        assert(a + b =~= b);
    } else {
        lemma_enc_concat(a.drop_first(), b);
        assert((a + b).drop_first() =~= a.drop_first() + b);
        assert(encode_utf8(a) + encode_utf8(b) =~= encode_scalar(a[0] as u32) + (encode_utf8(
            a.drop_first(),
        ) + encode_utf8(b)));
    }
}

pub proof fn lemma_clen_range(c: char)
    ensures
        1 <= clen(c) <= 4,
        clen(c) == 1 <==> (c as u32) < 0x80,
        clen(c) == 2 <==> 0x80 <= (c as u32) < 0x800,
        clen(c) == 3 <==> 0x800 <= (c as u32) < 0x10000,
        clen(c) == 4 <==> 0x10000 <= (c as u32),
{
    char_is_scalar(c);
}

pub proof fn lemma_enc_single(c: char)
    ensures
        encode_utf8(seq![c]) == encode_scalar(c as u32),
{
    assert(seq![c].drop_first() =~= Seq::<char>::empty());
    assert(encode_utf8(Seq::<char>::empty()) =~= Seq::<u8>::empty());
    assert(encode_utf8(seq![c]) =~= encode_scalar(c as u32) + encode_utf8(seq![c].drop_first()));
    assert(encode_scalar(c as u32) + Seq::<u8>::empty() =~= encode_scalar(c as u32));
}

pub proof fn lemma_blen_push(s: Seq<char>, c: char)
    ensures
        blen(s.push(c)) == blen(s) + clen(c),
{
    lemma_enc_concat(s, seq![c]);
    lemma_enc_single(c);
    assert(s.push(c) =~= s + seq![c]);
}

pub proof fn lemma_blen_concat(a: Seq<char>, b: Seq<char>)
    ensures
        blen(a + b) == blen(a) + blen(b),
{
    lemma_enc_concat(a, b);
}

pub proof fn lemma_blen_ge_len(s: Seq<char>)
    ensures
        blen(s) >= s.len(),
        blen(s) <= 4 * s.len(),
    decreases s.len(),
{
    if s.len() > 0 {
        lemma_blen_ge_len(s.drop_last());
        lemma_blen_push(s.drop_last(), s.last());
        assert(s.drop_last().push(s.last()) =~= s);
        lemma_clen_range(s.last());
    }
}

/// Byte offsets of character prefixes grow strictly with the prefix.
pub proof fn lemma_byte_at_mono(s: Seq<char>, i: int, j: int)
    requires
        0 <= i <= j <= s.len(),
    ensures
        byte_at(s, i) + (j - i) <= byte_at(s, j),
        byte_at(s, j) == byte_at(s, i) + blen(s.subrange(i, j)),
{
    assert(s.take(j) =~= s.take(i) + s.subrange(i, j));
    lemma_blen_concat(s.take(i), s.subrange(i, j));
    lemma_blen_ge_len(s.subrange(i, j));
}

pub proof fn lemma_byte_at_step(s: Seq<char>, i: int)
    requires
        0 <= i < s.len(),
    ensures
        byte_at(s, i + 1) == byte_at(s, i) + clen(s[i]),
{
    assert(s.take(i + 1) =~= s.take(i).push(s[i]));
    lemma_blen_push(s.take(i), s[i]);
}

pub proof fn lemma_byte_at_end(s: Seq<char>)
    ensures
        byte_at(s, s.len() as int) == blen(s),
        byte_at(s, 0) == 0,
{
    assert(s.take(s.len() as int) =~= s);
    assert(s.take(0) =~= Seq::<char>::empty());
}

/// The bytes between two character offsets encode the characters between them.
pub proof fn lemma_enc_subrange(s: Seq<char>, i: int, j: int)
    requires
        0 <= i <= j <= s.len(),
    ensures
        encode_utf8(s).subrange(byte_at(s, i) as int, byte_at(s, j) as int) == encode_utf8(
            s.subrange(i, j),
        ),
{
    assert(s =~= s.take(i) + s.subrange(i, j) + s.skip(j));
    lemma_enc_concat(s.take(i) + s.subrange(i, j), s.skip(j));
    lemma_enc_concat(s.take(i), s.subrange(i, j));
    assert(s.take(j) =~= s.take(i) + s.subrange(i, j));
    lemma_enc_concat(s.take(i), s.subrange(i, j));
    let e = encode_utf8(s);
    let a = encode_utf8(s.take(i));
    let b = encode_utf8(s.subrange(i, j));
    let c = encode_utf8(s.skip(j));
    assert(e =~= a + b + c);
    assert(e.subrange(a.len() as int, (a.len() + b.len()) as int) =~= b);
}

/// Every character offset is a character boundary of the encoding.
pub proof fn lemma_byte_at_boundary(s: Seq<char>, i: int)
    requires
        0 <= i <= s.len(),
    ensures
        is_char_boundary(encode_utf8(s), byte_at(s, i) as int),
    decreases i,
{
    let e = encode_utf8(s);
    if i == 0 {
        assert(s.take(0) =~= Seq::<char>::empty());
    } else {
        encode_utf8_first_scalar(s);
        let t = s.drop_first();
        assert(pop_first_scalar(e) =~= encode_utf8(t));
        lemma_byte_at_boundary(t, i - 1);
        assert(s.take(i) =~= seq![s[0]] + t.take(i - 1));
        lemma_enc_concat(seq![s[0]], t.take(i - 1));
        lemma_enc_single(s[0]);
        lemma_blen_ge_len(s);
        lemma_byte_at_mono(s, i, s.len() as int);
        lemma_byte_at_end(s);
    }
}

/// Every character boundary of the encoding is the offset of some character.
pub proof fn lemma_boundary_byte_at(s: Seq<char>, b: int) -> (i: int)
    requires
        is_char_boundary(encode_utf8(s), b),
    ensures
        0 <= i <= s.len(),
        byte_at(s, i) == b,
    decreases s.len(),
{
    let e = encode_utf8(s);
    if b == 0 {
        assert(s.take(0) =~= Seq::<char>::empty());
        0
    } else {
        if s.len() == 0 {
            assert(e.len() == 0);
            assert(false);
        }
        encode_utf8_first_scalar(s);
        let t = s.drop_first();
        assert(pop_first_scalar(e) =~= encode_utf8(t));
        let k = lemma_boundary_byte_at(t, b - length_of_first_scalar(e));
        assert(s.take(k + 1) =~= seq![s[0]] + t.take(k));
        lemma_enc_concat(seq![s[0]], t.take(k));
        lemma_enc_single(s[0]);
        k + 1
    }
}

/// Number of bytes of `s`.
pub fn byte_len(s: &str) -> (n: usize)
    ensures
        n == blen(s@),
{
    s.as_bytes().len()
}

/// The characters of `s`, in order.
pub fn char_vec(s: &str) -> (v: Vec<char>)
    ensures
        v@ == s@,
{
    let mut v: Vec<char> = Vec::new();
    for c in it: s.chars()
        invariant
            it.seq() == s@,
            v@ == it.seq().take(it.index() as int),
    {
        v.push(c);
        assert(it.seq().take(it.index() + 1) =~= v@);
    }
    assert(s@.take(s@.len() as int) =~= s@);
    v
}

/// The characters whose encoding is a given byte range of the encoding of `s`.
pub proof fn lemma_bytes_to_chars(s: Seq<char>, r: Seq<char>, i: int, j: int)
    requires
        0 <= i <= j <= s.len(),
        encode_utf8(r) == encode_utf8(s).subrange(byte_at(s, i) as int, byte_at(s, j) as int),
    ensures
        r == s.subrange(i, j),
{
    lemma_enc_subrange(s, i, j);
    encode_utf8_decode_utf8(r);
    encode_utf8_decode_utf8(s.subrange(i, j));
}

/// Number of bytes of the UTF-8 encoding of `c`.
pub fn len_utf8(c: char) -> (n: usize)
    ensures
        n == clen(c),
{
    proof {
        lemma_clen_range(c);
    }
    let v = c as u32;
    if v < 0x80 {
        1
    } else if v < 0x800 {
        2
    } else if v < 0x10000 {
        3
    } else {
        4
    }
}

/// The part of `s` between the byte offsets `start` and `end`, which must
/// lie on character boundaries.
pub fn substring_by_byte(s: &str, start: usize, end: usize) -> (r: &str)
    requires
        start <= end,
        is_char_boundary(s.spec_bytes(), start as int),
        is_char_boundary(s.spec_bytes(), end as int),
    ensures
        r.spec_bytes() == s.spec_bytes().subrange(start as int, end as int),
        r@ == decode_utf8(s.spec_bytes().subrange(start as int, end as int)),
{
    let ghost i = lemma_boundary_byte_at(s@, start as int);
    let ghost j = lemma_boundary_byte_at(s@, end as int);
    proof {
        if j < i {
            lemma_byte_at_mono(s@, j, i);
        }
        lemma_byte_at_end(s@);
        lemma_byte_at_mono(s@, i, s@.len() as int);
        lemma_enc_subrange(s@, i, s@.len() as int);
        lemma_byte_at_mono(s@, i, j);
    }
    let (_, rest) = s.split_at(start);
    proof {
        lemma_bytes_to_chars(s@, rest@, i, s@.len() as int);
        let t = s@.subrange(i, s@.len() as int);
        assert(t.take(j - i) =~= s@.subrange(i, j));
        assert(s@.take(j) =~= s@.take(i) + s@.subrange(i, j));
        lemma_blen_concat(s@.take(i), s@.subrange(i, j));
        lemma_byte_at_boundary(t, j - i);
    }
    let (r, _) = rest.split_at(end - start);
    proof {
        let t = s@.subrange(i, s@.len() as int);
        assert(r.spec_bytes() =~= s.spec_bytes().subrange(start as int, end as int));
    }
    r
}

/// `n` space characters.
pub open spec fn spaces(n: nat) -> Seq<char> {
    Seq::new(n, |_i: int| ' ')
}

/// What one character of `s` becomes when tabs are shown as `tab_width` spaces.
pub open spec fn tab_piece(c: char, tab_width: nat) -> Seq<char> {
    if c == '\t' {
        spaces(tab_width)
    } else {
        seq![c]
    }
}

/// `s` with every tab replaced by `tab_width` spaces.
pub open spec fn expand_tabs(s: Seq<char>, tab_width: nat) -> Seq<char>
    decreases s.len(),
{
    if s.len() == 0 {
        Seq::empty()
    } else {
        expand_tabs(s.drop_last(), tab_width) + tab_piece(s.last(), tab_width)
    }
}

pub proof fn lemma_expand_tabs_push(s: Seq<char>, c: char, tab_width: nat)
    ensures
        expand_tabs(s.push(c), tab_width) == expand_tabs(s, tab_width) + tab_piece(c, tab_width),
{
    assert(s.push(c).drop_last() =~= s);
}

pub proof fn lemma_expand_tabs_concat(a: Seq<char>, b: Seq<char>, tab_width: nat)
    ensures
        expand_tabs(a + b, tab_width) == expand_tabs(a, tab_width) + expand_tabs(b, tab_width),
    decreases b.len(),
{
    if b.len() == 0 {
        assert(a + b =~= a);
        assert(expand_tabs(a, tab_width) + Seq::<char>::empty() =~= expand_tabs(a, tab_width));
    } else {
        lemma_expand_tabs_concat(a, b.drop_last(), tab_width);
        assert((a + b).drop_last() =~= a + b.drop_last());
        assert(expand_tabs(a + b, tab_width) =~= expand_tabs(a, tab_width) + expand_tabs(
            b.drop_last(),
            tab_width,
        ) + tab_piece(b.last(), tab_width));
    }
}

pub proof fn lemma_expand_tabs_no_tab(s: Seq<char>, tab_width: nat)
    requires
        forall|k: int| 0 <= k < s.len() ==> s[k] != '\t',
    ensures
        expand_tabs(s, tab_width) == s,
    decreases s.len(),
{
    if s.len() > 0 {
        lemma_expand_tabs_no_tab(s.drop_last(), tab_width);
        assert(s.drop_last().push(s.last()) =~= s);
    }
}

/// Once tabs are replaced, no tab is left.
pub proof fn lemma_expand_tabs_tab_free(s: Seq<char>, tab_width: nat)
    ensures
        forall|k: int|
            0 <= k < expand_tabs(s, tab_width).len() ==> #[trigger] expand_tabs(s, tab_width)[k]
                != '\t',
    decreases s.len(),
{
    if s.len() > 0 {
        lemma_expand_tabs_tab_free(s.drop_last(), tab_width);
        let a = expand_tabs(s.drop_last(), tab_width);
        let p = tab_piece(s.last(), tab_width);
        assert forall|k: int| 0 <= k < (a + p).len() implies #[trigger] (a + p)[k] != '\t' by {
            if k >= a.len() {
                assert((a + p)[k] == p[k - a.len()]);
            }
        }
    }
}

/// Appends one character (`String::push`).
#[verifier::external_body]
pub(crate) fn push_char(s: &mut String, c: char)
    ensures
        final(s)@ == old(s)@.push(c),
{
    s.push(c);
}

/// A string of `n` spaces.
pub fn repeat_space(n: usize) -> (r: String)
    ensures
        r@ == spaces(n as nat),
{
    let mut r = String::new();
    let mut k: usize = 0;
    while k < n
        invariant
            k <= n,
            r@ == spaces(k as nat),
        decreases n - k,
    {
        push_char(&mut r, ' ');
        k = k + 1;
        assert(r@ =~= spaces(k as nat));
    }
    r
}

/// Return a copy of `src` with all the tab characters replaced by
/// `tab_width` spaces.
pub fn replace_tabs(src: &str, tab_width: usize) -> (r: String)
    ensures
        r@ == expand_tabs(src@, tab_width as nat),
{
    let tab_as_spaces = repeat_space(tab_width);
    let mut r = String::new();
    for c in it: src.chars()
        invariant
            it.seq() == src@,
            tab_as_spaces@ == spaces(tab_width as nat),
            r@ == expand_tabs(src@.take(it.index() as int), tab_width as nat),
    {
        proof {
            assert(src@.take(it.index() + 1) =~= src@.take(it.index() as int).push(c));
            lemma_expand_tabs_push(src@.take(it.index() as int), c, tab_width as nat);
        }
        if c == '\t' {
            r.append(tab_as_spaces.as_str());
        } else {
            push_char(&mut r, c);
        }
        assert(r@ =~= expand_tabs(src@.take(it.index() + 1), tab_width as nat));
    }
    assert(src@.take(src@.len() as int) =~= src@);
    r
}

/// The part of `s` between two byte offsets, with tabs shown as
/// `tab_width` spaces.
pub fn substring_by_byte_replace_tabs(s: &str, start: usize, end: usize, tab_width: usize) -> (r:
    String)
    requires
        start <= end,
        is_char_boundary(s.spec_bytes(), start as int),
        is_char_boundary(s.spec_bytes(), end as int),
    ensures
        r@ == expand_tabs(
            decode_utf8(s.spec_bytes().subrange(start as int, end as int)),
            tab_width as nat,
        ),
{
    let part = substring_by_byte(s, start, end);
    replace_tabs(part, tab_width)
}

/// Whether `c` has the Unicode `White_Space` property: the tab, line
/// feed, vertical tab, form feed and carriage return, the space, U+0085,
/// U+00A0, U+1680, U+2000 to U+200A, U+2028, U+2029, U+202F, U+205F and
/// U+3000.
pub open spec fn is_white_space(c: char) -> bool {
    let u = c as u32;
    ||| 0x09 <= u <= 0x0d
    ||| u == 0x20
    ||| u == 0x85
    ||| u == 0xa0
    ||| u == 0x1680
    ||| 0x2000 <= u <= 0x200a
    ||| u == 0x2028
    ||| u == 0x2029
    ||| u == 0x202f
    ||| u == 0x205f
    ||| u == 0x3000
}

/// `char::is_whitespace`, which is documented as true exactly for the
/// characters with the Unicode `White_Space` property.
#[verifier::external_body]
pub(crate) fn char_is_whitespace(c: char) -> (b: bool)
    ensures
        b == is_white_space(c),
{
    c.is_whitespace()
}

/// Whether every character of `s` is white space.
pub open spec fn all_white_space(s: Seq<char>) -> bool {
    forall|k: int| 0 <= k < s.len() ==> is_white_space(#[trigger] s[k])
}

/// Whether `s` holds nothing but white space (`s.trim().is_empty()`).
pub fn is_blank(s: &str) -> (b: bool)
    ensures
        b == all_white_space(s@),
{
    let mut blank = true;
    for c in it: s.chars()
        invariant
            it.seq() == s@,
            blank == all_white_space(s@.take(it.index() as int)),
    {
        let w = char_is_whitespace(c);
        proof {
            let t = s@.take(it.index() + 1);
            assert(t =~= s@.take(it.index() as int).push(c));
            if blank && w {
                assert forall|k: int| 0 <= k < t.len() implies is_white_space(#[trigger] t[k]) by {
                    if k < it.index() {
                        assert(t[k] == s@.take(it.index() as int)[k]);
                    }
                }
            }
            if !w {
                assert(t[it.index() as int] == c);
            }
            if !blank {
                let u = s@.take(it.index() as int);
                let k = choose|k: int| 0 <= k < u.len() && !is_white_space(#[trigger] u[k]);
                assert(t[k] == u[k]);
            }
        }
        blank = blank && w;
    }
    assert(s@.take(s@.len() as int) =~= s@);
    blank
}

/// The pieces of `s` between newlines.
pub open spec fn raw_lines(s: Seq<char>) -> Seq<Seq<char>>
    decreases s.len(),
{
    if s.len() == 0 {
        seq![Seq::<char>::empty()]
    } else {
        let r = raw_lines(s.drop_last());
        if s.last() == '\n' {
            r.push(Seq::empty())
        } else {
            r.update(r.len() - 1, r.last().push(s.last()))
        }
    }
}

/// `line` without a trailing carriage return.
pub open spec fn strip_cr(line: Seq<char>) -> Seq<char> {
    if line.len() > 0 && line.last() == '\r' {
        line.drop_last()
    } else {
        line
    }
}

/// The lines of `s`: split on `\n` or `\r\n`; always at least one.
pub open spec fn text_lines(s: Seq<char>) -> Seq<Seq<char>> {
    raw_lines(s).map_values(|l: Seq<char>| strip_cr(l))
}

pub proof fn lemma_raw_lines_nonempty(s: Seq<char>)
    ensures
        raw_lines(s).len() >= 1,
    decreases s.len(),
{
    if s.len() > 0 {
        lemma_raw_lines_nonempty(s.drop_last());
    }
}

/// Where the line that ends at character `end` of `s` ends once a
/// trailing carriage return is cut off.
fn line_end(chars: &Vec<char>, line_start: usize, end: usize) -> (e: usize)
    requires
        line_start <= end <= chars@.len(),
    ensures
        line_start <= e <= end,
        chars@.subrange(line_start as int, e as int) == strip_cr(
            chars@.subrange(line_start as int, end as int),
        ),
        e == end || (e == end - 1 && chars@[e as int] == '\r'),
{
    if end > line_start && chars[end - 1] == '\r' {
        assert(chars@.subrange(line_start as int, end - 1) =~= chars@.subrange(
            line_start as int,
            end as int,
        ).drop_last());
        end - 1
    } else {
        end
    }
}

/// Cuts the line between two character offsets out of `s`.
fn cut_line<'a>(s: &'a str, chars: &Vec<char>, start: usize, end: usize, start_byte: usize, end_byte: usize) -> (line: &'a str)
    requires
        chars@ == s@,
        start <= end <= s@.len(),
        start_byte == byte_at(s@, start as int),
        end_byte == byte_at(s@, end as int),
    ensures
        line@ == s@.subrange(start as int, end as int),
{
    proof {
        lemma_byte_at_boundary(s@, start as int);
        lemma_byte_at_boundary(s@, end as int);
        lemma_byte_at_mono(s@, start as int, end as int);
    }
    let line = substring_by_byte(s, start_byte, end_byte);
    proof {
        lemma_bytes_to_chars(s@, line@, start as int, end as int);
    }
    line
}

/// Split `s` on `\n` or `\r\n`. Always returns at least one line.
pub fn split_on_newlines<'a>(s: &'a str) -> (lines: Vec<&'a str>)
    ensures
        lines@.len() == text_lines(s@).len(),
        lines@.len() >= 1,
        forall|k: int| 0 <= k < lines@.len() ==> (#[trigger] lines@[k])@ == text_lines(s@)[k],
{
    proof {
        lemma_raw_lines_nonempty(s@);
    }
    let chars = char_vec(s);
    let total = byte_len(s);
    proof {
        lemma_blen_ge_len(s@);
        lemma_byte_at_end(s@);
        assert(s@.take(0) =~= Seq::<char>::empty());
        assert(s@.subrange(0, 0) =~= Seq::<char>::empty());
        assert(raw_lines(s@.take(0)) =~= Seq::<Seq<char>>::empty().push(s@.subrange(0, 0)));
    }
    let mut lines: Vec<&'a str> = Vec::new();
    let mut line_start: usize = 0;
    let mut line_start_byte: usize = 0;
    let mut b: usize = 0;
    let mut i: usize = 0;
    let ghost mut done_lines: Seq<Seq<char>> = Seq::empty();
    while i < chars.len()
        invariant
            chars@ == s@,
            total == blen(s@),
            line_start <= i <= s@.len(),
            b == byte_at(s@, i as int),
            line_start_byte == byte_at(s@, line_start as int),
            raw_lines(s@.take(i as int)) == done_lines.push(s@.subrange(line_start as int, i as int)),
            lines@.len() == done_lines.len(),
            forall|k: int| 0 <= k < lines@.len() ==> (#[trigger] lines@[k])@ == strip_cr(done_lines[k]),
        decreases s@.len() - i,
    {
        let c = chars[i];
        let n = len_utf8(c);
        proof {
            lemma_byte_at_step(s@, i as int);
            lemma_byte_at_mono(s@, i + 1, s@.len() as int);
            lemma_byte_at_end(s@);
            assert(s@.take(i + 1).drop_last() =~= s@.take(i as int));
            assert(s@.take(i + 1).last() == c);
        }
        if c == '\n' {
            let ghost raw = s@.subrange(line_start as int, i as int);
            let e = line_end(&chars, line_start, i);
            let end_byte = if e < i {
                proof {
                    lemma_byte_at_step(s@, i - 1);
                    lemma_clen_range('\r');
                    lemma_byte_at_mono(s@, line_start as int, i - 1);
                }
                b - 1
            } else {
                b
            };
            let line = cut_line(s, &chars, line_start, e, line_start_byte, end_byte);
            lines.push(line);
            proof {
                done_lines = done_lines.push(raw);
                assert(s@.subrange(i + 1, i + 1) =~= Seq::<char>::empty());
            }
            line_start = i + 1;
            line_start_byte = b + n;
        } else {
            proof {
                let r = done_lines.push(s@.subrange(line_start as int, i as int));
                assert(s@.subrange(line_start as int, i + 1) =~= s@.subrange(
                    line_start as int,
                    i as int,
                ).push(c));
                assert(r.update(r.len() - 1, r.last().push(c)) =~= done_lines.push(
                    s@.subrange(line_start as int, i + 1),
                ));
            }
        }
        b = b + n;
        i = i + 1;
    }
    let n_chars = chars.len();
    let e = line_end(&chars, line_start, n_chars);
    let end_byte = if e < n_chars {
        proof {
            lemma_byte_at_step(s@, n_chars - 1);
            lemma_clen_range('\r');
            lemma_byte_at_mono(s@, line_start as int, n_chars - 1);
        }
        total - 1
    } else {
        total
    };
    let line = cut_line(s, &chars, line_start, e, line_start_byte, end_byte);
    lines.push(line);
    proof {
        assert(s@.take(n_chars as int) =~= s@);
        let all = done_lines.push(s@.subrange(line_start as int, n_chars as int));
        assert forall|k: int| 0 <= k < lines@.len() implies (#[trigger] lines@[k])@ == text_lines(
            s@,
        )[k] by {
            assert(text_lines(s@)[k] == strip_cr(all[k]));
        }
    }
    lines
}

/// A byte column of `line` inside the part of it between characters `a`
/// and `b` is a boundary of that part, counted from the part's start.
pub proof fn lemma_part_boundary(line: Seq<char>, a: int, b: int, c: int)
    requires
        0 <= a <= b <= line.len(),
        is_char_boundary(encode_utf8(line), c),
        byte_at(line, a) <= c <= byte_at(line, b),
    ensures
        is_char_boundary(encode_utf8(line.subrange(a, b)), c - byte_at(line, a)),
{
    let i = lemma_boundary_byte_at(line, c);
    if i < a {
        lemma_byte_at_mono(line, i, a);
        lemma_blen_ge_len(line.subrange(i, a));
    }
    if i > b {
        lemma_byte_at_mono(line, b, i);
        lemma_blen_ge_len(line.subrange(b, i));
    }
    let part = line.subrange(a, b);
    lemma_byte_at_mono(line, a, i);
    assert(part.take(i - a) =~= line.subrange(a, i));
    lemma_byte_at_boundary(part, i - a);
}


/// Lines joined with `\n` between them.
pub open spec fn join_lines(ls: Seq<Seq<char>>) -> Seq<char>
    decreases ls.len(),
{
    if ls.len() == 0 {
        Seq::empty()
    } else if ls.len() == 1 {
        ls[0]
    } else {
        join_lines(ls.drop_last()) + seq!['\n'] + ls.last()
    }
}

/// The pieces between newlines hold no newline, and joined with newlines
/// they give back the text.
pub proof fn lemma_raw_lines_join(s: Seq<char>)
    ensures
        join_lines(raw_lines(s)) == s,
        forall|k: int, i: int|
            0 <= k < raw_lines(s).len() && 0 <= i < raw_lines(s)[k].len() ==> #[trigger] raw_lines(s)[k][i]
                != '\n',
    decreases s.len(),
{
    lemma_raw_lines_nonempty(s);
    if s.len() > 0 {
        let d = s.drop_last();
        let c = s.last();
        lemma_raw_lines_join(d);
        lemma_raw_lines_nonempty(d);
        let r = raw_lines(d);
        let r2 = raw_lines(s);
        if c == '\n' {
            assert(r2 == r.push(Seq::<char>::empty()));
            assert(r2.drop_last() =~= r);
            assert(join_lines(r2) =~= d + seq!['\n'] + Seq::<char>::empty());
            assert(d + seq!['\n'] + Seq::<char>::empty() =~= s);
            assert forall|k: int, i: int| 0 <= k < r2.len() && 0 <= i < r2[k].len() implies #[trigger] r2[k][i] != '\n' by {
                assert(r2[k] == r[k]);
            }
        } else {
            let l = r.last().push(c);
            assert(r2 == r.update(r.len() - 1, l));
            if r.len() == 1 {
                assert(join_lines(r) == r[0]);
                assert(join_lines(r2) == l);
                assert(l =~= d.push(c));
            } else {
                assert(r2.drop_last() =~= r.drop_last());
                assert(join_lines(r2) =~= join_lines(r.drop_last()) + seq!['\n'] + l);
                assert(join_lines(r) == join_lines(r.drop_last()) + seq!['\n'] + r.last());
            }
            assert(d.push(c) =~= s);
            assert forall|k: int, i: int| 0 <= k < r2.len() && 0 <= i < r2[k].len() implies #[trigger] r2[k][i] != '\n' by {
                if k < r.len() - 1 {
                    assert(r2[k] == r[k]);
                } else if i < r.last().len() {
                    assert(r2[k][i] == r[k][i]);
                }
            }
        }
    }
}

/// Text without carriage returns is its lines joined with newlines, and
/// no line holds a newline.
pub proof fn lemma_text_lines_join(s: Seq<char>)
    requires
        forall|k: int| 0 <= k < s.len() ==> s[k] != '\r',
    ensures
        join_lines(text_lines(s)) == s,
        forall|k: int, i: int|
            0 <= k < text_lines(s).len() && 0 <= i < text_lines(s)[k].len() ==> #[trigger] text_lines(s)[k][i]
                != '\n',
{
    lemma_raw_lines_join(s);
    lemma_raw_lines_chars(s);
    let r = raw_lines(s);
    assert forall|k: int| 0 <= k < r.len() implies #[trigger] strip_cr(r[k]) == r[k] by {
        if r[k].len() > 0 {
            assert(r[k].last() == r[k][r[k].len() - 1]);
        }
    }
    assert(text_lines(s) =~= r);
}

/// Every character of a piece between newlines is a character of the text.
proof fn lemma_raw_lines_chars(s: Seq<char>)
    ensures
        forall|k: int, i: int|
            0 <= k < raw_lines(s).len() && 0 <= i < raw_lines(s)[k].len() ==> exists|j: int|
                0 <= j < s.len() && s[j] == #[trigger] raw_lines(s)[k][i],
    decreases s.len(),
{
    if s.len() > 0 {
        let d = s.drop_last();
        lemma_raw_lines_chars(d);
        lemma_raw_lines_nonempty(d);
        let r = raw_lines(d);
        let r2 = raw_lines(s);
        assert forall|k: int, i: int| 0 <= k < r2.len() && 0 <= i < r2[k].len() implies exists|j: int|
            0 <= j < s.len() && s[j] == #[trigger] r2[k][i] by {
            if s.last() == '\n' {
                assert(r2[k] == r[k]);
                let j = choose|j: int| 0 <= j < d.len() && d[j] == r[k][i];
                assert(s[j] == d[j]);
            } else if k < r.len() - 1 {
                assert(r2[k] == r[k]);
                let j = choose|j: int| 0 <= j < d.len() && d[j] == r[k][i];
                assert(s[j] == d[j]);
            } else if i < r.last().len() {
                assert(r2[k][i] == r[k][i]);
                let j = choose|j: int| 0 <= j < d.len() && d[j] == r[k][i];
                assert(s[j] == d[j]);
            } else {
                assert(r2[k][i] == s[s.len() - 1]);
            }
        }
    }
}

} // verus!
