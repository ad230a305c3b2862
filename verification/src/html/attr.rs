//! Tag attributes: the `color` and `size` / `font-size` values of
//! `<font>` and `<span>`, quoted or bare, `#RGB` / `#RRGGBB` or a colour name.
use vstd::prelude::*;

use crate::text::{
    chars_eq, digit_value, find, find_chars, is_ascii_digit, is_digit, is_white, is_whitespace,
    lemma_find_from_range, lemma_prefix_len, lemma_prefix_len_bound, lower_seq, lowercase_all,
    prefix_len, trim, trim_bounds, lead_white, trail_white,
};

verus! {

/// Smallest font size that a tag may set.
pub const FONT_SIZE_MIN: u16 = 11;

/// Largest font size that a tag may set.
pub const FONT_SIZE_MAX: u16 = 18;

/// A font size inside the allowed range; sizes outside it are not styles.
#[derive(Debug, Clone, Copy, PartialEq, Eq, Structural)]
pub struct FontSize(pub u16);

impl FontSize {
    /// `Some` inside `FONT_SIZE_MIN..=FONT_SIZE_MAX`, `None` outside.
    pub fn new(value: u16) -> (r: Option<FontSize>)
        ensures
            r == (if FONT_SIZE_MIN <= value <= FONT_SIZE_MAX {
                Some(FontSize(value))
            } else {
                None
            }),
    {
        if FONT_SIZE_MIN <= value && value <= FONT_SIZE_MAX {
            Some(FontSize(value))
        } else {
            None
        }
    }
}

/// A colour: red, green and blue channels.
#[derive(Debug, Clone, Copy, PartialEq, Eq, Structural)]
pub struct Rgb(pub u8, pub u8, pub u8);

/// Separators between an attribute's name and its value.
pub open spec fn is_sep(c: char) -> bool {
    is_white(c) || c == '=' || c == ':'
}

/// Characters that end a bare value: white space, a quote (the end of the
/// `style="..."` that holds it) and `;` (the end of a CSS declaration).
pub open spec fn ends_bare(c: char) -> bool {
    is_white(c) || c == '"' || c == '\'' || c == ';'
}

/// The value of the attribute whose (five-character) name starts `s`:
/// separators are skipped; a quoted value runs to the matching quote (or the
/// end), a bare one up to `ends_bare`. `None` when nothing follows.
pub open spec fn attr_value(s: Seq<char>) -> Option<Seq<char>> {
    let t = if s.len() > 5 {
        s.skip(5)
    } else {
        Seq::<char>::empty()
    };
    let k = prefix_len(t, |c: char| is_sep(c));
    if k >= t.len() {
        None
    } else if t[k as int] == '"' || t[k as int] == '\'' {
        let q = t[k as int];
        let body = t.skip(k + 1int);
        Some(body.take(prefix_len(body, |c: char| c != q) as int))
    } else {
        let body = t.skip(k as int);
        Some(body.take(prefix_len(body, |c: char| !ends_bare(c)) as int))
    }
}

/// The characters `s[a..b]`.
pub fn sub_chars(s: &Vec<char>, a: usize, b: usize) -> (r: Vec<char>)
    requires
        a <= b <= s@.len(),
    ensures
        r@ == s@.subrange(a as int, b as int),
{
    let mut r: Vec<char> = Vec::new();
    let mut i = a;
    while i < b
        invariant
            a <= i <= b,
            b <= s@.len(),
            r@ == s@.subrange(a as int, i as int),
        decreases b - i,
    {
        r.push(s[i]);
        i += 1;
        assert(r@ =~= s@.subrange(a as int, i as int));
    }
    r
}

/// Extracts an attribute value from `name=value ...` text (quoted or bare).
pub fn extract_attr_value(s: &Vec<char>) -> (r: Option<Vec<char>>)
    ensures
        match r {
            Some(v) => attr_value(s@) == Some(v@),
            None => attr_value(s@) is None,
        },
{
    let n = s.len();
    if n <= 5 {
        proof {
            let t = Seq::<char>::empty();
            lemma_prefix_len_bound(t, |c: char| is_sep(c));
        }
        return None;
    }
    let ghost t = s@.skip(5);
    let mut i: usize = 5;
    while i < n && (is_whitespace(s[i]) || s[i] == '=' || s[i] == ':')
        invariant
            5 <= i <= n,
            n == s@.len(),
            t == s@.skip(5),
            forall|k: int| 5 <= k < i ==> is_sep(#[trigger] s@[k]),
        decreases n - i,
    {
        i += 1;
    }
    proof {
        assert forall|k: int| 0 <= k < i - 5 implies (|c: char| is_sep(c))(#[trigger] t[k]) by {
            assert(t[k] == s@[k + 5]);
        }
        if i < n {
            assert(t[i - 5] == s@[i as int]);
        }
        lemma_prefix_len(t, |c: char| is_sep(c), i - 5);
    }
    if i == n {
        return None;
    }
    let c = s[i];
    if c == '"' || c == '\'' {
        let ghost body = t.skip(i - 5 + 1);
        let mut j = i + 1;
        while j < n && s[j] != c
            invariant
                i < j <= n,
                n == s@.len(),
                body == s@.skip(i + 1),
                forall|k: int| i + 1 <= k < j ==> #[trigger] s@[k] != c,
            decreases n - j,
        {
            j += 1;
        }
        proof {
            assert(body =~= s@.skip(i + 1));
            assert forall|k: int| 0 <= k < j - i - 1 implies (|x: char| x != c)(#[trigger] body[k]) by {
                assert(body[k] == s@[k + i + 1]);
            }
            if j < n {
                assert(body[j - i - 1] == s@[j as int]);
            }
            lemma_prefix_len(body, |x: char| x != c, j - i - 1);
            assert(body.take(j - i - 1) =~= s@.subrange(i + 1, j as int));
        }
        Some(sub_chars(s, i + 1, j))
    } else {
        let ghost body = t.skip(i - 5);
        let mut j = i;
        while j < n && !is_whitespace(s[j]) && s[j] != '"' && s[j] != '\'' && s[j] != ';'
            invariant
                i <= j <= n,
                n == s@.len(),
                body == s@.skip(i as int),
                forall|k: int| i <= k < j ==> !ends_bare(#[trigger] s@[k]),
            decreases n - j,
        {
            j += 1;
        }
        proof {
            assert(body =~= s@.skip(i as int));
            assert forall|k: int| 0 <= k < j - i implies (|x: char| !ends_bare(x))(#[trigger] body[k]) by {
                assert(body[k] == s@[k + i]);
            }
            if j < n {
                assert(body[j - i] == s@[j as int]);
            }
            lemma_prefix_len(body, |x: char| !ends_bare(x), j - i);
            assert(body.take(j - i) =~= s@.subrange(i as int, j as int));
        }
        Some(sub_chars(s, i, j))
    }
}


/// Number of trailing `;` characters.
pub open spec fn trail_semis(s: Seq<char>) -> nat
    decreases s.len(),
{
    if s.len() > 0 && s.last() == ';' {
        1 + trail_semis(s.drop_last())
    } else {
        0
    }
}

proof fn lemma_trail_semis(s: Seq<char>, j: int)
    requires
        0 <= j <= s.len(),
        forall|k: int| j <= k < s.len() ==> #[trigger] s[k] == ';',
        j == 0 || s[j - 1] != ';',
    ensures
        trail_semis(s) == s.len() - j,
    decreases s.len() - j,
{
    if j < s.len() {
        assert(s.drop_last().len() == s.len() - 1);
        if j > 0 {
            assert(s.drop_last()[j - 1] == s[j - 1]);
        }
        lemma_trail_semis(s.drop_last(), j);
    } else {
        if j > 0 {
            assert(s.last() == s[j - 1]);
        }
    }
}

/// `trim_end_matches(';')`.
pub open spec fn strip_semis(s: Seq<char>) -> Seq<char> {
    s.take(s.len() - trail_semis(s))
}

pub open spec fn is_hex(c: char) -> bool {
    ('0' <= c && c <= '9') || ('a' <= c && c <= 'f') || ('A' <= c && c <= 'F')
}

/// Value of a hexadecimal digit.
pub open spec fn hex_value(c: char) -> nat {
    if '0' <= c && c <= '9' {
        ((c as u32) - ('0' as u32)) as nat
    } else if 'a' <= c && c <= 'f' {
        ((c as u32) - ('a' as u32) + 10) as nat
    } else {
        ((c as u32) - ('A' as u32) + 10) as nat
    }
}

pub open spec fn all_hex(s: Seq<char>) -> bool {
    forall|k: int| 0 <= k < s.len() ==> is_hex(#[trigger] s[k])
}

/// The byte written by two hexadecimal digits.
pub open spec fn hex_byte(hi: char, lo: char) -> u8 {
    (hex_value(hi) * 16 + hex_value(lo)) as u8
}

/// The colours that may be named, with the shade each one stands for.
pub open spec fn named_color(name: Seq<char>) -> Option<Rgb> {
    if name == seq!['r', 'e', 'd'] {
        Some(Rgb(0xd9u8, 0x30u8, 0x25u8))
    } else if name == seq!['g', 'r', 'e', 'e', 'n'] {
        Some(Rgb(0x00u8, 0x87u8, 0x3au8))
    } else if name == seq!['b', 'l', 'u', 'e'] {
        Some(Rgb(0x1au8, 0x6du8, 0xf2u8))
    } else if name == seq!['o', 'r', 'a', 'n', 'g', 'e'] {
        Some(Rgb(0xe8u8, 0x71u8, 0x0au8))
    } else if name == seq!['y', 'e', 'l', 'l', 'o', 'w'] {
        Some(Rgb(0xb2u8, 0x8bu8, 0x00u8))
    } else if name == seq!['p', 'u', 'r', 'p', 'l', 'e'] {
        Some(Rgb(0x8bu8, 0x17u8, 0xb0u8))
    } else if name == seq!['g', 'r', 'a', 'y'] || name == seq!['g', 'r', 'e', 'y'] {
        Some(Rgb(0x86u8, 0x90u8, 0x9cu8))
    } else if name == seq!['b', 'l', 'a', 'c', 'k'] {
        Some(Rgb(0x1fu8, 0x23u8, 0x29u8))
    } else if name == seq!['w', 'h', 'i', 't', 'e'] {
        Some(Rgb(0xffu8, 0xffu8, 0xffu8))
    } else {
        None
    }
}

/// A colour value: `#RGB` (each digit doubled), `#RRGGBB`, or a colour name
/// in any ASCII case; surrounding white space and trailing `;` are ignored.
pub open spec fn color_value(v: Seq<char>) -> Option<Rgb> {
    let t = strip_semis(trim(v));
    if t.len() > 0 && t[0] == '#' {
        let h = t.drop_first();
        if h.len() == 3 && all_hex(h) {
            Some(Rgb(hex_byte(h[0], h[0]), hex_byte(h[1], h[1]), hex_byte(h[2], h[2])))
        } else if h.len() == 6 && all_hex(h) {
            Some(Rgb(hex_byte(h[0], h[1]), hex_byte(h[2], h[3]), hex_byte(h[4], h[5])))
        } else {
            None
        }
    } else {
        named_color(lower_seq(t))
    }
}

/// The colour names accepted, in lower case.
pub open spec fn is_color_name(n: Seq<char>) -> bool {
    n == seq!['r', 'e', 'd'] || n == seq!['g', 'r', 'e', 'e', 'n'] || n == seq!['b', 'l', 'u', 'e']
        || n == seq!['o', 'r', 'a', 'n', 'g', 'e'] || n == seq!['y', 'e', 'l', 'l', 'o', 'w'] || n
        == seq!['p', 'u', 'r', 'p', 'l', 'e'] || n == seq!['g', 'r', 'a', 'y'] || n == seq![
        'g',
        'r',
        'e',
        'y',
    ] || n == seq!['b', 'l', 'a', 'c', 'k'] || n == seq!['w', 'h', 'i', 't', 'e']
}

/// A colour value is accepted exactly when, trimmed and without trailing
/// `;`, it is `#` and three or six hexadecimal digits, or one of the colour
/// names in any ASCII case.
pub proof fn lemma_color_accepted(v: Seq<char>)
    ensures
        ({
            let w = strip_semis(trim(v));
            color_value(v) is Some <==> (w.len() > 0 && w[0] == '#' && (w.len() == 4 || w.len()
                == 7) && all_hex(w.drop_first())) || is_color_name(lower_seq(w))
        }),
{
    let w = strip_semis(trim(v));
    if w.len() > 0 && w[0] == '#' {
        assert(lower_seq(w)[0] == '#');
        assert(!is_color_name(lower_seq(w)));
    }
}

proof fn lemma_plain_value(t: Seq<char>)
    requires
        t.len() > 0,
        !is_white(t[0]),
        !is_white(t.last()),
        t.last() != ';',
    ensures
        strip_semis(trim(t)) == t,
{
    assert(lead_white(t) == 0);
    assert(t.skip(0) =~= t);
    assert(trail_white(t) == 0);
    assert(t.take(t.len() as int) =~= t);
    assert(trim(t) == t);
    assert(trail_semis(t) == 0);
}

/// `#RGB` is the colour `#RRGGBB` with each digit doubled.
pub proof fn lemma_short_hex_doubles(a: char, b: char, c: char)
    requires
        is_hex(a),
        is_hex(b),
        is_hex(c),
    ensures
        color_value(seq!['#', a, b, c]) == color_value(seq!['#', a, a, b, b, c, c]),
        color_value(seq!['#', a, b, c]) is Some,
{
    let s3 = seq!['#', a, b, c];
    let s6 = seq!['#', a, a, b, b, c, c];
    lemma_plain_value(s3);
    lemma_plain_value(s6);
    assert(s3.drop_first() =~= seq![a, b, c]);
    assert(s6.drop_first() =~= seq![a, a, b, b, c, c]);
    assert(all_hex(s3.drop_first()));
    assert(all_hex(s6.drop_first()));
}

/// Hexadecimal digits: sixteen values `0..16`, one per digit, in either
/// ASCII case (`A`/`a` is ten, `F`/`f` fifteen).
pub proof fn lemma_hex_digit_values(a: char, b: char)
    requires
        is_hex(a),
        is_hex(b),
    ensures
        hex_value(a) < 16,
        (hex_value(a) == hex_value(b)) <==> (crate::text::lower(a) == crate::text::lower(b)),
        ('a' <= a <= 'f' || 'A' <= a <= 'F') <==> hex_value(a) >= 10,
{
}

/// Hexadecimal colour digits are read in either case: `#` and three or six
/// digits give the same colour as the same digits in lower case.
pub proof fn lemma_hex_color_case(s: Seq<char>)
    requires
        s.len() == 3 || s.len() == 6,
        all_hex(s),
    ensures
        color_value(seq!['#'] + s) == color_value(seq!['#'] + lower_seq(s)),
        color_value(seq!['#'] + s) is Some,
{
    let l = lower_seq(s);
    assert forall|k: int| 0 <= k < s.len() implies is_hex(#[trigger] l[k]) && hex_value(l[k])
        == hex_value(s[k]) by {
        lemma_hex_digit_values(s[k], s[k]);
        assert(l[k] == crate::text::lower(s[k]));
    }
    let a = seq!['#'] + s;
    let b = seq!['#'] + l;
    assert(a[0] == '#' && b[0] == '#');
    assert(a.last() == s.last() && b.last() == l.last());
    lemma_plain_value(a);
    lemma_plain_value(b);
    assert(a.drop_first() =~= s);
    assert(b.drop_first() =~= l);
}

fn hex_digit_value(c: char) -> (r: u8)
    requires
        is_hex(c),
    ensures
        r as nat == hex_value(c),
        r < 16,
{
    if '0' <= c && c <= '9' {
        (c as u32 - 48) as u8
    } else if 'a' <= c && c <= 'f' {
        (c as u32 - 87) as u8
    } else {
        (c as u32 - 55) as u8
    }
}

fn is_hex_digit(c: char) -> (r: bool)
    ensures
        r == is_hex(c),
{
    ('0' <= c && c <= '9') || ('a' <= c && c <= 'f') || ('A' <= c && c <= 'F')
}

fn hex_pair(hi: char, lo: char) -> (r: u8)
    requires
        is_hex(hi),
        is_hex(lo),
    ensures
        r == hex_byte(hi, lo),
{
    let h = hex_digit_value(hi);
    let l = hex_digit_value(lo);
    h * 16 + l
}

fn named_color_of(name: &Vec<char>) -> (r: Option<Rgb>)
    ensures
        r == named_color(name@),
{
    let n = name.as_slice();
    if chars_eq(n, &['r', 'e', 'd']) {
        Some(Rgb(0xd9, 0x30, 0x25))
    } else if chars_eq(n, &['g', 'r', 'e', 'e', 'n']) {
        Some(Rgb(0x00, 0x87, 0x3a))
    } else if chars_eq(n, &['b', 'l', 'u', 'e']) {
        Some(Rgb(0x1a, 0x6d, 0xf2))
    } else if chars_eq(n, &['o', 'r', 'a', 'n', 'g', 'e']) {
        Some(Rgb(0xe8, 0x71, 0x0a))
    } else if chars_eq(n, &['y', 'e', 'l', 'l', 'o', 'w']) {
        Some(Rgb(0xb2, 0x8b, 0x00))
    } else if chars_eq(n, &['p', 'u', 'r', 'p', 'l', 'e']) {
        Some(Rgb(0x8b, 0x17, 0xb0))
    } else if chars_eq(n, &['g', 'r', 'a', 'y']) || chars_eq(n, &['g', 'r', 'e', 'y']) {
        Some(Rgb(0x86, 0x90, 0x9c))
    } else if chars_eq(n, &['b', 'l', 'a', 'c', 'k']) {
        Some(Rgb(0x1f, 0x23, 0x29))
    } else if chars_eq(n, &['w', 'h', 'i', 't', 'e']) {
        Some(Rgb(0xff, 0xff, 0xff))
    } else {
        None
    }
}

/// Reads a colour value (`#RGB`, `#RRGGBB` or a name).
pub fn parse_color_value(v: &Vec<char>) -> (r: Option<Rgb>)
    ensures
        r == color_value(v@),
{
    let (a, b) = trim_bounds(v);
    let t = sub_chars(v, a, b);
    let mut e = t.len();
    while e > 0 && t[e - 1] == ';'
        invariant
            e <= t@.len(),
            forall|k: int| e <= k < t@.len() ==> #[trigger] t@[k] == ';',
        decreases e,
    {
        e -= 1;
    }
    proof {
        lemma_trail_semis(t@, e as int);
    }
    let t = sub_chars(&t, 0, e);
    assert(t@ =~= strip_semis(trim(v@)));
    if t.len() > 0 && t[0] == '#' {
        let h = sub_chars(&t, 1, t.len());
        assert(h@ =~= t@.drop_first());
        if h.len() != 3 && h.len() != 6 {
            return None;
        }
        let mut k: usize = 0;
        while k < h.len()
            invariant
                k <= h@.len(),
                h@.len() == 3 || h@.len() == 6,
                strip_semis(trim(v@)).len() > 0 && strip_semis(trim(v@))[0] == '#',
                h@ == strip_semis(trim(v@)).drop_first(),
                forall|m: int| 0 <= m < k ==> is_hex(#[trigger] h@[m]),
            decreases h.len() - k,
        {
            if !is_hex_digit(h[k]) {
                assert(!all_hex(h@)) by {
                    assert(!is_hex(h@[k as int]));
                }
                return None;
            }
            k += 1;
        }
        if h.len() == 3 {
            Some(Rgb(hex_pair(h[0], h[0]), hex_pair(h[1], h[1]), hex_pair(h[2], h[2])))
        } else {
            Some(Rgb(hex_pair(h[0], h[1]), hex_pair(h[2], h[3]), hex_pair(h[4], h[5])))
        }
    } else {
        let lo = lowercase_all(&t);
        named_color_of(&lo)
    }
}

/// The colour that an attribute string sets: the value after the first
/// `color` (in any ASCII case).
pub open spec fn color_attr(attrs: Seq<char>) -> Option<Rgb> {
    match find(lower_seq(attrs), seq!['c', 'o', 'l', 'o', 'r']) {
        None => None,
        Some(p) => match attr_value(attrs.skip(p)) {
            None => None,
            Some(v) => color_value(v),
        },
    }
}

pub fn parse_color_attr(attrs: &Vec<char>) -> (r: Option<Rgb>)
    ensures
        r == color_attr(attrs@),
{
    let lower = lowercase_all(attrs);
    let pos = match find_chars(&lower, &['c', 'o', 'l', 'o', 'r']) {
        Some(p) => p,
        None => {
            return None;
        },
    };
    proof {
        lemma_find_from_range(lower@, seq!['c', 'o', 'l', 'o', 'r'], 0);
    }
    let tail = sub_chars(attrs, pos, attrs.len());
    assert(tail@ =~= attrs@.skip(pos as int));
    match extract_attr_value(&tail) {
        Some(v) => parse_color_value(&v),
        None => None,
    }
}

/// Value of a string of ASCII decimal digits.
pub open spec fn digits_value(s: Seq<char>) -> nat
    decreases s.len(),
{
    if s.len() == 0 {
        0
    } else {
        digits_value(s.drop_last()) * 10 + digit_value(s.last())
    }
}

/// `str::parse::<u16>` on a string of ASCII digits.
pub open spec fn digits_u16(s: Seq<char>) -> Option<u16> {
    if s.len() > 0 && digits_value(s) <= 0xffff {
        Some(digits_value(s) as u16)
    } else {
        None
    }
}

fn parse_digits_u16(d: &Vec<char>) -> (r: Option<u16>)
    requires
        forall|k: int| 0 <= k < d@.len() ==> is_digit(#[trigger] d@[k]),
    ensures
        r == digits_u16(d@),
{
    if d.len() == 0 {
        return None;
    }
    let mut acc: u32 = 0;
    let mut over = false;
    let mut i: usize = 0;
    while i < d.len()
        invariant
            i <= d@.len(),
            forall|k: int| 0 <= k < d@.len() ==> is_digit(#[trigger] d@[k]),
            over ==> digits_value(d@.take(i as int)) > 0xffff,
            !over ==> acc == digits_value(d@.take(i as int)) && acc <= 0xffff,
        decreases d.len() - i,
    {
        let c = d[i];
        let dv = (c as u32) - 48;
        assert(d@.take(i + 1).drop_last() =~= d@.take(i as int));
        assert(d@.take(i + 1).last() == c);
        if !over {
            let next = acc * 10 + dv;
            if next > 0xffff {
                over = true;
            } else {
                acc = next;
            }
        }
        i += 1;
    }
    assert(d@.take(d.len() as int) =~= d@);
    if over {
        None
    } else {
        Some(acc as u16)
    }
}

/// The font size that an attribute string sets: the value after the first
/// `font-size` (else the first `size`), its ASCII digits read as a number,
/// kept only inside `FONT_SIZE_MIN..=FONT_SIZE_MAX`.
pub open spec fn size_attr(attrs: Seq<char>) -> Option<u16> {
    let lo = lower_seq(attrs);
    let pos = match find(lo, seq!['f', 'o', 'n', 't', '-', 's', 'i', 'z', 'e']) {
        Some(p) => Some(p),
        None => find(lo, seq!['s', 'i', 'z', 'e']),
    };
    match pos {
        None => None,
        Some(p) => match attr_value(attrs.skip(p)) {
            None => None,
            Some(v) => match digits_u16(v.filter(|c: char| is_digit(c))) {
                Some(n) => if FONT_SIZE_MIN <= n <= FONT_SIZE_MAX {
                    Some(n)
                } else {
                    None
                },
                None => None,
            },
        },
    }
}

fn digits_only(v: &Vec<char>) -> (r: Vec<char>)
    ensures
        r@ == v@.filter(|c: char| is_digit(c)),
        forall|k: int| 0 <= k < r@.len() ==> is_digit(#[trigger] r@[k]),
{
    let mut r: Vec<char> = Vec::new();
    let mut i: usize = 0;
    while i < v.len()
        invariant
            i <= v@.len(),
            r@ == v@.take(i as int).filter(|c: char| is_digit(c)),
            forall|k: int| 0 <= k < r@.len() ==> is_digit(#[trigger] r@[k]),
        decreases v.len() - i,
    {
        reveal_with_fuel(Seq::filter, 1);
        assert(v@.take(i + 1).drop_last() =~= v@.take(i as int));
        if is_ascii_digit(v[i]) {
            r.push(v[i]);
        }
        i += 1;
    }
    assert(v@.take(v.len() as int) =~= v@);
    r
}

pub fn parse_size_attr(attrs: &Vec<char>) -> (r: Option<u16>)
    ensures
        r == size_attr(attrs@),
{
    let lower = lowercase_all(attrs);
    let pos = match find_chars(&lower, &['f', 'o', 'n', 't', '-', 's', 'i', 'z', 'e']) {
        Some(p) => {
            proof {
                lemma_find_from_range(lower@, seq!['f', 'o', 'n', 't', '-', 's', 'i', 'z', 'e'], 0);
            }
            p
        },
        None => match find_chars(&lower, &['s', 'i', 'z', 'e']) {
            Some(p) => {
                proof {
                    lemma_find_from_range(lower@, seq!['s', 'i', 'z', 'e'], 0);
                }
                p
            },
            None => {
                return None;
            },
        },
    };
    let tail = sub_chars(attrs, pos, attrs.len());
    assert(tail@ =~= attrs@.skip(pos as int));
    let value = match extract_attr_value(&tail) {
        Some(v) => v,
        None => {
            return None;
        },
    };
    let digits = digits_only(&value);
    match parse_digits_u16(&digits) {
        Some(n) => match FontSize::new(n) {
            Some(FontSize(size)) => Some(size),
            None => None,
        },
        None => None,
    }
}
} // verus!
