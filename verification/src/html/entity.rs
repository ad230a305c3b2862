//! HTML entities: the named ones (amp/lt/gt/quot/apos/nbsp) and numeric
//! ones (`&#65;` / `&#x41;`), at most ten characters long so that an
//! ordinary `&` does not swallow the text after it.
use vstd::prelude::*;

use crate::html::attr::{hex_value, is_hex, sub_chars};
use crate::text::{chars_eq, digit_value, is_digit, lemma_prefix_len, prefix_len};

verus! {

/// `char::from_u32` gives the character with that code, or `None` for a
/// surrogate or a value past `0x10FFFF`.
pub assume_specification[ char::from_u32 ](i: u32) -> (r: Option<char>)
    ensures
        r == (if is_scalar(i) {
            Some(i as char)
        } else {
            None
        }),
;

/// The Unicode scalar values, which are the codes of `char`.
pub open spec fn is_scalar(i: u32) -> bool {
    i < 0xd800 || (0xe000 <= i && i <= 0x10ffff)
}

/// The longest an entity name may be.
pub const ENTITY_MAX: usize = 10;

/// The named entities.
pub open spec fn named_entity(e: Seq<char>) -> Option<char> {
    if e == seq!['a', 'm', 'p'] {
        Some('&')
    } else if e == seq!['l', 't'] {
        Some('<')
    } else if e == seq!['g', 't'] {
        Some('>')
    } else if e == seq!['q', 'u', 'o', 't'] {
        Some('"')
    } else if e == seq!['a', 'p', 'o', 's'] || e == seq!['#', '3', '9'] {
        Some('\'')
    } else if e == seq!['n', 'b', 's', 'p'] {
        Some('\u{a0}')
    } else {
        None
    }
}

/// Whether `c` is a digit in base 16 (else base 10).
pub open spec fn radix_digit(c: char, hex: bool) -> bool {
    if hex {
        is_hex(c)
    } else {
        is_digit(c)
    }
}

pub open spec fn radix_value(s: Seq<char>, hex: bool) -> nat
    decreases s.len(),
{
    if s.len() == 0 {
        0
    } else {
        radix_value(s.drop_last(), hex) * (if hex {
            16nat
        } else {
            10nat
        }) + (if hex {
            hex_value(s.last())
        } else {
            digit_value(s.last())
        })
    }
}

/// The digits of an unsigned number: the text after an optional `+`.
pub open spec fn unsigned_body(s: Seq<char>) -> Seq<char> {
    if s.len() > 0 && s[0] == '+' {
        s.drop_first()
    } else {
        s
    }
}

pub open spec fn all_radix(s: Seq<char>, hex: bool) -> bool {
    forall|k: int| 0 <= k < s.len() ==> radix_digit(#[trigger] s[k], hex)
}

/// `u32::from_str_radix` (base 16 or 10): an optional `+`, then at least
/// one digit, and a value that fits in `u32`.
pub open spec fn parse_u32(s: Seq<char>, hex: bool) -> Option<u32> {
    let body = unsigned_body(s);
    if body.len() > 0 && all_radix(body, hex) && radix_value(body, hex) <= 0xffff_ffff {
        Some(radix_value(body, hex) as u32)
    } else {
        None
    }
}

/// The character an entity name stands for.
pub open spec fn entity_char(e: Seq<char>) -> Option<char> {
    if named_entity(e) is Some {
        named_entity(e)
    } else if e.len() > 0 && e[0] == '#' {
        let num = e.drop_first();
        let code = if num.len() > 0 && (num[0] == 'x' || num[0] == 'X') {
            parse_u32(num.drop_first(), true)
        } else {
            parse_u32(num, false)
        };
        match code {
            Some(c) => if is_scalar(c) {
                Some(c as char)
            } else {
                None
            },
            None => None,
        }
    } else {
        None
    }
}

/// The entity that starts at `from` (an `&`): its character and the index
/// after its `;`, or `(None, from)` when the text there is no entity.
pub open spec fn entity_at(chars: Seq<char>, from: int) -> (Option<char>, int) {
    let rest = chars.skip(from + 1);
    let p = prefix_len(rest, |c: char| c != ';');
    let n = if p < 10 {
        p as int
    } else {
        10int
    };
    let k = from + 1 + n;
    if k < chars.len() && chars[k] == ';' && entity_char(rest.take(n)) is Some {
        (entity_char(rest.take(n)), k + 1)
    } else {
        (None, from)
    }
}

fn named_entity_of(e: &Vec<char>) -> (r: Option<char>)
    ensures
        r == named_entity(e@),
{
    let s = e.as_slice();
    if chars_eq(s, &['a', 'm', 'p']) {
        Some('&')
    } else if chars_eq(s, &['l', 't']) {
        Some('<')
    } else if chars_eq(s, &['g', 't']) {
        Some('>')
    } else if chars_eq(s, &['q', 'u', 'o', 't']) {
        Some('"')
    } else if chars_eq(s, &['a', 'p', 'o', 's']) || chars_eq(s, &['#', '3', '9']) {
        Some('\'')
    } else if chars_eq(s, &['n', 'b', 's', 'p']) {
        Some('\u{a0}')
    } else {
        None
    }
}

fn digit_of(c: char, hex: bool) -> (r: Option<u32>)
    ensures
        match r {
            Some(d) => radix_digit(c, hex) && d as nat == (if hex {
                hex_value(c)
            } else {
                digit_value(c)
            }) && d < 16,
            None => !radix_digit(c, hex),
        },
{
    if '0' <= c && c <= '9' {
        Some(c as u32 - 48)
    } else if hex && 'a' <= c && c <= 'f' {
        Some(c as u32 - 87)
    } else if hex && 'A' <= c && c <= 'F' {
        Some(c as u32 - 55)
    } else {
        None
    }
}

/// `u32::from_str_radix(s, 16 or 10)`.
fn parse_radix(s: &Vec<char>, hex: bool) -> (r: Option<u32>)
    ensures
        r == parse_u32(s@, hex),
{
    let start: usize = if s.len() > 0 && s[0] == '+' {
        1
    } else {
        0
    };
    let body = sub_chars(s, start, s.len());
    assert(body@ =~= unsigned_body(s@));
    if body.len() == 0 {
        return None;
    }
    let base: u64 = if hex {
        16
    } else {
        10
    };
    let mut acc: u64 = 0;
    let mut over = false;
    let mut i: usize = 0;
    while i < body.len()
        invariant
            i <= body@.len(),
            body@ == unsigned_body(s@),
            base == (if hex {
                16nat
            } else {
                10nat
            }),
            forall|k: int| 0 <= k < i ==> radix_digit(#[trigger] body@[k], hex),
            over ==> radix_value(body@.take(i as int), hex) > 0xffff_ffff,
            !over ==> acc == radix_value(body@.take(i as int), hex) && acc <= 0xffff_ffff,
        decreases body.len() - i,
    {
        let d = match digit_of(body[i], hex) {
            Some(d) => d,
            None => {
                assert(!radix_digit(body@[i as int], hex));
                return None;
            },
        };
        assert(body@.take(i + 1).drop_last() =~= body@.take(i as int));
        assert(body@.take(i + 1).last() == body@[i as int]);
        if !over {
            let next = acc * base + d as u64;
            if next > 0xffff_ffff {
                over = true;
            } else {
                acc = next;
            }
        }
        i += 1;
    }
    assert(body@.take(body.len() as int) =~= body@);
    if over {
        None
    } else {
        Some(acc as u32)
    }
}

/// Decodes an entity name (between `&` and `;`).
pub fn decode_entity(e: &Vec<char>) -> (r: Option<char>)
    ensures
        r == entity_char(e@),
{
    let named = named_entity_of(e);
    if named.is_some() {
        return named;
    }
    if e.len() == 0 || e[0] != '#' {
        return None;
    }
    let num = sub_chars(e, 1, e.len());
    assert(num@ =~= e@.drop_first());
    let code = if num.len() > 0 && (num[0] == 'x' || num[0] == 'X') {
        let hex = sub_chars(&num, 1, num.len());
        assert(hex@ =~= num@.drop_first());
        parse_radix(&hex, true)
    } else {
        parse_radix(&num, false)
    };
    match code {
        Some(c) => char::from_u32(c),
        None => None,
    }
}

/// Reads the entity that starts at `from`: its character and the index
/// after it, or `(None, from)` when there is none.
pub fn read_entity(chars: &Vec<char>, from: usize) -> (r: (Option<char>, usize))
    requires
        from < chars@.len(),
    ensures
        (r.0, r.1 as int) == entity_at(chars@, from as int),
{
    let n = chars.len();
    let mut k = from + 1;
    while k < n && chars[k] != ';' && k - from <= ENTITY_MAX
        invariant
            from < n,
            n == chars@.len(),
            from + 1 <= k <= n,
            k <= from + 11,
            forall|m: int| from + 1 <= m < k ==> #[trigger] chars@[m] != ';',
        decreases n - k,
    {
        k += 1;
    }
    let ghost rest = chars@.skip(from + 1);
    proof {
        let p = prefix_len(rest, |c: char| c != ';');
        let cnt = (k - from - 1) as int;
        assert forall|m: int| 0 <= m < cnt implies (|c: char| c != ';')(#[trigger] rest[m]) by {
            assert(rest[m] == chars@[m + from + 1]);
        }
        if cnt < 10 {
            if k < n {
                assert(rest[cnt] == chars@[k as int]);
            }
            lemma_prefix_len(rest, |c: char| c != ';', cnt);
        } else {
            crate::text::lemma_prefix_len_bound(rest, |c: char| c != ';');
            if p < 10 {
                assert(rest[p as int] == chars@[p + from + 1]);
            }
        }
    }
    if k < n && chars[k] == ';' {
        let ent = sub_chars(chars, from + 1, k);
        assert(ent@ =~= rest.take(k - from - 1));
        match decode_entity(&ent) {
            Some(c) => (Some(c), k + 1),
            None => (None, from),
        }
    } else {
        (None, from)
    }
}

proof fn lemma_radix_value_case(s: Seq<char>)
    requires
        all_radix(s, true),
    ensures
        all_radix(crate::text::lower_seq(s), true),
        radix_value(s, true) == radix_value(crate::text::lower_seq(s), true),
    decreases s.len(),
{
    let l = crate::text::lower_seq(s);
    assert forall|k: int| 0 <= k < l.len() implies radix_digit(#[trigger] l[k], true) by {
        crate::html::attr::lemma_hex_digit_values(s[k], s[k]);
        assert(l[k] == crate::text::lower(s[k]));
    }
    if s.len() > 0 {
        let d = s.drop_last();
        assert(crate::text::lower_seq(d) =~= l.drop_last());
        assert(all_radix(d, true)) by {
            assert forall|k: int| 0 <= k < d.len() implies radix_digit(#[trigger] d[k], true) by {
                assert(d[k] == s[k]);
            }
        }
        lemma_radix_value_case(d);
        crate::html::attr::lemma_hex_digit_values(s.last(), s.last());
        assert(l.last() == crate::text::lower(s.last()));
    }
}

/// Hexadecimal character references read their digits in either case:
/// `&#xAB;` and `&#xab;` stand for the same character.
pub proof fn lemma_hex_entity_case(s: Seq<char>)
    requires
        s.len() > 0,
        all_radix(s, true),
    ensures
        entity_char(seq!['#', 'x'] + s) == entity_char(seq!['#', 'x'] + crate::text::lower_seq(s)),
{
    let l = crate::text::lower_seq(s);
    lemma_radix_value_case(s);
    let a = seq!['#', 'x'] + s;
    let b = seq!['#', 'x'] + l;
    assert(a.drop_first().drop_first() =~= s);
    assert(b.drop_first().drop_first() =~= l);
    assert(a.len() >= 3 && b.len() >= 3);
    assert(named_entity(a) is None) by {
        assert(a[1] == 'x');
        if a.len() == 3 && a == seq!['#', '3', '9'] {
            assert(a[1] == '3');
        }
    }
    assert(named_entity(b) is None) by {
        assert(b[1] == 'x');
        if b.len() == 3 && b == seq!['#', '3', '9'] {
            assert(b[1] == '3');
        }
    }
    assert(s[0] != '+' && l[0] != '+') by {
        assert(radix_digit(s[0], true));
        assert(radix_digit(l[0], true));
    }
    assert(unsigned_body(s) == s);
    assert(unsigned_body(l) == l);
}

} // verus!
