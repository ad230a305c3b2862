//! The user `Path` value of the Windows registry: a `;`-separated list of
//! directories stored as UTF-16LE with a terminating NUL. Installing adds
//! the program's directory once; uninstalling removes every entry equal to
//! it up to ASCII case.
use vstd::prelude::*;

use crate::text::{chars_of, lower, lower_seq, string_of};

verus! {

// ---------------------------------------------------------------------
// UTF-16
// ---------------------------------------------------------------------
pub open spec fn is_high_surrogate(u: u16) -> bool {
    0xD800 <= u < 0xDC00
}

pub open spec fn is_low_surrogate(u: u16) -> bool {
    0xDC00 <= u < 0xE000
}

/// UTF-16 decoding in which every unpaired surrogate becomes U+FFFD.
pub open spec fn utf16_decode(u: Seq<u16>) -> Seq<char>
    decreases u.len(),
{
    if u.len() == 0 {
        Seq::empty()
    } else if u.len() >= 2 && is_high_surrogate(u[0]) && is_low_surrogate(u[1]) {
        seq![(0x10000 + (u[0] - 0xD800) * 0x400 + (u[1] - 0xDC00)) as char] + utf16_decode(
            u.skip(2),
        )
    } else if is_high_surrogate(u[0]) || is_low_surrogate(u[0]) {
        seq!['\u{FFFD}'] + utf16_decode(u.skip(1))
    } else {
        seq![u[0] as char] + utf16_decode(u.skip(1))
    }
}

/// The UTF-16 code units of one character.
pub open spec fn char_units(c: char) -> Seq<u16> {
    if (c as u32) < 0x10000 {
        seq![(c as u32) as u16]
    } else {
        let v = (c as u32) - 0x10000;
        seq![(0xD800 + v / 0x400) as u16, (0xDC00 + v % 0x400) as u16]
    }
}

/// UTF-16 encoding.
pub open spec fn utf16_encode(s: Seq<char>) -> Seq<u16>
    decreases s.len(),
{
    if s.len() == 0 {
        Seq::empty()
    } else {
        utf16_encode(s.drop_last()) + char_units(s.last())
    }
}

/// UTF-16 decoding as `String::from_utf16_lossy` does it: a surrogate pair
/// gives one character, every unpaired surrogate U+FFFD.
fn utf16_lossy(units: &[u16]) -> (r: String)
    ensures
        r@ == utf16_decode(units@),
{
    let mut out = String::new();
    let n = units.len();
    let mut i: usize = 0;
    assert(units@.skip(0) =~= units@);
    while i < n
        invariant
            n == units@.len(),
            i <= n,
            out@ + utf16_decode(units@.skip(i as int)) == utf16_decode(units@),
        decreases n - i,
    {
        let ghost rest = units@.skip(i as int);
        let u = units[i];
        assert(rest[0] == u);
        if i + 1 < n && 0xD800 <= u && u < 0xDC00 && 0xDC00 <= units[i + 1] && units[i + 1] < 0xE000 {
            let lo = units[i + 1];
            assert(rest[1] == lo);
            let code: u32 = 0x10000 + ((u - 0xD800) as u32) * 0x400 + ((lo - 0xDC00) as u32);
            assert(rest.skip(2) =~= units@.skip(i + 2));
            match char::from_u32(code) {
                Some(c) => {
                    let ghost before = out@;
                    out.push(c);
                    assert(out@ + utf16_decode(units@.skip(i + 2)) =~= before + utf16_decode(
                        rest,
                    ));
                },
                None => {},
            }
            i += 2;
        } else {
            assert(rest.skip(1) =~= units@.skip(i + 1));
            let ghost before = out@;
            if 0xD800 <= u && u < 0xE000 {
                out.push('\u{FFFD}');
            } else {
                match char::from_u32(u as u32) {
                    Some(c) => {
                        out.push(c);
                    },
                    None => {},
                }
            }
            assert(out@ + utf16_decode(units@.skip(i + 1)) =~= before + utf16_decode(rest));
            i += 1;
        }
    }
    assert(utf16_decode(units@.skip(n as int)) =~= Seq::<char>::empty());
    assert(out@ + Seq::<char>::empty() =~= out@);
    out
}

/// UTF-16 encoding of each character, as `str::encode_utf16` gives it.
fn utf16_units(s: &str) -> (r: Vec<u16>)
    ensures
        r@ == utf16_encode(s@),
{
    let chars = crate::text::chars_of(s);
    let mut r: Vec<u16> = Vec::new();
    let mut k: usize = 0;
    while k < chars.len()
        invariant
            chars@ == s@,
            k <= chars@.len(),
            r@ == utf16_encode(chars@.take(k as int)),
        decreases chars.len() - k,
    {
        let c = chars[k];
        let v = c as u32;
        let ghost before = r@;
        assert(chars@.take(k + 1).drop_last() =~= chars@.take(k as int));
        assert(chars@.take(k + 1).last() == c);
        if v < 0x10000 {
            r.push(v as u16);
            assert(r@ =~= before + char_units(c));
        } else {
            let w = v - 0x10000;
            r.push((0xD800 + w / 0x400) as u16);
            r.push((0xDC00 + w % 0x400) as u16);
            assert(r@ =~= before + char_units(c));
        }
        k += 1;
    }
    assert(chars@.take(chars@.len() as int) =~= chars@);
    r
}

// ---------------------------------------------------------------------
// Bytes of the registry value
// ---------------------------------------------------------------------
/// Code units stored low byte first; a trailing odd byte is dropped.
pub open spec fn le_units_of(bytes: Seq<u8>) -> Seq<u16> {
    Seq::new(bytes.len() / 2, |i: int| (bytes[2 * i] + bytes[2 * i + 1] * 0x100) as u16)
}

/// Code units written low byte first.
pub open spec fn units_le_bytes(units: Seq<u16>) -> Seq<u8>
    decreases units.len(),
{
    if units.len() == 0 {
        Seq::empty()
    } else {
        units_le_bytes(units.drop_last()) + seq![
            (units.last() % 0x100) as u8,
            (units.last() / 0x100) as u8,
        ]
    }
}

pub fn le_units(bytes: &[u8]) -> (r: Vec<u16>)
    ensures
        r@ == le_units_of(bytes@),
{
    let mut r: Vec<u16> = Vec::new();
    let mut j: usize = 0;
    while 2 <= bytes.len() - j
        invariant
            j == 2 * r@.len(),
            j <= bytes@.len(),
            forall|i: int|
                0 <= i < r@.len() ==> #[trigger] r@[i] == (bytes@[2 * i] + bytes@[2 * i + 1]
                    * 0x100) as u16,
        decreases bytes.len() - j,
    {
        let u: u16 = (bytes[j] as u16) + (bytes[j + 1] as u16) * 0x100;
        r.push(u);
        j += 2;
    }
    assert(r@ =~= le_units_of(bytes@));
    r
}

pub fn units_to_le_bytes(units: &[u16]) -> (r: Vec<u8>)
    ensures
        r@ == units_le_bytes(units@),
{
    let mut r: Vec<u8> = Vec::new();
    let mut k: usize = 0;
    while k < units.len()
        invariant
            k <= units@.len(),
            r@ == units_le_bytes(units@.take(k as int)),
        decreases units.len() - k,
    {
        let u = units[k];
        r.push((u % 0x100) as u8);
        r.push((u / 0x100) as u8);
        assert(units@.take(k + 1).drop_last() =~= units@.take(k as int));
        k += 1;
    }
    assert(units@.take(units@.len() as int) =~= units@);
    r
}

// ---------------------------------------------------------------------
// Entries
// ---------------------------------------------------------------------
/// Splitting on `;` from the left: the entries closed so far (empty ones
/// left out) and the entry still open.
pub open spec fn split_state(v: Seq<char>) -> (Seq<Seq<char>>, Seq<char>)
    decreases v.len(),
{
    if v.len() == 0 {
        (Seq::empty(), Seq::empty())
    } else {
        let (done, cur) = split_state(v.drop_last());
        if v.last() == ';' {
            (
                if cur.len() > 0 {
                    done.push(cur)
                } else {
                    done
                },
                Seq::empty(),
            )
        } else {
            (done, cur.push(v.last()))
        }
    }
}

/// The non-empty `;`-separated entries of a PATH value, in order.
pub open spec fn path_entries(v: Seq<char>) -> Seq<Seq<char>> {
    let (done, cur) = split_state(v);
    if cur.len() > 0 {
        done.push(cur)
    } else {
        done
    }
}

/// `str::eq_ignore_ascii_case`: equal once ASCII capitals are lowered.
pub open spec fn same_path(a: Seq<char>, b: Seq<char>) -> bool {
    lower_seq(a) == lower_seq(b)
}

/// The entries joined with `;`.
pub open spec fn join_entries(e: Seq<Seq<char>>) -> Seq<char>
    decreases e.len(),
{
    if e.len() == 0 {
        Seq::empty()
    } else if e.len() == 1 {
        e[0]
    } else {
        join_entries(e.drop_last()) + seq![';'] + e.last()
    }
}

/// The entries after adding (`add`) or removing `dir`, or `None` where
/// nothing changes: adding a directory already there (up to ASCII case),
/// or removing one that is not.
pub open spec fn updated_entries(e: Seq<Seq<char>>, dir: Seq<char>, add: bool) -> Option<
    Seq<Seq<char>>,
> {
    let present = exists|i: int| 0 <= i < e.len() && same_path(#[trigger] e[i], dir);
    if add && !present {
        Some(e.push(dir))
    } else if !add && present {
        Some(e.filter(|x: Seq<char>| !same_path(x, dir)))
    } else {
        None
    }
}

/// The new PATH text for a current value, ending in NUL; `None` where
/// nothing changes.
pub open spec fn updated_path_text(cur: Seq<char>, dir: Seq<char>, add: bool) -> Option<Seq<char>> {
    match updated_entries(path_entries(cur), dir, add) {
        Some(e) => Some(join_entries(e) + seq!['\0']),
        None => None,
    }
}

/// The entries after the update, changed or not.
pub open spec fn entries_after(e: Seq<Seq<char>>, dir: Seq<char>, add: bool) -> Seq<Seq<char>> {
    match updated_entries(e, dir, add) {
        Some(x) => x,
        None => e,
    }
}

/// After removal no entry equals the directory up to ASCII case.
pub proof fn lemma_remove_clears(e: Seq<Seq<char>>, dir: Seq<char>)
    ensures
        forall|i: int|
            0 <= i < entries_after(e, dir, false).len() ==> !same_path(
                #[trigger] entries_after(e, dir, false)[i],
                dir,
            ),
{
    let pred = |x: Seq<char>| !same_path(x, dir);
    let present = exists|i: int| 0 <= i < e.len() && same_path(#[trigger] e[i], dir);
    if present {
        broadcast use vstd::seq_lib::group_filter_ensures;
        assert(entries_after(e, dir, false) == e.filter(pred));
        assert forall|i: int| 0 <= i < e.filter(pred).len() implies pred(
            #[trigger] e.filter(pred)[i],
        ) by {}
    }
}

/// Adding a directory a second time changes nothing, and so does removing
/// it a second time.
pub proof fn lemma_update_idempotent(e: Seq<Seq<char>>, dir: Seq<char>)
    ensures
        updated_entries(entries_after(e, dir, true), dir, true) is None,
        updated_entries(entries_after(e, dir, false), dir, false) is None,
{
    let e1 = entries_after(e, dir, true);
    if !(exists|i: int| 0 <= i < e.len() && same_path(#[trigger] e[i], dir)) {
        assert(e1 == e.push(dir));
        assert(same_path(e1[e.len() as int], dir));
    }
    lemma_remove_clears(e, dir);
}

/// Adding keeps every entry where it was and puts the directory last.
pub proof fn lemma_add_appends(e: Seq<Seq<char>>, dir: Seq<char>)
    ensures
        updated_entries(e, dir, true) matches Some(e2) ==> e2 == e.push(dir),
        exists|i: int|
            0 <= i < entries_after(e, dir, true).len() && same_path(
                #[trigger] entries_after(e, dir, true)[i],
                dir,
            ),
{
    lemma_update_idempotent(e, dir);
}

/// Entries that can be written back as they are: none empty, none holding
/// a `;`.
pub open spec fn plain_entries(e: Seq<Seq<char>>) -> bool {
    forall|i: int| 0 <= i < e.len() ==> #[trigger] e[i].len() > 0 && !e[i].contains(';')
}

proof fn lemma_split_after(v: Seq<char>, x: Seq<char>)
    requires
        !x.contains(';'),
    ensures
        split_state(v + seq![';'] + x) == (path_entries(v), x),
    decreases x.len(),
{
    if x.len() == 0 {
        assert(v + seq![';'] + x =~= v.push(';'));
        assert((v + seq![';'] + x).drop_last() =~= v);
    } else {
        let w = v + seq![';'] + x;
        assert(w.drop_last() =~= v + seq![';'] + x.drop_last());
        assert(!x.drop_last().contains(';')) by {
            if x.drop_last().contains(';') {
                let k = choose|k: int| 0 <= k < x.drop_last().len() && x.drop_last()[k] == ';';
                assert(x[k] == ';');
            }
        }
        lemma_split_after(v, x.drop_last());
        assert(w.last() == x.last());
        assert(x.drop_last().push(x.last()) =~= x);
    }
}

proof fn lemma_split_plain(x: Seq<char>)
    requires
        !x.contains(';'),
    ensures
        split_state(x) == (Seq::<Seq<char>>::empty(), x),
    decreases x.len(),
{
    if x.len() > 0 {
        assert(!x.drop_last().contains(';')) by {
            if x.drop_last().contains(';') {
                let k = choose|k: int| 0 <= k < x.drop_last().len() && x.drop_last()[k] == ';';
                assert(x[k] == ';');
            }
        }
        lemma_split_plain(x.drop_last());
        assert(x.drop_last().push(x.last()) =~= x);
    }
}

/// Splitting the joined entries gives them back, when none is empty or
/// holds a `;`. (The value stored in the registry also ends in NUL, which
/// reads back as part of the last entry.)
pub proof fn lemma_split_join(e: Seq<Seq<char>>)
    requires
        plain_entries(e),
    ensures
        path_entries(join_entries(e)) == e,
    decreases e.len(),
{
    if e.len() == 1 {
        assert(e[0].len() > 0);
        lemma_split_plain(e[0]);
        assert(Seq::<Seq<char>>::empty().push(e[0]) =~= e);
    } else if e.len() > 1 {
        let d = e.drop_last();
        assert(plain_entries(d)) by {
            assert forall|i: int| 0 <= i < d.len() implies #[trigger] d[i].len() > 0 && !d[i].contains(
                ';',
            ) by {
                assert(d[i] == e[i]);
            }
        }
        lemma_split_join(d);
        assert(e[e.len() - 1].len() > 0);
        lemma_split_after(join_entries(d), e.last());
        assert(d.push(e.last()) =~= e);
    }
}

pub open spec fn views(v: Seq<Vec<char>>) -> Seq<Seq<char>> {
    Seq::new(v.len(), |i: int| v[i]@)
}

fn split_path(cur: &Vec<char>) -> (r: Vec<Vec<char>>)
    ensures
        views(r@) == path_entries(cur@),
{
    let mut done: Vec<Vec<char>> = Vec::new();
    let mut open: Vec<char> = Vec::new();
    let mut j: usize = 0;
    while j < cur.len()
        invariant
            j <= cur@.len(),
            (views(done@), open@) == split_state(cur@.take(j as int)),
        decreases cur.len() - j,
    {
        let c = cur[j];
        let ghost prev = (views(done@), open@);
        assert(cur@.take(j + 1).drop_last() =~= cur@.take(j as int));
        assert(cur@.take(j + 1).last() == c);
        if c == ';' {
            if open.len() > 0 {
                let piece = open;
                done.push(piece);
                assert(views(done@) =~= prev.0.push(prev.1));
            }
            open = Vec::new();
        } else {
            open.push(c);
        }
        j += 1;
    }
    assert(cur@.take(cur@.len() as int) =~= cur@);
    if open.len() > 0 {
        let ghost prev = views(done@);
        done.push(open);
        assert(views(done@) =~= prev.push(split_state(cur@).1));
    }
    done
}

fn same_path_exec(a: &Vec<char>, b: &Vec<char>) -> (r: bool)
    ensures
        r == same_path(a@, b@),
{
    if a.len() != b.len() {
        proof {
            assert(lower_seq(a@).len() != lower_seq(b@).len());
        }
        return false;
    }
    let mut i: usize = 0;
    while i < a.len()
        invariant
            i <= a@.len(),
            a@.len() == b@.len(),
            forall|k: int| 0 <= k < i ==> lower(#[trigger] a@[k]) == lower(b@[k]),
        decreases a.len() - i,
    {
        if crate::text::to_ascii_lowercase(a[i]) != crate::text::to_ascii_lowercase(b[i]) {
            proof {
                assert(lower_seq(a@)[i as int] != lower_seq(b@)[i as int]);
            }
            return false;
        }
        i += 1;
    }
    assert(lower_seq(a@) =~= lower_seq(b@));
    true
}

fn join_path(e: &Vec<Vec<char>>) -> (r: Vec<char>)
    ensures
        r@ == join_entries(views(e@)) + seq!['\0'],
{
    let mut r: Vec<char> = Vec::new();
    let mut k: usize = 0;
    while k < e.len()
        invariant
            k <= e@.len(),
            r@ == join_entries(views(e@).take(k as int)),
        decreases e.len() - k,
    {
        let ghost before = r@;
        assert(views(e@).take(k + 1).drop_last() =~= views(e@).take(k as int));
        if k > 0 {
            r.push(';');
        }
        let mut i: usize = 0;
        while i < e[k].len()
            invariant
                k < e@.len(),
                i <= e@[k as int]@.len(),
                r@ == before + (if k > 0 {
                    seq![';']
                } else {
                    Seq::empty()
                }) + e@[k as int]@.take(i as int),
            decreases e@[k as int]@.len() - i,
        {
            r.push(e[k][i]);
            i += 1;
            assert(e@[k as int]@.take(i as int) =~= e@[k as int]@.take(i - 1).push(e@[k as int]@[i - 1]));
        }
        assert(e@[k as int]@.take(i as int) =~= e@[k as int]@);
        proof {
            if k == 0 {
                assert(r@ =~= views(e@).take(1)[0]);
            } else {
                assert(r@ =~= before + seq![';'] + views(e@).take(k + 1).last());
            }
        }
        k += 1;
    }
    assert(views(e@).take(e@.len() as int) =~= views(e@));
    r.push('\0');
    r
}

/// The PATH text after adding or removing `dir`, ending in NUL; `None`
/// where nothing would change.
pub fn updated_path(cur: &str, dir: &str, add: bool) -> (r: Option<String>)
    ensures
        match updated_path_text(cur@, dir@, add) {
            Some(t) => r matches Some(s) && s@ == t,
            None => r is None,
        },
{
    let cv = chars_of(cur);
    let dv = chars_of(dir);
    let mut entries = split_path(&cv);
    let ghost e0 = views(entries@);
    let mut present = false;
    let mut i: usize = 0;
    while i < entries.len()
        invariant
            i <= entries@.len(),
            views(entries@) == e0,
            present == exists|k: int| 0 <= k < i && same_path(#[trigger] e0[k], dv@),
        decreases entries.len() - i,
    {
        if same_path_exec(&entries[i], &dv) {
            assert(same_path(e0[i as int], dv@));
            present = true;
        }
        i += 1;
    }
    if add && !present {
        entries.push(dv);
        assert(views(entries@) =~= e0.push(dir@));
    } else if !add && present {
        let ghost pred: spec_fn(Seq<char>) -> bool = |x: Seq<char>| !same_path(x, dir@);
        let mut kept: Vec<Vec<char>> = Vec::new();
        let mut k: usize = 0;
        while k < entries.len()
            invariant
                k <= entries@.len(),
                views(entries@) == e0,
                dv@ == dir@,
                pred == (|x: Seq<char>| !same_path(x, dir@)),
                views(kept@) == e0.take(k as int).filter(pred),
            decreases entries.len() - k,
        {
            let ghost before = views(kept@);
            proof {
                reveal(Seq::filter);
                assert(e0.take(k + 1).drop_last() =~= e0.take(k as int));
            }
            assert(e0.take(k + 1).last() == e0[k as int]);
            assert(entries@[k as int]@ == e0[k as int]);
            if !same_path_exec(&entries[k], &dv) {
                let piece = entries[k].clone();
                assert(piece@ =~= e0[k as int]);
                kept.push(piece);
                assert(views(kept@) =~= before.push(e0[k as int]));
            } else {
                assert(!pred(e0.take(k + 1).last()));
            }
            k += 1;
        }
        assert(e0.take(e0.len() as int) =~= e0);
        entries = kept;
    } else {
        return None;
    }
    let joined = join_path(&entries);
    Some(string_of(&joined))
}

/// The registry bytes for the updated PATH value (UTF-16LE, NUL-terminated),
/// from the current bytes; `None` where nothing would change.
pub open spec fn updated_path_bytes(raw: Seq<u8>, dir: Seq<char>, add: bool) -> Option<Seq<u8>> {
    match updated_path_text(utf16_decode(le_units_of(raw)), dir, add) {
        Some(t) => Some(units_le_bytes(utf16_encode(t))),
        None => None,
    }
}

/// Adds or removes `dir` in the user PATH held in the registry as `raw`.
pub fn updated_path_value(raw: &[u8], dir: &str, add: bool) -> (r: Option<Vec<u8>>)
    ensures
        match updated_path_bytes(raw@, dir@, add) {
            Some(b) => r matches Some(v) && v@ == b,
            None => r is None,
        },
{
    let units = le_units(raw);
    let cur = utf16_lossy(units.as_slice());
    match updated_path(cur.as_str(), dir, add) {
        Some(text) => {
            let out = utf16_units(text.as_str());
            Some(units_to_le_bytes(out.as_slice()))
        },
        None => None,
    }
}

} // verus!
