//! Line breaking by estimated width: an ASCII character counts 0.55 of a
//! unit and any other character one unit (both kept here in twentieths:
//! 11 and 20). A line holds 24 units at the base size, scaled by the line's
//! font size. Kinsoku: when a break would put a closing punctuation mark at
//! the start of the next line, the characters before it go down with it. At
//! most `MAX_LINES` lines are kept; text cut beyond them ends in `…`.
use vstd::prelude::*;

use crate::html::parse::RunV;
use crate::html::{line_view, lines_view, RunStyle, TextRun, BASE_FONT_SIZE};
use crate::text::is_ascii_char;

verus! {

/// Most lines shown; text past them is cut and the last line ends in `…`.
pub const MAX_LINES: usize = 4;

/// Line capacity at the base size, in twentieths of a unit, times the base
/// size: `24 units * 20 * 14`.
pub const CAPACITY: u64 = 6720;

/// A physical line in the abstract: its runs and the font size in force.
pub type LineV = (Seq<RunV>, Option<u16>);

/// Estimated width of a character, in twentieths of a unit.
pub open spec fn char_width(c: char) -> nat {
    if is_ascii_char(c) {
        11
    } else {
        20
    }
}

pub open spec fn width(s: Seq<char>) -> nat
    decreases s.len(),
{
    if s.len() == 0 {
        0
    } else {
        width(s.drop_last()) + char_width(s.last())
    }
}

/// The font size that sets a line's capacity.
pub open spec fn font_of(size: Option<u16>) -> nat {
    match size {
        Some(v) => v as nat,
        None => BASE_FONT_SIZE as nat,
    }
}

/// Whether text of width `units` no longer fits a line of font size `font`:
/// `units / 20 > 24 * 14 / font`.
pub open spec fn overflows(units: nat, font: nat) -> bool {
    units * font > CAPACITY
}

/// Kinsoku: characters that may not start a line.
pub open spec fn no_line_start(c: char) -> bool {
    c == '，' || c == '。' || c == '、' || c == '；' || c == '：' || c == '！' || c == '？' || c == '…'
        || c == '·' || c == ',' || c == '.' || c == ';' || c == ':' || c == '!' || c == '?' || c
        == ')' || c == ']' || c == '}' || c == '%' || c == '）' || c == '》' || c == '〉' || c == '」'
        || c == '』' || c == '】' || c == '〕' || c == '"' || c == '”' || c == '\'' || c == '’'
}

pub fn is_no_line_start(c: char) -> (r: bool)
    ensures
        r == no_line_start(c),
{
    c == '，' || c == '。' || c == '、' || c == '；' || c == '：' || c == '！' || c == '？' || c == '…'
        || c == '·' || c == ',' || c == '.' || c == ';' || c == ':' || c == '!' || c == '?' || c
        == ')' || c == ']' || c == '}' || c == '%' || c == '）' || c == '》' || c == '〉' || c == '」'
        || c == '』' || c == '】' || c == '〕' || c == '"' || c == '”' || c == '\'' || c == '’'
}

/// Index of the last character of `s` that may start a line.
pub open spec fn last_startable(s: Seq<char>) -> Option<int>
    decreases s.len(),
{
    if s.len() == 0 {
        None
    } else if !no_line_start(s.last()) {
        Some(s.len() - 1)
    } else {
        last_startable(s.drop_last())
    }
}

/// Where a break before `next` splits the pending segment `seg`:
/// `(carried down, kept)`. When `next` may not start a line, the characters
/// from the last one that may are carried down; when there is no such
/// character the segment is kept whole.
pub open spec fn split_kinsoku(seg: Seq<char>, next: char) -> (Seq<char>, Seq<char>) {
    if !no_line_start(next) {
        (Seq::empty(), seg)
    } else {
        match last_startable(seg) {
            None => (Seq::empty(), seg),
            Some(j) => (seg.skip(j), seg.take(j)),
        }
    }
}

/// State of the line breaker.
pub struct WState {
    /// Finished physical lines.
    pub out: Seq<LineV>,
    /// Runs of the line being filled.
    pub cur: Seq<RunV>,
    /// Text of the current run not yet in `cur`.
    pub seg: Seq<char>,
    /// Width of the line being filled.
    pub units: nat,
    /// The line cap has been reached.
    pub done: bool,
    /// Text was cut.
    pub truncated: bool,
}

pub open spec fn init_wstate() -> WState {
    WState {
        out: Seq::empty(),
        cur: Seq::empty(),
        seg: Seq::empty(),
        units: 0,
        done: false,
        truncated: false,
    }
}

/// Where a break carries characters down from the runs already on the
/// line: `(kept, carried)`, the text from the last character that may start
/// a line on being carried down with its runs' styles. `None` when no run
/// holds such a character.
pub open spec fn carry_runs(cur: Seq<RunV>) -> Option<(Seq<RunV>, Seq<RunV>)>
    decreases cur.len(),
{
    if cur.len() == 0 {
        None
    } else {
        let last = cur.last();
        match last_startable(last.0) {
            Some(j) => Some(
                (
                    if j > 0 {
                        cur.drop_last().push((last.0.take(j), last.1))
                    } else {
                        cur.drop_last()
                    },
                    seq![(last.0.skip(j), last.1)],
                ),
            ),
            None => match carry_runs(cur.drop_last()) {
                Some((k, c)) => Some((k, c.push(last))),
                None => None,
            },
        }
    }
}

/// The carry of a break before `ch` that reaches into earlier runs: only
/// when `ch` may not start a line and the pending segment holds no character
/// that may.
pub open spec fn cross_carry(st: WState, ch: char) -> Option<(Seq<RunV>, Seq<RunV>)> {
    if no_line_start(ch) && last_startable(st.seg) is None {
        carry_runs(st.cur)
    } else {
        None
    }
}

/// Places one character of a run with `style` on a line of font `size`.
pub open spec fn wchar(st: WState, ch: char, style: RunStyle, size: Option<u16>) -> WState {
    if st.done {
        st
    } else if overflows(st.units + char_width(ch), font_of(size)) {
        match cross_carry(st, ch) {
            Some((keep, carry)) => {
                let out2 = st.out.push((keep, size));
                let cu = width(runs_text(carry)) + width(st.seg);
                if out2.len() >= MAX_LINES {
                    WState {
                        out: out2,
                        cur: carry,
                        seg: st.seg,
                        units: cu,
                        done: true,
                        truncated: true,
                    }
                } else {
                    WState {
                        out: out2,
                        cur: carry,
                        seg: st.seg.push(ch),
                        units: cu + char_width(ch),
                        done: false,
                        truncated: false,
                    }
                }
            },
            None => {
                let (head, rest) = split_kinsoku(st.seg, ch);
                let cur2 = if rest.len() > 0 {
                    st.cur.push((rest, style))
                } else {
                    st.cur
                };
                let out2 = st.out.push((cur2, size));
                if out2.len() >= MAX_LINES {
                    WState {
                        out: out2,
                        cur: Seq::empty(),
                        seg: head,
                        units: width(head),
                        done: true,
                        truncated: true,
                    }
                } else {
                    WState {
                        out: out2,
                        cur: Seq::empty(),
                        seg: head.push(ch),
                        units: width(head) + char_width(ch),
                        done: false,
                        truncated: false,
                    }
                }
            },
        }
    } else {
        WState { seg: st.seg.push(ch), units: st.units + char_width(ch), ..st }
    }
}

pub open spec fn wchars(st: WState, text: Seq<char>, style: RunStyle, size: Option<u16>) -> WState
    decreases text.len(),
{
    if text.len() == 0 {
        st
    } else {
        wchar(wchars(st, text.drop_last(), style, size), text.last(), style, size)
    }
}

/// Places a run; what is left of it at the end joins the current line.
pub open spec fn wrun(st: WState, run: RunV, size: Option<u16>) -> WState {
    if st.done {
        st
    } else {
        let s1 = wchars(WState { seg: Seq::empty(), ..st }, run.0, run.1, size);
        if !s1.done && s1.seg.len() > 0 {
            WState { cur: s1.cur.push((s1.seg, run.1)), seg: Seq::empty(), ..s1 }
        } else {
            s1
        }
    }
}

pub open spec fn wruns(st: WState, runs: Seq<RunV>, size: Option<u16>) -> WState
    decreases runs.len(),
{
    if runs.len() == 0 {
        st
    } else {
        wrun(wruns(st, runs.drop_last(), size), runs.last(), size)
    }
}

/// The font size of a logical line: the first size that one of its runs
/// sets.
pub open spec fn first_size(runs: Seq<RunV>) -> Option<u16>
    decreases runs.len(),
{
    if runs.len() == 0 {
        None
    } else if runs[0].1.size is Some {
        runs[0].1.size
    } else {
        first_size(runs.drop_first())
    }
}

/// Breaks one logical line; `is_last` tells whether more lines follow.
pub open spec fn wline(st: WState, runs: Seq<RunV>, is_last: bool) -> WState {
    if st.done {
        st
    } else {
        let size = first_size(runs);
        let s1 = wruns(WState { cur: Seq::empty(), seg: Seq::empty(), units: 0, ..st }, runs, size);
        if s1.done {
            s1
        } else {
            let out2 = s1.out.push((s1.cur, size));
            WState {
                out: out2,
                cur: Seq::empty(),
                seg: Seq::empty(),
                units: 0,
                done: out2.len() >= MAX_LINES,
                truncated: out2.len() >= MAX_LINES && !is_last,
            }
        }
    }
}

/// The breaker's state after the first `k` logical lines.
pub open spec fn wlines(lines: Seq<Seq<RunV>>, k: nat) -> WState
    decreases k,
{
    if k == 0 {
        init_wstate()
    } else {
        wline(wlines(lines, (k - 1) as nat), lines[k - 1], k == lines.len())
    }
}

/// Style of the `…` that ends cut text: that of the line's last run.
pub open spec fn ellipsis_style(runs: Seq<RunV>) -> RunStyle {
    if runs.len() > 0 {
        runs.last().1
    } else {
        RunStyle { bold: false, color: None, size: None }
    }
}

/// The physical lines of some logical lines.
pub open spec fn wrap(lines: Seq<Seq<RunV>>) -> Seq<LineV> {
    let st = wlines(lines, lines.len());
    if st.truncated && st.out.len() > 0 {
        let last = st.out.last();
        st.out.update(
            st.out.len() - 1,
            (last.0.push((seq!['…'], ellipsis_style(last.0))), last.1),
        )
    } else {
        st.out
    }
}

/// Whether the line cap cut text.
pub open spec fn wrap_truncated(lines: Seq<Seq<RunV>>) -> bool {
    wlines(lines, lines.len()).truncated
}

pub open spec fn size_ok(size: Option<u16>) -> bool {
    size matches Some(v) ==> 11 <= v && v <= 18
}

/// Every run of the lines has a font size inside the allowed range.
pub open spec fn sizes_ok(lines: Seq<Seq<RunV>>) -> bool {
    forall|j: int, k: int|
        0 <= j < lines.len() && 0 <= k < lines[j].len() ==> size_ok(#[trigger] lines[j][k].1.size)
}


pub proof fn lemma_width_concat(a: Seq<char>, b: Seq<char>)
    ensures
        width(a + b) == width(a) + width(b),
    decreases b.len(),
{
    if b.len() == 0 {
        assert(a + b =~= a);
    } else {
        assert((a + b).drop_last() =~= a + b.drop_last());
        lemma_width_concat(a, b.drop_last());
    }
}

pub proof fn lemma_width_split(s: Seq<char>, j: int)
    requires
        0 <= j <= s.len(),
    ensures
        width(s) == width(s.take(j)) + width(s.skip(j)),
{
    lemma_width_concat(s.take(j), s.skip(j));
    assert(s.take(j) + s.skip(j) =~= s);
}

proof fn lemma_last_startable(s: Seq<char>)
    ensures
        last_startable(s) matches Some(j) ==> 0 <= j < s.len() && !no_line_start(s[j]) && forall|
            k: int,
        | j < k < s.len() ==> no_line_start(#[trigger] s[k]),
        last_startable(s) is None ==> forall|k: int| 0 <= k < s.len() ==> no_line_start(#[trigger] s[k]),
    decreases s.len(),
{
    if s.len() > 0 && no_line_start(s.last()) {
        lemma_last_startable(s.drop_last());
        assert forall|k: int| 0 <= k < s.len() - 1 implies #[trigger] s[k] == s.drop_last()[k] by {}
    }
}

/// Splits the pending segment before `next` under the kinsoku rule:
/// `(carried down, kept)`. Nothing is lost, and what is carried down never
/// starts with a character that may not start a line.
pub fn split_with_kinsoku(seg: Vec<char>, next: char) -> (r: (Vec<char>, Vec<char>))
    ensures
        (r.0@, r.1@) == split_kinsoku(seg@, next),
        r.1@ + r.0@ == seg@,
        r.0@.len() > 0 ==> !no_line_start(r.0@[0]),
{
    proof {
        lemma_last_startable(seg@);
    }
    if !is_no_line_start(next) {
        assert(seg@ =~= seg@ + Seq::<char>::empty());
        return (Vec::new(), seg);
    }
    let mut j = seg.len();
    while j > 0 && is_no_line_start(seg[j - 1])
        invariant
            j <= seg@.len(),
            forall|k: int| j <= k < seg@.len() ==> no_line_start(#[trigger] seg@[k]),
        decreases j,
    {
        j -= 1;
    }
    if j == 0 {
        proof {
            if let Some(x) = last_startable(seg@) {
                assert(no_line_start(seg@[x]));
            }
        }
        assert(seg@ =~= seg@ + Seq::<char>::empty());
        return (Vec::new(), seg);
    }
    let ghost whole = seg@;
    let mut rest = seg;
    let head = rest.split_off(j - 1);
    proof {
        let x = last_startable(whole).unwrap();
        if x < j - 1 {
            assert(no_line_start(whole[j - 1]));
        } else if x > j - 1 {
            assert(no_line_start(whole[x]));
        }
        assert(rest@ + head@ =~= whole);
    }
    (head, rest)
}

/// Width of a character (ASCII 11, other 20).
fn char_width_of(c: char) -> (r: u64)
    ensures
        r == char_width(c),
{
    if (c as u32) < 0x80 {
        11
    } else {
        20
    }
}

proof fn lemma_width_take(s: Seq<char>, i: int)
    requires
        0 <= i < s.len(),
    ensures
        width(s.take(i + 1)) == width(s.take(i)) + char_width(s[i]),
{
    assert(s.take(i + 1).drop_last() =~= s.take(i));
}

fn width_of(s: &Vec<char>) -> (r: u64)
    requires
        width(s@) <= 10000,
    ensures
        r == width(s@),
{
    let mut w: u64 = 0;
    let mut i: usize = 0;
    while i < s.len()
        invariant
            i <= s@.len(),
            w == width(s@.take(i as int)),
            width(s@) <= 10000,
        decreases s.len() - i,
    {
        proof {
            lemma_width_take(s@, i as int);
            lemma_width_split(s@, i + 1);
        }
        w = w + char_width_of(s[i]);
        i += 1;
    }
    assert(s@.take(s.len() as int) =~= s@);
    w
}

proof fn lemma_runs_text_concat(a: Seq<RunV>, b: Seq<RunV>)
    ensures
        runs_text(a + b) == runs_text(a) + runs_text(b),
    decreases b.len(),
{
    if b.len() == 0 {
        assert(a + b =~= a);
        assert(runs_text(a) + runs_text(b) =~= runs_text(a));
    } else {
        assert((a + b).drop_last() =~= a + b.drop_last());
        assert((a + b).last() == b.last());
        lemma_runs_text_concat(a, b.drop_last());
        assert(runs_text(a) + runs_text(b.drop_last()) + b.last().0 =~= runs_text(a) + runs_text(
            b,
        ));
    }
}

proof fn lemma_runs_text_one(x: RunV)
    ensures
        runs_text(seq![x]) == x.0,
{
    assert(seq![x].drop_last() =~= Seq::<RunV>::empty());
    assert(runs_text(seq![x].drop_last()) =~= Seq::<char>::empty());
    assert(seq![x].last() == x);
    assert(Seq::<char>::empty() + x.0 =~= x.0);
}

/// What a carry keeps and carries is the line's text, split where the
/// carried part starts with a character that may start a line.
proof fn lemma_carry_text(cur: Seq<RunV>)
    ensures
        carry_runs(cur) matches Some((k, c)) ==> runs_text(k) + runs_text(c) == runs_text(cur)
            && runs_text(c).len() > 0 && !no_line_start(runs_text(c)[0]),
        carry_runs(cur) is None ==> forall|i: int|
            0 <= i < runs_text(cur).len() ==> no_line_start(#[trigger] runs_text(cur)[i]),
    decreases cur.len(),
{
    if cur.len() > 0 {
        let last = cur.last();
        let d = cur.drop_last();
        lemma_last_startable(last.0);
        lemma_carry_text(d);
        match last_startable(last.0) {
            Some(j) => {
                let k = if j > 0 {
                    d.push((last.0.take(j), last.1))
                } else {
                    d
                };
                assert(runs_text(k) == runs_text(d) + last.0.take(j)) by {
                    if j > 0 {
                        assert(k.drop_last() =~= d);
                    } else {
                        assert(runs_text(d) + last.0.take(0) =~= runs_text(d));
                    }
                }
                lemma_runs_text_one((last.0.skip(j), last.1));
                assert(runs_text(d) + last.0.take(j) + last.0.skip(j) =~= runs_text(cur));
                assert(last.0.skip(j)[0] == last.0[j]);
            },
            None => {
                if let Some((k, c)) = carry_runs(d) {
                    let c2 = c.push(last);
                    assert(c2.drop_last() =~= c);
                    assert(runs_text(k) + runs_text(c2) =~= runs_text(cur));
                    assert(runs_text(c2)[0] == runs_text(c)[0]);
                } else {
                    assert forall|i: int| 0 <= i < runs_text(cur).len() implies no_line_start(
                        #[trigger] runs_text(cur)[i],
                    ) by {
                        if i < runs_text(d).len() {
                            assert(runs_text(cur)[i] == runs_text(d)[i]);
                        } else {
                            assert(runs_text(cur)[i] == last.0[i - runs_text(d).len()]);
                        }
                    }
                }
            },
        }
    }
}

/// Runs holding no character that may start a line, appended after `a`,
/// join what a carry from `a` takes down.
proof fn lemma_carry_append(a: Seq<RunV>, t: Seq<RunV>)
    requires
        forall|i: int| 0 <= i < t.len() ==> last_startable(#[trigger] t[i].0) is None,
    ensures
        carry_runs(a + t) == match carry_runs(a) {
            Some((k, c)) => Some((k, c + t)),
            None => None,
        },
    decreases t.len(),
{
    if t.len() == 0 {
        assert(a + t =~= a);
        if let Some((k, c)) = carry_runs(a) {
            assert(c + t =~= c);
        }
    } else {
        assert((a + t).drop_last() =~= a + t.drop_last());
        assert((a + t).last() == t.last());
        assert(last_startable(t[t.len() - 1].0) is None);
        lemma_carry_append(a, t.drop_last());
        if let Some((k, c)) = carry_runs(a) {
            assert((c + t.drop_last()).push(t.last()) =~= c + t);
        }
    }
}

proof fn lemma_last_startable_at(s: Seq<char>, j: int)
    requires
        0 <= j < s.len(),
        !no_line_start(s[j]),
        forall|k: int| j < k < s.len() ==> no_line_start(#[trigger] s[k]),
    ensures
        last_startable(s) == Some(j),
{
    lemma_last_startable(s);
    if let Some(x) = last_startable(s) {
        if x < j {
            assert(no_line_start(s[j]));
        } else if x > j {
            assert(no_line_start(s[x]));
        }
    } else {
        assert(no_line_start(s[j]));
    }
}

/// Index of the last character of `s` that may start a line.
fn last_startable_of(s: &Vec<char>) -> (r: Option<usize>)
    ensures
        match r {
            Some(j) => last_startable(s@) == Some(j as int),
            None => last_startable(s@) is None,
        },
{
    let mut j = s.len();
    while j > 0 && is_no_line_start(s[j - 1])
        invariant
            j <= s@.len(),
            forall|k: int| j <= k < s@.len() ==> no_line_start(#[trigger] s@[k]),
        decreases j,
    {
        j -= 1;
    }
    if j == 0 {
        proof {
            lemma_last_startable(s@);
            if let Some(x) = last_startable(s@) {
                assert(no_line_start(s@[x]));
            }
        }
        None
    } else {
        proof {
            lemma_last_startable_at(s@, j - 1);
        }
        Some(j - 1)
    }
}

/// Splits the runs of a line for a break that carries characters down from
/// them (`carry_runs`), with the width of the carried text; the runs come
/// back unchanged when there is nothing to carry.
fn split_carry(cur: Vec<TextRun>) -> (r: (Vec<TextRun>, Vec<TextRun>, Option<u64>))
    requires
        width(runs_text(line_view(cur@))) <= 10000,
    ensures
        match carry_runs(line_view(cur@)) {
            Some((k, c)) => line_view(r.0@) == k && line_view(r.1@) == c && r.2 == Some(
                width(runs_text(c)) as u64,
            ),
            None => line_view(r.0@) == line_view(cur@) && r.2 is None,
        },
{
    let ghost v = line_view(cur@);
    let mut keep = cur;
    let mut tail: Vec<TextRun> = Vec::new();
    let mut tail_w: u64 = 0;
    proof {
        assert(line_view(keep@) + line_view(tail@) =~= v);
        lemma_carry_append(v, line_view(tail@));
        assert(v + line_view(tail@) =~= v);
        lemma_runs_text_concat(line_view(keep@), line_view(tail@));
        lemma_width_concat(runs_text(line_view(keep@)), runs_text(line_view(tail@)));
    }
    while keep.len() > 0
        invariant
            line_view(keep@) + line_view(tail@) == v,
            v == line_view(cur@),
            forall|i: int|
                0 <= i < line_view(tail@).len() ==> last_startable(#[trigger] line_view(tail@)[i].0) is None,
            carry_runs(v) == match carry_runs(line_view(keep@)) {
                Some((k, c)) => Some((k, c + line_view(tail@))),
                None => None,
            },
            tail_w == width(runs_text(line_view(tail@))),
            width(runs_text(line_view(keep@))) + tail_w == width(runs_text(v)),
            width(runs_text(v)) <= 10000,
        decreases keep.len(),
    {
        let ghost kv = line_view(keep@);
        let last = keep.pop().unwrap();
        let ghost kd = line_view(keep@);
        proof {
            assert(kv.drop_last() =~= kd);
            assert(kv.last() == last@);
            lemma_width_concat(runs_text(kd), last.text@);
        }
        let style = last.style;
        match last_startable_of(&last.text) {
            Some(j) => {
                let ghost lt = last.text@;
                proof {
                    lemma_last_startable(lt);
                }
                let mut text = last.text;
                let head = text.split_off(j);
                proof {
                    assert(text@ =~= lt.take(j as int));
                    assert(head@ =~= lt.skip(j as int));
                    lemma_width_split(lt, j as int);
                }
                let hw = width_of(&head);
                if j > 0 {
                    keep.push(TextRun { text, style });
                }
                let ghost hv = (head@, style);
                let mut carry: Vec<TextRun> = Vec::new();
                carry.push(TextRun { text: head, style });
                let ghost tv = line_view(tail@);
                carry.append(&mut tail);
                proof {
                    assert(line_view(carry@) =~= seq![hv] + tv);
                    if j > 0 {
                        assert(line_view(keep@) =~= kd.push((lt.take(j as int), style)));
                    } else {
                        assert(line_view(keep@) =~= kd);
                    }
                    lemma_runs_text_concat(seq![hv], tv);
                    lemma_runs_text_one(hv);
                    lemma_width_concat(hv.0, runs_text(tv));
                    assert(kv.last().0 == lt);
                    assert(kv.drop_last() == kd);
                    assert(last_startable(kv.last().0) == Some(j as int));
                    assert(carry_runs(kv) == Some((line_view(keep@), seq![hv])));
                    assert(carry_runs(v) == Some((line_view(keep@), seq![hv] + tv)));
                }
                return (keep, carry, Some(hw + tail_w));
            },
            None => {
                let lw = width_of(&last.text);
                let ghost tv = line_view(tail@);
                let ghost lv = last@;
                tail.insert(0, last);
                proof {
                    assert(line_view(tail@) =~= seq![lv] + tv);
                    assert(line_view(keep@) + line_view(tail@) =~= v);
                    lemma_carry_append(seq![lv], tv);
                    assert(kd + seq![lv] =~= kv);
                    lemma_carry_append(kd, seq![lv]);
                    assert((kd + seq![lv]) + tv =~= kd + (seq![lv] + tv));
                    if let Some((k, c)) = carry_runs(kd) {
                        assert(c + seq![lv] + tv =~= c + (seq![lv] + tv));
                    }
                    lemma_runs_text_concat(seq![lv], tv);
                    lemma_runs_text_one(lv);
                    lemma_width_concat(lv.0, runs_text(tv));
                }
                tail_w = lw + tail_w;
            },
        }
    }
    proof {
        assert(line_view(keep@) =~= Seq::<RunV>::empty());
        assert(line_view(tail@) =~= v);
    }
    (tail, Vec::new(), None)
}

/// A physical line: its runs and the font size in force.
pub struct WrappedLine {
    pub runs: Vec<TextRun>,
    pub size: Option<u16>,
}

impl View for WrappedLine {
    type V = LineV;

    open spec fn view(&self) -> LineV {
        (line_view(self.runs@), self.size)
    }
}

pub open spec fn out_view(s: Seq<WrappedLine>) -> Seq<LineV> {
    s.map_values(|l: WrappedLine| l@)
}

struct Wrapper {
    out: Vec<WrappedLine>,
    cur: Vec<TextRun>,
    seg: Vec<char>,
    units: u64,
    done: bool,
    truncated: bool,
}

proof fn lemma_fit_bound(u: nat, font: nat)
    by (nonlinear_arith)
    requires
        11 <= font,
        u * font <= CAPACITY,
    ensures
        u <= 610,
{
}

impl Wrapper {
    spec fn state(&self) -> WState {
        WState {
            out: out_view(self.out@),
            cur: line_view(self.cur@),
            seg: self.seg@,
            units: self.units as nat,
            done: self.done,
            truncated: self.truncated,
        }
    }

    spec fn inv(&self) -> bool {
        &&& self.out@.len() <= MAX_LINES
        &&& !self.done ==> self.out@.len() < MAX_LINES
        &&& !self.done ==> !self.truncated
        &&& self.units <= 610 + 20 * self.out@.len()
        &&& width(runs_text(line_view(self.cur@))) + width(self.seg@) <= self.units
    }

    fn place_char(&mut self, ch: char, style: RunStyle, size: Option<u16>, font: u64)
        requires
            old(self).inv(),
            !old(self).done,
            font == font_of(size),
            11 <= font <= 18,
        ensures
            final(self).inv(),
            final(self).state() == wchar(old(self).state(), ch, style, size),
    {
        let cw = char_width_of(ch);
        assert((self.units + cw) * font <= 13140) by (nonlinear_arith)
            requires
                self.units + cw <= 730,
                font <= 18,
        ;
        let ghost st = self.state();
        if (self.units + cw) * font > CAPACITY {
            if is_no_line_start(ch) && last_startable_of(&self.seg).is_none() {
                let mut cur: Vec<TextRun> = Vec::new();
                std::mem::swap(&mut cur, &mut self.cur);
                let (keep, carry, found) = split_carry(cur);
                match found {
                    Some(cw_carry) => {
                        proof {
                            lemma_carry_text(st.cur);
                            lemma_width_concat(runs_text(line_view(keep@)), runs_text(line_view(carry@)));
                        }
                        let sw = width_of(&self.seg);
                        self.out.push(WrappedLine { runs: keep, size });
                        assert(out_view(self.out@) =~= st.out.push((line_view(keep@), size)));
                        self.cur = carry;
                        if self.out.len() >= MAX_LINES {
                            self.units = cw_carry + sw;
                            self.done = true;
                            self.truncated = true;
                            assert(self.state() == wchar(st, ch, style, size));
                        } else {
                            let ghost old_seg = self.seg@;
                            self.seg.push(ch);
                            self.units = cw_carry + sw + cw;
                            assert(self.seg@ =~= old_seg.push(ch));
                            proof {
                                lemma_width_take(self.seg@, old_seg.len() as int);
                                assert(self.seg@.take(old_seg.len() as int) =~= old_seg);
                                assert(self.seg@.take(self.seg@.len() as int) =~= self.seg@);
                            }
                            assert(self.state() == wchar(st, ch, style, size));
                        }
                        return;
                    },
                    None => {
                        self.cur = keep;
                    },
                }
            }
            assert(cross_carry(st, ch) is None);
            let mut seg: Vec<char> = Vec::new();
            std::mem::swap(&mut seg, &mut self.seg);
            let (head, rest) = split_with_kinsoku(seg, ch);
            proof {
                lemma_width_concat(rest@, head@);
            }
            if rest.len() > 0 {
                self.cur.push(TextRun { text: rest, style });
            }
            let ghost cur2 = line_view(self.cur@);
            assert(cur2 =~= (if split_kinsoku(st.seg, ch).1.len() > 0 {
                st.cur.push((split_kinsoku(st.seg, ch).1, style))
            } else {
                st.cur
            }));
            let mut cur: Vec<TextRun> = Vec::new();
            std::mem::swap(&mut cur, &mut self.cur);
            let ghost old_out = self.out@;
            self.out.push(WrappedLine { runs: cur, size });
            assert(out_view(self.out@) =~= st.out.push((cur2, size)));
            let hw = width_of(&head);
            assert(line_view(self.cur@) =~= Seq::<RunV>::empty());
            if self.out.len() >= MAX_LINES {
                self.seg = head;
                self.units = hw;
                self.done = true;
                self.truncated = true;
                assert(self.state() == wchar(st, ch, style, size));
            } else {
                let ghost h = head@;
                self.seg = head;
                self.seg.push(ch);
                self.units = hw + cw;
                assert(self.seg@.drop_last() =~= h);
                assert(self.seg@ =~= h.push(ch));
                assert(self.state() == wchar(st, ch, style, size));
            }
        } else {
            proof {
                lemma_fit_bound((self.units + cw) as nat, font as nat);
            }
            let ghost old_seg = self.seg@;
            self.seg.push(ch);
            self.units = self.units + cw;
            assert(self.seg@.drop_last() =~= old_seg);
            assert(self.seg@ =~= old_seg.push(ch));
            assert(self.state() == wchar(st, ch, style, size));
        }
    }
}


proof fn lemma_wchars_done(st: WState, text: Seq<char>, style: RunStyle, size: Option<u16>, i: int)
    requires
        0 <= i <= text.len(),
        wchars(st, text.take(i), style, size).done,
    ensures
        wchars(st, text, style, size) == wchars(st, text.take(i), style, size),
    decreases text.len(),
{
    if text.len() == i {
        assert(text.take(i) =~= text);
    } else {
        assert(text.drop_last().take(i) =~= text.take(i));
        lemma_wchars_done(st, text.drop_last(), style, size, i);
    }
}

proof fn lemma_wruns_done(st: WState, runs: Seq<RunV>, size: Option<u16>, k: int)
    requires
        0 <= k <= runs.len(),
        wruns(st, runs.take(k), size).done,
    ensures
        wruns(st, runs, size) == wruns(st, runs.take(k), size),
    decreases runs.len(),
{
    if runs.len() == k {
        assert(runs.take(k) =~= runs);
    } else {
        assert(runs.drop_last().take(k) =~= runs.take(k));
        lemma_wruns_done(st, runs.drop_last(), size, k);
    }
}

proof fn lemma_wlines_done(lines: Seq<Seq<RunV>>, k: nat, n: nat)
    requires
        k <= n,
        wlines(lines, k).done,
    ensures
        wlines(lines, n) == wlines(lines, k),
    decreases n,
{
    if n > k {
        lemma_wlines_done(lines, k, (n - 1) as nat);
    }
}

proof fn lemma_first_size_ok(runs: Seq<RunV>)
    requires
        forall|k: int| 0 <= k < runs.len() ==> size_ok(#[trigger] runs[k].1.size),
    ensures
        size_ok(first_size(runs)),
    decreases runs.len(),
{
    if runs.len() > 0 && runs[0].1.size is None {
        assert forall|k: int| 0 <= k < runs.drop_first().len() implies size_ok(
            #[trigger] runs.drop_first()[k].1.size,
        ) by {
            assert(runs.drop_first()[k] == runs[k + 1]);
        }
        lemma_first_size_ok(runs.drop_first());
    }
}

fn first_size_of(runs: &Vec<TextRun>) -> (r: Option<u16>)
    ensures
        r == first_size(line_view(runs@)),
{
    let mut k: usize = 0;
    assert(line_view(runs@).skip(0) =~= line_view(runs@));
    while k < runs.len()
        invariant
            k <= runs@.len(),
            first_size(line_view(runs@)) == first_size(line_view(runs@).skip(k as int)),
        decreases runs.len() - k,
    {
        let ghost rest = line_view(runs@).skip(k as int);
        assert(rest[0] == runs@[k as int]@);
        if runs[k].style.size.is_some() {
            return runs[k].style.size;
        }
        assert(rest.drop_first() =~= line_view(runs@).skip(k + 1));
        k += 1;
    }
    None
}

impl Wrapper {
    fn place_run(&mut self, run: &TextRun, size: Option<u16>, font: u64)
        requires
            old(self).inv(),
            !old(self).done,
            font == font_of(size),
            11 <= font <= 18,
        ensures
            final(self).inv(),
            final(self).state() == wrun(old(self).state(), run@, size),
    {
        let ghost st0 = self.state();
        self.seg = Vec::new();
        let ghost s_start = WState { seg: Seq::empty(), ..st0 };
        assert(self.state() == s_start) by {
            assert(self.seg@ =~= Seq::<char>::empty());
        }
        let n = run.text.len();
        let mut i: usize = 0;
        while i < n && !self.done
            invariant
                n == run.text@.len(),
                i <= n,
                self.inv(),
                font == font_of(size),
                11 <= font <= 18,
                self.state() == wchars(s_start, run.text@.take(i as int), run.style, size),
            decreases n - i,
        {
            assert(run.text@.take(i + 1).drop_last() =~= run.text@.take(i as int));
            self.place_char(run.text[i], run.style, size, font);
            i += 1;
        }
        proof {
            if i == n {
                assert(run.text@.take(i as int) =~= run.text@);
            } else {
                lemma_wchars_done(s_start, run.text@, run.style, size, i as int);
            }
        }
        if !self.done && self.seg.len() > 0 {
            let ghost s1 = self.state();
            let mut seg: Vec<char> = Vec::new();
            std::mem::swap(&mut seg, &mut self.seg);
            self.cur.push(TextRun { text: seg, style: run.style });
            assert(line_view(self.cur@) =~= s1.cur.push((s1.seg, run.style)));
            assert(self.seg@ =~= Seq::<char>::empty());
            proof {
                assert(line_view(self.cur@).drop_last() =~= s1.cur);
                assert(runs_text(line_view(self.cur@)) == runs_text(s1.cur) + s1.seg);
                lemma_width_concat(runs_text(s1.cur), s1.seg);
            }
        }
    }

    fn place_line(&mut self, runs: &Vec<TextRun>, is_last: bool)
        requires
            old(self).inv(),
            !old(self).done,
            forall|k: int| 0 <= k < runs@.len() ==> size_ok(#[trigger] runs@[k].style.size),
        ensures
            final(self).inv(),
            final(self).state() == wline(old(self).state(), line_view(runs@), is_last),
    {
        let ghost st0 = self.state();
        let size = first_size_of(runs);
        proof {
            assert forall|k: int| 0 <= k < line_view(runs@).len() implies size_ok(
                #[trigger] line_view(runs@)[k].1.size,
            ) by {
                assert(line_view(runs@)[k] == runs@[k]@);
            }
            lemma_first_size_ok(line_view(runs@));
        }
        let font: u64 = match size {
            Some(v) => v as u64,
            None => 14,
        };
        self.cur = Vec::new();
        self.seg = Vec::new();
        self.units = 0;
        let ghost s_start = WState { cur: Seq::empty(), seg: Seq::empty(), units: 0, ..st0 };
        assert(self.state() == s_start) by {
            assert(self.seg@ =~= Seq::<char>::empty());
            assert(line_view(self.cur@) =~= Seq::<RunV>::empty());
        }
        let n = runs.len();
        let mut k: usize = 0;
        while k < n && !self.done
            invariant
                n == runs@.len(),
                k <= n,
                self.inv(),
                font == font_of(size),
                11 <= font <= 18,
                self.state() == wruns(s_start, line_view(runs@).take(k as int), size),
            decreases n - k,
        {
            assert(line_view(runs@).take(k + 1).drop_last() =~= line_view(runs@).take(k as int));
            assert(line_view(runs@).take(k + 1).last() == runs@[k as int]@);
            self.place_run(&runs[k], size, font);
            k += 1;
        }
        proof {
            if k == n {
                assert(line_view(runs@).take(k as int) =~= line_view(runs@));
            } else {
                lemma_wruns_done(s_start, line_view(runs@), size, k as int);
            }
        }
        if !self.done {
            let ghost s1 = self.state();
            let mut cur: Vec<TextRun> = Vec::new();
            std::mem::swap(&mut cur, &mut self.cur);
            self.out.push(WrappedLine { runs: cur, size });
            assert(out_view(self.out@) =~= s1.out.push((s1.cur, size)));
            assert(line_view(self.cur@) =~= Seq::<RunV>::empty());
            self.seg = Vec::new();
            assert(self.seg@ =~= Seq::<char>::empty());
            self.units = 0;
            if self.out.len() >= MAX_LINES {
                self.done = true;
                self.truncated = !is_last;
            }
        }
    }
}

/// Breaks logical lines into at most `MAX_LINES` physical lines.
pub fn wrap_lines(lines: &Vec<Vec<TextRun>>) -> (r: Vec<WrappedLine>)
    requires
        sizes_ok(lines_view(lines@)),
    ensures
        out_view(r@) == wrap(lines_view(lines@)),
{
    let mut w = Wrapper {
        out: Vec::new(),
        cur: Vec::new(),
        seg: Vec::new(),
        units: 0,
        done: false,
        truncated: false,
    };
    assert(w.state() == init_wstate()) by {
        assert(out_view(w.out@) =~= Seq::<LineV>::empty());
        assert(line_view(w.cur@) =~= Seq::<RunV>::empty());
        assert(w.seg@ =~= Seq::<char>::empty());
    }
    let ghost lv = lines_view(lines@);
    let n = lines.len();
    let mut k: usize = 0;
    while k < n && !w.done
        invariant
            n == lines@.len(),
            lv == lines_view(lines@),
            sizes_ok(lv),
            k <= n,
            w.inv(),
            w.state() == wlines(lv, k as nat),
        decreases n - k,
    {
        proof {
            assert forall|m: int| 0 <= m < lines@[k as int]@.len() implies size_ok(
                #[trigger] lines@[k as int]@[m].style.size,
            ) by {
                assert(lv[k as int] == line_view(lines@[k as int]@));
                assert(lv[k as int][m] == lines@[k as int]@[m]@);
                assert(size_ok(lv[k as int][m].1.size));
            }
        }
        assert(lv[k as int] == line_view(lines@[k as int]@));
        w.place_line(&lines[k], k + 1 == n);
        k += 1;
    }
    proof {
        if k < n {
            lemma_wlines_done(lv, k as nat, n as nat);
        }
    }
    let mut out = w.out;
    if w.truncated && out.len() > 0 {
        let ghost before = out_view(out@);
        let mut last = out.pop().unwrap();
        let ghost last_v = last@;
        let style = if last.runs.len() > 0 {
            last.runs[last.runs.len() - 1].style
        } else {
            RunStyle { bold: false, color: None, size: None }
        };
        let mut text: Vec<char> = Vec::new();
        text.push('…');
        last.runs.push(TextRun { text, style });
        out.push(last);
        assert(out_view(out@) =~= before.update(
            before.len() - 1,
            (last_v.0.push((seq!['…'], ellipsis_style(last_v.0))), last_v.1),
        )) by {
            assert(line_view(out@.last().runs@) =~= last_v.0.push(
                (seq!['…'], ellipsis_style(last_v.0)),
            ));
        }
    }
    out
}

/// Text of runs, in order.
pub open spec fn runs_text(runs: Seq<RunV>) -> Seq<char>
    decreases runs.len(),
{
    if runs.len() == 0 {
        Seq::empty()
    } else {
        runs_text(runs.drop_last()) + runs.last().0
    }
}

/// Text of logical lines, in order, without separators.
pub open spec fn lines_text(ls: Seq<Seq<RunV>>) -> Seq<char>
    decreases ls.len(),
{
    if ls.len() == 0 {
        Seq::empty()
    } else {
        lines_text(ls.drop_last()) + runs_text(ls.last())
    }
}

/// Text of physical lines, in order, without separators.
pub open spec fn out_text(out: Seq<LineV>) -> Seq<char>
    decreases out.len(),
{
    if out.len() == 0 {
        Seq::empty()
    } else {
        out_text(out.drop_last()) + runs_text(out.last().0)
    }
}

/// Text placed so far: finished lines, the current line, the pending segment.
pub open spec fn placed_text(st: WState) -> Seq<char> {
    out_text(st.out) + runs_text(st.cur) + st.seg
}

pub open spec fn is_prefix(a: Seq<char>, b: Seq<char>) -> bool {
    a.len() <= b.len() && b.take(a.len() as int) == a
}

proof fn lemma_prefix_extend(a: Seq<char>, b: Seq<char>, c: Seq<char>)
    requires
        is_prefix(a, b),
    ensures
        is_prefix(a, b + c),
{
    assert((b + c).take(a.len() as int) =~= b.take(a.len() as int));
}

proof fn lemma_prefix_concat(a: Seq<char>, b: Seq<char>)
    ensures
        is_prefix(a, a + b),
{
    assert((a + b).take(a.len() as int) =~= a);
}

proof fn lemma_split_kinsoku(seg: Seq<char>, next: char)
    ensures
        split_kinsoku(seg, next).1 + split_kinsoku(seg, next).0 == seg,
{
    lemma_last_startable(seg);
    if no_line_start(next) {
        if let Some(j) = last_startable(seg) {
            assert(seg.take(j) + seg.skip(j) =~= seg);
        } else {
            assert(seg + Seq::<char>::empty() =~= seg);
        }
    } else {
        assert(seg + Seq::<char>::empty() =~= seg);
    }
}

proof fn lemma_wchar_text(st: WState, ch: char, style: RunStyle, size: Option<u16>)
    requires
        !st.done,
        !st.truncated,
        st.out.len() < MAX_LINES,
    ensures
        ({
            let r = wchar(st, ch, style, size);
            &&& r.out.len() <= MAX_LINES
            &&& r.done ==> r.out.len() == MAX_LINES
            &&& !r.done ==> r.out.len() < MAX_LINES && placed_text(r) == placed_text(st).push(ch)
                && !r.truncated
            &&& r.done ==> r.truncated && is_prefix(out_text(r.out), placed_text(st))
        }),
{
    let r = wchar(st, ch, style, size);
    if overflows(st.units + char_width(ch), font_of(size)) && cross_carry(st, ch) is Some {
        let (keep, carry) = cross_carry(st, ch).unwrap();
        lemma_carry_text(st.cur);
        let out2 = st.out.push((keep, size));
        assert(out2.drop_last() =~= st.out);
        assert(out_text(out2) == out_text(st.out) + runs_text(keep));
        assert(r.out == out2);
        if out2.len() >= MAX_LINES {
            assert(out_text(out2) + runs_text(carry) + st.seg =~= placed_text(st));
            lemma_prefix_concat(out_text(out2), runs_text(carry) + st.seg);
            assert(out_text(out2) + (runs_text(carry) + st.seg) =~= placed_text(st));
        } else {
            assert(placed_text(r) =~= placed_text(st).push(ch));
        }
    } else if overflows(st.units + char_width(ch), font_of(size)) {
        let (head, rest) = split_kinsoku(st.seg, ch);
        lemma_split_kinsoku(st.seg, ch);
        let cur2 = if rest.len() > 0 {
            st.cur.push((rest, style))
        } else {
            st.cur
        };
        assert(runs_text(cur2) == runs_text(st.cur) + rest) by {
            if rest.len() > 0 {
                assert(cur2.drop_last() =~= st.cur);
            } else {
                assert(runs_text(st.cur) + rest =~= runs_text(st.cur));
            }
        }
        let out2 = st.out.push((cur2, size));
        assert(out2.drop_last() =~= st.out);
        assert(out_text(out2) == out_text(st.out) + runs_text(cur2));
        assert(runs_text(Seq::<RunV>::empty()) =~= Seq::<char>::empty());
        assert(st.seg == rest + head);
        if out2.len() >= MAX_LINES {
            assert(r.out == out2);
            assert(r.done && r.truncated);
            lemma_prefix_concat(out_text(out2), head);
            assert(out_text(out2) + head =~= placed_text(st));
            assert(is_prefix(out_text(r.out), placed_text(st)));
        } else {
            assert(r.out == out2);
            assert(r.cur == Seq::<RunV>::empty());
            assert(r.seg == head.push(ch));
            assert(placed_text(r) =~= placed_text(st).push(ch));
        }
    } else {
        assert(placed_text(r) =~= placed_text(st).push(ch));
    }
}

/// Closing punctuation of Chinese and Latin text: full-width ，。、；：！？
/// and the ellipsis, middle dot, the ASCII , . ; : ! ? ) ] } %, the
/// full-width closing brackets and quotes, and the straight and curly
/// closing quotes.
pub open spec fn closing_punctuation(c: char) -> bool {
    c == '，' || c == '。' || c == '、' || c == '；' || c == '：' || c == '！' || c == '？' || c == '…'
        || c == '·' || c == ',' || c == '.' || c == ';' || c == ':' || c == '!' || c == '?' || c
        == ')' || c == ']' || c == '}' || c == '%' || c == '）' || c == '》' || c == '〉' || c == '」'
        || c == '』' || c == '】' || c == '〕' || c == '"' || c == '”' || c == '\'' || c == '’'
}

/// After a width break that does not end the layout, the next physical line
/// does not start with closing punctuation (such as ， or 。), unless the
/// broken line holds nothing but closing punctuation.
pub proof fn lemma_no_closing_punctuation_after_break(
    st: WState,
    ch: char,
    style: RunStyle,
    size: Option<u16>,
)
    requires
        !st.done,
        overflows(st.units + char_width(ch), font_of(size)),
    ensures
        ({
            let r = wchar(st, ch, style, size);
            let t = runs_text(r.cur) + r.seg;
            let line = runs_text(st.cur) + st.seg;
            !r.done ==> t.len() > 0 && (!closing_punctuation(t[0]) || forall|i: int|
                0 <= i < line.len() ==> closing_punctuation(#[trigger] line[i]))
        }),
{
    lemma_break_start(st, ch, style, size);
    let r = wchar(st, ch, style, size);
    let line = runs_text(st.cur) + st.seg;
    assert forall|c: char| #[trigger] no_line_start(c) == closing_punctuation(c) by {}
    if !r.done {
        assert forall|i: int| 0 <= i < line.len() && no_line_start(#[trigger] line[i]) implies closing_punctuation(
            line[i],
        ) by {}
    }
}

/// Kinsoku across runs: after a width break that does not end the layout,
/// the next line starts with a character that may start a line, unless no
/// character of the broken line may start one.
pub proof fn lemma_break_start(st: WState, ch: char, style: RunStyle, size: Option<u16>)
    requires
        !st.done,
        overflows(st.units + char_width(ch), font_of(size)),
    ensures
        ({
            let r = wchar(st, ch, style, size);
            let t = runs_text(r.cur) + r.seg;
            let line = runs_text(st.cur) + st.seg;
            !r.done ==> t.len() > 0 && (!no_line_start(t[0]) || forall|i: int|
                0 <= i < line.len() ==> no_line_start(#[trigger] line[i]))
        }),
{
    let r = wchar(st, ch, style, size);
    let line = runs_text(st.cur) + st.seg;
    lemma_carry_text(st.cur);
    lemma_last_startable(st.seg);
    if !r.done {
        let t = runs_text(r.cur) + r.seg;
        if cross_carry(st, ch) is Some {
            let (keep, carry) = cross_carry(st, ch).unwrap();
            assert(t[0] == runs_text(carry)[0]);
        } else {
            let (head, rest) = split_kinsoku(st.seg, ch);
            assert(runs_text(Seq::<RunV>::empty()) =~= Seq::<char>::empty());
            assert(t =~= head.push(ch));
            if no_line_start(ch) {
                if let Some(j) = last_startable(st.seg) {
                    assert(t[0] == st.seg[j]);
                } else {
                    assert(carry_runs(st.cur) is None);
                    assert forall|i: int| 0 <= i < line.len() implies no_line_start(
                        #[trigger] line[i],
                    ) by {
                        if i < runs_text(st.cur).len() {
                            assert(line[i] == runs_text(st.cur)[i]);
                        } else {
                            assert(line[i] == st.seg[i - runs_text(st.cur).len()]);
                        }
                    }
                }
            }
        }
    }
}

/// A width break finishes a line that fits its capacity whenever the line
/// fitted before the character that caused the break. (A line can only be
/// over capacity when characters carried down under kinsoku overfill it.)
pub proof fn lemma_break_line_fits(st: WState, ch: char, style: RunStyle, size: Option<u16>)
    requires
        !st.done,
        overflows(st.units + char_width(ch), font_of(size)),
        st.units == width(runs_text(st.cur) + st.seg),
        !overflows(st.units, font_of(size)),
    ensures
        ({
            let r = wchar(st, ch, style, size);
            r.out.len() == st.out.len() + 1 && !overflows(
                width(runs_text(r.out.last().0)),
                font_of(size),
            )
        }),
{
    let r = wchar(st, ch, style, size);
    lemma_width_concat(runs_text(st.cur), st.seg);
    lemma_carry_text(st.cur);
    let w: nat;
    if cross_carry(st, ch) is Some {
        let (keep, carry) = cross_carry(st, ch).unwrap();
        assert(r.out.last().0 == keep);
        lemma_width_concat(runs_text(keep), runs_text(carry));
        w = width(runs_text(keep));
    } else {
        let (head, rest) = split_kinsoku(st.seg, ch);
        lemma_split_kinsoku(st.seg, ch);
        let cur2 = if rest.len() > 0 {
            st.cur.push((rest, style))
        } else {
            st.cur
        };
        assert(r.out.last().0 == cur2);
        assert(runs_text(cur2) == runs_text(st.cur) + rest) by {
            if rest.len() > 0 {
                assert(cur2.drop_last() =~= st.cur);
            } else {
                assert(runs_text(st.cur) + rest =~= runs_text(st.cur));
            }
        }
        lemma_width_concat(runs_text(st.cur), rest);
        lemma_width_concat(rest, head);
        w = width(runs_text(cur2));
    }
    assert(w <= st.units);
    let f = font_of(size);
    assert(w * f <= st.units * f) by (nonlinear_arith)
        requires
            w <= st.units,
    ;
}

proof fn lemma_wchars_text(st: WState, text: Seq<char>, style: RunStyle, size: Option<u16>)
    requires
        !st.done,
        !st.truncated,
        st.out.len() < MAX_LINES,
    ensures
        ({
            let r = wchars(st, text, style, size);
            &&& r.out.len() <= MAX_LINES
            &&& r.done ==> r.out.len() == MAX_LINES
            &&& !r.done ==> r.out.len() < MAX_LINES && placed_text(r) == placed_text(st) + text
                && !r.truncated
            &&& r.done ==> r.truncated && is_prefix(out_text(r.out), placed_text(st) + text)
        }),
    decreases text.len(),
{
    if text.len() == 0 {
        assert(placed_text(st) + text =~= placed_text(st));
    } else {
        let m = wchars(st, text.drop_last(), style, size);
        lemma_wchars_text(st, text.drop_last(), style, size);
        assert(placed_text(st) + text.drop_last() + seq![text.last()] =~= placed_text(st) + text);
        if m.done {
            lemma_prefix_extend(
                out_text(m.out),
                placed_text(st) + text.drop_last(),
                seq![text.last()],
            );
        } else {
            lemma_wchar_text(m, text.last(), style, size);
            assert(placed_text(m).push(text.last()) =~= placed_text(st) + text);
            let r = wchars(st, text, style, size);
            if r.done {
                lemma_prefix_extend(out_text(r.out), placed_text(m), seq![text.last()]);
                assert(placed_text(m) + seq![text.last()] =~= placed_text(st) + text);
            }
        }
    }
}

proof fn lemma_wrun_text(st: WState, run: RunV, size: Option<u16>)
    requires
        !st.done,
        !st.truncated,
        st.out.len() < MAX_LINES,
        st.seg.len() == 0,
    ensures
        ({
            let r = wrun(st, run, size);
            &&& r.out.len() <= MAX_LINES
            &&& r.done ==> r.out.len() == MAX_LINES
            &&& !r.done ==> r.out.len() < MAX_LINES && placed_text(r) == placed_text(st) + run.0
                && r.seg.len() == 0 && !r.truncated
            &&& r.done ==> r.truncated && is_prefix(out_text(r.out), placed_text(st) + run.0)
        }),
{
    let s0 = WState { seg: Seq::empty(), ..st };
    assert(placed_text(s0) =~= placed_text(st));
    lemma_wchars_text(s0, run.0, run.1, size);
    let s1 = wchars(s0, run.0, run.1, size);
    if !s1.done && s1.seg.len() > 0 {
        let r = wrun(st, run, size);
        assert(r.cur.drop_last() =~= s1.cur);
        assert(placed_text(r) =~= placed_text(s1));
    }
}

proof fn lemma_wruns_text(st: WState, runs: Seq<RunV>, size: Option<u16>)
    requires
        !st.done,
        !st.truncated,
        st.out.len() < MAX_LINES,
        st.seg.len() == 0,
    ensures
        ({
            let r = wruns(st, runs, size);
            &&& r.out.len() <= MAX_LINES
            &&& r.done ==> r.out.len() == MAX_LINES
            &&& !r.done ==> r.out.len() < MAX_LINES && placed_text(r) == placed_text(st)
                + runs_text(runs) && r.seg.len() == 0 && !r.truncated
            &&& r.done ==> r.truncated && is_prefix(out_text(r.out), placed_text(st) + runs_text(runs))
        }),
    decreases runs.len(),
{
    if runs.len() == 0 {
        assert(placed_text(st) + runs_text(runs) =~= placed_text(st));
    } else {
        let m = wruns(st, runs.drop_last(), size);
        lemma_wruns_text(st, runs.drop_last(), size);
        assert(placed_text(st) + runs_text(runs.drop_last()) + runs.last().0 =~= placed_text(st)
            + runs_text(runs));
        if m.done {
            lemma_prefix_extend(
                out_text(m.out),
                placed_text(st) + runs_text(runs.drop_last()),
                runs.last().0,
            );
        } else {
            lemma_wrun_text(m, runs.last(), size);
            let r = wruns(st, runs, size);
            if r.done {
                assert(placed_text(m) + runs.last().0 =~= placed_text(st) + runs_text(runs));
            }
        }
    }
}

proof fn lemma_wline_text(st: WState, runs: Seq<RunV>, is_last: bool)
    requires
        !st.done,
        !st.truncated,
        st.out.len() < MAX_LINES,
    ensures
        ({
            let r = wline(st, runs, is_last);
            &&& r.out.len() <= MAX_LINES
            &&& r.done ==> r.out.len() == MAX_LINES
            &&& !r.done ==> r.out.len() < MAX_LINES && !r.truncated
            &&& !r.truncated ==> out_text(r.out) == out_text(st.out) + runs_text(runs)
            &&& r.done && !r.truncated ==> is_last
            &&& r.truncated ==> is_prefix(out_text(r.out), out_text(st.out) + runs_text(runs))
        }),
{
    let size = first_size(runs);
    let s0 = WState { cur: Seq::empty(), seg: Seq::empty(), units: 0, ..st };
    assert(runs_text(Seq::<RunV>::empty()) =~= Seq::<char>::empty());
    assert(placed_text(s0) =~= out_text(st.out));
    lemma_wruns_text(s0, runs, size);
    let s1 = wruns(s0, runs, size);
    if !s1.done {
        let r = wline(st, runs, is_last);
        assert(r.out.drop_last() =~= s1.out);
        assert(placed_text(s1) =~= out_text(s1.out) + runs_text(s1.cur));
        assert(out_text(r.out) == out_text(st.out) + runs_text(runs));
        assert((out_text(st.out) + runs_text(runs)).take(out_text(r.out).len() as int) =~= out_text(
            r.out,
        ));
    }
}

proof fn lemma_wlines_text(lines: Seq<Seq<RunV>>, k: nat)
    requires
        k <= lines.len(),
    ensures
        ({
            let r = wlines(lines, k);
            &&& r.out.len() <= MAX_LINES
            &&& r.done ==> r.out.len() == MAX_LINES
            &&& !r.done ==> r.out.len() < MAX_LINES && !r.truncated
            &&& !r.truncated ==> out_text(r.out) == lines_text(lines.take(k as int))
            &&& r.done && !r.truncated ==> k == lines.len()
            &&& r.truncated ==> is_prefix(out_text(r.out), lines_text(lines.take(k as int)))
        }),
    decreases k,
{
    if k == 0 {
        assert(lines.take(0) =~= Seq::<Seq<RunV>>::empty());
    } else {
        let m = wlines(lines, (k - 1) as nat);
        lemma_wlines_text(lines, (k - 1) as nat);
        assert(lines.take(k as int).drop_last() =~= lines.take(k - 1));
        assert(lines.take(k as int).last() == lines[k - 1]);
        if m.done {
            if m.truncated {
                lemma_prefix_extend(
                    out_text(m.out),
                    lines_text(lines.take(k - 1)),
                    runs_text(lines[k - 1]),
                );
            }
        } else {
            lemma_wline_text(m, lines[k - 1], k == lines.len());
        }
    }
}

/// Wrapping only breaks lines and caps them: there are at most `MAX_LINES`
/// physical lines; when nothing is cut their text, in order, is exactly the
/// text of the logical lines; when text is cut, what is kept is a prefix of
/// it and the last line ends in `…`.
pub proof fn lemma_wrap_keeps_text(lines: Seq<Seq<RunV>>)
    ensures
        wrap(lines).len() <= MAX_LINES,
        !wrap_truncated(lines) ==> out_text(wrap(lines)) == lines_text(lines),
        wrap_truncated(lines) ==> wrap(lines).len() > 0 && is_prefix(
            out_text(wrap(lines)).drop_last(),
            lines_text(lines),
        ) && out_text(wrap(lines)).last() == '…',
{
    lemma_wlines_text(lines, lines.len());
    assert(lines.take(lines.len() as int) =~= lines);
    let st = wlines(lines, lines.len());
    if st.truncated {
        let w = wrap(lines);
        let last = st.out.last();
        let runs2 = last.0.push((seq!['…'], ellipsis_style(last.0)));
        assert(w.drop_last() =~= st.out.drop_last());
        assert(runs2.drop_last() =~= last.0);
        assert(w.last() == (runs2, last.1));
        assert(runs_text(runs2) == runs_text(last.0) + seq!['…']);
        assert(out_text(w) == out_text(w.drop_last()) + runs_text(runs2));
        assert(out_text(st.out) == out_text(st.out.drop_last()) + runs_text(last.0));
        assert(out_text(w) =~= out_text(st.out) + seq!['…']);
        assert(out_text(w).drop_last() =~= out_text(st.out));
    }
}
} // verus!
