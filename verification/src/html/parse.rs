//! Tags and entities: the HTML subset into styled logical lines (before
//! wrapping). `<b>`/`<strong>` set bold, `<font>`/`<span>` set colour and
//! size, `<br>` and block tags break lines, entities are decoded; every other
//! tag is dropped and its inner text kept.
use vstd::prelude::*;

use crate::html::attr::{color_attr, Rgb, parse_color_attr, parse_size_attr, size_attr, sub_chars};
use crate::html::entity::{entity_at, read_entity};
use crate::html::wrap::size_ok;
use crate::html::{line_view, lines_view, RunStyle, TextRun};
use crate::text::{
    chars_eq, is_alpha, is_ascii_alphabetic, is_ascii_digit, is_digit, lemma_prefix_len, lemma_prefix_len_bound, lower,
    lower_seq, prefix_len, to_ascii_lowercase,
};

verus! {

/// A run in the abstract: its text and style.
pub type RunV = (Seq<char>, RunStyle);

/// State of the tag scanner.
pub struct PState {
    /// Logical lines so far; the last one is being filled.
    pub lines: Seq<Seq<RunV>>,
    /// Depth of open bold tags.
    pub bold: nat,
    /// Colour in force for each open `<font>`/`<span>` (bottom: none).
    pub colors: Seq<Option<Rgb>>,
    /// Size in force for each open `<font>`/`<span>` (bottom: none).
    pub sizes: Seq<Option<u16>>,
    /// Text read since the last style change.
    pub text: Seq<char>,
}

pub open spec fn init_state() -> PState {
    PState {
        lines: seq![Seq::<RunV>::empty()],
        bold: 0,
        colors: seq![None],
        sizes: seq![None],
        text: Seq::empty(),
    }
}

pub open spec fn top<T>(s: Seq<Option<T>>) -> Option<T> {
    if s.len() > 0 {
        s.last()
    } else {
        None
    }
}

pub open spec fn or_else<T>(a: Option<T>, b: Option<T>) -> Option<T> {
    if a is Some {
        a
    } else {
        b
    }
}

/// The style in force: the top of each stack.
pub open spec fn cur_style(st: PState) -> RunStyle {
    RunStyle { bold: st.bold > 0, color: top(st.colors), size: top(st.sizes) }
}

/// Adds `text` to the last line, merged into its last run when the styles
/// are the same.
pub open spec fn append_run(lines: Seq<Seq<RunV>>, text: Seq<char>, style: RunStyle) -> Seq<
    Seq<RunV>,
> {
    let line = lines.last();
    if line.len() > 0 && line.last().1 == style {
        lines.update(
            lines.len() - 1,
            line.update(line.len() - 1, (line.last().0 + text, style)),
        )
    } else {
        lines.update(lines.len() - 1, line.push((text, style)))
    }
}

/// Moves the pending text, if any, into the last line.
pub open spec fn flush(st: PState) -> PState {
    if st.text.len() == 0 {
        st
    } else {
        PState { lines: append_run(st.lines, st.text, cur_style(st)), text: Seq::empty(), ..st }
    }
}

pub open spec fn pop_or_reset<T>(s: Seq<Option<T>>) -> Seq<Option<T>> {
    if s.len() <= 1 {
        seq![None]
    } else {
        s.drop_last()
    }
}

pub open spec fn is_bold_tag(name: Seq<char>) -> bool {
    name == seq!['b'] || name == seq!['s', 't', 'r', 'o', 'n', 'g']
}

pub open spec fn is_font_tag(name: Seq<char>) -> bool {
    name == seq!['f', 'o', 'n', 't'] || name == seq!['s', 'p', 'a', 'n']
}

pub open spec fn is_br_tag(name: Seq<char>) -> bool {
    name == seq!['b', 'r']
}

pub open spec fn is_block_tag(name: Seq<char>) -> bool {
    name == seq!['p'] || name == seq!['d', 'i', 'v'] || name == seq!['l', 'i'] || name == seq![
        't',
        'r',
    ] || name == seq!['h', '1'] || name == seq!['h', '2'] || name == seq!['h', '3'] || name
        == seq!['h', '4'] || name == seq!['h', '5'] || name == seq!['h', '6']
}

/// What a tag does to the scanner state.
pub open spec fn apply_tag(st: PState, name: Seq<char>, attrs: Seq<char>, closing: bool) -> PState {
    if is_bold_tag(name) {
        let s1 = flush(st);
        PState {
            bold: if closing {
                if s1.bold > 0 {
                    (s1.bold - 1) as nat
                } else {
                    0
                }
            } else {
                s1.bold + 1
            },
            ..s1
        }
    } else if is_font_tag(name) {
        let s1 = flush(st);
        if closing {
            PState { colors: pop_or_reset(s1.colors), sizes: pop_or_reset(s1.sizes), ..s1 }
        } else {
            PState {
                colors: s1.colors.push(or_else(color_attr(attrs), top(s1.colors))),
                sizes: s1.sizes.push(or_else(size_attr(attrs), top(s1.sizes))),
                ..s1
            }
        }
    } else if is_br_tag(name) {
        let s1 = flush(st);
        PState { lines: s1.lines.push(Seq::empty()), ..s1 }
    } else if is_block_tag(name) && !closing {
        if st.lines.last().len() == 0 && st.text.len() == 0 {
            st
        } else {
            let s1 = flush(st);
            PState { lines: s1.lines.push(Seq::empty()), ..s1 }
        }
    } else {
        st
    }
}

/// Characters of a tag name after its first letter: ASCII letters and digits
/// (`h1` .. `h6`).
pub open spec fn is_name_char(c: char) -> bool {
    is_alpha(c) || is_digit(c)
}

/// Length of the tag name at the start of `s`: a letter, then letters and
/// digits; 0 when `s` does not start with a letter.
pub open spec fn name_len(s: Seq<char>) -> nat {
    if s.len() > 0 && is_alpha(s[0]) {
        prefix_len(s, |c: char| is_name_char(c))
    } else {
        0
    }
}

/// The colour and size in force for text that follows an opening
/// `<font>`/`<span>` are those its attributes set, else those of the
/// enclosing tags; boldness does not change; and its closing tag brings back
/// the style that was in force before it.
pub proof fn lemma_font_tag_inherits(
    st: PState,
    name: Seq<char>,
    attrs: Seq<char>,
    close_attrs: Seq<char>,
)
    requires
        name == seq!['f', 'o', 'n', 't'] || name == seq!['s', 'p', 'a', 'n'],
        st.colors.len() >= 1,
        st.sizes.len() >= 1,
    ensures
        ({
            let opened = apply_tag(st, name, attrs, false);
            &&& color_attr(attrs) is None ==> cur_style(opened).color == cur_style(st).color
            &&& color_attr(attrs) matches Some(c) ==> cur_style(opened).color == Some(c)
            &&& size_attr(attrs) is None ==> cur_style(opened).size == cur_style(st).size
            &&& size_attr(attrs) matches Some(v) ==> cur_style(opened).size == Some(v)
            &&& cur_style(opened).bold == cur_style(st).bold
            &&& cur_style(apply_tag(opened, name, close_attrs, true)) == cur_style(st)
        }),
{
    let s1 = flush(st);
    let opened = apply_tag(st, name, attrs, false);
    assert(opened.colors.drop_last() =~= st.colors);
    assert(opened.sizes.drop_last() =~= st.sizes);
}

/// Text after an opening `<b>`/`<strong>` is bold, colour and size
/// unchanged; its closing tag brings back the style that was in force
/// before it.
pub proof fn lemma_bold_tag(st: PState, name: Seq<char>, attrs: Seq<char>, close_attrs: Seq<char>)
    requires
        name == seq!['b'] || name == seq!['s', 't', 'r', 'o', 'n', 'g'],
    ensures
        ({
            let opened = apply_tag(st, name, attrs, false);
            &&& cur_style(opened).bold
            &&& cur_style(opened).color == cur_style(st).color
            &&& cur_style(opened).size == cur_style(st).size
            &&& cur_style(apply_tag(opened, name, close_attrs, true)) == cur_style(st)
        }),
{
}

/// `<br>` always ends the current line: what was read goes to it and a new,
/// empty line begins, with the style unchanged.
pub proof fn lemma_br_starts_line(st: PState, attrs: Seq<char>, closing: bool)
    requires
        st.lines.len() >= 1,
    ensures
        ({
            let r = apply_tag(st, seq!['b', 'r'], attrs, closing);
            &&& r.lines.len() == st.lines.len() + 1
            &&& r.lines.last() == Seq::<RunV>::empty()
            &&& r.lines.drop_last() == flush(st).lines
            &&& r.text.len() == 0
            &&& cur_style(r) == cur_style(st)
        }),
{
    let name = seq!['b', 'r'];
    assert(!is_bold_tag(name)) by {
        if name == seq!['s', 't', 'r', 'o', 'n', 'g'] {
            assert(name.len() == 6);
        }
        if name == seq!['b'] {
            assert(name.len() == 1);
        }
    }
    assert(!is_font_tag(name)) by {
        if name == seq!['f', 'o', 'n', 't'] || name == seq!['s', 'p', 'a', 'n'] {
            assert(name.len() == 4);
        }
    }
    let r = apply_tag(st, name, attrs, closing);
    assert(r.lines.drop_last() =~= flush(st).lines);
}

/// An opening block tag (`p`, `div`, `li`, `tr`, `h1` .. `h6`) after text
/// on the current line ends that line: the text read so far goes to it and
/// a new, empty line begins, with the style unchanged.
pub proof fn lemma_block_tag_starts_line(st: PState, name: Seq<char>, attrs: Seq<char>)
    requires
        name == seq!['p'] || name == seq!['d', 'i', 'v'] || name == seq!['l', 'i'] || name
            == seq!['t', 'r'] || name == seq!['h', '1'] || name == seq!['h', '2'] || name
            == seq!['h', '3'] || name == seq!['h', '4'] || name == seq!['h', '5'] || name
            == seq!['h', '6'],
        st.lines.len() >= 1,
        st.lines.last().len() > 0 || st.text.len() > 0,
    ensures
        ({
            let r = apply_tag(st, name, attrs, false);
            &&& r.lines.len() == st.lines.len() + 1
            &&& r.lines.last() == Seq::<RunV>::empty()
            &&& r.lines.drop_last() == flush(st).lines
            &&& r.text.len() == 0
            &&& cur_style(r) == cur_style(st)
        }),
{
    let r = apply_tag(st, name, attrs, false);
    let s1 = flush(st);
    assert(name.len() > 0 && (name[0] == 'p' || name[0] == 'd' || name[0] == 'l' || name[0] == 't'
        || name[0] == 'h'));
    assert(!is_bold_tag(name) && !is_font_tag(name) && !is_br_tag(name)) by {
        if name == seq!['b'] || name == seq!['s', 't', 'r', 'o', 'n', 'g'] || name == seq![
            'f',
            'o',
            'n',
            't',
        ] || name == seq!['s', 'p', 'a', 'n'] || name == seq!['b', 'r'] {
            assert(name[0] == 'b' || name[0] == 's' || name[0] == 'f');
        }
    }
    assert(is_block_tag(name));
    assert(s1.lines.len() == st.lines.len());
    assert(r.lines.drop_last() =~= s1.lines);
}

/// A tag read at `from` (a `<`): lower-cased name, attribute text, whether
/// it closes, and the index after it.
pub open spec fn tag_at(chars: Seq<char>, from: int) -> (Seq<char>, Seq<char>, bool, int) {
    let j0 = from + 1;
    let closing = j0 < chars.len() && chars[j0] == '/';
    let j1 = if closing {
        j0 + 1
    } else {
        j0
    };
    let nl = name_len(chars.skip(j1)) as int;
    let j2 = j1 + nl;
    let al = prefix_len(chars.skip(j2), |c: char| c != '>') as int;
    let j3 = j2 + al;
    (
        lower_seq(chars.subrange(j1, j2)),
        chars.subrange(j2, j3),
        closing,
        if j3 < chars.len() {
            j3 + 1
        } else {
            j3
        },
    )
}

pub open spec fn push_text(st: PState, c: char) -> PState {
    PState { text: st.text.push(c), ..st }
}

/// One scanner step at index `i`: the next index and the new state.
pub open spec fn step(chars: Seq<char>, i: int, st: PState) -> (int, PState) {
    let c = chars[i];
    if c == '<' {
        let (name, attrs, closing, next) = tag_at(chars, i);
        if name.len() == 0 {
            (i + 1, push_text(st, '<'))
        } else {
            (next, apply_tag(st, name, attrs, closing))
        }
    } else if c == '&' {
        let (decoded, next) = entity_at(chars, i);
        match decoded {
            Some(ch) => (next, push_text(st, ch)),
            None => (i + 1, push_text(st, '&')),
        }
    } else if c == '\n' || c == '\r' {
        (i + 1, push_text(st, ' '))
    } else {
        (i + 1, push_text(st, c))
    }
}

/// The scanner state after reading `chars` from index `i` on.
pub open spec fn scan(chars: Seq<char>, i: int, st: PState) -> PState
    decreases chars.len() - i,
{
    if i < 0 || i >= chars.len() {
        st
    } else {
        let (next, s2) = step(chars, i, st);
        if i < next <= chars.len() {
            scan(chars, next, s2)
        } else {
            st
        }
    }
}

/// Drops trailing empty lines, keeping at least one line.
pub open spec fn trim_empty_lines(lines: Seq<Seq<RunV>>) -> Seq<Seq<RunV>>
    decreases lines.len(),
{
    if lines.len() > 1 && lines.last().len() == 0 {
        trim_empty_lines(lines.drop_last())
    } else {
        lines
    }
}

/// The logical lines of an HTML body.
pub open spec fn logical_lines(html: Seq<char>) -> Seq<Seq<RunV>> {
    trim_empty_lines(flush(scan(html, 0, init_state())).lines)
}


/// The tag scanner's state.
pub struct Scanner {
    pub lines: Vec<Vec<TextRun>>,
    pub bold: usize,
    pub colors: Vec<Option<Rgb>>,
    pub sizes: Vec<Option<u16>>,
    pub text: Vec<char>,
}

impl Scanner {
    pub open spec fn state(&self) -> PState {
        PState {
            lines: lines_view(self.lines@),
            bold: self.bold as nat,
            colors: self.colors@,
            sizes: self.sizes@,
            text: self.text@,
        }
    }

    pub open spec fn wf(&self) -> bool {
        &&& self.lines@.len() >= 1
        &&& self.colors@.len() >= 1
        &&& self.sizes@.len() >= 1
    }

    pub fn new() -> (r: Scanner)
        ensures
            r.wf(),
            r.state() == init_state(),
    {
        let mut lines: Vec<Vec<TextRun>> = Vec::new();
        lines.push(Vec::new());
        let mut colors: Vec<Option<Rgb>> = Vec::new();
        colors.push(None);
        let mut sizes: Vec<Option<u16>> = Vec::new();
        sizes.push(None);
        let r = Scanner { lines, bold: 0, colors, sizes, text: Vec::new() };
        assert(r.state().lines =~= init_state().lines) by {
            assert(line_view(r.lines@[0]@) =~= Seq::<RunV>::empty());
        }
        assert(r.state().colors =~= init_state().colors);
        assert(r.state().sizes =~= init_state().sizes);
        r
    }

    /// The style in force.
    pub fn style(&self) -> (r: RunStyle)
        requires
            self.wf(),
        ensures
            r == cur_style(self.state()),
    {
        RunStyle {
            bold: self.bold > 0,
            color: self.colors[self.colors.len() - 1],
            size: self.sizes[self.sizes.len() - 1],
        }
    }

    /// Moves the pending text into the last line.
    pub fn flush(&mut self)
        requires
            old(self).wf(),
        ensures
            final(self).wf(),
            final(self).state() == flush(old(self).state()),
    {
        if self.text.len() == 0 {
            return;
        }
        let style = self.style();
        let ghost old_lines = self.lines@;
        let ghost old_text = self.text@;
        let mut line = self.lines.pop().unwrap();
        let ghost old_line = line@;
        let mut text: Vec<char> = Vec::new();
        std::mem::swap(&mut text, &mut self.text);
        let n = line.len();
        if n > 0 && line[n - 1].style == style {
            let mut last = line.pop().unwrap();
            last.text.append(&mut text);
            line.push(last);
            assert(line_view(line@) =~= line_view(old_line).update(
                n - 1,
                (line_view(old_line).last().0 + old_text, style),
            ));
        } else {
            line.push(TextRun { text, style });
            assert(line_view(line@) =~= line_view(old_line).push((old_text, style)));
        }
        self.lines.push(line);
        assert(lines_view(self.lines@) =~= lines_view(old_lines).update(
            old_lines.len() - 1,
            line_view(line@),
        ));
        assert(self.state().text =~= Seq::<char>::empty());
    }
}


proof fn lemma_tag_at_bounds(chars: Seq<char>, from: int)
    requires
        0 <= from < chars.len(),
    ensures
        from < tag_at(chars, from).3 <= chars.len(),
{
    let j0 = from + 1;
    let closing = j0 < chars.len() && chars[j0] == '/';
    let j1 = if closing {
        j0 + 1
    } else {
        j0
    };
    lemma_prefix_len_bound(chars.skip(j1), |c: char| is_name_char(c));
    let nl = name_len(chars.skip(j1)) as int;
    lemma_prefix_len_bound(chars.skip(j1 + nl), |c: char| c != '>');
}

proof fn lemma_entity_at_bounds(chars: Seq<char>, from: int)
    requires
        0 <= from < chars.len(),
    ensures
        entity_at(chars, from).0 is Some ==> from < entity_at(chars, from).1 <= chars.len(),
{
}

/// Reads the tag that starts at `from` (a `<`).
pub fn read_tag(chars: &Vec<char>, from: usize) -> (r: (Vec<char>, Vec<char>, bool, usize))
    requires
        from < chars@.len(),
    ensures
        (r.0@, r.1@, r.2, r.3 as int) == tag_at(chars@, from as int),
{
    let n = chars.len();
    let mut j = from + 1;
    let closing = j < n && chars[j] == '/';
    if closing {
        j += 1;
    }
    let j1 = j;
    let mut name: Vec<char> = Vec::new();
    let starts = j < n && is_ascii_alphabetic(chars[j]);
    while starts && j < n && (is_ascii_alphabetic(chars[j]) || is_ascii_digit(chars[j]))
        invariant
            n == chars@.len(),
            j1 <= j <= n,
            starts == (j1 < n && is_alpha(chars@[j1 as int])),
            !starts ==> j == j1,
            forall|k: int| j1 <= k < j ==> is_name_char(#[trigger] chars@[k]),
            name@ == lower_seq(chars@.subrange(j1 as int, j as int)),
        decreases n - j,
    {
        name.push(to_ascii_lowercase(chars[j]));
        j += 1;
        assert(lower_seq(chars@.subrange(j1 as int, j as int)) =~= lower_seq(
            chars@.subrange(j1 as int, j - 1),
        ).push(lower(chars@[j - 1])));
    }
    let j2 = j;
    proof {
        let t = chars@.skip(j1 as int);
        if starts {
            assert forall|k: int| 0 <= k < j2 - j1 implies (|c: char| is_name_char(c))(
                #[trigger] t[k],
            ) by {
                assert(t[k] == chars@[k + j1]);
            }
            if j2 < n {
                assert(t[j2 - j1] == chars@[j2 as int]);
            }
            assert(t[0] == chars@[j1 as int]);
            lemma_prefix_len(t, |c: char| is_name_char(c), j2 - j1);
        } else {
            if j1 < n {
                assert(t[0] == chars@[j1 as int]);
            }
            assert(chars@.subrange(j1 as int, j2 as int) =~= Seq::<char>::empty());
        }
    }
    while j < n && chars[j] != '>'
        invariant
            n == chars@.len(),
            j2 <= j <= n,
            forall|k: int| j2 <= k < j ==> #[trigger] chars@[k] != '>',
        decreases n - j,
    {
        j += 1;
    }
    let j3 = j;
    proof {
        let t = chars@.skip(j2 as int);
        assert forall|k: int| 0 <= k < j3 - j2 implies (|c: char| c != '>')(#[trigger] t[k]) by {
            assert(t[k] == chars@[k + j2]);
        }
        if j3 < n {
            assert(t[j3 - j2] == chars@[j3 as int]);
        }
        lemma_prefix_len(t, |c: char| c != '>', j3 - j2);
    }
    let attrs = sub_chars(chars, j2, j3);
    let next = if j3 < n {
        j3 + 1
    } else {
        j3
    };
    (name, attrs, closing, next)
}

fn bold_tag(n: &[char]) -> (r: bool)
    ensures
        r == is_bold_tag(n@),
{
    let a: [char; 1] = ['b'];
    let b: [char; 6] = ['s', 't', 'r', 'o', 'n', 'g'];
    assert(a@ =~= seq!['b']);
    assert(b@ =~= seq!['s', 't', 'r', 'o', 'n', 'g']);
    chars_eq(n, &a) || chars_eq(n, &b)
}

fn font_tag(n: &[char]) -> (r: bool)
    ensures
        r == is_font_tag(n@),
{
    let a: [char; 4] = ['f', 'o', 'n', 't'];
    let b: [char; 4] = ['s', 'p', 'a', 'n'];
    assert(a@ =~= seq!['f', 'o', 'n', 't']);
    assert(b@ =~= seq!['s', 'p', 'a', 'n']);
    chars_eq(n, &a) || chars_eq(n, &b)
}

fn br_tag(n: &[char]) -> (r: bool)
    ensures
        r == is_br_tag(n@),
{
    let a: [char; 2] = ['b', 'r'];
    assert(a@ =~= seq!['b', 'r']);
    chars_eq(n, &a)
}

fn block_tag(n: &[char]) -> (r: bool)
    ensures
        r == is_block_tag(n@),
{
    let p: [char; 1] = ['p'];
    let div: [char; 3] = ['d', 'i', 'v'];
    let li: [char; 2] = ['l', 'i'];
    let tr: [char; 2] = ['t', 'r'];
    let h1: [char; 2] = ['h', '1'];
    let h2: [char; 2] = ['h', '2'];
    let h3: [char; 2] = ['h', '3'];
    let h4: [char; 2] = ['h', '4'];
    let h5: [char; 2] = ['h', '5'];
    let h6: [char; 2] = ['h', '6'];
    assert(p@ =~= seq!['p']);
    assert(div@ =~= seq!['d', 'i', 'v']);
    assert(li@ =~= seq!['l', 'i']);
    assert(tr@ =~= seq!['t', 'r']);
    assert(h1@ =~= seq!['h', '1']);
    assert(h2@ =~= seq!['h', '2']);
    assert(h3@ =~= seq!['h', '3']);
    assert(h4@ =~= seq!['h', '4']);
    assert(h5@ =~= seq!['h', '5']);
    assert(h6@ =~= seq!['h', '6']);
    chars_eq(n, &p) || chars_eq(n, &div) || chars_eq(n, &li) || chars_eq(n, &tr) || chars_eq(
        n,
        &h1,
    ) || chars_eq(n, &h2) || chars_eq(n, &h3) || chars_eq(n, &h4) || chars_eq(n, &h5) || chars_eq(
        n,
        &h6,
    )
}

impl Scanner {
    /// Applies a tag's effect.
    pub fn apply_tag(&mut self, name: &Vec<char>, attrs: &Vec<char>, closing: bool)
        requires
            old(self).wf(),
            old(self).bold < usize::MAX,
        ensures
            final(self).wf(),
            final(self).state() == apply_tag(old(self).state(), name@, attrs@, closing),
            final(self).bold <= old(self).bold + 1,
    {
        let ghost st0 = self.state();
        let n = name.as_slice();
        if bold_tag(n) {
            self.flush();
            if closing {
                if self.bold > 0 {
                    self.bold -= 1;
                }
            } else {
                self.bold += 1;
            }
            assert(self.state() == apply_tag(st0, name@, attrs@, closing));
        } else if font_tag(n) {
            self.flush();
            if closing {
                self.colors.pop();
                if self.colors.len() == 0 {
                    self.colors.push(None);
                }
                self.sizes.pop();
                if self.sizes.len() == 0 {
                    self.sizes.push(None);
                }
                assert(self.colors@ =~= pop_or_reset(flush(st0).colors));
                assert(self.sizes@ =~= pop_or_reset(flush(st0).sizes));
                assert(self.state() == apply_tag(st0, name@, attrs@, closing));
            } else {
                let inherited_color = self.colors[self.colors.len() - 1];
                let inherited_size = self.sizes[self.sizes.len() - 1];
                let color = match parse_color_attr(attrs) {
                    Some(c) => Some(c),
                    None => inherited_color,
                };
                let size = match parse_size_attr(attrs) {
                    Some(z) => Some(z),
                    None => inherited_size,
                };
                self.colors.push(color);
                self.sizes.push(size);
                assert(self.state() == apply_tag(st0, name@, attrs@, closing));
            }
        } else if br_tag(n) {
            self.flush();
            let ghost before = self.lines@;
            self.lines.push(Vec::new());
            assert(lines_view(self.lines@) =~= lines_view(before).push(Seq::empty())) by {
                assert(line_view(self.lines@.last()@) =~= Seq::<RunV>::empty());
            }
        } else if !closing && block_tag(n) {
            let last_empty = self.lines[self.lines.len() - 1].len() == 0;
            if !last_empty || self.text.len() > 0 {
                self.flush();
                let ghost before = self.lines@;
                self.lines.push(Vec::new());
                assert(lines_view(self.lines@) =~= lines_view(before).push(Seq::empty())) by {
                    assert(line_view(self.lines@.last()@) =~= Seq::<RunV>::empty());
                }
            }
        }
    }
}

/// Scans an HTML body into logical lines.
pub fn scan_lines(html: &Vec<char>) -> (r: Vec<Vec<TextRun>>)
    ensures
        lines_view(r@) == logical_lines(html@),
{
    let n = html.len();
    let mut sc = Scanner::new();
    let mut i: usize = 0;
    while i < n
        invariant
            n == html@.len(),
            i <= n,
            sc.wf(),
            sc.bold <= i,
            scan(html@, i as int, sc.state()) == scan(html@, 0, init_state()),
        decreases n - i,
    {
        let ghost st = sc.state();
        let ghost at = i;
        let c = html[i];
        if c == '<' {
            let (name, attrs, closing, next) = read_tag(html, i);
            proof {
                lemma_tag_at_bounds(html@, i as int);
            }
            if name.len() == 0 {
                sc.text.push('<');
                i += 1;
            } else {
                sc.apply_tag(&name, &attrs, closing);
                i = next;
            }
        } else if c == '&' {
            let (decoded, next) = read_entity(html, i);
            proof {
                lemma_entity_at_bounds(html@, i as int);
            }
            match decoded {
                Some(ch) => {
                    sc.text.push(ch);
                    i = next;
                },
                None => {
                    sc.text.push('&');
                    i += 1;
                },
            }
        } else if c == '\n' || c == '\r' {
            sc.text.push(' ');
            i += 1;
        } else {
            sc.text.push(c);
            i += 1;
        }
        assert(step(html@, at as int, st) == (i as int, sc.state()));
    }
    sc.flush();
    let mut lines = sc.lines;
    while lines.len() > 1 && lines[lines.len() - 1].len() == 0
        invariant
            lines@.len() >= 1,
            trim_empty_lines(lines_view(lines@)) == logical_lines(html@),
        decreases lines.len(),
    {
        let ghost before = lines@;
        lines.pop();
        assert(lines_view(lines@) =~= lines_view(before).drop_last());
    }
    lines
}

/// A run holds text, and any size it sets is allowed.
pub open spec fn run_ok(r: RunV) -> bool {
    r.0.len() > 0 && size_ok(r.1.size)
}

/// Every run of a line is well formed and neighbouring runs differ in style.
pub open spec fn line_ok(l: Seq<RunV>) -> bool {
    &&& forall|k: int| 0 <= k < l.len() ==> run_ok(#[trigger] l[k])
    &&& forall|k: int| 0 <= k < l.len() - 1 ==> #[trigger] l[k].1 != l[k + 1].1
}

pub open spec fn lines_ok(ls: Seq<Seq<RunV>>) -> bool {
    forall|j: int| 0 <= j < ls.len() ==> line_ok(#[trigger] ls[j])
}

pub open spec fn state_ok(st: PState) -> bool {
    &&& st.lines.len() >= 1
    &&& lines_ok(st.lines)
    &&& forall|k: int| 0 <= k < st.sizes.len() ==> size_ok(#[trigger] st.sizes[k])
}

proof fn lemma_top_size_ok(sizes: Seq<Option<u16>>)
    requires
        forall|k: int| 0 <= k < sizes.len() ==> size_ok(#[trigger] sizes[k]),
    ensures
        size_ok(top(sizes)),
{
    if sizes.len() > 0 {
        assert(size_ok(sizes[sizes.len() - 1]));
    }
}

proof fn lemma_flush_ok(st: PState)
    requires
        state_ok(st),
    ensures
        state_ok(flush(st)),
        flush(st).lines.len() == st.lines.len(),
        flush(st).sizes == st.sizes,
{
    if st.text.len() > 0 {
        lemma_top_size_ok(st.sizes);
        let style = cur_style(st);
        let line = st.lines.last();
        assert(line_ok(line));
        let lines2 = append_run(st.lines, st.text, style);
        let line2 = lines2.last();
        if line.len() > 0 && line.last().1 == style {
            assert(line2 == line.update(line.len() - 1, (line.last().0 + st.text, style)));
            assert(run_ok(line[line.len() - 1]));
            assert forall|k: int| 0 <= k < line2.len() implies run_ok(#[trigger] line2[k]) by {
                if k < line.len() - 1 {
                    assert(line2[k] == line[k]);
                }
            }
            assert forall|k: int| 0 <= k < line2.len() - 1 implies #[trigger] line2[k].1 != line2[k
                + 1].1 by {
                assert(line[k].1 != line[k + 1].1);
            }
        } else {
            assert(line2 == line.push((st.text, style)));
            assert forall|k: int| 0 <= k < line2.len() implies run_ok(#[trigger] line2[k]) by {
                if k < line.len() {
                    assert(line2[k] == line[k]);
                }
            }
            assert forall|k: int| 0 <= k < line2.len() - 1 implies #[trigger] line2[k].1 != line2[k
                + 1].1 by {
                if k < line.len() - 1 {
                    assert(line[k].1 != line[k + 1].1);
                }
            }
        }
        assert(line_ok(line2));
        assert forall|j: int| 0 <= j < lines2.len() implies line_ok(#[trigger] lines2[j]) by {
            if j < lines2.len() - 1 {
                assert(lines2[j] == st.lines[j]);
            }
        }
    }
}

proof fn lemma_push_empty_line_ok(lines: Seq<Seq<RunV>>)
    requires
        lines_ok(lines),
    ensures
        lines_ok(lines.push(Seq::empty())),
{
    let l2 = lines.push(Seq::<RunV>::empty());
    assert forall|j: int| 0 <= j < l2.len() implies line_ok(#[trigger] l2[j]) by {
        if j < lines.len() {
            assert(l2[j] == lines[j]);
        }
    }
}

proof fn lemma_size_attr_ok(attrs: Seq<char>)
    ensures
        size_ok(size_attr(attrs)),
{
}

proof fn lemma_apply_tag_ok(st: PState, name: Seq<char>, attrs: Seq<char>, closing: bool)
    requires
        state_ok(st),
    ensures
        state_ok(apply_tag(st, name, attrs, closing)),
{
    lemma_flush_ok(st);
    let s1 = flush(st);
    if is_bold_tag(name) {
    } else if is_font_tag(name) {
        if closing {
            let z = pop_or_reset(s1.sizes);
            assert forall|k: int| 0 <= k < z.len() implies size_ok(#[trigger] z[k]) by {
                if s1.sizes.len() > 1 {
                    assert(z[k] == s1.sizes[k]);
                }
            }
        } else {
            lemma_size_attr_ok(attrs);
            lemma_top_size_ok(s1.sizes);
            let z = s1.sizes.push(or_else(size_attr(attrs), top(s1.sizes)));
            assert forall|k: int| 0 <= k < z.len() implies size_ok(#[trigger] z[k]) by {
                if k < s1.sizes.len() {
                    assert(z[k] == s1.sizes[k]);
                }
            }
        }
    } else if is_br_tag(name) {
        lemma_push_empty_line_ok(s1.lines);
    } else if is_block_tag(name) && !closing {
        lemma_push_empty_line_ok(s1.lines);
    }
}

proof fn lemma_scan_ok(chars: Seq<char>, i: int, st: PState)
    requires
        state_ok(st),
    ensures
        state_ok(scan(chars, i, st)),
    decreases chars.len() - i,
{
    if 0 <= i < chars.len() {
        let (next, s2) = step(chars, i, st);
        let c = chars[i];
        if c == '<' {
            let (name, attrs, closing, nx) = tag_at(chars, i);
            if name.len() != 0 {
                lemma_apply_tag_ok(st, name, attrs, closing);
            }
        }
        assert(state_ok(s2));
        if i < next <= chars.len() {
            lemma_scan_ok(chars, next, s2);
        }
    }
}

proof fn lemma_trim_empty_lines_ok(lines: Seq<Seq<RunV>>)
    requires
        lines_ok(lines),
    ensures
        lines_ok(trim_empty_lines(lines)),
        trim_empty_lines(lines).len() >= 1 || lines.len() == 0,
    decreases lines.len(),
{
    if lines.len() > 1 && lines.last().len() == 0 {
        assert forall|j: int| 0 <= j < lines.drop_last().len() implies line_ok(
            #[trigger] lines.drop_last()[j],
        ) by {
            assert(lines.drop_last()[j] == lines[j]);
        }
        lemma_trim_empty_lines_ok(lines.drop_last());
    }
}

/// The logical lines of any body are well formed: there is at least one;
/// every run holds text and any font size it sets lies in `11..=18`; and
/// neighbouring runs of a line differ in style (runs of one style merge).
pub proof fn lemma_logical_lines_ok(html: Seq<char>)
    ensures
        logical_lines(html).len() >= 1,
        lines_ok(logical_lines(html)),
{
    assert(state_ok(init_state())) by {
        assert(line_ok(Seq::<RunV>::empty()));
    }
    lemma_scan_ok(html, 0, init_state());
    lemma_flush_ok(scan(html, 0, init_state()));
    lemma_trim_empty_lines_ok(flush(scan(html, 0, init_state())).lines);
}

/// The style of text outside any tag.
pub open spec fn plain_style() -> RunStyle {
    RunStyle { bold: false, color: None, size: None }
}

/// No character of `s` starts a tag or an entity or breaks a source line.
pub open spec fn is_plain(s: Seq<char>) -> bool {
    forall|k: int|
        0 <= k < s.len() ==> #[trigger] s[k] != '<' && s[k] != '&' && s[k] != '\n' && s[k] != '\r'
}

proof fn lemma_scan_plain(chars: Seq<char>, i: int, st: PState)
    requires
        0 <= i <= chars.len(),
        is_plain(chars),
    ensures
        scan(chars, i, st) == (PState { text: st.text + chars.skip(i), ..st }),
    decreases chars.len() - i,
{
    if i == chars.len() {
        assert(st.text + chars.skip(i) =~= st.text);
    } else {
        let c = chars[i];
        assert(c != '<' && c != '&' && c != '\n' && c != '\r');
        lemma_scan_plain(chars, i + 1, push_text(st, c));
        assert(st.text.push(c) + chars.skip(i + 1) =~= st.text + chars.skip(i));
    }
}

/// Text with no tag, entity or source line break is one unstyled run on
/// one line.
pub proof fn lemma_plain_text_is_one_run(html: Seq<char>)
    requires
        is_plain(html),
        html.len() > 0,
    ensures
        logical_lines(html) == seq![seq![(html, plain_style())]],
{
    lemma_scan_plain(html, 0, init_state());
    assert(html.skip(0) =~= html);
    let st = scan(html, 0, init_state());
    assert(st.text =~= html);
    assert(cur_style(st) == RunStyle { bold: false, color: None, size: None });
    assert(flush(st).lines =~= seq![seq![(html, RunStyle { bold: false, color: None, size: None })]]);
}
} // verus!
