//! The HTML subset of a notification body (bold, colour, font size, line
//! breaks, entities) and its layout.
//!
//! Pipeline: `parse` (tags and entities into styled logical lines), `wrap`
//! (estimated-width line breaking with the kinsoku rule and the line cap),
//! `markup` (one line of StyledText markup per physical line).
use vstd::prelude::*;

pub mod attr;
pub mod entity;
pub mod markup;
pub mod parse;
pub mod wrap;

use crate::html::attr::Rgb;
use crate::html::markup::{line_markup, push_run_markup};
use crate::html::parse::{
    lemma_logical_lines_ok, line_ok, logical_lines, run_ok, scan_lines, RunV,
};
use crate::html::wrap::{out_view, size_ok, wrap, wrap_lines, LineV};
use crate::text::{chars_of, string_of};

verus! {

/// Default body font size: the size of unstyled lines and the base of the
/// width estimate.
pub const BASE_FONT_SIZE: u16 = 14;

/// Style of a run of text: bold, colour and font size, each as set by tags.
#[derive(Debug, Clone, Copy, PartialEq, Eq, Structural)]
pub struct RunStyle {
    pub bold: bool,
    pub color: Option<Rgb>,
    pub size: Option<u16>,
}

/// Text with one style, as the layout stages hold it.
pub struct TextRun {
    pub text: Vec<char>,
    pub style: RunStyle,
}

impl View for TextRun {
    type V = (Seq<char>, RunStyle);

    open spec fn view(&self) -> (Seq<char>, RunStyle) {
        (self.text@, self.style)
    }
}

/// Abstract runs of a line.
pub open spec fn line_view(l: Seq<TextRun>) -> Seq<(Seq<char>, RunStyle)> {
    l.map_values(|r: TextRun| r@)
}

/// Abstract lines.
pub open spec fn lines_view(ls: Seq<Vec<TextRun>>) -> Seq<Seq<(Seq<char>, RunStyle)>> {
    ls.map_values(|l: Vec<TextRun>| line_view(l@))
}


/// A run of text with one style.
pub struct Run {
    pub text: String,
    pub style: RunStyle,
}

impl View for Run {
    type V = RunV;

    open spec fn view(&self) -> RunV {
        (self.text@, self.style)
    }
}

/// A logical line (before wrapping): its runs.
pub struct Line(pub Vec<Run>);

impl View for Line {
    type V = Seq<RunV>;

    open spec fn view(&self) -> Seq<RunV> {
        runs_view(self.0@)
    }
}

/// A physical line (after wrapping) with the font size in force on it.
pub struct LineOut {
    pub runs: Vec<Run>,
    pub size: Option<u16>,
}

impl View for LineOut {
    type V = LineV;

    open spec fn view(&self) -> LineV {
        (runs_view(self.runs@), self.size)
    }
}

/// A parsed body: its physical lines.
pub struct Parsed {
    pub lines: Vec<LineOut>,
}

impl View for Parsed {
    type V = Seq<LineV>;

    open spec fn view(&self) -> Seq<LineV> {
        self.lines@.map_values(|l: LineOut| l@)
    }
}

pub open spec fn runs_view(r: Seq<Run>) -> Seq<RunV> {
    r.map_values(|x: Run| x@)
}

fn runs_of(runs: &Vec<TextRun>) -> (r: Vec<Run>)
    ensures
        runs_view(r@) == line_view(runs@),
{
    let mut r: Vec<Run> = Vec::new();
    let mut k: usize = 0;
    while k < runs.len()
        invariant
            k <= runs@.len(),
            runs_view(r@) == line_view(runs@.take(k as int)),
        decreases runs.len() - k,
    {
        let ghost before = r@;
        let x = Run { text: string_of(&runs[k].text), style: runs[k].style };
        assert(x@ == runs@[k as int]@);
        r.push(x);
        assert(runs_view(r@) =~= runs_view(before).push(x@));
        assert(line_view(runs@.take(k + 1)) =~= line_view(runs@.take(k as int)).push(
            runs@[k as int]@,
        ));
        k += 1;
    }
    assert(runs@.take(runs.len() as int) =~= runs@);
    r
}

/// The logical lines of an HTML body, before wrapping.
pub fn parse_logical_lines(html: &str) -> (r: Vec<Line>)
    ensures
        r@.map_values(|l: Line| l@) == logical_lines(html@),
{
    let chars = chars_of(html);
    let lines = scan_lines(&chars);
    let mut r: Vec<Line> = Vec::new();
    let mut k: usize = 0;
    while k < lines.len()
        invariant
            k <= lines@.len(),
            r@.map_values(|l: Line| l@) == lines_view(lines@.take(k as int)),
        decreases lines.len() - k,
    {
        let ghost before = r@;
        let x = Line(runs_of(&lines[k]));
        r.push(x);
        assert(r@.map_values(|l: Line| l@) =~= before.map_values(|l: Line| l@).push(x@));
        assert(lines_view(lines@.take(k + 1)) =~= lines_view(lines@.take(k as int)).push(
            line_view(lines@[k as int]@),
        ));
        k += 1;
    }
    assert(lines@.take(lines.len() as int) =~= lines@);
    r
}

/// Parses the HTML subset of a body and wraps it into physical lines.
pub fn parse(html: &str) -> (r: Parsed)
    ensures
        r@ == wrap(logical_lines(html@)),
{
    let chars = chars_of(html);
    let lines = scan_lines(&chars);
    proof {
        lemma_logical_lines_ok(html@);
        let lv = logical_lines(html@);
        assert forall|j: int, k: int| 0 <= j < lv.len() && 0 <= k < lv[j].len() implies size_ok(
            #[trigger] lv[j][k].1.size,
        ) by {
            assert(line_ok(lv[j]));
            assert(run_ok(lv[j][k]));
        }
    }
    let wrapped = wrap_lines(&lines);
    let mut out: Vec<LineOut> = Vec::new();
    let mut k: usize = 0;
    while k < wrapped.len()
        invariant
            k <= wrapped@.len(),
            out@.map_values(|l: LineOut| l@) == out_view(wrapped@.take(k as int)),
        decreases wrapped.len() - k,
    {
        let ghost before = out@;
        let x = LineOut { runs: runs_of(&wrapped[k].runs), size: wrapped[k].size };
        assert(x@ == wrapped@[k as int]@);
        out.push(x);
        assert(out@.map_values(|l: LineOut| l@) =~= before.map_values(|l: LineOut| l@).push(x@));
        assert(out_view(wrapped@.take(k + 1)) =~= out_view(wrapped@.take(k as int)).push(
            wrapped@[k as int]@,
        ));
        k += 1;
    }
    assert(wrapped@.take(wrapped.len() as int) =~= wrapped@);
    Parsed { lines: out }
}

/// Markup of each physical line, with the line's font size: bold as
/// `**…**`, colour as `<font color>`; sizes stay out of the markup.
pub fn to_styled_lines(parsed: &Parsed) -> (r: Vec<(String, Option<u16>)>)
    ensures
        r@.len() == parsed@.len(),
        forall|i: int|
            0 <= i < r@.len() ==> (#[trigger] r@[i]).0@ == line_markup(parsed@[i].0) && r@[i].1
                == parsed@[i].1,
{
    let mut r: Vec<(String, Option<u16>)> = Vec::new();
    let mut k: usize = 0;
    while k < parsed.lines.len()
        invariant
            k <= parsed@.len(),
            r@.len() == k,
            forall|i: int|
                0 <= i < k ==> (#[trigger] r@[i]).0@ == line_markup(parsed@[i].0) && r@[i].1
                    == parsed@[i].1,
        decreases parsed.lines.len() - k,
    {
        let line = &parsed.lines[k];
        let mut out = String::new();
        let mut j: usize = 0;
        while j < line.runs.len()
            invariant
                j <= line.runs@.len(),
                out@ == line_markup(runs_view(line.runs@).take(j as int)),
            decreases line.runs.len() - j,
        {
            assert(runs_view(line.runs@).take(j + 1).drop_last() =~= runs_view(line.runs@).take(
                j as int,
            ));
            push_run_markup(&mut out, line.runs[j].text.as_str(), line.runs[j].style);
            j += 1;
        }
        assert(runs_view(line.runs@).take(line.runs.len() as int) =~= runs_view(line.runs@));
        r.push((out, line.size));
        k += 1;
    }
    r
}

/// Text of a line's runs, in order.
pub open spec fn line_text(runs: Seq<RunV>) -> Seq<char>
    decreases runs.len(),
{
    if runs.len() == 0 {
        Seq::empty()
    } else {
        line_text(runs.drop_last()) + runs.last().0
    }
}

/// Lines of text joined by `\n`.
pub open spec fn join_lines(ls: Seq<LineV>) -> Seq<char>
    decreases ls.len(),
{
    if ls.len() == 0 {
        Seq::empty()
    } else if ls.len() == 1 {
        line_text(ls[0].0)
    } else {
        join_lines(ls.drop_last()).push('\n') + line_text(ls.last().0)
    }
}

/// Plain text of a body (for the system notification): its physical lines
/// joined by `\n`.
pub fn to_plain_text(html: &str) -> (r: String)
    ensures
        r@ == join_lines(wrap(logical_lines(html@))),
{
    let parsed = parse(html);
    let mut out = String::new();
    let mut k: usize = 0;
    while k < parsed.lines.len()
        invariant
            k <= parsed@.len(),
            out@ == join_lines(parsed@.take(k as int)),
        decreases parsed.lines.len() - k,
    {
        let line = &parsed.lines[k];
        let ghost before = out@;
        if k > 0 {
            out.push('\n');
        }
        let mut j: usize = 0;
        while j < line.runs.len()
            invariant
                j <= line.runs@.len(),
                out@ == (if k > 0 {
                    before.push('\n')
                } else {
                    before
                }) + line_text(runs_view(line.runs@).take(j as int)),
            decreases line.runs.len() - j,
        {
            assert(runs_view(line.runs@).take(j + 1).drop_last() =~= runs_view(line.runs@).take(
                j as int,
            ));
            out.push_str(line.runs[j].text.as_str());
            j += 1;
        }
        assert(runs_view(line.runs@).take(line.runs.len() as int) =~= runs_view(line.runs@));
        assert(parsed@.take(k + 1).drop_last() =~= parsed@.take(k as int));
        if k == 0 {
            assert(parsed@.take(1).len() == 1);
            assert(before =~= Seq::<char>::empty());
        }
        k += 1;
    }
    assert(parsed@.take(parsed.lines.len() as int) =~= parsed@);
    out
}
} // verus!
