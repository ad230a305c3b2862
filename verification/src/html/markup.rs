//! One line of Slint `StyledText` markdown per physical line: bold as
//! `**…**`, colour as `<font color="#rrggbb">`. Font size is not markup
//! (StyledText has no inline size); the caller sets it per line.
use vstd::prelude::*;

use crate::html::attr::Rgb;
use crate::html::parse::RunV;
use crate::html::RunStyle;
use crate::text::{hex2, push_hex2};

verus! {

/// Characters that markdown or HTML would read as markup.
pub open spec fn is_markup_char(c: char) -> bool {
    c == '\\' || c == '*' || c == '<' || c == '>' || c == '`' || c == '_' || c == '~' || c == '['
        || c == ']' || c == '#' || c == '+' || c == '-' || c == '.'
}

/// Text with a backslash before each markup character.
pub open spec fn escape(s: Seq<char>) -> Seq<char>
    decreases s.len(),
{
    if s.len() == 0 {
        Seq::empty()
    } else if is_markup_char(s.last()) {
        escape(s.drop_last()) + seq!['\\', s.last()]
    } else {
        escape(s.drop_last()).push(s.last())
    }
}

/// Text read back from its escaped form: each backslash is dropped and the
/// character after it kept as it is.
pub open spec fn unescape(s: Seq<char>) -> Seq<char>
    decreases s.len(),
{
    if s.len() >= 2 && s[0] == '\\' {
        seq![s[1]] + unescape(s.skip(2))
    } else if s.len() > 0 {
        seq![s[0]] + unescape(s.skip(1))
    } else {
        Seq::empty()
    }
}

/// Every markup character stands escaped: read from the start, text is a
/// sequence of plain characters and pairs of a backslash and a markup
/// character.
pub open spec fn well_escaped(s: Seq<char>) -> bool
    decreases s.len(),
{
    if s.len() == 0 {
        true
    } else if is_markup_char(s[0]) {
        s[0] == '\\' && s.len() >= 2 && is_markup_char(s[1]) && well_escaped(s.skip(2))
    } else {
        well_escaped(s.skip(1))
    }
}

proof fn lemma_well_escaped_concat(a: Seq<char>, b: Seq<char>)
    requires
        well_escaped(a),
        well_escaped(b),
    ensures
        well_escaped(a + b),
        unescape(a + b) == unescape(a) + unescape(b),
    decreases a.len(),
{
    if a.len() == 0 {
        assert(a + b =~= b);
        assert(unescape(a) + unescape(b) =~= unescape(b));
    } else if is_markup_char(a[0]) {
        assert((a + b).skip(2) =~= a.skip(2) + b);
        lemma_well_escaped_concat(a.skip(2), b);
        assert((a + b)[0] == a[0] && (a + b)[1] == a[1]);
        assert(seq![a[1]] + unescape(a.skip(2)) + unescape(b) =~= seq![a[1]] + (unescape(
            a.skip(2),
        ) + unescape(b)));
    } else {
        assert((a + b).skip(1) =~= a.skip(1) + b);
        lemma_well_escaped_concat(a.skip(1), b);
        assert((a + b)[0] == a[0]);
        assert(seq![a[0]] + unescape(a.skip(1)) + unescape(b) =~= seq![a[0]] + (unescape(
            a.skip(1),
        ) + unescape(b)));
    }
}

/// Escaping leaves no markup character unescaped, and dropping each
/// escaping backslash gives the text back.
pub proof fn lemma_escape_round_trip(s: Seq<char>)
    ensures
        well_escaped(escape(s)),
        unescape(escape(s)) == s,
    decreases s.len(),
{
    if s.len() > 0 {
        let c = s.last();
        lemma_escape_round_trip(s.drop_last());
        let piece = if is_markup_char(c) {
            seq!['\\', c]
        } else {
            seq![c]
        };
        if is_markup_char(c) {
            assert(piece.skip(2) =~= Seq::<char>::empty());
            assert(well_escaped(piece.skip(2)));
            assert(unescape(piece.skip(2)) =~= Seq::<char>::empty());
            assert(piece[0] == '\\' && piece[1] == c);
            assert(escape(s) == escape(s.drop_last()) + piece);
        } else {
            assert(piece.skip(1) =~= Seq::<char>::empty());
            assert(well_escaped(piece.skip(1)));
            assert(unescape(piece.skip(1)) =~= Seq::<char>::empty());
            assert(piece[0] == c);
            assert(escape(s) =~= escape(s.drop_last()) + piece);
        }
        assert(well_escaped(piece));
        assert(unescape(piece) =~= seq![c]);
        lemma_well_escaped_concat(escape(s.drop_last()), piece);
        assert(s.drop_last() + seq![c] =~= s);
    }
}

/// `#rrggbb` in lower-case hexadecimal.
pub open spec fn hex_color(c: Rgb) -> Seq<char> {
    seq!['#'] + hex2(c.0) + hex2(c.1) + hex2(c.2)
}

impl Rgb {
    /// `#rrggbb` in lower-case hexadecimal.
    pub fn hex(&self) -> (r: String)
        ensures
            r@ == hex_color(*self),
    {
        let mut s = String::new();
        s.push('#');
        push_hex2(&mut s, self.0);
        push_hex2(&mut s, self.1);
        push_hex2(&mut s, self.2);
        assert(s@ =~= hex_color(*self));
        s
    }
}

/// Markup of one run: nothing when its escaped text is empty; else the
/// escaped text, in `**` when bold, in a `<font>` tag when coloured.
pub open spec fn run_markup(text: Seq<char>, style: RunStyle) -> Seq<char> {
    let t = escape(text);
    if t.len() == 0 {
        Seq::empty()
    } else {
        let body = if style.bold {
            "**"@ + t + "**"@
        } else {
            t
        };
        match style.color {
            Some(c) => "<font color=\""@ + hex_color(c) + "\">"@ + body + "</font>"@,
            None => body,
        }
    }
}

/// Whether `part` occurs in `whole`.
pub open spec fn contains_text(whole: Seq<char>, part: Seq<char>) -> bool {
    exists|i: int| 0 <= i && i + part.len() <= whole.len() && #[trigger] whole.subrange(i, i + part.len()) == part
}

/// A bold run's markup holds its escaped text between `**`, whatever its
/// colour; a coloured run's markup opens with the colour's `<font>` tag and
/// ends by closing it; a plain run's markup is its escaped text.
pub proof fn lemma_run_markup_styles(text: Seq<char>, style: RunStyle)
    requires
        escape(text).len() > 0,
    ensures
        style.bold ==> contains_text(run_markup(text, style), "**"@ + escape(text) + "**"@),
        style.color matches Some(c) ==> run_markup(text, style).take(
            ("<font color=\""@ + hex_color(c) + "\">"@).len() as int,
        ) == "<font color=\""@ + hex_color(c) + "\">"@ && run_markup(text, style).skip(
            run_markup(text, style).len() - "</font>"@.len(),
        ) == "</font>"@,
        !style.bold && style.color is None ==> run_markup(text, style) == escape(text),
{
    let t = escape(text);
    let m = run_markup(text, style);
    let bold = "**"@ + t + "**"@;
    let body = if style.bold {
        bold
    } else {
        t
    };
    match style.color {
        Some(c) => {
            let open = "<font color=\""@ + hex_color(c) + "\">"@;
            let close = "</font>"@;
            assert(m == open + body + close);
            assert(m.take(open.len() as int) =~= open);
            assert(m.skip(m.len() - close.len()) =~= close);
            if style.bold {
                let i: int = open.len() as int;
                assert(m.subrange(i, i + bold.len()) =~= bold);
                assert(contains_text(m, bold));
            }
        },
        None => {
            if style.bold {
                let i: int = 0;
                assert(m.subrange(i, i + bold.len()) =~= bold);
                assert(contains_text(m, bold));
            }
        },
    }
}

/// Markup of a line: the markup of its runs, in order.
pub open spec fn line_markup(runs: Seq<RunV>) -> Seq<char>
    decreases runs.len(),
{
    if runs.len() == 0 {
        Seq::empty()
    } else {
        line_markup(runs.drop_last()) + run_markup(runs.last().0, runs.last().1)
    }
}

/// Backslash-escapes markup characters so that body text stays text.
pub fn escape_markup(s: &str) -> (r: String)
    ensures
        r@ == escape(s@),
{
    let mut out = String::new();
    let mut i: usize = 0;
    let chars = crate::text::chars_of(s);
    while i < chars.len()
        invariant
            chars@ == s@,
            i <= chars@.len(),
            out@ == escape(chars@.take(i as int)),
        decreases chars.len() - i,
    {
        let ch = chars[i];
        assert(chars@.take(i + 1).drop_last() =~= chars@.take(i as int));
        if ch == '\\' || ch == '*' || ch == '<' || ch == '>' || ch == '`' || ch == '_' || ch == '~'
            || ch == '[' || ch == ']' || ch == '#' || ch == '+' || ch == '-' || ch == '.' {
            let ghost before = out@;
            out.push('\\');
            out.push(ch);
            assert(out@ =~= before + seq!['\\', ch]);
        } else {
            out.push(ch);
        }
        i += 1;
    }
    assert(chars@.take(chars.len() as int) =~= chars@);
    out
}

/// Appends the markup of one run.
pub fn push_run_markup(out: &mut String, text: &str, style: RunStyle)
    ensures
        final(out)@ == old(out)@ + run_markup(text@, style),
{
    let t = escape_markup(text);
    if t.as_str().is_empty() {
        assert(final(out)@ =~= old(out)@ + run_markup(text@, style)) by {
            assert(out@ =~= old(out)@ + run_markup(text@, style));
        }
        return;
    }
    let ghost before = out@;
    match style.color {
        Some(rgb) => {
            out.push_str("<font color=\"");
            out.push_str(&rgb.hex());
            out.push_str("\">");
        },
        None => {},
    }
    if style.bold {
        out.push_str("**");
        out.push_str(&t);
        out.push_str("**");
    } else {
        out.push_str(&t);
    }
    if style.color.is_some() {
        out.push_str("</font>");
    }
    assert(out@ =~= before + run_markup(text@, style));
}

} // verus!
