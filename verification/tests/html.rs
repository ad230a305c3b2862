use x_notify_service::html::markup::escape_markup;
use x_notify_service::html::parse::scan_lines;
use x_notify_service::html::wrap::{is_no_line_start, wrap_lines};
use x_notify_service::html::{parse, parse_logical_lines, to_plain_text, to_styled_lines, RunStyle};

/// 行首禁则:折行后任何一行的行首不能是标点
#[test]
fn html_kinsoku_no_punctuation_at_line_start() {
    // 24 个汉字恰好填满一行,逗号将被禁则处理:前一字符带到第二行行首
    let text = format!("{},后续内容继续排列显示", "一".repeat(24));
    let parsed = parse(&text);
    assert!(parsed.lines.len() >= 2, "应当折行");
    for line in &parsed.lines {
        if let Some(c) = line.runs.first().and_then(|r| r.text.chars().next()) {
            assert!(!is_no_line_start(c), "行首出现禁则标点: {c}");
        }
    }
}

/// 行首禁则:折行后任何一行的行首不能是标点
#[test]
fn wrap_kinsoku_no_punctuation_at_line_start() {
    // 24 个汉字恰好填满一行,逗号将被禁则处理:前一字符带到第二行行首
    let text = format!("{},后续内容继续排列显示", "一".repeat(24));
    let chars: Vec<char> = text.chars().collect();
    let wrapped = wrap_lines(&scan_lines(&chars));
    assert!(wrapped.len() >= 2, "应当折行");
    for line in &wrapped {
        if let Some(c) = line.runs.first().and_then(|r| r.text.first().copied()) {
            assert!(!is_no_line_start(c), "行首出现禁则标点: {c}");
        }
    }
}

#[test]
fn kinsoku_carries_previous_character_down() {
    let text = format!("{},后续", "一".repeat(24));
    let plain = to_plain_text(&text);
    assert_eq!(plain, format!("{}\n一,后续", "一".repeat(23)));
}

#[test]
fn plain_text_passes_through() {
    let parsed = parse("hello world");
    assert_eq!(parsed.lines.len(), 1);
    assert_eq!(parsed.lines[0].runs.len(), 1);
    assert_eq!(parsed.lines[0].runs[0].text, "hello world");
    assert_eq!(
        parsed.lines[0].runs[0].style,
        RunStyle { bold: false, color: None, size: None }
    );
    assert_eq!(parsed.lines[0].size, None);
}

#[test]
fn bold_color_size_and_breaks() {
    let parsed = parse("<font size=\"16\"><b>紧急</b></font><br>张三<font color=\"#d93025\">紧急</font>");
    assert_eq!(parsed.lines.len(), 2);
    assert_eq!(parsed.lines[0].size, Some(16));
    assert_eq!(parsed.lines[0].runs[0].text, "紧急");
    assert!(parsed.lines[0].runs[0].style.bold);
    assert_eq!(parsed.lines[1].size, None);
    assert_eq!(parsed.lines[1].runs.len(), 2);
    let c = parsed.lines[1].runs[1].style.color.unwrap();
    assert_eq!((c.0, c.1, c.2), (0xd9, 0x30, 0x25));
    let styled = to_styled_lines(&parsed);
    assert_eq!(styled[0], ("**紧急**".to_string(), Some(16)));
    assert_eq!(styled[1].0, "张三<font color=\"#d93025\">紧急</font>");
}

#[test]
fn entities_are_decoded() {
    assert_eq!(to_plain_text("a &amp; b &lt;&#65;&#x42;&gt; &nbsp;x &bogus; &"), "a & b <AB> \u{a0}x &bogus; &");
}

#[test]
fn unknown_tags_are_stripped_and_blocks_break() {
    assert_eq!(to_plain_text("<p>one</p><p>two <i>three</i></p>"), "one\ntwo three");
    assert_eq!(to_plain_text("<div></div><div>x</div>"), "x");
    assert_eq!(to_plain_text("a < b"), "a < b");
}

#[test]
fn markup_is_escaped() {
    let styled = to_styled_lines(&parse("1+1=2 *x* [y]"));
    assert_eq!(styled[0].0, "1\\+1=2 \\*x\\* \\[y\\]");
}

#[test]
fn too_many_lines_are_cut_with_ellipsis() {
    let plain = to_plain_text("a<br>b<br>c<br>d<br>e<br>f");
    assert_eq!(plain, "a\nb\nc\nd…");
    let parsed = parse("a<br>b<br>c<br>d<br>e<br>f");
    assert_eq!(parsed.lines.len(), 4);
    assert_eq!(parsed.lines[3].runs.last().unwrap().text, "…");
    // exactly four lines: nothing is cut, no ellipsis
    let plain = to_plain_text("1<br>2<br>3<br>4");
    assert_eq!(plain, "1\n2\n3\n4");
}

#[test]
fn strong_named_and_short_colors_and_css_size() {
    let parsed = parse("<strong>A</strong><font color='#0a0'>B</font><span style=\"font-size:12px\">C</span>");
    assert_eq!(parsed.lines.len(), 1);
    let runs = &parsed.lines[0].runs;
    assert_eq!(runs.len(), 3);
    assert!(runs[0].style.bold);
    let c = runs[1].style.color.unwrap();
    assert_eq!((c.0, c.1, c.2), (0x00, 0xaa, 0x00));
    assert_eq!(runs[2].style.size, Some(12));
    assert_eq!(parsed.lines[0].size, Some(12));
    let red = parse("<font color=red>r</font>");
    let c = red.lines[0].runs[0].style.color.unwrap();
    assert_eq!((c.0, c.1, c.2), (0xd9, 0x30, 0x25));
    // sizes outside 11..=18 are ignored
    assert_eq!(parse("<font size=30>x</font>").lines[0].size, None);
}

#[test]
fn span_style_color_stops_at_the_quote() {
    let p = parse("<span style=\"color:red\">x</span>");
    assert_eq!(p.lines.len(), 1);
    assert_eq!(p.lines[0].runs.len(), 1);
    assert_eq!(p.lines[0].runs[0].text, "x");
    let st = p.lines[0].runs[0].style;
    let c = st.color.unwrap();
    assert_eq!((c.0, c.1, c.2), (0xd9, 0x30, 0x25));
    assert!(!st.bold);
    assert_eq!(st.size, None);
    // a colour and a size in one style attribute
    let p = parse("<span style=\"font-size:16px;color:#0000ff\">y</span>");
    let st = p.lines[0].runs[0].style;
    let c = st.color.unwrap();
    assert_eq!((c.0, c.1, c.2), (0, 0, 0xff));
    assert_eq!(st.size, Some(16));
}

#[test]
fn kinsoku_carries_across_runs() {
    let p = parse(&format!("<b>{}</b>,x", "一".repeat(24)));
    assert_eq!(p.lines.len(), 2);
    assert_eq!(p.lines[0].runs.len(), 1);
    assert_eq!(p.lines[0].runs[0].text, "一".repeat(23));
    assert!(p.lines[0].runs[0].style.bold);
    assert_eq!(p.lines[1].runs.len(), 2);
    assert_eq!(p.lines[1].runs[0].text, "一");
    assert!(p.lines[1].runs[0].style.bold);
    assert_eq!(p.lines[1].runs[1].text, ",x");
    assert!(!p.lines[1].runs[1].style.bold);
}

#[test]
fn heading_tags_start_lines() {
    let ls = parse_logical_lines("a<h1>b</h1>");
    assert_eq!(ls.len(), 2);
    assert_eq!(ls[0].0.len(), 1);
    assert_eq!(ls[0].0[0].text, "a");
    assert_eq!(ls[1].0[0].text, "b");
    assert_eq!(to_plain_text("x<h6>y"), "x\ny");
    // `<` before a digit is text, not a tag
    assert_eq!(to_plain_text("a <3 b"), "a <3 b");
}

#[test]
fn escaped_markup_reads_back() {
    let s = "a\\b*c<d>e`f_g~h[i]j#k+l-m.n 中";
    let e = escape_markup(s);
    let mut back = String::new();
    let mut it = e.chars();
    while let Some(c) = it.next() {
        if c == '\\' {
            back.push(it.next().unwrap());
        } else {
            back.push(c);
        }
    }
    assert_eq!(back, s);
    assert_eq!(escape_markup("x.y"), "x\\.y");
}

#[test]
fn short_and_long_hex_colours_agree() {
    let short = parse("<font color=\"#1a2\">x</font>").lines[0].runs[0].style.color.unwrap();
    let long = parse("<font color=\"#11aa22\">x</font>").lines[0].runs[0].style.color.unwrap();
    assert_eq!((short.0, short.1, short.2), (long.0, long.1, long.2));
    assert_eq!((short.0, short.1, short.2), (0x11, 0xaa, 0x22));
    assert!(parse("<font color=\"#12\">x</font>").lines[0].runs[0].style.color.is_none());
    assert!(parse("<font color=\"teal\">x</font>").lines[0].runs[0].style.color.is_none());
    assert!(parse("<font color=\" GREY; \">x</font>").lines[0].runs[0].style.color.is_some());
}

#[test]
fn width_breaks_fill_lines_to_capacity() {
    let p = parse(&"一".repeat(50));
    assert_eq!(p.lines.len(), 3);
    assert_eq!(p.lines[0].runs[0].text.chars().count(), 24);
    assert_eq!(p.lines[1].runs[0].text.chars().count(), 24);
    assert_eq!(p.lines[2].runs[0].text.chars().count(), 2);
    // a larger font holds fewer characters per line: 24 * 14 / 16 = 21
    let p = parse(&format!("<font size=\"16\">{}</font>", "一".repeat(30)));
    assert_eq!(p.lines[0].runs[0].text.chars().count(), 21);
}
